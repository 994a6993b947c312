use crate::board::Fences;
use crate::grid::Grid;
use crate::items::{clue_char, U2};
use vstd::prelude::*;

verus! {

/// The glyph of an edge: a line along its direction when it is a loop edge,
/// a cross when ruled out, blank when undecided.
pub open spec fn edge_glyph(v: Option<bool>, dir: int) -> char {
    match v {
        Some(true) => if dir == 1 {
            '│'
        } else {
            '─'
        },
        Some(false) => '×',
        None => ' ',
    }
}

/// The glyph of a dot from which loop edges leave to the right, down, left
/// and up.
pub open spec fn dot_glyph(right: bool, down: bool, left: bool, up: bool) -> char {
    if right && down && left && up {
        '┼'
    } else if right && down && !left && !up {
        '┌'
    } else if !right && down && left && !up {
        '┐'
    } else if !right && !down && left && up {
        '┘'
    } else if right && !down && !left && up {
        '└'
    } else if !right && down && left && up {
        '┤'
    } else if right && !down && left && up {
        '┴'
    } else if right && down && !left && up {
        '├'
    } else if right && down && left && !up {
        '┬'
    } else if right && !down && left && !up {
        '─'
    } else if !right && down && !left && up {
        '│'
    } else {
        '∙'
    }
}

/// Whether the edge of direction `dir` at `(r, c)` is a loop edge.
pub open spec fn on(f: Fences, dir: int, r: int, c: int) -> bool {
    f.at(dir, r, c) == Some(true)
}

/// The glyph of dot `(r, c)` of a `rows` by `cols` board.
pub open spec fn dot_at(f: Fences, rows: int, cols: int, r: int, c: int) -> char {
    dot_glyph(
        c < cols && on(f, 0, r, c),
        r < rows && on(f, 1, r, c),
        c > 0 && on(f, 0, r, c - 1),
        r > 0 && on(f, 1, r - 1, c),
    )
}

/// Dots and horizontal edges of dot row `r`, first `n` columns.
pub open spec fn dots_row(f: Fences, rows: int, cols: int, r: int, n: int) -> Seq<char>
    decreases n,
{
    if n <= 0 {
        seq![]
    } else {
        dots_row(f, rows, cols, r, n - 1) + seq![dot_at(f, rows, cols, r, n - 1), edge_glyph(f.at(0, r, n - 1), 0)]
    }
}

/// Vertical edges and clues of cell row `r`, first `n` columns.
pub open spec fn cells_row(f: Fences, task: Grid<U2>, r: int, n: int) -> Seq<char>
    decreases n,
{
    if n <= 0 {
        seq![]
    } else {
        cells_row(f, task, r, n - 1) + seq![edge_glyph(f.at(1, r, n - 1), 1), clue_char(task.at(r, n - 1).0)]
    }
}

/// The first `n` rows of the drawing, two lines per cell row.
pub open spec fn rows_text(f: Fences, task: Grid<U2>, n: int) -> Seq<char>
    decreases n,
{
    let rows = task.rows as int;
    let cols = task.cols as int;
    if n <= 0 {
        seq![]
    } else {
        rows_text(f, task, n - 1) + dots_row(f, rows, cols, n - 1, cols) + seq![
            dot_at(f, rows, cols, n - 1, cols),
            '\n',
        ] + cells_row(f, task, n - 1, cols) + seq![edge_glyph(f.at(1, n - 1, cols), 1), '\n']
    }
}

/// The whole drawing: every cell row, then the bottom dot row.
pub open spec fn board_text(f: Fences, task: Grid<U2>) -> Seq<char> {
    let rows = task.rows as int;
    let cols = task.cols as int;
    rows_text(f, task, rows) + dots_row(f, rows, cols, rows, cols) + seq![dot_at(f, rows, cols, rows, cols)]
}

fn is_on(f: &Fences, dir: usize, r: usize, c: usize) -> (b: bool)
    requires
        f.h.wf(),
        f.v.wf(),
        f.in_dir(dir as int, r as int, c as int),
    ensures
        b == on(*f, dir as int, r as int, c as int),
{
    if dir == 0 {
        f.h.get(r, c).0 == Some(true)
    } else {
        f.v.get(r, c).0 == Some(true)
    }
}

fn edge_char(v: Option<bool>, dir: usize) -> (c: char)
    ensures
        c == edge_glyph(v, dir as int),
{
    match v {
        Some(true) => if dir == 1 {
            '│'
        } else {
            '─'
        },
        Some(false) => '×',
        None => ' ',
    }
}

fn dot_char(f: &Fences, rows: usize, cols: usize, r: usize, c: usize) -> (ch: char)
    requires
        f.wf_for(rows as int, cols as int),
        r <= rows,
        c <= cols,
    ensures
        ch == dot_at(*f, rows as int, cols as int, r as int, c as int),
{
    let right = c < cols && is_on(f, 0, r, c);
    let down = r < rows && is_on(f, 1, r, c);
    let left = c > 0 && is_on(f, 0, r, c - 1);
    let up = r > 0 && is_on(f, 1, r - 1, c);
    if right && down && left && up {
        '┼'
    } else if right && down && !left && !up {
        '┌'
    } else if !right && down && left && !up {
        '┐'
    } else if !right && !down && left && up {
        '┘'
    } else if right && !down && !left && up {
        '└'
    } else if !right && down && left && up {
        '┤'
    } else if right && !down && left && up {
        '┴'
    } else if right && down && !left && up {
        '├'
    } else if right && down && left && !up {
        '┬'
    } else if right && !down && left && !up {
        '─'
    } else if !right && down && !left && up {
        '│'
    } else {
        '∙'
    }
}

/// Appends dot row `r`: dots and horizontal edges.
fn push_dots_row(s: &mut String, f: &Fences, rows: usize, cols: usize, r: usize)
    requires
        f.wf_for(rows as int, cols as int),
        r <= rows,
    ensures
        final(s)@ == old(s)@ + dots_row(*f, rows as int, cols as int, r as int, cols as int),
{
    let ghost start = s@;
    let mut c: usize = 0;
    while c < cols
        invariant
            f.wf_for(rows as int, cols as int),
            r <= rows,
            c <= cols,
            s@ == start + dots_row(*f, rows as int, cols as int, r as int, c as int),
        decreases cols - c,
    {
        s.push(dot_char(f, rows, cols, r, c));
        s.push(edge_char(f.h.get(r, c).0, 0));
        c = c + 1;
        assert(s@ =~= start + dots_row(*f, rows as int, cols as int, r as int, c as int));
    }
}

/// Appends cell row `r`: vertical edges and clues.
fn push_cells_row(s: &mut String, f: &Fences, task: &Grid<U2>, r: usize)
    requires
        task.wf(),
        f.wf_for(task.rows as int, task.cols as int),
        r < task.rows,
    ensures
        final(s)@ == old(s)@ + cells_row(*f, *task, r as int, task.cols as int),
{
    let ghost start = s@;
    let mut c: usize = 0;
    while c < task.cols
        invariant
            task.wf(),
            f.wf_for(task.rows as int, task.cols as int),
            r < task.rows,
            c <= task.cols,
            s@ == start + cells_row(*f, *task, r as int, c as int),
        decreases task.cols - c,
    {
        s.push(edge_char(f.v.get(r, c).0, 1));
        s.push(task.get(r, c).to_char());
        c = c + 1;
        assert(s@ =~= start + cells_row(*f, *task, r as int, c as int));
    }
}

/// The board drawn as text with box-drawing glyphs: for each cell row a
/// line of dots and horizontal edges, then a line of vertical edges and
/// clues, and finally the bottom line of dots.
pub fn print_board(task: &Grid<U2>, fences: &Fences) -> (s: String)
    requires
        task.wf(),
        fences.wf_for(task.rows as int, task.cols as int),
    ensures
        s@ == board_text(*fences, *task),
{
    let rows = task.rows;
    let cols = task.cols;
    let mut s = String::new();
    let mut r: usize = 0;
    while r < rows
        invariant
            task.wf(),
            fences.wf_for(task.rows as int, task.cols as int),
            rows == task.rows,
            cols == task.cols,
            r <= rows,
            s@ == rows_text(*fences, *task, r as int),
        decreases rows - r,
    {
        let ghost before = s@;
        push_dots_row(&mut s, fences, rows, cols, r);
        s.push(dot_char(fences, rows, cols, r, cols));
        s.push('\n');
        push_cells_row(&mut s, fences, task, r);
        s.push(edge_char(fences.v.get(r, cols).0, 1));
        s.push('\n');
        r = r + 1;
        assert(s@ =~= rows_text(*fences, *task, r as int));
    }
    push_dots_row(&mut s, fences, rows, cols, rows);
    s.push(dot_char(fences, rows, cols, rows, cols));
    s
}

} // verus!
