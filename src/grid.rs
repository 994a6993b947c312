use crate::items::{clue_char, clue_of_char, U2};
use crate::rules::kept;
use crate::text::{chars_of, find_char};
use vstd::prelude::*;

verus! {

/// A dense row-major matrix of `rows` by `cols` cells.
#[derive(Debug)]
pub struct Grid<T> {
    pub data: Vec<T>,
    pub rows: usize,
    pub cols: usize,
}

/// Flat offsets of in-bounds cells lie inside the data and are distinct.
pub proof fn lemma_offset(rows: int, cols: int, r: int, c: int)
    requires
        0 <= r < rows,
        0 <= c < cols,
    ensures
        0 <= r * cols + c < rows * cols,
{
    lemma_row_end(rows, cols, r);
}

/// Row `r` of a `rows` by `cols` grid ends inside the data.
pub proof fn lemma_row_end(rows: int, cols: int, r: int)
    requires
        0 <= r < rows,
        0 <= cols,
    ensures
        0 <= r * cols,
        r * cols + cols <= rows * cols,
{
    assert(0 <= r * cols && r * cols + cols <= rows * cols) by (nonlinear_arith)
        requires
            0 <= r < rows,
            0 <= cols,
    ;
}

/// Two distinct in-bounds cells never share a flat offset.
pub proof fn lemma_offset_injective(cols: int, r1: int, c1: int, r2: int, c2: int)
    requires
        0 <= r1,
        0 <= r2,
        0 <= c1 < cols,
        0 <= c2 < cols,
        r1 * cols + c1 == r2 * cols + c2,
    ensures
        r1 == r2,
        c1 == c2,
{
    if r1 < r2 {
        assert(r1 * cols + cols <= r2 * cols) by (nonlinear_arith)
            requires
                r1 < r2,
                0 <= cols,
        ;
    } else if r2 < r1 {
        assert(r2 * cols + cols <= r1 * cols) by (nonlinear_arith)
            requires
                r2 < r1,
                0 <= cols,
        ;
    }
}

/// A flat offset of a well-formed grid is the offset of an in-bounds cell.
pub proof fn lemma_cell_of_offset<T>(g: Grid<T>, k: int) -> (rc: (int, int))
    requires
        g.wf(),
        0 <= k < g.data.len(),
    ensures
        g.in_bounds(rc.0, rc.1),
        k == rc.0 * g.cols + rc.1,
{
    let cols = g.cols as int;
    if cols == 0 {
        assert(g.rows * g.cols == 0) by (nonlinear_arith)
            requires
                cols == 0,
                cols == g.cols,
        ;
    }
    vstd::arithmetic::div_mod::lemma_fundamental_div_mod(k, cols);
    let r = k / cols;
    let c = k % cols;
    assert(k == r * cols + c) by (nonlinear_arith)
        requires
            k == cols * (k / cols) + k % cols,
            r == k / cols,
            c == k % cols,
    ;
    assert(0 <= r) by (nonlinear_arith)
        requires
            k >= 0,
            k == r * cols + c,
            0 <= c < cols,
    ;
    assert(r < g.rows) by (nonlinear_arith)
        requires
            k < g.rows * cols,
            k == r * cols + c,
            0 <= c < cols,
    ;
    (r, c)
}

/// Two well-formed grids of one shape that agree on every cell hold the same data.
pub proof fn lemma_same_cells<T>(a: Grid<T>, b: Grid<T>)
    requires
        a.wf(),
        b.wf(),
        a.rows == b.rows,
        a.cols == b.cols,
        forall|r: int, c: int| #[trigger] a.in_bounds(r, c) ==> a.at(r, c) == b.at(r, c),
    ensures
        a.data@ == b.data@,
{
    assert forall|i: int| 0 <= i < a.data.len() implies a.data@[i] == b.data@[i] by {
        let cols = a.cols as int;
        if cols == 0 {
            assert(a.rows * a.cols == 0) by (nonlinear_arith)
                requires
                    cols == 0,
                    cols == a.cols,
            ;
        }
        vstd::arithmetic::div_mod::lemma_fundamental_div_mod(i, cols);
        let r = i / cols;
        let c = i % cols;
        assert(i == r * cols + c) by (nonlinear_arith)
            requires
                i == cols * (i / cols) + i % cols,
                r == i / cols,
                c == i % cols,
        ;
        assert(0 <= r) by (nonlinear_arith)
            requires
                i >= 0,
                i == r * cols + c,
                0 <= c < cols,
        ;
        assert(r < a.rows) by (nonlinear_arith)
            requires
                i < a.rows * cols,
                i == r * cols + c,
                0 <= c < cols,
        ;
        assert(a.in_bounds(r, c));
    }
    assert(a.data@ =~= b.data@);
}

/// How much of a run of `len` cells from `start` lies below `bound`.
pub open spec fn clip(start: int, len: int, bound: int) -> int {
    if start >= bound {
        0
    } else if len <= bound - start {
        len
    } else {
        bound - start
    }
}

impl<T> Grid<T> {
    /// The stored cells match the stated shape.
    pub open spec fn wf(&self) -> bool {
        self.data.len() == self.rows * self.cols
    }

    pub open spec fn in_bounds(&self, r: int, c: int) -> bool {
        0 <= r < self.rows && 0 <= c < self.cols
    }

    /// The cell at row `r`, column `c`.
    pub open spec fn at(&self, r: int, c: int) -> T {
        self.data@[r * self.cols + c]
    }

    /// Two grids of one shape that agree on every cell.
    pub open spec fn same_cells(&self, o: &Grid<T>) -> bool {
        &&& self.rows == o.rows
        &&& self.cols == o.cols
        &&& forall|r: int, c: int| #[trigger] self.in_bounds(r, c) ==> self.at(r, c) == o.at(r, c)
    }

    /// Number of columns.
    pub fn width(&self) -> (r: usize)
        ensures
            r == self.cols,
    {
        self.cols
    }

    /// Number of rows.
    pub fn height(&self) -> (r: usize)
        ensures
            r == self.rows,
    {
        self.rows
    }

    /// The shape as `(rows, cols)`.
    pub fn size(&self) -> (r: (usize, usize))
        ensures
            r == (self.rows, self.cols),
    {
        (self.rows, self.cols)
    }
}

impl<T: Copy> Grid<T> {
    /// A grid of the given shape with every cell set to `v`.
    pub fn filled(rows: usize, cols: usize, v: T) -> (g: Grid<T>)
        requires
            rows * cols <= usize::MAX,
        ensures
            g.wf(),
            g.rows == rows,
            g.cols == cols,
            forall|r: int, c: int| #[trigger] g.in_bounds(r, c) ==> g.at(r, c) == v,
    {
        let n: usize = rows * cols;
        let mut data: Vec<T> = Vec::new();
        let mut i: usize = 0;
        while i < n
            invariant
                i <= n,
                n == rows * cols,
                data.len() == i,
                forall|k: int| 0 <= k < i ==> data@[k] == v,
            decreases n - i,
        {
            data.push(v);
            i = i + 1;
        }
        let g = Grid { data, rows, cols };
        assert forall|r: int, c: int| #[trigger] g.in_bounds(r, c) implies g.at(r, c) == v by {
            lemma_offset(rows as int, cols as int, r, c);
        }
        g
    }

    /// A grid of the given shape with every cell set to `T::default()`.
    pub fn new(rows: usize, cols: usize) -> (g: Grid<T>)
        where
            T: Default,
        requires
            rows * cols <= usize::MAX,
        ensures
            g.wf(),
            g.rows == rows,
            g.cols == cols,
            forall|r: int, c: int| #[trigger] g.in_bounds(r, c) ==> g.at(r, c) == g.data@[0],
    {
        let g = Grid::filled(rows, cols, T::default());
        proof {
            if rows > 0 && cols > 0 {
                lemma_offset(rows as int, cols as int, 0, 0);
                assert(g.in_bounds(0, 0));
                assert(g.at(0, 0) == g.data@[0]);
            }
        }
        g
    }

    /// Builds a grid from row-major cells; `None` when the cell count is not
    /// `rows * cols`.
    pub fn from_vec(data: Vec<T>, rows: usize, cols: usize) -> (g: Option<Grid<T>>)
        ensures
            g is Some <==> data.len() == rows * cols,
            g matches Some(g) ==> g.wf() && g.rows == rows && g.cols == cols && g.data@ == data@,
    {
        if cols == 0 {
            if data.len() == 0 {
                return Some(Grid { data, rows, cols });
            }
            return None;
        }
        if data.len() / cols == rows && data.len() % cols == 0 {
            proof {
                let n = data.len() as int;
                let d = cols as int;
                vstd::arithmetic::div_mod::lemma_fundamental_div_mod(n, d);
                assert(n == d * (n / d) + n % d);
                assert(n == rows * cols) by (nonlinear_arith)
                    requires
                        n == d * (n / d) + n % d,
                        n / d == rows,
                        n % d == 0,
                        d == cols,
                ;
            }
            Some(Grid { data, rows, cols })
        } else {
            proof {
                if data.len() == rows * cols {
                    vstd::arithmetic::div_mod::lemma_fundamental_div_mod_converse(
                        data.len() as int,
                        cols as int,
                        rows as int,
                        0,
                    );
                }
            }
            None
        }
    }

    /// The cell at `(r, c)`.
    pub fn get(&self, r: usize, c: usize) -> (v: T)
        requires
            self.wf(),
            self.in_bounds(r as int, c as int),
        ensures
            v == self.at(r as int, c as int),
    {
        proof {
            lemma_offset(self.rows as int, self.cols as int, r as int, c as int);
        }
        self.data[r * self.cols + c]
    }

    /// Overwrites the cell at `(r, c)`, leaving every other cell alone.
    pub fn set(&mut self, r: usize, c: usize, v: T)
        requires
            old(self).wf(),
            old(self).in_bounds(r as int, c as int),
        ensures
            final(self).wf(),
            final(self).rows == old(self).rows,
            final(self).cols == old(self).cols,
            final(self).data@ == old(self).data@.update(r * old(self).cols + c, v),
            final(self).at(r as int, c as int) == v,
            forall|r2: int, c2: int|
                #[trigger] old(self).in_bounds(r2, c2) && (r2 != r || c2 != c) ==> final(self).at(
                    r2,
                    c2,
                ) == old(self).at(r2, c2),
    {
        proof {
            lemma_offset(self.rows as int, self.cols as int, r as int, c as int);
        }
        let i = r * self.cols + c;
        self.data.set(i, v);
        proof {
            assert forall|r2: int, c2: int|
                #[trigger] old(self).in_bounds(r2, c2) && (r2 != r || c2 != c) implies self.at(
                r2,
                c2,
            ) == old(self).at(r2, c2) by {
                lemma_offset(self.rows as int, self.cols as int, r2, c2);
                if r2 * self.cols + c2 == i {
                    lemma_offset_injective(self.cols as int, r2, c2, r as int, c as int);
                }
            }
        }
    }

    /// The grid turned a quarter turn clockwise: cell `(r, c)` moves to
    /// `(c, rows - 1 - r)`.
    pub fn rotate(&self) -> (g: Grid<T>)
        requires
            self.wf(),
        ensures
            g.wf(),
            g.rows == self.cols,
            g.cols == self.rows,
            forall|c: int, k: int| #[trigger]
                g.in_bounds(c, k) ==> g.at(c, k) == self.at(self.rows - 1 - k, c),
    {
        let rows = self.rows;
        let cols = self.cols;
        let mut data: Vec<T> = Vec::new();
        let mut c: usize = 0;
        while c < cols
            invariant
                self.wf(),
                rows == self.rows,
                cols == self.cols,
                c <= cols,
                data.len() == c * rows,
                forall|c2: int, k2: int|
                    0 <= c2 < c && 0 <= k2 < rows ==> #[trigger] data@[c2 * rows + k2] == self.at(
                        rows - 1 - k2,
                        c2,
                    ),
            decreases cols - c,
        {
            let mut k: usize = 0;
            proof {
                lemma_row_end(cols as int, rows as int, c as int);
            }
            while k < rows
                invariant
                    self.wf(),
                    rows == self.rows,
                    cols == self.cols,
                    c < cols,
                    k <= rows,
                    data.len() == c * rows + k,
                    c * rows + rows <= cols * rows,
                    forall|c2: int, k2: int|
                        0 <= c2 < c && 0 <= k2 < rows ==> #[trigger] data@[c2 * rows + k2]
                            == self.at(rows - 1 - k2, c2),
                    forall|k2: int|
                        0 <= k2 < k ==> #[trigger] data@[c * rows + k2] == self.at(
                            rows - 1 - k2,
                            c as int,
                        ),
                decreases rows - k,
            {
                let v = self.get(rows - 1 - k, c);
                let ghost before = data@;
                data.push(v);
                proof {
                    assert forall|c2: int, k2: int|
                        0 <= c2 < c && 0 <= k2 < rows implies #[trigger] data@[c2 * rows + k2]
                        == self.at(rows - 1 - k2, c2) by {
                        lemma_offset(c as int, rows as int, c2, k2);
                        assert(data@[c2 * rows + k2] == before[c2 * rows + k2]);
                    }
                }
                k = k + 1;
            }
            proof {
                assert((c + 1) * rows == c * rows + rows) by (nonlinear_arith);
                assert forall|c2: int, k2: int|
                    0 <= c2 < c + 1 && 0 <= k2 < rows implies #[trigger] data@[c2 * rows + k2]
                    == self.at(rows - 1 - k2, c2) by {
                    if c2 == c {
                    }
                }
            }
            c = c + 1;
        }
        let g = Grid { data, rows: cols, cols: rows };
        proof {
            assert(cols * rows == rows * cols) by (nonlinear_arith);
        }
        g
    }

    /// A copy of the grid with the same shape and cells.
    pub fn clone(&self) -> (g: Grid<T>)
        requires
            self.wf(),
        ensures
            g.wf(),
            g.rows == self.rows,
            g.cols == self.cols,
            g.data@ == self.data@,
    {
        let mut data: Vec<T> = Vec::new();
        let mut i: usize = 0;
        while i < self.data.len()
            invariant
                i <= self.data.len(),
                data@ == self.data@.subrange(0, i as int),
            decreases self.data.len() - i,
        {
            data.push(self.data[i]);
            i = i + 1;
        }
        assert(data@ == self.data@);
        Grid { data, rows: self.rows, cols: self.cols }
    }

    /// The cells of the part inside the grid of the `size.0` by `size.1`
    /// window whose top-left corner is `idx`, in row-major order.
    pub fn subgrid_iter(&self, idx: (usize, usize), size: (usize, usize)) -> (v: Vec<T>)
        requires
            self.wf(),
        ensures
            ({
                let h = clip(idx.0 as int, size.0 as int, self.rows as int);
                let w = clip(idx.1 as int, size.1 as int, self.cols as int);
                &&& v.len() == h * w
                &&& forall|r: int, c: int|
                    0 <= r < h && 0 <= c < w ==> #[trigger] v@[r * w + c] == self.at(idx.0 + r, idx.1 + c)
            }),
    {
        let h = if idx.0 >= self.rows {
            0
        } else if size.0 <= self.rows - idx.0 {
            size.0
        } else {
            self.rows - idx.0
        };
        let w = if idx.1 >= self.cols {
            0
        } else if size.1 <= self.cols - idx.1 {
            size.1
        } else {
            self.cols - idx.1
        };
        if h == 0 || w == 0 {
            proof {
                assert(h * w == 0) by (nonlinear_arith)
                    requires
                        h == 0 || w == 0,
                ;
            }
            return Vec::new();
        }
        self.window(idx, (h, w))
    }

    /// The cells of the `size.0` by `size.1` window whose top-left corner is
    /// `idx`, in row-major order; the window lies inside the grid.
    fn window(&self, idx: (usize, usize), size: (usize, usize)) -> (v: Vec<T>)
        requires
            self.wf(),
            idx.0 + size.0 <= self.rows,
            idx.1 + size.1 <= self.cols,
        ensures
            v.len() == size.0 * size.1,
            forall|r: int, c: int|
                0 <= r < size.0 && 0 <= c < size.1 ==> #[trigger] v@[r * size.1 + c] == self.at(
                    idx.0 + r,
                    idx.1 + c,
                ),
    {
        let mut v: Vec<T> = Vec::new();
        let mut r: usize = 0;
        while r < size.0
            invariant
                self.wf(),
                idx.0 + size.0 <= self.rows,
                idx.1 + size.1 <= self.cols,
                r <= size.0,
                v.len() == r * size.1,
                forall|r2: int, c2: int|
                    0 <= r2 < r && 0 <= c2 < size.1 ==> #[trigger] v@[r2 * size.1 + c2]
                        == self.at(idx.0 + r2, idx.1 + c2),
            decreases size.0 - r,
        {
            let mut c: usize = 0;
            proof {
                lemma_row_end(size.0 as int, size.1 as int, r as int);
            }
            while c < size.1
                invariant
                    self.wf(),
                    idx.0 + size.0 <= self.rows,
                    idx.1 + size.1 <= self.cols,
                    r < size.0,
                    c <= size.1,
                    v.len() == r * size.1 + c,
                    forall|r2: int, c2: int|
                        0 <= r2 < r && 0 <= c2 < size.1 ==> #[trigger] v@[r2 * size.1 + c2]
                            == self.at(idx.0 + r2, idx.1 + c2),
                    forall|c2: int|
                        0 <= c2 < c ==> #[trigger] v@[r * size.1 + c2] == self.at(
                            idx.0 + r,
                            idx.1 + c2,
                        ),
                decreases size.1 - c,
            {
                let x = self.get(idx.0 + r, idx.1 + c);
                let ghost before = v@;
                v.push(x);
                proof {
                    assert forall|r2: int, c2: int|
                        0 <= r2 < r && 0 <= c2 < size.1 implies #[trigger] v@[r2 * size.1 + c2]
                        == self.at(idx.0 + r2, idx.1 + c2) by {
                        lemma_offset(r as int, size.1 as int, r2, c2);
                        assert(v@[r2 * size.1 + c2] == before[r2 * size.1 + c2]);
                    }
                }
                c = c + 1;
            }
            proof {
                assert((r + 1) * size.1 == r * size.1 + size.1) by (nonlinear_arith);
            }
            r = r + 1;
        }
        v
    }
}


impl Grid<U2> {
    /// The clue grid whose rows are the `width`-long runs of `text`; `None`
    /// when `width` is zero, the length is not a multiple of `width`, or a
    /// character is not a clue.
    pub fn from_string(width: usize, text: &str) -> (g: Option<Grid<U2>>)
        ensures
            g is Some <==> {
                &&& width > 0
                &&& (text@.len() as int) % (width as int) == 0
                &&& forall|k: int| 0 <= k < text@.len() ==> (#[trigger] clue_of_char(text@[k])) is Some
            },
            g matches Some(g) ==> {
                &&& g.wf()
                &&& g.cols == width
                &&& g.rows == (text@.len() as int) / (width as int)
                &&& forall|k: int| 0 <= k < g.data.len() ==> Some((#[trigger] g.data@[k]).0) == clue_of_char(text@[k])
            },
    {
        let v = chars_of(text);
        if width == 0 {
            return None;
        }
        let mut data: Vec<U2> = Vec::new();
        let mut k: usize = 0;
        while k < v.len()
            invariant
                v@ == text@,
                k <= v.len(),
                data.len() == k,
                forall|j: int| 0 <= j < k ==> (#[trigger] clue_of_char(text@[j])) is Some,
                forall|j: int| 0 <= j < k ==> Some((#[trigger] data@[j]).0) == clue_of_char(text@[j]),
            decreases v.len() - k,
        {
            match U2::from_char(v[k]) {
                Some(u) => data.push(u),
                None => {
                    return None;
                },
            }
            k = k + 1;
        }
        if v.len() % width != 0 {
            return None;
        }
        let rows = v.len() / width;
        proof {
            let n = v.len() as int;
            let w = width as int;
            vstd::arithmetic::div_mod::lemma_fundamental_div_mod(n, w);
            assert(n == rows * width) by (nonlinear_arith)
                requires
                    n == w * (n / w) + n % w,
                    rows == n / w,
                    n % w == 0,
                    w == width,
            ;
        }
        Grid::from_vec(data, rows, width)
    }

    /// The clue grid whose rows are the lines of `text`; `None` when the
    /// lines differ in length or a character is not a clue.
    pub fn from_lines(text: &str) -> (g: Option<Grid<U2>>)
        ensures
            g matches Some(g) ==> g.wf() && g.data.len() == kept(text@, '\n').len() && forall|k: int|
                0 <= k < g.data.len() ==> (#[trigger] clue_of_char(kept(text@, '\n')[k])) == Some(g.data@[k].0),
    {
        let v = chars_of(text);
        let len = v.len();
        let cols = find_char(&v, 0, '\n');
        let mut data: Vec<U2> = Vec::new();
        let mut rows: usize = 0;
        let mut i: usize = 0;
        let mut line: usize = 0;
        while i < len
            invariant
                v@ == text@,
                len == v.len(),
                i <= len,
                line <= cols,
                data.len() == rows * cols + line,
                rows <= i,
                data.len() == kept(v@.subrange(0, i as int), '\n').len(),
                forall|k: int| 0 <= k < data.len() ==> (#[trigger] clue_of_char(kept(v@.subrange(0, i as int), '\n')[k]))
                    == Some(data@[k].0),
            decreases len - i,
        {
            let c = v[i];
            proof {
                assert(v@.subrange(0, i + 1).drop_last() == v@.subrange(0, i as int));
                assert(v@.subrange(0, i + 1).last() == c);
            }
            if c == '\n' {
                if line != cols {
                    return None;
                }
                proof {
                    assert((rows + 1) * cols == rows * cols + cols) by (nonlinear_arith);
                }
                rows = rows + 1;
                line = 0;
            } else {
                if line == cols {
                    return None;
                }
                match U2::from_char(c) {
                    Some(u) => data.push(u),
                    None => {
                        return None;
                    },
                }
                line = line + 1;
            }
            i = i + 1;
        }
        assert(v@.subrange(0, len as int) == v@);
        if line != cols {
            return None;
        }
        if len == 0 || rows == usize::MAX {
            return None;
        }
        rows = rows + 1;
        proof {
            assert(data.len() == rows * cols) by (nonlinear_arith)
                requires
                    data.len() == (rows - 1) * cols + cols,
            ;
        }
        Grid::from_vec(data, rows, cols)
    }
}


/// The glyphs of the first `n` clues of `g`, with a line break before each
/// row but the first.
pub open spec fn clue_text(g: Grid<U2>, n: int) -> Seq<char>
    decreases n,
{
    if n <= 0 {
        seq![]
    } else {
        let prev = clue_text(g, n - 1);
        let c = clue_char(g.data@[n - 1].0);
        if (n - 1) % (g.cols as int) == 0 && n - 1 > 0 {
            prev.push('\n').push(c)
        } else {
            prev.push(c)
        }
    }
}

impl Grid<U2> {
    /// The clues as text, one line per row.
    pub fn to_string(&self) -> (s: String)
        requires
            self.wf(),
        ensures
            s@ == clue_text(*self, self.data.len() as int),
    {
        let mut s = String::new();
        let mut k: usize = 0;
        let mut r: usize = 0;
        let mut c: usize = 0;
        while k < self.data.len()
            invariant
                self.wf(),
                k <= self.data.len(),
                k < self.data.len() ==> c < self.cols && k == r * self.cols + c,
                s@ == clue_text(*self, k as int),
            decreases self.data.len() - k,
        {
            proof {
                vstd::arithmetic::div_mod::lemma_fundamental_div_mod_converse(k as int, self.cols as int, r as int, c as int);
            }
            if c == 0 && k > 0 {
                s.push('\n');
            }
            s.push(self.data[k].to_char());
            k = k + 1;
            c = c + 1;
            if c == self.cols {
                proof {
                    assert((r + 1) * self.cols == r * self.cols + self.cols) by (nonlinear_arith);
                }
                c = 0;
                r = r + 1;
            }
            assert(s@ =~= clue_text(*self, k as int));
        }
        s
    }
}

} // verus!
