use crate::board::{Board, Fences, Idx};
use crate::grid::Grid;
use crate::items::{Fence, U2};
use crate::rules::{care, grid_rotation_of, pat_conflict, pat_match, pat_open, stamped_all, BoardRule};
use vstd::prelude::*;

verus! {

/// `b2` is `b1` turned a quarter turn clockwise: cell `(r, c)` moves to
/// `(c, rows - 1 - r)`, vertical edges become horizontal ones and
/// horizontal edges vertical ones.
pub open spec fn board_rotation_of(b2: &Board, b1: &Board) -> bool {
    &&& grid_rotation_of(b2.tasks, b1.tasks)
    &&& edges_rotation_of(b2.fences, b1.fences)
}

/// The edges of `f2` are those of `f1` turned a quarter turn clockwise.
pub open spec fn edges_rotation_of(f2: Fences, f1: Fences) -> bool {
    &&& grid_rotation_of(f2.h, f1.v)
    &&& grid_rotation_of(f2.v, f1.h)
}

/// Where the quarter turn of a rule `tr` rows tall, anchored at `idx` on a
/// board `rows` tall, is anchored on the turned board.
pub open spec fn turned_anchor(rows: int, tr: int, idx: Idx) -> Idx {
    (idx.1, (rows - tr - idx.0) as usize)
}

/// Some care cell of `p` laid on `g` at `(i0, i1)` meets an undecided edge.
pub open spec fn g_open(p: Grid<Fence>, g: Grid<Fence>, i0: int, i1: int) -> bool {
    exists|r: int, c: int| #[trigger] care(p, r, c) && g.at(i0 + r, i1 + c).0 is None
}

/// Some care cell of `p` laid on `g` at `(i0, i1)` meets an opposite edge.
pub open spec fn g_conflict(p: Grid<Fence>, g: Grid<Fence>, i0: int, i1: int) -> bool {
    exists|r: int, c: int|
        #[trigger] care(p, r, c) && g.at(i0 + r, i1 + c).0 is Some && g.at(i0 + r, i1 + c).0 != p.at(r, c).0
}

/// Every care cell of `p` laid on `g` at `(i0, i1)` meets an equal edge.
pub open spec fn g_match(p: Grid<Fence>, g: Grid<Fence>, i0: int, i1: int) -> bool {
    forall|r: int, c: int| #[trigger] care(p, r, c) ==> g.at(i0 + r, i1 + c).0 == p.at(r, c).0
}

/// Turning a pattern and the grid under it together keeps every comparison.
proof fn lemma_turn_pattern(p: Grid<Fence>, q: Grid<Fence>, g: Grid<Fence>, h: Grid<Fence>, i0: int, i1: int)
    requires
        grid_rotation_of(q, p),
        grid_rotation_of(h, g),
        0 <= i0,
        0 <= i1,
        i0 + p.rows <= g.rows,
        i1 + p.cols <= g.cols,
    ensures
        g_open(p, g, i0, i1) == g_open(q, h, i1, g.rows - p.rows - i0),
        g_conflict(p, g, i0, i1) == g_conflict(q, h, i1, g.rows - p.rows - i0),
        g_match(p, g, i0, i1) == g_match(q, h, i1, g.rows - p.rows - i0),
{
    let j0 = i1;
    let j1 = g.rows - p.rows - i0;
    // cell (r, c) of p is cell (c, p.rows - 1 - r) of q; both sit on the same edge
    assert forall|r: int, c: int| #[trigger] care(p, r, c) implies care(q, c, p.rows - 1 - r) && q.at(c, p.rows - 1 - r)
        == p.at(r, c) && h.at(j0 + c, j1 + p.rows - 1 - r) == g.at(i0 + r, i1 + c) by {
        assert(q.in_bounds(c, p.rows - 1 - r));
        assert(h.in_bounds(i1 + c, g.rows - 1 - (i0 + r)));
        assert(j1 + p.rows - 1 - r == g.rows - 1 - (i0 + r));
    }
    assert forall|c: int, k: int| #[trigger] care(q, c, k) implies care(p, p.rows - 1 - k, c) && q.at(c, k) == p.at(
        p.rows - 1 - k,
        c,
    ) && h.at(j0 + c, j1 + k) == g.at(i0 + p.rows - 1 - k, i1 + c) by {
        assert(q.in_bounds(c, k));
        assert(h.in_bounds(i1 + c, g.rows - 1 - (i0 + p.rows - 1 - k)));
        assert(j1 + k == g.rows - 1 - (i0 + p.rows - 1 - k));
    }
    if g_open(p, g, i0, i1) {
        let (r, c) = choose|r: int, c: int| #[trigger] care(p, r, c) && g.at(i0 + r, i1 + c).0 is None;
        assert(care(q, c, p.rows - 1 - r));
    }
    if g_open(q, h, j0, j1) {
        let (c, k) = choose|c: int, k: int| #[trigger] care(q, c, k) && h.at(j0 + c, j1 + k).0 is None;
        assert(care(p, p.rows - 1 - k, c));
        assert(i0 + (p.rows - 1 - k) == i0 + p.rows - 1 - k);
    }
    if g_conflict(p, g, i0, i1) {
        let (r, c) = choose|r: int, c: int|
            #[trigger] care(p, r, c) && g.at(i0 + r, i1 + c).0 is Some && g.at(i0 + r, i1 + c).0 != p.at(r, c).0;
        assert(care(q, c, p.rows - 1 - r));
    }
    if g_conflict(q, h, j0, j1) {
        let (c, k) = choose|c: int, k: int|
            #[trigger] care(q, c, k) && h.at(j0 + c, j1 + k).0 is Some && h.at(j0 + c, j1 + k).0 != q.at(c, k).0;
        assert(care(p, p.rows - 1 - k, c));
        assert(i0 + (p.rows - 1 - k) == i0 + p.rows - 1 - k);
    }
    if g_match(p, g, i0, i1) {
        assert forall|c: int, k: int| #[trigger] care(q, c, k) implies h.at(j0 + c, j1 + k).0 == q.at(c, k).0 by {
            assert(care(p, p.rows - 1 - k, c));
            assert(i0 + (p.rows - 1 - k) == i0 + p.rows - 1 - k);
        }
    }
    if g_match(q, h, j0, j1) {
        assert forall|r: int, c: int| #[trigger] care(p, r, c) implies g.at(i0 + r, i1 + c).0 == p.at(r, c).0 by {
            assert(care(q, c, p.rows - 1 - r));
        }
    }
}

/// Turning a clue pattern and the clue grid under it together keeps the match.
proof fn lemma_turn_clues(p: Grid<U2>, q: Grid<U2>, g: Grid<U2>, h: Grid<U2>, i0: int, i1: int)
    requires
        grid_rotation_of(q, p),
        grid_rotation_of(h, g),
        0 <= i0,
        0 <= i1,
        i0 + p.rows <= g.rows,
        i1 + p.cols <= g.cols,
    ensures
        (forall|r: int, c: int|
            #[trigger] p.in_bounds(r, c) && p.at(r, c).0 is Some ==> g.at(i0 + r, i1 + c) == p.at(r, c)) == (forall|
            r: int,
            c: int,
        | #[trigger] q.in_bounds(r, c) && q.at(r, c).0 is Some ==> h.at(i1 + r, g.rows - p.rows - i0 + c) == q.at(r, c)),
{
    let j1 = g.rows - p.rows - i0;
    if forall|r: int, c: int| #[trigger] p.in_bounds(r, c) && p.at(r, c).0 is Some ==> g.at(i0 + r, i1 + c) == p.at(r, c) {
        assert forall|c: int, k: int| #[trigger] q.in_bounds(c, k) && q.at(c, k).0 is Some implies h.at(i1 + c, j1 + k)
            == q.at(c, k) by {
            assert(p.in_bounds(p.rows - 1 - k, c));
            assert(h.in_bounds(i1 + c, g.rows - 1 - (i0 + p.rows - 1 - k)));
            assert(j1 + k == g.rows - 1 - (i0 + p.rows - 1 - k));
            assert(i0 + (p.rows - 1 - k) == i0 + p.rows - 1 - k);
        }
    }
    if forall|r: int, c: int| #[trigger] q.in_bounds(r, c) && q.at(r, c).0 is Some ==> h.at(i1 + r, j1 + c) == q.at(r, c) {
        assert forall|r: int, c: int| #[trigger] p.in_bounds(r, c) && p.at(r, c).0 is Some implies g.at(i0 + r, i1 + c)
            == p.at(r, c) by {
            assert(q.in_bounds(c, p.rows - 1 - r));
            assert(h.in_bounds(i1 + c, g.rows - 1 - (i0 + r)));
            assert(j1 + p.rows - 1 - r == g.rows - 1 - (i0 + r));
        }
    }
}

/// Rotation soundness: the quarter turn of a rule, tried on the quarter turn
/// of a board at the turned anchor, agrees with the rule on the board at
/// the anchor on placement, clues, inputs and outputs, so it gives the same
/// outcome.
pub proof fn lemma_rotation_sound(rule: BoardRule, rot: BoardRule, b1: Board, b2: Board, idx: Idx)
    requires
        rule.wf(),
        rot.wf(),
        rot.rotation_of(&rule),
        b1.wf(),
        b2.wf(),
        board_rotation_of(&b2, &b1),
        idx.0 + rule.task.rows <= b1.rows(),
        idx.1 + rule.task.cols <= b1.cols(),
    ensures
        ({
            let idx2 = turned_anchor(b1.rows(), rule.task.rows as int, idx);
            &&& rot.placed(b2.rows(), b2.cols(), idx2) == rule.placed(b1.rows(), b1.cols(), idx)
            &&& rot.clues_match(&b2, idx2) == rule.clues_match(&b1, idx)
            &&& rot.matched(&b2, idx2) == rule.matched(&b1, idx)
            &&& rot.input_conflict(&b2, idx2) == rule.input_conflict(&b1, idx)
            &&& rot.inputs_match(&b2, idx2) == rule.inputs_match(&b1, idx)
            &&& rot.output_conflict(&b2, idx2) == rule.output_conflict(&b1, idx)
        }),
{
    let i0 = idx.0 as int;
    let i1 = idx.1 as int;
    let idx2 = turned_anchor(b1.rows(), rule.task.rows as int, idx);
    let tr = rule.task.rows as int;
    assert(idx2.0 == i1 && idx2.1 == b1.rows() - tr - i0);
    lemma_turn_clues(rule.task, rot.task, b1.tasks, b2.tasks, i0, i1);
    lemma_turn_pattern(rule.solution.h, rot.solution.v, b1.fences.h, b2.fences.v, i0, i1);
    lemma_turn_pattern(rule.solution.v, rot.solution.h, b1.fences.v, b2.fences.h, i0, i1);
    lemma_turn_pattern(rule.fences.h, rot.fences.v, b1.fences.h, b2.fences.v, i0, i1);
    lemma_turn_pattern(rule.fences.v, rot.fences.h, b1.fences.v, b2.fences.h, i0, i1);
    assert(pat_open(rule.solution.h, 0, b1.fences, idx) == g_open(rule.solution.h, b1.fences.h, i0, i1));
    assert(pat_open(rule.solution.v, 1, b1.fences, idx) == g_open(rule.solution.v, b1.fences.v, i0, i1));
    assert(pat_open(rot.solution.h, 0, b2.fences, idx2) == g_open(rot.solution.h, b2.fences.h, idx2.0 as int, idx2.1 as int));
    assert(pat_open(rot.solution.v, 1, b2.fences, idx2) == g_open(rot.solution.v, b2.fences.v, idx2.0 as int, idx2.1 as int));
    assert(pat_conflict(rule.solution.h, 0, b1.fences, idx) == g_conflict(rule.solution.h, b1.fences.h, i0, i1));
    assert(pat_conflict(rule.solution.v, 1, b1.fences, idx) == g_conflict(rule.solution.v, b1.fences.v, i0, i1));
    assert(pat_conflict(rot.solution.h, 0, b2.fences, idx2) == g_conflict(rot.solution.h, b2.fences.h, idx2.0 as int, idx2.1 as int));
    assert(pat_conflict(rot.solution.v, 1, b2.fences, idx2) == g_conflict(rot.solution.v, b2.fences.v, idx2.0 as int, idx2.1 as int));
    assert(pat_conflict(rule.fences.h, 0, b1.fences, idx) == g_conflict(rule.fences.h, b1.fences.h, i0, i1));
    assert(pat_conflict(rule.fences.v, 1, b1.fences, idx) == g_conflict(rule.fences.v, b1.fences.v, i0, i1));
    assert(pat_conflict(rot.fences.h, 0, b2.fences, idx2) == g_conflict(rot.fences.h, b2.fences.h, idx2.0 as int, idx2.1 as int));
    assert(pat_conflict(rot.fences.v, 1, b2.fences, idx2) == g_conflict(rot.fences.v, b2.fences.v, idx2.0 as int, idx2.1 as int));
    assert(pat_match(rule.fences.h, 0, b1.fences, idx) == g_match(rule.fences.h, b1.fences.h, i0, i1));
    assert(pat_match(rule.fences.v, 1, b1.fences, idx) == g_match(rule.fences.v, b1.fences.v, i0, i1));
    assert(pat_match(rot.fences.h, 0, b2.fences, idx2) == g_match(rot.fences.h, b2.fences.h, idx2.0 as int, idx2.1 as int));
    assert(pat_match(rot.fences.v, 1, b2.fences, idx2) == g_match(rot.fences.v, b2.fences.v, idx2.0 as int, idx2.1 as int));
    assert(rot.clues_match(&b2, idx2) == rule.clues_match(&b1, idx));
    assert(rot.placed(b2.rows(), b2.cols(), idx2) == rule.placed(b1.rows(), b1.cols(), idx));
}

/// Rotation soundness for the output: when the rule fires on the board and
/// its quarter turn fires on the turned board at the turned anchor, the two
/// results are again quarter turns of each other.
pub proof fn lemma_rotation_output(
    rule: BoardRule,
    rot: BoardRule,
    f1: Fences,
    f2: Fences,
    out1: Fences,
    out2: Fences,
    rows: int,
    idx: Idx,
)
    requires
        rule.wf(),
        rot.wf(),
        rot.rotation_of(&rule),
        f1.h.rows == rows + 1,
        f1.v.rows == rows,
        f1.h.cols + 1 == f1.v.cols,
        edges_rotation_of(f2, f1),
        idx.0 + rule.task.rows <= rows,
        idx.1 + rule.task.cols <= f1.h.cols,
        stamped_all(rule.solution, idx, f1, out1),
        stamped_all(rot.solution, turned_anchor(rows, rule.task.rows as int, idx), f2, out2),
    ensures
        edges_rotation_of(out2, out1),
{
    let i0 = idx.0 as int;
    let i1 = idx.1 as int;
    let idx2 = turned_anchor(rows, rule.task.rows as int, idx);
    let tr = rule.task.rows as int;
    assert forall|c: int, k: int| #[trigger] out2.h.in_bounds(c, k) implies out2.h.at(c, k) == out1.v.at(
        out1.v.rows - 1 - k,
        c,
    ) by {
        assert(f2.in_dir(0, c, k));
        assert(f1.in_dir(1, rows - 1 - k, c));
        let x = c - idx2.0;
        let y = k - idx2.1;
        if care(rot.solution.h, x, y) {
            assert(rot.solution.h.in_bounds(x, y));
            assert(care(rule.solution.v, rows - 1 - k - i0, c - i1));
        } else if care(rule.solution.v, rows - 1 - k - i0, c - i1) {
            assert(rot.solution.h.in_bounds(x, y));
        }
        assert(out2.h.at(c, k).0 == out1.v.at(out1.v.rows - 1 - k, c).0);
    }
    assert forall|c: int, k: int| #[trigger] out2.v.in_bounds(c, k) implies out2.v.at(c, k) == out1.h.at(
        out1.h.rows - 1 - k,
        c,
    ) by {
        assert(f2.in_dir(1, c, k));
        assert(f1.in_dir(0, rows - k, c));
        let x = c - idx2.0;
        let y = k - idx2.1;
        if care(rot.solution.v, x, y) {
            assert(rot.solution.v.in_bounds(x, y));
            assert(care(rule.solution.h, rows - k - i0, c - i1));
        } else if care(rule.solution.h, rows - k - i0, c - i1) {
            assert(rot.solution.v.in_bounds(x, y));
        }
        assert(out2.v.at(c, k).0 == out1.h.at(out1.h.rows - 1 - k, c).0);
    }
}

} // verus!
