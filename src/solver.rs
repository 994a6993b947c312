use crate::board::{are_linked, chains, ends, lemma_chains_valid, linked, touches, Board, Edge, Fences, Idx};
use crate::board::Contradiction;
use crate::geom::BoardGeom;
use crate::items::{Fence, U2};
use crate::rules::{care, pat_conflict, pat_open, stamped, stamped_all, Apply, BoardRule};
use vstd::prelude::*;

verus! {

pub open spec fn absdiff(a: int, b: int) -> int {
    if a >= b {
        a - b
    } else {
        b - a
    }
}

pub open spec fn min_of(a: usize, b: usize) -> usize {
    if a <= b {
        a
    } else {
        b
    }
}

/// Ends of one direction that one or two edges could join into a small loop:
/// horizontal ends stacked one row apart or two columns apart in one row,
/// vertical ends side by side or two rows apart in one column.
pub open spec fn tight(f: Edge, l: Edge) -> bool {
    &&& f.0 == l.0
    &&& if f.0 == 0 {
        (absdiff(f.1 as int, l.1 as int) == 1 && absdiff(f.2 as int, l.2 as int) == 0) || (absdiff(
            f.1 as int,
            l.1 as int,
        ) == 0 && absdiff(f.2 as int, l.2 as int) == 2)
    } else {
        (absdiff(f.1 as int, l.1 as int) == 0 && absdiff(f.2 as int, l.2 as int) == 1) || (absdiff(
            f.1 as int,
            l.1 as int,
        ) == 2 && absdiff(f.2 as int, l.2 as int) == 0)
    }
}

/// The edges that close the gap between tight ends `f` and `l`: the two
/// sides of the cell between stacked (or side-by-side) ends, or the one edge
/// between ends two apart in a line.
pub open spec fn tight_cands(f: Edge, l: Edge) -> Seq<Edge> {
    if f.0 == 0 {
        if f.1 == l.1 {
            seq![(0usize, f.1, (min_of(f.2, l.2) + 1) as usize)]
        } else {
            seq![(1usize, min_of(f.1, l.1), f.2), (1usize, min_of(f.1, l.1), (f.2 + 1) as usize)]
        }
    } else {
        if f.2 == l.2 {
            seq![(1usize, (min_of(f.1, l.1) + 1) as usize, f.2)]
        } else {
            seq![(0usize, f.1, min_of(f.2, l.2)), (0usize, (f.1 + 1) as usize, min_of(f.2, l.2))]
        }
    }
}

pub open spec fn between(x: usize, a: usize, b: usize) -> bool {
    (a <= x <= b) || (b <= x <= a)
}

/// `e` lies in the coordinate box spanned by `f` and `l`.
pub open spec fn in_box(f: Edge, l: Edge, e: Edge) -> bool {
    between(e.0, f.0, l.0) && between(e.1, f.1, l.1) && between(e.2, f.2, l.2)
}

/// An edge that would close chain `p` into a small loop: a gap edge between
/// tight ends of one direction, or, for ends of two directions, an edge of
/// their box linked to both ends and not on the chain.
pub open spec fn chain_target(p: Seq<Edge>, e: Edge) -> bool {
    let f = p[0];
    let l = p.last();
    if f.0 == l.0 {
        tight(f, l) && tight_cands(f, l).contains(e)
    } else {
        in_box(f, l, e) && !p.contains(e) && linked(f, e) && linked(l, e)
    }
}

/// While more than one chain exists, `e` would close one of three or more
/// edges into a small loop.
pub open spec fn is_target(ch: Seq<Seq<Edge>>, e: Edge) -> bool {
    ch.len() > 1 && exists|i: int| 0 <= i < ch.len() && (#[trigger] ch[i]).len() >= 3 && chain_target(ch[i], e)
}

/// Some undecided edge would close a small loop.
pub open spec fn prunes(f: Fences) -> bool {
    exists|e: Edge| #[trigger] f.valid(e) && f.val(e) is None && is_target(chains(f), e)
}

/// `new` is `old` with every undecided edge that would close a small loop
/// ruled out.
pub open spec fn pruned(old: Fences, new: Fences) -> bool {
    &&& old.same_shape(&new)
    &&& forall|e: Edge| #[trigger]
        old.valid(e) ==> new.val(e) == if old.val(e) is None && is_target(chains(old), e) {
            Some(false)
        } else {
            old.val(e)
        }
}

/// Every edge that pruning targets is linked to both ends of the chain it
/// would close.
pub proof fn lemma_target_linked(p: Seq<Edge>, e: Edge)
    requires
        p.len() >= 1,
        p[0].0 <= 1,
        p.last().0 <= 1,
        p[0].1 < usize::MAX && p[0].2 < usize::MAX,
        p.last().1 < usize::MAX && p.last().2 < usize::MAX,
        chain_target(p, e),
    ensures
        linked(p[0], e),
        linked(p.last(), e),
{
}

/// Every edge `block_closed_paths` may rule out is linked to both ends of a
/// chain of three or more loop edges: it would close that chain into a loop.
pub proof fn lemma_targets_close_chains(f: Fences, rows: int, cols: int, e: Edge)
    requires
        f.wf_for(rows, cols),
        is_target(chains(f), e),
    ensures
        exists|i: int|
            0 <= i < chains(f).len() && (#[trigger] chains(f)[i]).len() >= 3 && linked(chains(f)[i][0], e)
                && linked(chains(f)[i].last(), e),
{
    let ch = chains(f);
    let i = choose|i: int| 0 <= i < ch.len() && (#[trigger] ch[i]).len() >= 3 && chain_target(ch[i], e);
    lemma_chains_valid(f, rows, cols);
    let p = ch[i];
    assert(f.valid(p[0]));
    assert(f.valid(p[p.len() - 1]));
    lemma_target_linked(p, e);
}

/// Chains before position `i` that `e` would close.
pub open spec fn target_upto(ch: Seq<Seq<Edge>>, i: int, e: Edge) -> bool {
    exists|k: int| 0 <= k < i && (#[trigger] ch[k]).len() >= 3 && chain_target(ch[k], e)
}

/// The two corners of the box spanned by `a` and `b`, coordinate by coordinate.
pub fn sorted_tuples(a: Edge, b: Edge) -> (r: (Edge, Edge))
    ensures
        r.0.0 == min_of(a.0, b.0) && r.1.0 == if a.0 <= b.0 {
            b.0
        } else {
            a.0
        },
        r.0.1 == min_of(a.1, b.1) && r.1.1 == if a.1 <= b.1 {
            b.1
        } else {
            a.1
        },
        r.0.2 == min_of(a.2, b.2) && r.1.2 == if a.2 <= b.2 {
            b.2
        } else {
            a.2
        },
{
    let mut res = (a, b);
    if a.0 > b.0 {
        res = ((b.0, res.0.1, res.0.2), (a.0, res.1.1, res.1.2));
    }
    if a.1 > b.1 {
        res = ((res.0.0, b.1, res.0.2), (res.1.0, a.1, res.1.2));
    }
    if a.2 > b.2 {
        res = ((res.0.0, res.0.1, b.2), (res.1.0, res.1.1, a.2));
    }
    res
}

/// Whether `e` is on the chain.
fn chain_contains(p: &Vec<Edge>, e: Edge) -> (r: bool)
    ensures
        r == p@.contains(e),
{
    let mut i: usize = 0;
    while i < p.len()
        invariant
            i <= p.len(),
            forall|k: int| 0 <= k < i ==> p@[k] != e,
        decreases p.len() - i,
    {
        let x = p[i];
        if x.0 == e.0 && x.1 == e.1 && x.2 == e.2 {
            return true;
        }
        i = i + 1;
    }
    false
}

/// The edges meeting at dot `d`, pushed onto `out`.
fn push_dot_edges(out: &mut Vec<Edge>, d: Idx)
    ensures
        forall|k: int| 0 <= k < old(out).len() ==> final(out)@[k] == old(out)@[k],
        old(out).len() <= final(out).len(),
        forall|e: Edge|
            e.0 <= 1 && ((e.0 == 0 && ((e.1 == d.0 && e.2 == d.1) || (e.1 == d.0 && e.2 + 1 == d.1))) || (
            e.0 == 1 && ((e.1 == d.0 && e.2 == d.1) || (e.1 + 1 == d.0 && e.2 == d.1)))) ==> final(out)@.contains(e),
        forall|k: int| old(out).len() <= k < final(out).len() ==> (#[trigger] final(out)@[k]).0 <= 1,
{
    let ghost start = out@;
    out.push((0, d.0, d.1));
    out.push((1, d.0, d.1));
    if d.1 > 0 {
        out.push((0, d.0, d.1 - 1));
    }
    if d.0 > 0 {
        out.push((1, d.0 - 1, d.1));
    }
    proof {
        assert forall|e: Edge|
            e.0 <= 1 && ((e.0 == 0 && ((e.1 == d.0 && e.2 == d.1) || (e.1 == d.0 && e.2 + 1 == d.1))) || (
            e.0 == 1 && ((e.1 == d.0 && e.2 == d.1) || (e.1 + 1 == d.0 && e.2 == d.1)))) implies out@.contains(e) by {
            if e == (0usize, d.0, d.1) {
                assert(out@[start.len() as int] == e);
            } else if e == (1usize, d.0, d.1) {
                assert(out@[start.len() + 1int] == e);
            } else if e.0 == 0 {
                assert(out@[start.len() + 2int] == e);
            } else {
                if d.1 > 0 {
                    assert(out@[start.len() + 3int] == e);
                } else {
                    assert(out@[start.len() + 2int] == e);
                }
            }
        }
    }
}

/// The edges that would close chain `p` into a small loop; edges of other
/// directions than 0 and 1 never occur.
fn chain_candidates(p: &Vec<Edge>) -> (cands: Vec<Edge>)
    requires
        p.len() >= 3,
        forall|k: int| 0 <= k < p.len() ==> (#[trigger] p@[k]).0 <= 1 && p@[k].1 < usize::MAX && p@[k].2
            < usize::MAX,
    ensures
        forall|e: Edge| e.0 <= 1 ==> (cands@.contains(e) <==> chain_target(p@, e)),
        forall|k: int| 0 <= k < cands.len() ==> (#[trigger] cands@[k]).0 <= 1,
{
    let f = p[0];
    let l = p[p.len() - 1];
    assert(p@.last() == l);
    assert(f.0 <= 1 && l.0 <= 1);
    let mut cands: Vec<Edge> = Vec::new();
    if f.0 == l.0 {
        let d1 = if f.1 >= l.1 {
            f.1 - l.1
        } else {
            l.1 - f.1
        };
        let d2 = if f.2 >= l.2 {
            f.2 - l.2
        } else {
            l.2 - f.2
        };
        let is_tight = if f.0 == 0 {
            (d1 == 1 && d2 == 0) || (d1 == 0 && d2 == 2)
        } else {
            (d1 == 0 && d2 == 1) || (d1 == 2 && d2 == 0)
        };
        if is_tight {
            let lo1 = if f.1 <= l.1 {
                f.1
            } else {
                l.1
            };
            let lo2 = if f.2 <= l.2 {
                f.2
            } else {
                l.2
            };
            if f.0 == 0 {
                if f.1 == l.1 {
                    cands.push((0, f.1, lo2 + 1));
                } else {
                    cands.push((1, lo1, f.2));
                    cands.push((1, lo1, f.2 + 1));
                }
            } else {
                if f.2 == l.2 {
                    cands.push((1, lo1 + 1, f.2));
                } else {
                    cands.push((0, f.1, lo2));
                    cands.push((0, f.1 + 1, lo2));
                }
            }
            assert(cands@ == tight_cands(f, l));
        } else {
            assert(!tight(f, l));
        }
        return cands;
    }
    let mut near: Vec<Edge> = Vec::new();
    push_dot_edges(&mut near, (f.1, f.2));
    let ghost near1 = near@;
    if f.0 == 0 {
        push_dot_edges(&mut near, (f.1, f.2 + 1));
    } else {
        push_dot_edges(&mut near, (f.1 + 1, f.2));
    }
    let bx = sorted_tuples(f, l);
    let mut j: usize = 0;
    while j < near.len()
        invariant
            j <= near.len(),
            f == p@[0],
            l == p@.last(),
            f.0 != l.0,
            f.0 <= 1,
            l.0 <= 1,
            forall|k: int| 0 <= k < near.len() ==> (#[trigger] near@[k]).0 <= 1,
            bx == sorted_tuples_spec(f, l),
            forall|k: int| 0 <= k < cands.len() ==> (#[trigger] cands@[k]).0 <= 1,
            forall|e: Edge| e.0 <= 1 ==> (cands@.contains(e) <==> (in_prefix(near@, j as int, e) && chain_target(p@, e))),
        decreases near.len() - j,
    {
        let e = near[j];
        let ok = bx.0.0 <= e.0 && e.0 <= bx.1.0 && bx.0.1 <= e.1 && e.1 <= bx.1.1 && bx.0.2 <= e.2 && e.2
            <= bx.1.2 && !chain_contains(p, e) && are_linked(&f, &e) && are_linked(&l, &e);
        let ghost before = cands@;
        if ok {
            cands.push(e);
        }
        proof {
            assert(ok == chain_target(p@, e));
            assert forall|e2: Edge| e2.0 <= 1 implies (cands@.contains(e2) <==> (in_prefix(near@, j + 1, e2) && chain_target(p@, e2))) by {
                if cands@.contains(e2) && e2 != e {
                    let k = choose|k: int| 0 <= k < cands@.len() && cands@[k] == e2;
                    assert(before[k] == e2);
                }
                if before.contains(e2) {
                    let k = choose|k: int| 0 <= k < before.len() && before[k] == e2;
                    assert(cands@[k] == e2);
                }
                if in_prefix(near@, j + 1, e2) && e2 != e {
                    let k = choose|k: int| 0 <= k < j + 1 && #[trigger] near@[k] == e2;
                    assert(in_prefix(near@, j as int, e2));
                }
                if ok && e2 == e {
                    assert(cands@[cands@.len() - 1] == e);
                }
                if e2 == e {
                    assert(near@[j as int] == e);
                }
            }
        }
        j = j + 1;
    }
    proof {
        assert forall|e: Edge| e.0 <= 1 && chain_target(p@, e) implies in_prefix(near@, j as int, e) by {
            assert(linked(f, e));
            if touches(e, ends(f).0) {
                assert(near1.contains(e));
                let k = choose|k: int| 0 <= k < near1.len() && near1[k] == e;
                assert(near@[k] == e);
            } else {
                assert(near@.contains(e));
                let k = choose|k: int| 0 <= k < near@.len() && near@[k] == e;
                assert(near@[k] == e);
            }
        }
    }
    cands
}

/// `e` occurs among the first `j` entries of `s`.
pub open spec fn in_prefix(s: Seq<Edge>, j: int, e: Edge) -> bool {
    exists|k: int| 0 <= k < j && #[trigger] s[k] == e
}

pub open spec fn sorted_tuples_spec(a: Edge, b: Edge) -> (Edge, Edge) {
    (
        (min_of(a.0, b.0), min_of(a.1, b.1), min_of(a.2, b.2)),
        (
            if a.0 <= b.0 {
                b.0
            } else {
                a.0
            },
            if a.1 <= b.1 {
                b.1
            } else {
                a.1
            },
            if a.2 <= b.2 {
                b.2
            } else {
                a.2
            },
        ),
    )
}


/// Rules out every undecided edge that would close a chain of three or more
/// loop edges into a loop of its own while other chains exist.  Returns
/// whether any edge changed.
pub fn block_closed_paths(board: &mut Board) -> (changed: bool)
    requires
        old(board).wf(),
    ensures
        final(board).wf(),
        final(board).tasks == old(board).tasks,
        old(board).moves@.len() <= final(board).moves@.len(),
        final(board).moves@.subrange(0, old(board).moves@.len() as int) == old(board).moves@,
        old(board).fences.extended_by(&final(board).fences),
        pruned(old(board).fences, final(board).fences),
        changed == prunes(old(board).fences),
        !changed ==> final(board).fences.same_as(&old(board).fences),
        changed ==> final(board).fences.unknowns() < old(board).fences.unknowns(),
{
    let ghost b0 = *board;
    let ghost ch = chains(b0.fences);
    let paths = board.paths();
    proof {
        lemma_chains_valid(b0.fences, b0.rows(), b0.cols());
        assert(paths@.len() == ch.len());
        assert(forall|k: int| 0 <= k < paths@.len() ==> #[trigger] paths@[k]@ == ch[k]);
    }
    let mut changed = false;
    if paths.len() > 1 {
        let mut i: usize = 0;
        while i < paths.len()
            invariant
                b0 == *old(board),
                ch == chains(b0.fences),
                board.wf(),
                board.tasks == b0.tasks,
                b0.moves@.len() <= board.moves@.len(),
                board.moves@.subrange(0, b0.moves@.len() as int) == b0.moves@,
                b0.fences.extended_by(&board.fences),
                b0.fences.same_shape(&board.fences),
                i <= paths.len(),
                paths@.len() == ch.len(),
                ch.len() > 1,
                forall|k: int| 0 <= k < paths@.len() ==> #[trigger] paths@[k]@ == ch[k],
                forall|k: int, j: int|
                    0 <= k < ch.len() && 0 <= j < ch[k].len() ==> b0.fences.valid(#[trigger] ch[k][j]),
                forall|e: Edge| #[trigger]
                    b0.fences.valid(e) ==> board.edge(e) == if b0.edge(e) is None && target_upto(ch, i as int, e) {
                        Some(false)
                    } else {
                        b0.edge(e)
                    },
                changed == exists|e: Edge| #[trigger]
                    b0.fences.valid(e) && b0.edge(e) is None && target_upto(ch, i as int, e),
                !changed ==> board.fences.same_as(&b0.fences),
                changed ==> board.fences.unknowns() < b0.fences.unknowns(),
            decreases paths.len() - i,
        {
            let p = &paths[i];
            let ghost ci = ch[i as int];
            assert(p@ == ci);
            if p.len() >= 3 {
                proof {
                    assert forall|k: int| 0 <= k < p.len() implies (#[trigger] p@[k]).0 <= 1 && p@[k].1 < usize::MAX
                        && p@[k].2 < usize::MAX by {
                        assert(b0.fences.valid(ch[i as int][k]));
                    }
                }
                let cands = chain_candidates(p);
                let mut j: usize = 0;
                while j < cands.len()
                    invariant
                        b0 == *old(board),
                        ch == chains(b0.fences),
                        board.wf(),
                        board.tasks == b0.tasks,
                        b0.moves@.len() <= board.moves@.len(),
                        board.moves@.subrange(0, b0.moves@.len() as int) == b0.moves@,
                        b0.fences.extended_by(&board.fences),
                        b0.fences.same_shape(&board.fences),
                        j <= cands.len(),
                        forall|e: Edge| #[trigger]
                            b0.fences.valid(e) ==> board.edge(e) == if b0.edge(e) is None && (target_upto(
                                ch,
                                i as int,
                                e,
                            ) || in_prefix(cands@, j as int, e)) {
                                Some(false)
                            } else {
                                b0.edge(e)
                            },
                        changed == exists|e: Edge| #[trigger]
                            b0.fences.valid(e) && b0.edge(e) is None && (target_upto(ch, i as int, e) || in_prefix(
                                cands@,
                                j as int,
                                e,
                            )),
                        !changed ==> board.fences.same_as(&b0.fences),
                        changed ==> board.fences.unknowns() < b0.fences.unknowns(),
                    decreases cands.len() - j,
                {
                    let e = cands[j];
                    let ghost before = *board;
                    let ghost changed_before = changed;
                    if board.valid_edge(e) && board.fences.get(e).0.is_none() {
                        let name = String::new();
                        let _ = board.play(e.0, (e.1, e.2), false, name);
                        proof {
                            b0.fences.lemma_extended_trans(&before.fences, &board.fences);
                            b0.fences.lemma_unknowns_mono(&before.fences);
                            assert(b0.fences.valid(e));
                            assert(in_prefix(cands@, j + 1, e));
                        }
                        changed = true;
                    }
                    proof {
                        assert forall|e2: Edge| #[trigger] b0.fences.valid(e2) implies board.edge(e2) == if b0.edge(e2) is None && (
                        target_upto(ch, i as int, e2) || in_prefix(cands@, j + 1, e2)) {
                            Some(false)
                        } else {
                            b0.edge(e2)
                        } by {
                            assert(before.fences.valid(e2));
                            if in_prefix(cands@, j + 1, e2) && e2 != e {
                                let k = choose|k: int| 0 <= k < j + 1 && #[trigger] cands@[k] == e2;
                                assert(in_prefix(cands@, j as int, e2));
                            }
                            if e2 == e {
                                assert(cands@[j as int] == e);
                            }
                        }
                        if !changed {
                            assert forall|e2: Edge| #[trigger] b0.fences.valid(e2) implies !(b0.edge(e2) is None && (
                            target_upto(ch, i as int, e2) || in_prefix(cands@, j + 1, e2))) by {
                                if in_prefix(cands@, j + 1, e2) && e2 != e {
                                    let k = choose|k: int| 0 <= k < j + 1 && #[trigger] cands@[k] == e2;
                                    assert(in_prefix(cands@, j as int, e2));
                                }
                                if e2 == e {
                                    assert(before.fences.valid(e2));
                                }
                            }
                        } else if changed_before {
                            let w = choose|w: Edge| #[trigger]
                                b0.fences.valid(w) && b0.edge(w) is None && (target_upto(ch, i as int, w) || in_prefix(
                                    cands@,
                                    j as int,
                                    w,
                                ));
                            if in_prefix(cands@, j as int, w) {
                                let k = choose|k: int| 0 <= k < j && #[trigger] cands@[k] == w;
                                assert(in_prefix(cands@, j + 1, w));
                            }
                            assert(b0.fences.valid(w) && b0.edge(w) is None && (target_upto(ch, i as int, w) || in_prefix(
                                cands@,
                                j + 1,
                                w,
                            )));
                        } else {
                            assert(b0.fences.valid(e) && b0.edge(e) is None && in_prefix(cands@, j + 1, e));
                        }
                    }
                    j = j + 1;
                }
                proof {
                    assert forall|e: Edge| #[trigger] b0.fences.valid(e) implies (target_upto(ch, i as int, e) || in_prefix(
                        cands@,
                        j as int,
                        e,
                    )) == target_upto(ch, i + 1, e) by {
                        if in_prefix(cands@, j as int, e) {
                            let k = choose|k: int| 0 <= k < j && #[trigger] cands@[k] == e;
                            assert(cands@.contains(e));
                            assert(target_upto(ch, i + 1, e)) by {
                                assert(ch[i as int].len() >= 3 && chain_target(ch[i as int], e));
                            }
                        }
                        if target_upto(ch, i + 1, e) && !target_upto(ch, i as int, e) {
                            let k = choose|k: int| 0 <= k < i + 1 && (#[trigger] ch[k]).len() >= 3 && chain_target(ch[k], e);
                            assert(k == i);
                            assert(cands@.contains(e));
                            let m = choose|m: int| 0 <= m < cands@.len() && cands@[m] == e;
                            assert(in_prefix(cands@, j as int, e));
                        }
                    }
                }
            } else {
                proof {
                    assert forall|e: Edge| #[trigger] b0.fences.valid(e) implies target_upto(ch, i as int, e) == target_upto(
                        ch,
                        i + 1,
                        e,
                    ) by {
                        if target_upto(ch, i + 1, e) {
                            let k = choose|k: int| 0 <= k < i + 1 && (#[trigger] ch[k]).len() >= 3 && chain_target(ch[k], e);
                            assert(k != i);
                        }
                    }
                }
            }
            i = i + 1;
        }
        proof {
            assert forall|e: Edge| #[trigger] b0.fences.valid(e) implies target_upto(ch, i as int, e) == is_target(ch, e) by {
                if is_target(ch, e) {
                    let k = choose|k: int| 0 <= k < ch.len() && (#[trigger] ch[k]).len() >= 3 && chain_target(ch[k], e);
                    assert(target_upto(ch, i as int, e));
                }
            }
        }
    } else {
        proof {
            assert forall|e: Edge| #[trigger] b0.fences.valid(e) implies !is_target(ch, e) by {}
        }
    }
    changed
}


/// A solve stopped because rule `rule`, anchored at `origin`, would set
/// `edge` to `value` while the board holds the opposite value.
#[derive(Debug, Clone, Copy, PartialEq, Eq)]
pub struct SolveError {
    pub rule: usize,
    pub origin: Idx,
    pub edge: Edge,
    pub value: bool,
}

impl BoardRule {
    /// The rule would fire at `idx`: placement, clues and every input edge
    /// hold, and some output edge is still undecided.
    pub open spec fn ready(&self, b: &Board, idx: Idx) -> bool {
        self.matched(b, idx) && self.inputs_match(b, idx)
    }

    /// The rule can never fire at `idx`, on this board or any board that
    /// keeps its decided edges and clues.
    pub open spec fn dead(&self, b: &Board, idx: Idx) -> bool {
        !self.matched(b, idx) || self.input_conflict(b, idx)
    }
}

/// No rule is ready anywhere and no edge would close a small loop: the
/// fixpoint of propagation.
pub open spec fn settled(rules: Seq<BoardRule>, b: Board) -> bool {
    &&& forall|i: int, idx: Idx| 0 <= i < rules.len() ==> !#[trigger] rules[i].ready(&b, idx)
    &&& !prunes(b.fences)
}

/// `s` holds the pair `(idx, i)` at position `from` or later.
pub open spec fn has_pair(s: Seq<(Idx, usize)>, from: int, idx: Idx, i: int) -> bool {
    exists|m: int| from <= m < s.len() && (#[trigger] s[m]).0 == idx && s[m].1 == i
}

/// A dead rule instance stays dead as edges get decided, and is never ready.
pub proof fn lemma_dead_mono(rule: BoardRule, b1: Board, b2: Board, idx: Idx)
    requires
        rule.wf(),
        b1.wf(),
        b2.wf(),
        b1.tasks == b2.tasks,
        b1.fences.extended_by(&b2.fences),
        rule.dead(&b1, idx),
    ensures
        rule.dead(&b2, idx),
        !rule.ready(&b2, idx),
{
    if rule.matched(&b2, idx) && !rule.input_conflict(&b1, idx) {
        assert(rule.placed(b1.rows(), b1.cols(), idx));
        assert(rule.clues_match(&b1, idx));
        if pat_open(rule.solution.h, 0, b2.fences, idx) {
            let (r, c) = choose|r: int, c: int| #[trigger] care(rule.solution.h, r, c) && b2.fences.at(0, idx.0 + r, idx.1 + c) is None;
            lemma_at_kept(b1.fences, b2.fences, 0, idx.0 + r, idx.1 + c);
            assert(pat_open(rule.solution.h, 0, b1.fences, idx));
        } else if pat_open(rule.solution.v, 1, b2.fences, idx) {
            let (r, c) = choose|r: int, c: int| #[trigger] care(rule.solution.v, r, c) && b2.fences.at(1, idx.0 + r, idx.1 + c) is None;
            lemma_at_kept(b1.fences, b2.fences, 1, idx.0 + r, idx.1 + c);
            assert(pat_open(rule.solution.v, 1, b1.fences, idx));
        } else if pat_conflict(rule.solution.h, 0, b2.fences, idx) {
            let (r, c) = choose|r: int, c: int|
                #[trigger] care(rule.solution.h, r, c) && b2.fences.at(0, idx.0 + r, idx.1 + c) is Some
                    && b2.fences.at(0, idx.0 + r, idx.1 + c) != rule.solution.h.at(r, c).0;
            lemma_at_kept(b1.fences, b2.fences, 0, idx.0 + r, idx.1 + c);
            if b1.fences.at(0, idx.0 + r, idx.1 + c) is None {
                assert(pat_open(rule.solution.h, 0, b1.fences, idx));
            } else {
                assert(pat_conflict(rule.solution.h, 0, b1.fences, idx));
            }
        } else {
            let (r, c) = choose|r: int, c: int|
                #[trigger] care(rule.solution.v, r, c) && b2.fences.at(1, idx.0 + r, idx.1 + c) is Some
                    && b2.fences.at(1, idx.0 + r, idx.1 + c) != rule.solution.v.at(r, c).0;
            lemma_at_kept(b1.fences, b2.fences, 1, idx.0 + r, idx.1 + c);
            if b1.fences.at(1, idx.0 + r, idx.1 + c) is None {
                assert(pat_open(rule.solution.v, 1, b1.fences, idx));
            } else {
                assert(pat_conflict(rule.solution.v, 1, b1.fences, idx));
            }
        }
    }
    if rule.input_conflict(&b1, idx) && rule.matched(&b2, idx) {
        assert(rule.placed(b1.rows(), b1.cols(), idx));
        if pat_conflict(rule.fences.h, 0, b1.fences, idx) {
            let (r, c) = choose|r: int, c: int|
                #[trigger] care(rule.fences.h, r, c) && b1.fences.at(0, idx.0 + r, idx.1 + c) is Some && b1.fences.at(
                    0,
                    idx.0 + r,
                    idx.1 + c,
                ) != rule.fences.h.at(r, c).0;
            lemma_at_kept(b1.fences, b2.fences, 0, idx.0 + r, idx.1 + c);
            assert(pat_conflict(rule.fences.h, 0, b2.fences, idx));
        } else {
            let (r, c) = choose|r: int, c: int|
                #[trigger] care(rule.fences.v, r, c) && b1.fences.at(1, idx.0 + r, idx.1 + c) is Some && b1.fences.at(
                    1,
                    idx.0 + r,
                    idx.1 + c,
                ) != rule.fences.v.at(r, c).0;
            lemma_at_kept(b1.fences, b2.fences, 1, idx.0 + r, idx.1 + c);
            assert(pat_conflict(rule.fences.v, 1, b2.fences, idx));
        }
    }
    if rule.input_conflict(&b2, idx) && rule.inputs_match(&b2, idx) {
        if pat_conflict(rule.fences.h, 0, b2.fences, idx) {
            let (r, c) = choose|r: int, c: int|
                #[trigger] care(rule.fences.h, r, c) && b2.fences.at(0, idx.0 + r, idx.1 + c) is Some && b2.fences.at(
                    0,
                    idx.0 + r,
                    idx.1 + c,
                ) != rule.fences.h.at(r, c).0;
        } else {
            let (r, c) = choose|r: int, c: int|
                #[trigger] care(rule.fences.v, r, c) && b2.fences.at(1, idx.0 + r, idx.1 + c) is Some && b2.fences.at(
                    1,
                    idx.0 + r,
                    idx.1 + c,
                ) != rule.fences.v.at(r, c).0;
        }
    }
}

/// A decided edge keeps its value in any extension.
pub proof fn lemma_at_kept(f1: Fences, f2: Fences, d: int, r: int, c: int)
    requires
        f1.extended_by(&f2),
        f1.h.wf(),
        f1.v.wf(),
        f1.in_dir(d, r, c),
    ensures
        f1.at(d, r, c) is Some ==> f2.at(d, r, c) == f1.at(d, r, c),
{
    if d == 0 {
        crate::grid::lemma_offset(f1.h.rows as int, f1.h.cols as int, r, c);
        if f1.at(d, r, c) is Some {
            assert(f2.h.data@[r * f1.h.cols + c] == f1.h.data@[r * f1.h.cols + c]);
        }
    } else {
        crate::grid::lemma_offset(f1.v.rows as int, f1.v.cols as int, r, c);
        if f1.at(d, r, c) is Some {
            assert(f2.v.data@[r * f1.v.cols + c] == f1.v.data@[r * f1.v.cols + c]);
        }
    }
}


/// Once a rule fired at `idx`, every output edge it cares about is decided,
/// so it is dead there.
pub proof fn lemma_fired_dead(rule: BoardRule, b1: Board, b2: Board, idx: Idx)
    requires
        rule.wf(),
        b1.wf(),
        b2.wf(),
        b1.tasks == b2.tasks,
        rule.placed(b1.rows(), b1.cols(), idx),
        stamped_all(rule.solution, idx, b1.fences, b2.fences),
    ensures
        rule.dead(&b2, idx),
{
    if pat_open(rule.solution.h, 0, b2.fences, idx) {
        let (r, c) = choose|r: int, c: int| #[trigger] care(rule.solution.h, r, c) && b2.fences.at(0, idx.0 + r, idx.1 + c) is None;
        assert(b1.fences.in_dir(0, idx.0 + r, idx.1 + c));
    }
    if pat_open(rule.solution.v, 1, b2.fences, idx) {
        let (r, c) = choose|r: int, c: int| #[trigger] care(rule.solution.v, r, c) && b2.fences.at(1, idx.0 + r, idx.1 + c) is None;
        assert(b1.fences.in_dir(1, idx.0 + r, idx.1 + c));
    }
    if pat_conflict(rule.solution.h, 0, b2.fences, idx) {
        let (r, c) = choose|r: int, c: int|
            #[trigger] care(rule.solution.h, r, c) && b2.fences.at(0, idx.0 + r, idx.1 + c) is Some
                && b2.fences.at(0, idx.0 + r, idx.1 + c) != rule.solution.h.at(r, c).0;
        assert(b1.fences.in_dir(0, idx.0 + r, idx.1 + c));
    }
    if pat_conflict(rule.solution.v, 1, b2.fences, idx) {
        let (r, c) = choose|r: int, c: int|
            #[trigger] care(rule.solution.v, r, c) && b2.fences.at(1, idx.0 + r, idx.1 + c) is Some
                && b2.fences.at(1, idx.0 + r, idx.1 + c) != rule.solution.v.at(r, c).0;
        assert(b1.fences.in_dir(1, idx.0 + r, idx.1 + c));
    }
}

/// Boards with the same clues and edges agree on which rules are ready.
pub proof fn lemma_ready_same(rule: BoardRule, b1: Board, b2: Board, idx: Idx)
    requires
        b1.tasks == b2.tasks,
        b1.fences.same_as(&b2.fences),
    ensures
        rule.ready(&b1, idx) == rule.ready(&b2, idx),
        rule.dead(&b1, idx) == rule.dead(&b2, idx),
{
    assert forall|d: int, r: int, c: int| #[trigger] b1.fences.at(d, r, c) == b2.fences.at(d, r, c) by {}
}

/// Fences with the same edges have the same chains and prune alike.
pub proof fn lemma_prunes_same(f1: Fences, f2: Fences)
    requires
        f1.same_as(&f2),
    ensures
        chains(f1) == chains(f2),
        prunes(f1) == prunes(f2),
{
    assert(crate::board::on_edges(f1) == crate::board::on_edges(f2));
    if prunes(f1) {
        let e = choose|e: Edge| #[trigger] f1.valid(e) && f1.val(e) is None && is_target(chains(f1), e);
        assert(f2.valid(e));
    }
    if prunes(f2) {
        let e = choose|e: Edge| #[trigger] f2.valid(e) && f2.val(e) is None && is_target(chains(f2), e);
        assert(f1.valid(e));
    }
}

/// A rule anchored inside a `rows` by `cols` board has its anchor on a cell.
pub proof fn lemma_placed_in_range(rule: BoardRule, rows: int, cols: int, idx: Idx)
    requires
        rule.wf(),
        rule.placed(rows, cols, idx),
    ensures
        idx.0 < rows,
        idx.1 < cols,
{
}


/// On board `b`, edge `e` holds the value that some rule sets when it fires
/// at an anchor where its placement, clues and inputs hold.
pub open spec fn rule_justified(rules: Seq<BoardRule>, b: Board, e: Edge) -> bool {
    exists|i: int, idx: Idx|
        0 <= i < rules.len() && #[trigger] rules[i].anchored(&b, idx) && rules[i].inputs_match(&b, idx) && stamped(
            rules[i].solution,
            e.0 as int,
            idx,
            e.1 as int,
            e.2 as int,
            None,
        ) == b.edge(e)
}

/// Edge `e` is ruled out in `n`, and on some board between `o` and `n` it was
/// undecided and would have closed a chain into a small loop.
pub open spec fn prune_justified(o: Fences, n: Fences, e: Edge) -> bool {
    &&& n.val(e) == Some(false)
    &&& exists|m: Fences|
        #[trigger] o.extended_by(&m) && m.extended_by(&n) && m.h.wf() && m.v.wf() && m.val(e) is None
            && is_target(chains(m), e)
}

/// Every edge decided in `n` but not in `o` was set by a rule that fires on
/// `n`, or ruled out by loop-closure pruning on the way from `o` to `n`.
pub open spec fn justified(rules: Seq<BoardRule>, o: Board, n: Board) -> bool {
    forall|e: Edge|
        #[trigger] o.fences.valid(e) && o.edge(e) is None && n.edge(e) is Some ==> rule_justified(rules, n, e)
            || prune_justified(o.fences, n.fences, e)
}

/// The inputs a rule found on a board are still there on any extension.
proof fn lemma_inputs_kept(rule: BoardRule, b1: Board, b2: Board, idx: Idx)
    requires
        rule.wf(),
        b1.wf(),
        b1.tasks == b2.tasks,
        b1.fences.extended_by(&b2.fences),
        rule.anchored(&b1, idx),
        rule.inputs_match(&b1, idx),
    ensures
        rule.anchored(&b2, idx),
        rule.inputs_match(&b2, idx),
{
    assert forall|r: int, c: int| #[trigger] care(rule.fences.h, r, c) implies b2.fences.at(0, idx.0 + r, idx.1 + c)
        == rule.fences.h.at(r, c).0 by {
        lemma_at_kept(b1.fences, b2.fences, 0, idx.0 + r, idx.1 + c);
    }
    assert forall|r: int, c: int| #[trigger] care(rule.fences.v, r, c) implies b2.fences.at(1, idx.0 + r, idx.1 + c)
        == rule.fences.v.at(r, c).0 by {
        lemma_at_kept(b1.fences, b2.fences, 1, idx.0 + r, idx.1 + c);
    }
}

/// Justifications compose along extensions.
proof fn lemma_justified_step(rules: Seq<BoardRule>, o: Board, m: Board, n: Board)
    requires
        forall|i: int| 0 <= i < rules.len() ==> (#[trigger] rules[i]).wf(),
        o.wf(),
        m.wf(),
        n.wf(),
        o.tasks == m.tasks,
        m.tasks == n.tasks,
        o.fences.extended_by(&m.fences),
        m.fences.extended_by(&n.fences),
        justified(rules, o, m),
        justified(rules, m, n),
    ensures
        justified(rules, o, n),
{
    assert forall|e: Edge|
        #[trigger] o.fences.valid(e) && o.edge(e) is None && n.edge(e) is Some implies rule_justified(rules, n, e)
            || prune_justified(o.fences, n.fences, e) by {
        assert(m.fences.valid(e));
        lemma_at_kept(m.fences, n.fences, e.0 as int, e.1 as int, e.2 as int);
        if m.edge(e) is Some {
            if rule_justified(rules, m, e) {
                let (i, idx) = choose|i: int, idx: Idx|
                    0 <= i < rules.len() && #[trigger] rules[i].anchored(&m, idx) && rules[i].inputs_match(&m, idx)
                        && stamped(rules[i].solution, e.0 as int, idx, e.1 as int, e.2 as int, None) == m.edge(e);
                lemma_inputs_kept(rules[i], m, n, idx);
                assert(rule_justified(rules, n, e));
            } else {
                let mm = choose|mm: Fences|
                    #[trigger] o.fences.extended_by(&mm) && mm.extended_by(&m.fences) && mm.h.wf() && mm.v.wf()
                        && mm.val(e) is None && is_target(chains(mm), e);
                o.fences.lemma_extended_trans(&mm, &m.fences);
                mm.lemma_extended_trans(&m.fences, &n.fences);
                assert(o.fences.extended_by(&mm) && mm.extended_by(&n.fences));
                assert(prune_justified(o.fences, n.fences, e));
            }
        } else {
            if !rule_justified(rules, n, e) {
                let mm = choose|mm: Fences|
                    #[trigger] m.fences.extended_by(&mm) && mm.extended_by(&n.fences) && mm.h.wf() && mm.v.wf()
                        && mm.val(e) is None && is_target(chains(mm), e);
                o.fences.lemma_extended_trans(&m.fences, &mm);
                assert(o.fences.extended_by(&mm));
                assert(prune_justified(o.fences, n.fences, e));
            }
        }
    }
}

/// A board is trivially justified against itself, and against a board with
/// the same edges.
proof fn lemma_justified_same(rules: Seq<BoardRule>, o: Board, n: Board)
    requires
        o.fences.same_as(&n.fences),
    ensures
        justified(rules, o, n),
{
    assert forall|e: Edge| #[trigger] o.fences.valid(e) && o.edge(e) is None implies !(n.edge(e) is Some) by {}
}

/// When a rule fires, every edge it decides is justified by it.
proof fn lemma_fired_justified(rules: Seq<BoardRule>, i: int, b1: Board, b2: Board, idx: Idx)
    requires
        0 <= i < rules.len(),
        forall|k: int| 0 <= k < rules.len() ==> (#[trigger] rules[k]).wf(),
        b1.wf(),
        b2.wf(),
        b1.tasks == b2.tasks,
        b1.fences.extended_by(&b2.fences),
        rules[i].anchored(&b1, idx),
        rules[i].inputs_match(&b1, idx),
        stamped_all(rules[i].solution, idx, b1.fences, b2.fences),
    ensures
        justified(rules, b1, b2),
{
    lemma_inputs_kept(rules[i], b1, b2, idx);
    assert forall|e: Edge| #[trigger] b1.fences.valid(e) && b1.edge(e) is None && b2.edge(e) is Some implies rule_justified(
        rules,
        b2,
        e,
    ) || prune_justified(b1.fences, b2.fences, e) by {
        assert(b1.fences.in_dir(e.0 as int, e.1 as int, e.2 as int));
        assert(rules[i].anchored(&b2, idx));
    }
}

/// Every edge that loop-closure pruning decides is justified by it.
proof fn lemma_pruned_justified(rules: Seq<BoardRule>, b1: Board, b2: Board)
    requires
        b1.wf(),
        b1.fences.extended_by(&b2.fences),
        pruned(b1.fences, b2.fences),
    ensures
        justified(rules, b1, b2),
{
    assert forall|e: Edge| #[trigger] b1.fences.valid(e) && b1.edge(e) is None && b2.edge(e) is Some implies rule_justified(
        rules,
        b2,
        e,
    ) || prune_justified(b1.fences, b2.fences, e) by {
        assert(b1.fences.extended_by(&b1.fences));
        assert(b1.fences.extended_by(&b1.fences) && b1.fences.extended_by(&b2.fences) && b1.fences.h.wf()
            && b1.fences.v.wf() && b1.fences.val(e) is None && is_target(chains(b1.fences), e));
    }
}

/// Propagates `rules` over the board to a fixpoint.  Each (anchor, rule)
/// pair stays a candidate until it fires or can no longer fire; after each
/// pass over the candidates, edges that would close a small loop are ruled
/// out.  Stops when a pass changes nothing, or on a contradiction.
pub fn solve(board: &mut Board, rules: &Vec<BoardRule>) -> (res: Result<(), SolveError>)
    requires
        old(board).wf(),
        forall|i: int| 0 <= i < rules.len() ==> (#[trigger] rules[i]).wf(),
    ensures
        final(board).wf(),
        final(board).tasks == old(board).tasks,
        old(board).fences.extended_by(&final(board).fences),
        justified(rules@, *old(board), *final(board)),
        res is Ok ==> settled(rules@, *final(board)),
        settled(rules@, *old(board)) ==> res is Ok && final(board).fences.same_as(&old(board).fences),
        res matches Err(e) ==> {
            &&& e.rule < rules.len()
            &&& rules[e.rule as int].ready(final(board), e.origin)
            &&& final(board).fences.valid(e.edge)
            &&& final(board).edge(e.edge) == Some(!e.value)
            &&& stamped(rules[e.rule as int].solution, e.edge.0 as int, e.origin, e.edge.1 as int, e.edge.2 as int, None)
                == Some(e.value)
        },
{
    let ghost b_orig = *board;
    let rows = board.rows_count();
    let cols = board.cols_count();
    let n = rules.len();
    let mut alive: Vec<(Idx, usize)> = Vec::new();
    let mut r: usize = 0;
    while r < rows
        invariant
            n == rules.len(),
            rows == board.rows(),
            cols == board.cols(),
            r <= rows,
            forall|m: int| 0 <= m < alive.len() ==> (#[trigger] alive@[m]).1 < n,
            forall|i: int, idx: Idx|
                0 <= i < n && idx.0 < r && idx.1 < cols ==> #[trigger] has_pair(alive@, 0, idx, i),
        decreases rows - r,
    {
        let mut c: usize = 0;
        while c < cols
            invariant
                n == rules.len(),
                rows == board.rows(),
                cols == board.cols(),
                r < rows,
                c <= cols,
                forall|m: int| 0 <= m < alive.len() ==> (#[trigger] alive@[m]).1 < n,
                forall|i: int, idx: Idx|
                    0 <= i < n && (idx.0 < r || (idx.0 == r && idx.1 < c)) && idx.1 < cols ==> #[trigger] has_pair(
                        alive@,
                        0,
                        idx,
                        i,
                    ),
            decreases cols - c,
        {
            let mut i: usize = 0;
            while i < n
                invariant
                    n == rules.len(),
                    rows == board.rows(),
                    cols == board.cols(),
                    r < rows,
                    c < cols,
                    i <= n,
                    forall|m: int| 0 <= m < alive.len() ==> (#[trigger] alive@[m]).1 < n,
                    forall|i2: int, idx: Idx|
                        0 <= i2 < n && (idx.0 < r || (idx.0 == r && idx.1 < c) || (idx == (r, c) && i2 < i))
                            && idx.1 < cols ==> #[trigger] has_pair(alive@, 0, idx, i2),
                decreases n - i,
            {
                let ghost before = alive@;
                alive.push(((r, c), i));
                proof {
                    assert forall|i2: int, idx: Idx|
                        0 <= i2 < n && (idx.0 < r || (idx.0 == r && idx.1 < c) || (idx == (r, c) && i2 < i + 1))
                            && idx.1 < cols implies #[trigger] has_pair(alive@, 0, idx, i2) by {
                        if idx == (r, c) && i2 == i {
                            assert(alive@[before.len() as int] == ((r, c), i));
                        } else {
                            assert(has_pair(before, 0, idx, i2));
                            let m = choose|m: int| 0 <= m < before.len() && (#[trigger] before[m]).0 == idx && before[m].1 == i2;
                            assert(alive@[m] == before[m]);
                        }
                    }
                }
                i = i + 1;
            }
            c = c + 1;
        }
        r = r + 1;
    }
    proof {
        assert forall|i: int, idx: Idx| 0 <= i < n && !(#[trigger] rules[i].dead(board, idx)) implies has_pair(
            alive@,
            0,
            idx,
            i,
        ) by {
            lemma_placed_in_range(rules[i], board.rows(), board.cols(), idx);
        }
    }
    loop
        invariant
            n == rules.len(),
            forall|i: int| 0 <= i < rules.len() ==> (#[trigger] rules[i]).wf(),
            b_orig == *old(board),
            board.wf(),
            board.tasks == b_orig.tasks,
            b_orig.fences.extended_by(&board.fences),
            forall|m: int| 0 <= m < alive.len() ==> (#[trigger] alive@[m]).1 < n,
            forall|i: int, idx: Idx| 0 <= i < n && !(#[trigger] rules[i].dead(board, idx)) ==> has_pair(
                alive@,
                0,
                idx,
                i,
            ),
            settled(rules@, b_orig) ==> board.fences.same_as(&b_orig.fences),
            justified(rules@, b_orig, *board),
            b_orig.wf(),
        decreases board.fences.unknowns(),
    {
        let ghost start = *board;
        let mut progress = false;
        let mut next: Vec<(Idx, usize)> = Vec::new();
        let mut k: usize = 0;
        while k < alive.len()
            invariant
                n == rules.len(),
                forall|i: int| 0 <= i < rules.len() ==> (#[trigger] rules[i]).wf(),
                b_orig == *old(board),
                board.wf(),
                board.tasks == b_orig.tasks,
                start.tasks == b_orig.tasks,
                start.wf(),
                b_orig.fences.extended_by(&board.fences),
                start.fences.extended_by(&board.fences),
                k <= alive.len(),
                forall|m: int| 0 <= m < alive.len() ==> (#[trigger] alive@[m]).1 < n,
                forall|m: int| 0 <= m < next.len() ==> (#[trigger] next@[m]).1 < n,
                forall|i: int, idx: Idx| 0 <= i < n && !(#[trigger] rules[i].dead(board, idx)) ==> has_pair(
                    next@,
                    0,
                    idx,
                    i,
                ) || has_pair(alive@, k as int, idx, i),
                !progress ==> board.fences.same_as(&start.fences),
                progress ==> board.fences.unknowns() < start.fences.unknowns(),
                !progress ==> forall|m: int|
                    0 <= m < next.len() ==> !rules[(#[trigger] next@[m]).1 as int].ready(board, next@[m].0),
                settled(rules@, b_orig) ==> board.fences.same_as(&b_orig.fences) && !progress,
                settled(rules@, b_orig) ==> start.fences.same_as(&b_orig.fences),
                justified(rules@, b_orig, *board),
                b_orig.wf(),
            decreases alive.len() - k,
        {
            let (idx, i) = alive[k];
            let ghost before = *board;
            let ghost next_before = next@;
            let out = rules[i].apply_at(board, idx);
            proof {
                before.fences.lemma_extended_trans(&before.fences, &board.fences);
                b_orig.fences.lemma_extended_trans(&before.fences, &board.fences);
                start.fences.lemma_extended_trans(&before.fences, &board.fences);
                if settled(rules@, b_orig) {
                    lemma_ready_same(rules[i as int], before, b_orig, idx);
                    assert(!rules[i as int].ready(&b_orig, idx));
                }
            }
            match out {
                Err(x) => {
                    proof {
                        lemma_justified_same(rules@, before, *board);
                        lemma_justified_step(rules@, b_orig, before, *board);
                        assert(rules[i as int].ready(&before, idx));
                        if settled(rules@, b_orig) {
                            lemma_ready_same(rules[i as int], before, b_orig, idx);
                            assert(!rules@[i as int].ready(&b_orig, idx));
                        }
                    }
                    return Err(SolveError { rule: i, origin: idx, edge: x.edge, value: x.value });
                },
                Ok(Apply::Pending) => {
                    next.push((idx, i));
                    proof {
                        lemma_justified_same(rules@, before, *board);
                        lemma_justified_step(rules@, b_orig, before, *board);
                    }
                },
                Ok(Apply::Deduced) => {
                    progress = true;
                    proof {
                        start.fences.lemma_unknowns_mono(&before.fences);
                        lemma_fired_dead(rules[i as int], before, *board, idx);
                        lemma_fired_justified(rules@, i as int, before, *board, idx);
                        lemma_justified_step(rules@, b_orig, before, *board);
                    }
                },
                Ok(_) => {
                    proof {
                        lemma_justified_same(rules@, before, *board);
                        lemma_justified_step(rules@, b_orig, before, *board);
                    }
                },
            }
            proof {
                assert forall|i2: int, idx2: Idx| 0 <= i2 < n && !(#[trigger] rules[i2].dead(board, idx2)) implies has_pair(
                    next@,
                    0,
                    idx2,
                    i2,
                ) || has_pair(alive@, k + 1, idx2, i2) by {
                    if rules[i2].dead(&before, idx2) {
                        lemma_dead_mono(rules[i2], before, *board, idx2);
                    }
                    if has_pair(next_before, 0, idx2, i2) {
                        let m = choose|m: int| 0 <= m < next_before.len() && (#[trigger] next_before[m]).0 == idx2 && next_before[m].1 == i2;
                        assert(next@[m] == next_before[m]);
                    } else {
                        let m = choose|m: int| k <= m < alive@.len() && (#[trigger] alive@[m]).0 == idx2 && alive@[m].1 == i2;
                        if m == k {
                            assert(idx2 == idx && i2 == i);
                            if out == Ok::<Apply, crate::board::Contradiction>(Apply::Pending) {
                                assert(next@[next@.len() - 1] == (idx, i));
                            }
                        }
                    }
                }
                if !progress {
                    lemma_ready_same(rules[i as int], before, *board, idx);
                    assert forall|m: int| 0 <= m < next.len() implies !rules[(#[trigger] next@[m]).1 as int].ready(
                        board,
                        next@[m].0,
                    ) by {
                        if m < next_before.len() {
                            assert(next@[m] == next_before[m]);
                            lemma_ready_same(rules[next@[m].1 as int], before, *board, next@[m].0);
                        }
                    }
                }
            }
            k = k + 1;
        }
        let ghost after_pass = *board;
        let changed = block_closed_paths(board);
        proof {
            lemma_pruned_justified(rules@, after_pass, *board);
            lemma_justified_step(rules@, b_orig, after_pass, *board);
            start.fences.lemma_extended_trans(&after_pass.fences, &board.fences);
            b_orig.fences.lemma_extended_trans(&after_pass.fences, &board.fences);
            after_pass.fences.lemma_unknowns_mono(&board.fences);
            assert forall|i: int, idx: Idx| 0 <= i < n && !(#[trigger] rules[i].dead(board, idx)) implies has_pair(
                next@,
                0,
                idx,
                i,
            ) by {
                if rules[i].dead(&after_pass, idx) {
                    lemma_dead_mono(rules[i], after_pass, *board, idx);
                }
                assert(!has_pair(alive@, alive.len() as int, idx, i));
            }
            if settled(rules@, b_orig) {
                lemma_prunes_same(after_pass.fences, b_orig.fences);
            }
        }
        if !progress && !changed {
            proof {
                assert forall|i: int, idx: Idx| 0 <= i < rules.len() implies !#[trigger] rules@[i].ready(board, idx) by {
                    if rules[i].dead(board, idx) {
                        lemma_dead_mono(rules[i], *board, *board, idx);
                    } else {
                        let m = choose|m: int| 0 <= m < next@.len() && (#[trigger] next@[m]).0 == idx && next@[m].1 == i;
                        lemma_ready_same(rules[i], after_pass, *board, idx);
                    }
                }
                lemma_prunes_same(after_pass.fences, board.fences);
            }
            return Ok(());
        }
        alive = next;
    }
}


/// Closure pruning: while more than one chain exists, a chain of three or
/// more loop edges that starts and ends on opposite sides of one cell (top
/// and bottom, or left and right) makes both other sides of that cell edges
/// that `block_closed_paths` rules out when undecided.
pub proof fn lemma_box_closure_pruned(f: Fences, i: int, r: usize, c: usize)
    requires
        r < usize::MAX,
        c < usize::MAX,
        chains(f).len() > 1,
        0 <= i < chains(f).len(),
        chains(f)[i].len() >= 3,
        ({
            let p = chains(f)[i];
            ||| p[0] == (0usize, r, c) && p.last() == (0usize, (r + 1) as usize, c)
            ||| p[0] == (0usize, (r + 1) as usize, c) && p.last() == (0usize, r, c)
            ||| p[0] == (1usize, r, c) && p.last() == (1usize, r, (c + 1) as usize)
            ||| p[0] == (1usize, r, (c + 1) as usize) && p.last() == (1usize, r, c)
        }),
    ensures
        chains(f)[i][0].0 == 0 ==> is_target(chains(f), (1usize, r, c)) && is_target(
            chains(f),
            (1usize, r, (c + 1) as usize),
        ),
        chains(f)[i][0].0 == 1 ==> is_target(chains(f), (0usize, r, c)) && is_target(
            chains(f),
            (0usize, (r + 1) as usize, c),
        ),
{
    let ch = chains(f);
    let p = ch[i];
    let fst = p[0];
    let lst = p.last();
    assert(tight(fst, lst));
    let cands = tight_cands(fst, lst);
    if fst.0 == 0 {
        assert(cands[0] == (1usize, r, c));
        assert(cands[1] == (1usize, r, (c + 1) as usize));
        assert(chain_target(p, (1usize, r, c)));
        assert(chain_target(p, (1usize, r, (c + 1) as usize)));
    } else {
        assert(cands[0] == (0usize, r, c));
        assert(cands[1] == (0usize, (r + 1) as usize, c));
        assert(chain_target(p, (0usize, r, c)));
        assert(chain_target(p, (0usize, (r + 1) as usize, c)));
    }
}

/// With at most one chain nothing is ruled out, so a loop that closes over
/// the whole board is left alone.
pub proof fn lemma_single_chain_untouched(f: Fences)
    requires
        chains(f).len() <= 1,
    ensures
        !prunes(f),
{
}


/// What propagation reads and writes of a board: clues, edges, decisions
/// and the chains of loop edges.
pub trait FencesSolver: BoardGeom {
    /// The board is well formed.
    spec fn solvable(&self) -> bool;

    spec fn has_cell(&self, idx: Idx) -> bool;

    spec fn has_edge(&self, e: Edge) -> bool;

    spec fn clue_of(&self, idx: Idx) -> U2;

    spec fn value_of(&self, e: Edge) -> Option<bool>;

    spec fn chain_view(&self) -> Seq<Seq<Edge>>;

    /// The clue of cell `idx`.
    fn task(&self, idx: Idx) -> (t: U2)
        requires
            self.solvable(),
            self.has_cell(idx),
        ensures
            t == self.clue_of(idx),
    ;

    /// The edge of direction `dir` at `idx`.
    fn edge(&self, dir: usize, idx: Idx) -> (f: Fence)
        requires
            self.solvable(),
            self.has_edge((dir, idx.0, idx.1)),
        ensures
            f.0 == self.value_of((dir, idx.0, idx.1)),
    ;

    /// Decides an edge; an edge decided the other way is refused.
    fn play(&mut self, dir: usize, idx: Idx, val: bool, id: String) -> (r: Result<(), Contradiction>)
        requires
            old(self).solvable(),
            old(self).has_edge((dir, idx.0, idx.1)),
        ensures
            final(self).solvable(),
            (r is Err) == (old(self).value_of((dir, idx.0, idx.1)) == Some(!val)),
            final(self).value_of((dir, idx.0, idx.1)) == if old(self).value_of((dir, idx.0, idx.1)) is None {
                Some(val)
            } else {
                old(self).value_of((dir, idx.0, idx.1))
            },
            forall|e: Edge| #[trigger] old(self).has_edge(e) ==> final(self).has_edge(e),
            forall|e: Edge|
                old(self).has_edge(e) && e != (dir, idx.0, idx.1) ==> #[trigger] final(self).value_of(e)
                    == old(self).value_of(e),
    ;

    /// The chains of loop edges.
    fn paths(&self) -> (p: Vec<Vec<Edge>>)
        requires
            self.solvable(),
        ensures
            p@.map_values(|c: Vec<Edge>| c@) == self.chain_view(),
    ;
}

impl FencesSolver for Board {
    open spec fn solvable(&self) -> bool {
        self.wf()
    }

    open spec fn has_cell(&self, idx: Idx) -> bool {
        self.tasks.in_bounds(idx.0 as int, idx.1 as int)
    }

    open spec fn has_edge(&self, e: Edge) -> bool {
        self.fences.valid(e)
    }

    open spec fn clue_of(&self, idx: Idx) -> U2 {
        self.tasks.at(idx.0 as int, idx.1 as int)
    }

    open spec fn value_of(&self, e: Edge) -> Option<bool> {
        self.edge(e)
    }

    open spec fn chain_view(&self) -> Seq<Seq<Edge>> {
        chains(self.fences)
    }

    fn task(&self, idx: Idx) -> (t: U2) {
        Board::task(self, idx)
    }

    fn edge(&self, dir: usize, idx: Idx) -> (f: Fence) {
        self.edge_at(dir, idx)
    }

    fn play(&mut self, dir: usize, idx: Idx, val: bool, id: String) -> (r: Result<(), Contradiction>) {
        let r = Board::play(self, dir, idx, val, id);
        proof {
            let e = (dir, idx.0, idx.1);
            assert(old(self).fences.valid(e));
            assert forall|e: Edge| #[trigger] old(self).fences.valid(e) implies self.fences.valid(e) by {}
            if old(self).edge(e) is Some {
                let v = old(self).edge(e)->Some_0;
                if v == val {
                    assert(old(self).edge(e) == Some(val));
                } else {
                    assert(old(self).edge(e) == Some(!val));
                }
                assert(self.fences.same_as(&old(self).fences));
                assert(self.edge(e) == old(self).edge(e));
            }
        }
        r
    }

    fn paths(&self) -> (p: Vec<Vec<Edge>>) {
        Board::paths(self)
    }
}

} // verus!
