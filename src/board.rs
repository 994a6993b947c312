use crate::grid::{lemma_offset, Grid};
use crate::items::{fence_of_char, Fence, U2};
use crate::text::{chars_of, digits_value, find_char, first_from, is_digit, parse_usize};
use vstd::prelude::*;

verus! {

/// An edge `(direction, row, col)`: direction 0 joins dots `(row, col)` and
/// `(row, col + 1)`, direction 1 joins dots `(row, col)` and `(row + 1, col)`.
pub type Edge = (usize, usize, usize);

/// A cell or dot coordinate `(row, col)`.
pub type Idx = (usize, usize);

/// The two dots an edge joins.
pub open spec fn ends(e: Edge) -> ((int, int), (int, int)) {
    if e.0 == 0 {
        ((e.1 as int, e.2 as int), (e.1 as int, e.2 + 1))
    } else {
        ((e.1 as int, e.2 as int), (e.1 + 1, e.2 as int))
    }
}

/// Whether dot `d` is an end of edge `e`.
pub open spec fn touches(e: Edge, d: (int, int)) -> bool {
    ends(e).0 == d || ends(e).1 == d
}

/// Two distinct edges are linked when they share an end dot.
pub open spec fn linked(a: Edge, b: Edge) -> bool {
    a != b && (touches(b, ends(a).0) || touches(b, ends(a).1))
}

/// Every edge of the sequence has direction 0 or 1.
pub open spec fn dirs_ok(s: Seq<Edge>) -> bool {
    forall|i: int| 0 <= i < s.len() ==> (#[trigger] s[i]).0 <= 1
}

/// Whether two edges share exactly one end dot.
pub fn are_linked(l: &Edge, r: &Edge) -> (b: bool)
    requires
        l.0 <= 1,
        r.0 <= 1,
    ensures
        b == linked(*l, *r),
{
    if l.0 == r.0 {
        if l.0 == 0 {
            l.1 == r.1 && ((r.2 > 0 && l.2 == r.2 - 1) || (l.2 > 0 && r.2 == l.2 - 1))
        } else {
            l.2 == r.2 && ((r.1 > 0 && l.1 == r.1 - 1) || (l.1 > 0 && r.1 == l.1 - 1))
        }
    } else {
        let (h, v) = if l.0 == 0 {
            (l, r)
        } else {
            (r, l)
        };
        (h.1 == v.1 || (h.1 > 0 && h.1 - 1 == v.1)) && (h.2 == v.2 || (v.2 > 0 && v.2 - 1 == h.2))
    }
}

/// Number of undecided cells.
pub open spec fn count_unknown(s: Seq<Fence>) -> nat
    decreases s.len(),
{
    if s.len() == 0 {
        0
    } else {
        count_unknown(s.drop_last()) + if s.last().0 is None {
            1nat
        } else {
            0nat
        }
    }
}

/// `b` keeps every decided cell of `a`.
pub open spec fn seq_extends(a: Seq<Fence>, b: Seq<Fence>) -> bool {
    &&& a.len() == b.len()
    &&& forall|i: int| 0 <= i < a.len() && a[i].0 is Some ==> #[trigger] b[i] == a[i]
}

/// Keeping decided cells is transitive.
pub proof fn lemma_extends_trans(a: Seq<Fence>, b: Seq<Fence>, c: Seq<Fence>)
    requires
        seq_extends(a, b),
        seq_extends(b, c),
    ensures
        seq_extends(a, c),
{
    assert forall|i: int| 0 <= i < a.len() && a[i].0 is Some implies #[trigger] c[i] == a[i] by {
        assert(b[i] == a[i]);
    }
}

/// Deciding cells never adds undecided ones; deciding one makes one fewer.
pub proof fn lemma_count_extends(a: Seq<Fence>, b: Seq<Fence>, w: int)
    requires
        seq_extends(a, b),
    ensures
        count_unknown(b) <= count_unknown(a),
        0 <= w < a.len() && a[w].0 is None && b[w].0 is Some ==> count_unknown(b) < count_unknown(
            a,
        ),
    decreases a.len(),
{
    if a.len() > 0 {
        let n = a.len() - 1;
        assert(seq_extends(a.drop_last(), b.drop_last())) by {
            assert forall|i: int|
                0 <= i < a.drop_last().len() && a.drop_last()[i].0 is Some implies #[trigger] b.drop_last()[i]
                == a.drop_last()[i] by {
                assert(b[i] == a[i]);
            }
        }
        lemma_count_extends(a.drop_last(), b.drop_last(), w);
        if a[n].0 is Some {
            assert(b[n] == a[n]);
        }
    }
}

/// The two edge grids of a board: `h` holds direction 0, `v` direction 1.
#[derive(Debug)]
pub struct Fences {
    pub h: Grid<Fence>,
    pub v: Grid<Fence>,
}

impl Fences {
    /// Shapes of a board of `rows` by `cols` cells.
    pub open spec fn wf_for(&self, rows: int, cols: int) -> bool {
        &&& self.h.wf()
        &&& self.v.wf()
        &&& self.h.rows == rows + 1
        &&& self.h.cols == cols
        &&& self.v.rows == rows
        &&& self.v.cols == cols + 1
    }

    pub open spec fn valid(&self, e: Edge) -> bool {
        ||| e.0 == 0 && self.h.in_bounds(e.1 as int, e.2 as int)
        ||| e.0 == 1 && self.v.in_bounds(e.1 as int, e.2 as int)
    }

    /// Whether `(r, c)` is a cell of the grid of direction `dir`.
    pub open spec fn in_dir(&self, dir: int, r: int, c: int) -> bool {
        ||| dir == 0 && self.h.in_bounds(r, c)
        ||| dir == 1 && self.v.in_bounds(r, c)
    }

    /// The value of the edge of direction `dir` at `(r, c)`.
    pub open spec fn at(&self, dir: int, r: int, c: int) -> Option<bool> {
        if dir == 0 {
            self.h.at(r, c).0
        } else {
            self.v.at(r, c).0
        }
    }

    /// The value of edge `e`.
    pub open spec fn val(&self, e: Edge) -> Option<bool> {
        self.at(e.0 as int, e.1 as int, e.2 as int)
    }

    pub open spec fn same_shape(&self, o: &Fences) -> bool {
        &&& self.h.rows == o.h.rows
        &&& self.h.cols == o.h.cols
        &&& self.v.rows == o.v.rows
        &&& self.v.cols == o.v.cols
    }

    /// `o` holds exactly the edges of `self`.
    pub open spec fn same_as(&self, o: &Fences) -> bool {
        &&& self.same_shape(o)
        &&& self.h.data@ == o.h.data@
        &&& self.v.data@ == o.v.data@
    }

    /// `o` has the shape of `self` and keeps every decided edge of it.
    pub open spec fn extended_by(&self, o: &Fences) -> bool {
        &&& self.same_shape(o)
        &&& seq_extends(self.h.data@, o.h.data@)
        &&& seq_extends(self.v.data@, o.v.data@)
    }

    /// `extended_by` is transitive and never adds undecided edges.
    pub proof fn lemma_extended_trans(&self, b: &Fences, c: &Fences)
        requires
            self.extended_by(b),
            b.extended_by(c),
        ensures
            self.extended_by(c),
            c.unknowns() <= b.unknowns(),
    {
        lemma_extends_trans(self.h.data@, b.h.data@, c.h.data@);
        lemma_extends_trans(self.v.data@, b.v.data@, c.v.data@);
        lemma_count_extends(b.h.data@, c.h.data@, -1);
        lemma_count_extends(b.v.data@, c.v.data@, -1);
    }

    /// Extending never adds undecided edges.
    pub proof fn lemma_unknowns_mono(&self, b: &Fences)
        requires
            self.extended_by(b),
        ensures
            b.unknowns() <= self.unknowns(),
    {
        lemma_count_extends(self.h.data@, b.h.data@, -1);
        lemma_count_extends(self.v.data@, b.v.data@, -1);
    }

    /// Number of undecided edges.
    pub open spec fn unknowns(&self) -> nat {
        count_unknown(self.h.data@) + count_unknown(self.v.data@)
    }

    /// `o` is `self` with edge `e` set to `x` and nothing else changed.
    pub open spec fn set_in(&self, o: &Fences, e: Edge, x: Option<bool>) -> bool {
        &&& self.same_shape(o)
        &&& o.h.wf()
        &&& o.v.wf()
        &&& forall|e2: Edge| #[trigger]
            self.valid(e2) ==> o.val(e2) == if e2 == e {
                x
            } else {
                self.val(e2)
            }
    }

    /// A `rows` by `cols` board's edges, all undecided.
    pub fn new(rows: usize, cols: usize) -> (f: Fences)
        requires
            (rows + 1) * (cols + 1) <= usize::MAX,
        ensures
            f.wf_for(rows as int, cols as int),
            forall|e: Edge| #[trigger] f.valid(e) ==> f.val(e) is None,
    {
        proof {
            assert((rows + 1) * cols <= (rows + 1) * (cols + 1)) by (nonlinear_arith);
            assert(rows * (cols + 1) <= (rows + 1) * (cols + 1)) by (nonlinear_arith);
            assert(rows + 1 <= (rows + 1) * (cols + 1)) by (nonlinear_arith);
            assert(cols + 1 <= (rows + 1) * (cols + 1)) by (nonlinear_arith);
        }
        Fences { h: Grid::filled(rows + 1, cols, Fence(None)), v: Grid::filled(rows, cols + 1, Fence(None)) }
    }

    /// The value of edge `e`.
    pub fn get(&self, e: Edge) -> (f: Fence)
        requires
            self.h.wf(),
            self.v.wf(),
            self.valid(e),
        ensures
            f.0 == self.val(e),
    {
        if e.0 == 0 {
            self.h.get(e.1, e.2)
        } else {
            self.v.get(e.1, e.2)
        }
    }

    /// Sets edge `e` to `f`.
    pub fn set(&mut self, e: Edge, f: Fence)
        requires
            old(self).h.wf(),
            old(self).v.wf(),
            old(self).valid(e),
        ensures
            old(self).set_in(final(self), e, f.0),
            old(self).val(e) is Some && f.0 == old(self).val(e) ==> final(self).same_as(old(self)),
            old(self).val(e) is None && f.0 is Some ==> old(self).extended_by(final(self))
                && final(self).unknowns() < old(self).unknowns(),
    {
        let ghost o = *self;
        if e.0 == 0 {
            let ghost i = e.1 * self.h.cols + e.2;
            proof {
                lemma_offset(self.h.rows as int, self.h.cols as int, e.1 as int, e.2 as int);
            }
            self.h.set(e.1, e.2, f);
            proof {
                if o.val(e) is Some && f.0 == o.val(e) {
                    assert(self.h.data@ =~= o.h.data@);
                }
                if o.val(e) is None && f.0 is Some {
                    lemma_count_extends(o.h.data@, self.h.data@, i);
                }
            }
        } else {
            let ghost i = e.1 * self.v.cols + e.2;
            proof {
                lemma_offset(self.v.rows as int, self.v.cols as int, e.1 as int, e.2 as int);
            }
            self.v.set(e.1, e.2, f);
            proof {
                if o.val(e) is Some && f.0 == o.val(e) {
                    assert(self.v.data@ =~= o.v.data@);
                }
                if o.val(e) is None && f.0 is Some {
                    lemma_count_extends(o.v.data@, self.v.data@, i);
                }
            }
        }
    }
}


/// The loop edges among the first `n` cells of grid `g` (direction `dir`),
/// in row-major order.
pub open spec fn on_prefix(data: Seq<Fence>, cols: int, dir: usize, n: int) -> Seq<Edge>
    decreases n,
{
    if n <= 0 {
        seq![]
    } else {
        let prev = on_prefix(data, cols, dir, n - 1);
        if data[n - 1].0 == Some(true) {
            prev.push((dir, ((n - 1) / cols) as usize, ((n - 1) % cols) as usize))
        } else {
            prev
        }
    }
}

/// All loop edges: direction 0 row-major, then direction 1 row-major.
pub open spec fn on_edges(f: Fences) -> Seq<Edge> {
    on_prefix(f.h.data@, f.h.cols as int, 0, f.h.data.len() as int) + on_prefix(
        f.v.data@,
        f.v.cols as int,
        1,
        f.v.data.len() as int,
    )
}

/// Every edge listed by `on_prefix` is an in-bounds loop edge of `g`.
pub proof fn lemma_on_prefix(g: Grid<Fence>, dir: usize, n: int)
    requires
        g.wf(),
        n <= g.data.len(),
    ensures
        forall|i: int|
            0 <= i < on_prefix(g.data@, g.cols as int, dir, n).len() ==> {
                let e = #[trigger] on_prefix(g.data@, g.cols as int, dir, n)[i];
                &&& e.0 == dir
                &&& g.in_bounds(e.1 as int, e.2 as int)
                &&& g.at(e.1 as int, e.2 as int).0 == Some(true)
            },
    decreases n,
{
    if n > 0 {
        lemma_on_prefix(g, dir, n - 1);
        let k = n - 1;
        if g.data@[k].0 == Some(true) {
            let r = k / g.cols as int;
            let c = k % g.cols as int;
            assert(g.cols > 0) by {
                if g.cols == 0 {
                    assert(g.rows * g.cols == 0) by (nonlinear_arith)
                        requires
                            g.cols == 0,
                    ;
                }
            }
            vstd::arithmetic::div_mod::lemma_fundamental_div_mod(k, g.cols as int);
            assert(0 <= r < g.rows) by {
                assert(k == g.cols * r + c);
                if r >= g.rows {
                    assert(g.cols * r >= g.rows * g.cols) by (nonlinear_arith)
                        requires
                            r >= g.rows,
                            g.cols > 0,
                    ;
                }
                assert(r >= 0) by (nonlinear_arith)
                    requires
                        k >= 0,
                        k == g.cols * r + c,
                        0 <= c < g.cols,
                ;
            }
            assert(r * g.cols + c == k) by (nonlinear_arith)
                requires
                    k == g.cols * r + c,
            ;
        }
    }
}

/// Every edge listed by `on_edges` is a valid loop edge.
pub proof fn lemma_on_edges(f: Fences, rows: int, cols: int)
    requires
        f.wf_for(rows, cols),
    ensures
        dirs_ok(on_edges(f)),
        forall|i: int|
            0 <= i < on_edges(f).len() ==> f.valid(#[trigger] on_edges(f)[i]) && f.val(
                on_edges(f)[i],
            ) == Some(true),
{
    lemma_on_prefix(f.h, 0, f.h.data.len() as int);
    lemma_on_prefix(f.v, 1, f.v.data.len() as int);
    let a = on_prefix(f.h.data@, f.h.cols as int, 0, f.h.data.len() as int);
    let b = on_prefix(f.v.data@, f.v.cols as int, 1, f.v.data.len() as int);
    assert forall|i: int| 0 <= i < on_edges(f).len() implies f.valid(#[trigger] on_edges(f)[i])
        && f.val(on_edges(f)[i]) == Some(true) && on_edges(f)[i].0 <= 1 by {
        if i < a.len() {
            assert(on_edges(f)[i] == a[i]);
        } else {
            assert(on_edges(f)[i] == b[i - a.len()]);
        }
    }
}

/// Index of the first edge of `pool`, from position `i` on, that is linked to `e`.
pub open spec fn first_linked(pool: Seq<Edge>, e: Edge, i: int) -> Option<int>
    decreases pool.len() - i,
{
    if i < 0 || i >= pool.len() {
        None
    } else if linked(pool[i], e) {
        Some(i)
    } else {
        first_linked(pool, e, i + 1)
    }
}

/// What `first_linked` finds is a linked position at or after `i`.
pub proof fn lemma_first_linked(pool: Seq<Edge>, e: Edge, i: int)
    ensures
        first_linked(pool, e, i) matches Some(j) ==> 0 <= i <= j < pool.len() && linked(pool[j], e),
    decreases pool.len() - i,
{
    if 0 <= i < pool.len() && !linked(pool[i], e) {
        lemma_first_linked(pool, e, i + 1);
    }
}

/// `pool` without position `i`, whose place the last edge takes.
pub open spec fn swap_removed(pool: Seq<Edge>, i: int) -> Seq<Edge> {
    pool.update(i, pool.last()).drop_last()
}

/// Grows `row` at its front by the first linked edge of `pool`, if any.
pub open spec fn grow_front(pool: Seq<Edge>, row: Seq<Edge>) -> (Seq<Edge>, Seq<Edge>, bool) {
    match first_linked(pool, row[0], 0) {
        Some(i) => (swap_removed(pool, i), seq![pool[i]] + row, true),
        None => (pool, row, false),
    }
}

/// Grows `row` at its back by the first linked edge of `pool`, if any.
pub open spec fn grow_back(pool: Seq<Edge>, row: Seq<Edge>) -> (Seq<Edge>, Seq<Edge>, bool) {
    match first_linked(pool, row.last(), 0) {
        Some(i) => (swap_removed(pool, i), row.push(pool[i]), true),
        None => (pool, row, false),
    }
}

/// The greedy chain builder: the chains already closed are `acc`, the open
/// chain is `row`, the edges not placed yet are `pool`.  A chain starts from
/// the last edge of the pool, then grows by one linked edge at its front and
/// one at its back per round, and closes when neither end grew or the pool
/// ran out.
pub open spec fn grow_chains(pool: Seq<Edge>, row: Seq<Edge>, acc: Seq<Seq<Edge>>) -> Seq<
    Seq<Edge>,
>
    decreases 2 * pool.len() + if row.len() > 0 {
        1int
    } else {
        0int
    },
    via grow_chains_decreases
{
    if pool.len() == 0 {
        acc
    } else {
        let row0 = if row.len() == 0 {
            seq![pool.last()]
        } else {
            row
        };
        let pool0 = if row.len() == 0 {
            pool.drop_last()
        } else {
            pool
        };
        let front = grow_front(pool0, row0);
        let back = grow_back(front.0, front.1);
        if !(front.2 || back.2) || back.0.len() == 0 {
            grow_chains(back.0, seq![], acc.push(back.1))
        } else {
            grow_chains(back.0, back.1, acc)
        }
    }
}

#[via_fn]
proof fn grow_chains_decreases(pool: Seq<Edge>, row: Seq<Edge>, acc: Seq<Seq<Edge>>) {
    if pool.len() > 0 {
        let row0 = if row.len() == 0 {
            seq![pool.last()]
        } else {
            row
        };
        let pool0 = if row.len() == 0 {
            pool.drop_last()
        } else {
            pool
        };
        lemma_first_linked(pool0, row0[0], 0);
        let front = grow_front(pool0, row0);
        lemma_first_linked(front.0, front.1.last(), 0);
    }
}

/// The chains of loop edges that path analysis works on.
pub open spec fn chains(f: Fences) -> Seq<Seq<Edge>> {
    grow_chains(on_edges(f), seq![], seq![])
}

/// The loop edges of `g`, direction `dir`, appended to `out` in row-major order.
fn collect_on(g: &Grid<Fence>, dir: usize, out: &mut Vec<Edge>)
    requires
        g.wf(),
    ensures
        final(out)@ == old(out)@ + on_prefix(g.data@, g.cols as int, dir, g.data.len() as int),
{
    let ghost start = out@;
    let mut k: usize = 0;
    let mut r: usize = 0;
    let mut c: usize = 0;
    while k < g.data.len()
        invariant
            g.wf(),
            k <= g.data.len(),
            k < g.data.len() ==> g.cols > 0 && k == r * g.cols + c && c < g.cols,
            out@ == start + on_prefix(g.data@, g.cols as int, dir, k as int),
        decreases g.data.len() - k,
    {
        proof {
            vstd::arithmetic::div_mod::lemma_fundamental_div_mod_converse(
                k as int,
                g.cols as int,
                r as int,
                c as int,
            );
            assert(r < g.rows) by {
                if r >= g.rows {
                    assert(r * g.cols >= g.rows * g.cols) by (nonlinear_arith)
                        requires
                            r >= g.rows,
                            g.cols > 0,
                    ;
                }
            }
        }
        if g.data[k].0 == Some(true) {
            out.push((dir, r, c));
        }
        k = k + 1;
        c = c + 1;
        if c == g.cols {
            c = 0;
            r = r + 1;
        }
        proof {
            assert(on_prefix(g.data@, g.cols as int, dir, k as int) == if g.data@[k - 1].0 == Some(true) {
                on_prefix(g.data@, g.cols as int, dir, k - 1).push((dir, ((k - 1) / g.cols as int) as usize, ((k - 1) % g.cols as int) as usize))
            } else {
                on_prefix(g.data@, g.cols as int, dir, k - 1)
            });
            if k < g.data.len() {
                assert(k == r * g.cols + c) by (nonlinear_arith)
                    requires
                        k - 1 == (if c == 0 { r - 1 } else { r as int }) * g.cols + (if c == 0 { g.cols - 1 } else { c - 1 }),
                        c == 0 || c >= 1,
                ;
            }
        }
    }
}

/// The first position of `pool` holding an edge linked to `e`.
fn find_linked(pool: &Vec<Edge>, e: &Edge) -> (r: Option<usize>)
    requires
        dirs_ok(pool@),
        e.0 <= 1,
    ensures
        r matches Some(i) ==> first_linked(pool@, *e, 0) == Some(i as int) && i < pool.len(),
        r is None ==> first_linked(pool@, *e, 0) is None,
{
    let mut i: usize = 0;
    while i < pool.len()
        invariant
            dirs_ok(pool@),
            e.0 <= 1,
            i <= pool.len(),
            first_linked(pool@, *e, 0) == first_linked(pool@, *e, i as int),
        decreases pool.len() - i,
    {
        if are_linked(&pool[i], e) {
            return Some(i);
        }
        i = i + 1;
    }
    None
}

/// The chains of loop edges: a greedy split of the loop edges into runs of
/// linked edges (see `grow_chains`).
pub fn get_paths(fences: &Fences) -> (ret: Vec<Vec<Edge>>)
    requires
        fences.h.wf(),
        fences.v.wf(),
        fences.h.rows == fences.v.rows + 1,
        fences.v.cols == fences.h.cols + 1,
    ensures
        ret@.map_values(|c: Vec<Edge>| c@) == chains(*fences),
{
    let mut dashes: Vec<Edge> = Vec::new();
    collect_on(&fences.h, 0, &mut dashes);
    collect_on(&fences.v, 1, &mut dashes);
    proof {
        lemma_on_edges(*fences, fences.v.rows as int, fences.h.cols as int);
        assert(dashes@ == on_edges(*fences));
    }
    let mut ret: Vec<Vec<Edge>> = Vec::new();
    let mut row: Vec<Edge> = Vec::new();
    assert(ret@.map_values(|c: Vec<Edge>| c@) =~= Seq::<Seq<Edge>>::empty());
    assert(row@ =~= Seq::<Edge>::empty());
    while dashes.len() > 0
        invariant
            dirs_ok(dashes@),
            dirs_ok(row@),
            grow_chains(dashes@, row@, ret@.map_values(|c: Vec<Edge>| c@)) == chains(*fences),
        decreases 2 * dashes.len() + if row.len() > 0 {
            1int
        } else {
            0int
        },
    {
        let ghost pool = dashes@;
        let ghost row_in = row@;
        let ghost acc = ret@.map_values(|c: Vec<Edge>| c@);
        if row.len() == 0 {
            let e = dashes.pop().unwrap();
            row.push(e);
        }
        proof {
            assert(row@ == if row_in.len() == 0 { seq![pool.last()] } else { row_in });
            assert(dashes@ == if row_in.len() == 0 { pool.drop_last() } else { pool });
        }
        let ghost pool0 = dashes@;
        let ghost row0 = row@;
        let mut changed = false;
        let first = row[0];
        match find_linked(&dashes, &first) {
            Some(i) => {
                let e = dashes.swap_remove(i);
                row.insert(0, e);
                changed = true;
            },
            None => {},
        }
        proof {
            let front = grow_front(pool0, row0);
            assert(dashes@ == front.0);
            assert(row@ == front.1);
            assert(changed == front.2);
        }
        let ghost pool1 = dashes@;
        let ghost row1 = row@;
        let last = row[row.len() - 1];
        match find_linked(&dashes, &last) {
            Some(i) => {
                let e = dashes.swap_remove(i);
                row.push(e);
                changed = true;
            },
            None => {},
        }
        proof {
            let back = grow_back(pool1, row1);
            assert(dashes@ == back.0);
            assert(row@ == back.1);
        }
        if !changed || dashes.len() == 0 {
            let done = row;
            row = Vec::new();
            ret.push(done);
            proof {
                assert(ret@.map_values(|c: Vec<Edge>| c@) == acc.push(done@));
            }
        }
    }
    proof {
        assert(grow_chains(dashes@, row@, ret@.map_values(|c: Vec<Edge>| c@)) == ret@.map_values(|c: Vec<Edge>| c@));
    }
    ret
}


/// One decision recorded on a board.
#[derive(Debug)]
pub struct Move {
    pub direction: usize,
    pub idx: Idx,
    pub value: bool,
    pub name: String,
}

impl Move {
    pub open spec fn edge(&self) -> Edge {
        (self.direction, self.idx.0, self.idx.1)
    }
}

/// An attempt to set an edge to the opposite of its decided value.
#[derive(Debug, Clone, Copy, PartialEq, Eq)]
pub struct Contradiction {
    pub edge: Edge,
    pub value: bool,
}

/// A reset asked for more moves than the board has.
#[derive(Debug, Clone, Copy, PartialEq, Eq)]
pub struct InvalidReset {
    pub to: usize,
    pub len: usize,
}

/// A puzzle: clues on `rows` by `cols` cells and the edges around them.
#[derive(Debug)]
pub struct Board {
    pub fences: Fences,
    pub tasks: Grid<U2>,
    pub moves: Vec<Move>,
}

/// 1 when `cond` holds and `v` is `Some(t)`, else 0.
pub open spec fn ind(cond: bool, v: Option<bool>, t: bool) -> int {
    if cond && v == Some(t) {
        1
    } else {
        0
    }
}

/// Whether some chain of more than two edges closes on itself while other
/// chains exist.
pub open spec fn premature(ch: Seq<Seq<Edge>>) -> bool {
    ch.len() > 1 && exists|i: int|
        0 <= i < ch.len() && (#[trigger] ch[i]).len() > 2 && linked(ch[i][0], ch[i].last())
}

/// Whether the chains are one chain whose ends are linked.
pub open spec fn single_closed(ch: Seq<Seq<Edge>>) -> bool {
    ch.len() == 1 && ch[0].len() > 0 && linked(ch[0][0], ch[0].last())
}

impl Board {
    pub open spec fn rows(&self) -> int {
        self.tasks.rows as int
    }

    pub open spec fn cols(&self) -> int {
        self.tasks.cols as int
    }

    pub open spec fn clue(&self, r: int, c: int) -> Option<u8> {
        self.tasks.at(r, c).0
    }

    pub open spec fn edge(&self, e: Edge) -> Option<bool> {
        self.fences.val(e)
    }

    pub open spec fn wf(&self) -> bool {
        &&& self.tasks.wf()
        &&& self.fences.wf_for(self.rows(), self.cols())
        &&& (self.rows() + 1) * (self.cols() + 1) <= usize::MAX
        &&& forall|r: int, c: int| #[trigger] self.tasks.in_bounds(r, c) ==> self.tasks.at(r, c).wf()
        &&& forall|i: int|
            0 <= i < self.moves.len() ==> self.fences.valid(#[trigger] self.moves@[i].edge())
    }

    /// Loop edges (`t`) or ruled-out edges (`!t`) meeting at dot `(r, c)`.
    pub open spec fn dot_count(&self, r: int, c: int, t: bool) -> int {
        ind(c < self.cols(), self.fences.at(0, r, c), t) + ind(r < self.rows(), self.fences.at(1, r, c), t)
            + ind(c > 0, self.fences.at(0, r, c - 1), t) + ind(r > 0, self.fences.at(1, r - 1, c), t)
    }

    /// A dot with more than two loop edges, or a dead end: one loop edge and
    /// three ruled out.
    pub open spec fn dot_bad(&self, r: int, c: int) -> bool {
        self.dot_count(r, c, true) > 2 || (self.dot_count(r, c, true) == 1 && self.dot_count(r, c, false) == 3)
    }

    /// Loop edges (`t`) or ruled-out edges (`!t`) around cell `(r, c)`.
    pub open spec fn cell_count(&self, r: int, c: int, t: bool) -> int {
        ind(true, self.fences.at(0, r, c), t) + ind(true, self.fences.at(1, r, c), t) + ind(
            true,
            self.fences.at(0, r + 1, c),
            t,
        ) + ind(true, self.fences.at(1, r, c + 1), t)
    }

    /// A clue that the edges around its cell already break.
    pub open spec fn clue_bad(&self, r: int, c: int) -> bool {
        !self.tasks.at(r, c).allows(self.cell_count(r, c, false), self.cell_count(r, c, true))
    }

    /// A clue matched exactly by the loop edges around its cell.
    pub open spec fn clue_met(&self, r: int, c: int) -> bool {
        match self.clue(r, c) {
            Some(x) => self.cell_count(r, c, true) == x,
            None => true,
        }
    }

    pub open spec fn any_dot_bad(&self) -> bool {
        exists|r: int, c: int| 0 <= r <= self.rows() && 0 <= c <= self.cols() && #[trigger] self.dot_bad(r, c)
    }

    pub open spec fn any_clue_bad(&self) -> bool {
        exists|r: int, c: int| #[trigger] self.tasks.in_bounds(r, c) && self.clue_bad(r, c)
    }

    pub open spec fn all_clues_met(&self) -> bool {
        forall|r: int, c: int| #[trigger] self.tasks.in_bounds(r, c) ==> self.clue_met(r, c)
    }

    /// The verdict on the board: `Some(false)` for a broken dot, a broken
    /// clue or a closed sub-loop; `Some(true)` when every clue is met and the
    /// loop edges form one closed loop; `None` while still open.
    pub open spec fn verdict(&self) -> Option<bool> {
        if self.any_dot_bad() {
            Some(false)
        } else if self.any_clue_bad() {
            Some(false)
        } else if premature(chains(self.fences)) {
            Some(false)
        } else if self.all_clues_met() && single_closed(chains(self.fences)) {
            Some(true)
        } else {
            None
        }
    }

    /// A board with the given clues and every edge undecided.
    pub fn from_clues(tasks: Grid<U2>) -> (b: Board)
        requires
            tasks.wf(),
            (tasks.rows + 1) * (tasks.cols + 1) <= usize::MAX,
            forall|r: int, c: int| #[trigger] tasks.in_bounds(r, c) ==> tasks.at(r, c).wf(),
        ensures
            b.wf(),
            b.tasks == tasks,
            b.moves@.len() == 0,
            forall|e: Edge| #[trigger] b.fences.valid(e) ==> b.edge(e) is None,
    {
        let fences = Fences::new(tasks.rows, tasks.cols);
        Board { fences, tasks, moves: Vec::new() }
    }

    /// `(rows, cols)` of the clue grid.
    pub fn size(&self) -> (r: (usize, usize))
        ensures
            r == (self.tasks.rows, self.tasks.cols),
    {
        self.tasks.size()
    }

    pub fn rows_count(&self) -> (r: usize)
        ensures
            r == self.rows(),
    {
        self.tasks.rows
    }

    pub fn cols_count(&self) -> (r: usize)
        ensures
            r == self.cols(),
    {
        self.tasks.cols
    }

    /// The clue of cell `idx`.
    pub fn task(&self, idx: Idx) -> (t: U2)
        requires
            self.wf(),
            self.tasks.in_bounds(idx.0 as int, idx.1 as int),
        ensures
            t == self.tasks.at(idx.0 as int, idx.1 as int),
    {
        self.tasks.get(idx.0, idx.1)
    }

    /// The value of the edge of direction `dir` at `idx`.
    pub fn edge_at(&self, dir: usize, idx: Idx) -> (f: Fence)
        requires
            self.wf(),
            self.fences.valid((dir, idx.0, idx.1)),
        ensures
            f.0 == self.edge((dir, idx.0, idx.1)),
    {
        self.fences.get((dir, idx.0, idx.1))
    }

    /// Whether `e` is an edge of this board.
    pub fn valid_edge(&self, e: Edge) -> (r: bool)
        requires
            self.wf(),
        ensures
            r == self.fences.valid(e),
    {
        (e.0 == 0 && e.1 < self.fences.h.rows && e.2 < self.fences.h.cols) || (e.0 == 1 && e.1
            < self.fences.v.rows && e.2 < self.fences.v.cols)
    }

    /// The recorded moves, oldest first.
    pub fn moves(&self) -> (m: &Vec<Move>)
        ensures
            m == &self.moves,
    {
        &self.moves
    }

    /// Decides edge `(direction, idx)`.  Setting it to the value it already
    /// has changes nothing; setting it to the opposite value is refused.
    pub fn play(&mut self, direction: usize, idx: Idx, value: bool, name: String) -> (r: Result<
        (),
        Contradiction,
    >)
        requires
            old(self).wf(),
            old(self).fences.valid((direction, idx.0, idx.1)),
        ensures
            final(self).wf(),
            final(self).tasks == old(self).tasks,
            old(self).edge((direction, idx.0, idx.1)) == Some(value) ==> r is Ok && final(self).fences.same_as(&old(self).fences) && final(self).moves@ == old(self).moves@,
            old(self).edge((direction, idx.0, idx.1)) == Some(!value) ==> r == Err::<(), Contradiction>((Contradiction { edge: (direction, idx.0, idx.1), value })) && final(self).fences.same_as(&old(self).fences) && final(self).moves@ == old(self).moves@,
            old(self).edge((direction, idx.0, idx.1)) is None ==> {
                &&& r is Ok
                &&& old(self).fences.set_in(&final(self).fences, (direction, idx.0, idx.1), Some(value))
                &&& old(self).fences.extended_by(&final(self).fences)
                &&& final(self).fences.unknowns() < old(self).fences.unknowns()
                &&& final(self).moves@ == old(self).moves@.push((Move { direction, idx, value, name }))
            },
    {
        let e = (direction, idx.0, idx.1);
        let cur = self.fences.get(e);
        match cur.0 {
            Some(v) => {
                if v == value {
                    Ok(())
                } else {
                    Err(Contradiction { edge: e, value })
                }
            },
            None => {
                self.fences.set(e, Fence(Some(value)));
                self.moves.push(Move { direction, idx, value, name });
                proof {
                    assert forall|i: int| 0 <= i < self.moves.len() implies self.fences.valid(
                        #[trigger] self.moves@[i].edge(),
                    ) by {
                        if i < old(self).moves.len() {
                            assert(self.moves@[i] == old(self).moves@[i]);
                        }
                    }
                }
                Ok(())
            },
        }
    }

    /// Undoes the moves after the first `to`, oldest last; refused when
    /// fewer than `to` moves were made.
    pub fn reset_to(&mut self, to: usize) -> (r: Result<(), InvalidReset>)
        requires
            old(self).wf(),
        ensures
            final(self).wf(),
            final(self).tasks == old(self).tasks,
            to > old(self).moves.len() ==> r == Err::<(), InvalidReset>((InvalidReset { to, len: old(self).moves.len() })) && final(self).fences.same_as(&old(self).fences) && final(self).moves@ == old(self).moves@,
            to <= old(self).moves.len() ==> {
                &&& r is Ok
                &&& final(self).moves@ == old(self).moves@.subrange(0, to as int)
                &&& final(self).fences.same_shape(&old(self).fences)
                &&& forall|e: Edge| #[trigger]
                    old(self).fences.valid(e) ==> final(self).edge(e) == if undone_from(
                        old(self).moves@,
                        to as int,
                        e,
                    ) {
                        None
                    } else {
                        old(self).edge(e)
                    }
            },
    {
        if to > self.moves.len() {
            return Err(InvalidReset { to, len: self.moves.len() });
        }
        let ghost old_moves = self.moves@;
        while self.moves.len() > to
            invariant
                self.wf(),
                self.tasks == old(self).tasks,
                to <= self.moves.len() <= old_moves.len(),
                old_moves == old(self).moves@,
                self.moves@ == old_moves.subrange(0, self.moves.len() as int),
                self.fences.same_shape(&old(self).fences),
                forall|e: Edge| #[trigger]
                    old(self).fences.valid(e) ==> self.edge(e) == if undone_from(
                        old_moves,
                        self.moves.len() as int,
                        e,
                    ) {
                        None
                    } else {
                        old(self).edge(e)
                    },
            decreases self.moves.len(),
        {
            let ghost n = self.moves.len() as int;
            let m = self.moves.pop().unwrap();
            assert(m == old_moves[n - 1]);
            assert(self.fences.valid(m.edge()));
            let ghost f1 = self.fences;
            self.fences.set((m.direction, m.idx.0, m.idx.1), Fence(None));
            proof {
                assert forall|e: Edge| #[trigger] old(self).fences.valid(e) implies self.edge(e) == if undone_from(
                    old_moves,
                    n - 1,
                    e,
                ) {
                    None
                } else {
                    old(self).edge(e)
                } by {
                    assert(f1.valid(e));
                    if e == m.edge() {
                        assert(undone_from(old_moves, n - 1, e)) by {
                            assert(old_moves[n - 1].edge() == e);
                        }
                    } else {
                        if undone_from(old_moves, n - 1, e) {
                            let i = choose|i: int| n - 1 <= i < old_moves.len() && #[trigger] old_moves[i].edge() == e;
                            assert(i != n - 1);
                            assert(undone_from(old_moves, n, e));
                        }
                        if undone_from(old_moves, n, e) {
                            let i = choose|i: int| n <= i < old_moves.len() && #[trigger] old_moves[i].edge() == e;
                            assert(undone_from(old_moves, n - 1, e));
                        }
                    }
                }
                assert forall|i: int| 0 <= i < self.moves.len() implies self.fences.valid(
                    #[trigger] self.moves@[i].edge(),
                ) by {
                    assert(self.moves@[i] == old_moves[i]);
                }
                assert(self.moves@ =~= old_moves.subrange(0, n - 1));
            }
        }
        Ok(())
    }
}

/// Some move at position `from` or later sets edge `e`.
pub open spec fn undone_from(moves: Seq<Move>, from: int, e: Edge) -> bool {
    exists|i: int| from <= i < moves.len() && #[trigger] moves[i].edge() == e
}


/// Every edge placed in a chain satisfies `p` when every edge in the pool,
/// the open chain and the closed chains does.
pub proof fn lemma_chains_keep(
    pool: Seq<Edge>,
    row: Seq<Edge>,
    acc: Seq<Seq<Edge>>,
    p: spec_fn(Edge) -> bool,
)
    requires
        forall|i: int| 0 <= i < pool.len() ==> #[trigger] p(pool[i]),
        forall|i: int| 0 <= i < row.len() ==> #[trigger] p(row[i]),
        forall|i: int, j: int|
            0 <= i < acc.len() && 0 <= j < acc[i].len() ==> #[trigger] p(acc[i][j]),
        forall|i: int| 0 <= i < acc.len() ==> (#[trigger] acc[i]).len() > 0,
    ensures
        forall|i: int, j: int|
            0 <= i < grow_chains(pool, row, acc).len() && 0 <= j < grow_chains(
                pool,
                row,
                acc,
            )[i].len() ==> #[trigger] p(grow_chains(pool, row, acc)[i][j]),
        forall|i: int|
            0 <= i < grow_chains(pool, row, acc).len() ==> (#[trigger] grow_chains(
                pool,
                row,
                acc,
            )[i]).len() > 0,
    decreases 2 * pool.len() + if row.len() > 0 {
        1int
    } else {
        0int
    },
{
    if pool.len() > 0 {
        let row0 = if row.len() == 0 {
            seq![pool.last()]
        } else {
            row
        };
        let pool0 = if row.len() == 0 {
            pool.drop_last()
        } else {
            pool
        };
        assert(forall|i: int| 0 <= i < row0.len() ==> #[trigger] p(row0[i]));
        assert(forall|i: int| 0 <= i < pool0.len() ==> #[trigger] p(pool0[i]));
        lemma_first_linked(pool0, row0[0], 0);
        let front = grow_front(pool0, row0);
        assert(forall|i: int| 0 <= i < front.0.len() ==> #[trigger] p(front.0[i]));
        assert forall|i: int| 0 <= i < front.1.len() implies #[trigger] p(front.1[i]) by {
            if front.2 {
                if i > 0 {
                    assert(front.1[i] == row0[i - 1]);
                }
            }
        }
        lemma_first_linked(front.0, front.1.last(), 0);
        let back = grow_back(front.0, front.1);
        assert(forall|i: int| 0 <= i < back.0.len() ==> #[trigger] p(back.0[i]));
        assert(forall|i: int| 0 <= i < back.1.len() ==> #[trigger] p(back.1[i]));
        if !(front.2 || back.2) || back.0.len() == 0 {
            let acc2 = acc.push(back.1);
            assert forall|i: int, j: int|
                0 <= i < acc2.len() && 0 <= j < acc2[i].len() implies #[trigger] p(acc2[i][j]) by {
                if i < acc.len() {
                    assert(acc2[i] == acc[i]);
                }
            }
            assert forall|i: int| 0 <= i < acc2.len() implies (#[trigger] acc2[i]).len() > 0 by {
                if i < acc.len() {
                    assert(acc2[i] == acc[i]);
                }
            }
            assert(grow_chains(pool, row, acc) == grow_chains(back.0, seq![], acc2));
            lemma_chains_keep(back.0, seq![], acc2, p);
        } else {
            assert(grow_chains(pool, row, acc) == grow_chains(back.0, back.1, acc));
            lemma_chains_keep(back.0, back.1, acc, p);
        }
    }
}

/// Every edge of every chain is a valid loop edge, and no chain is empty.
pub proof fn lemma_chains_valid(f: Fences, rows: int, cols: int)
    requires
        f.wf_for(rows, cols),
    ensures
        forall|i: int, j: int|
            0 <= i < chains(f).len() && 0 <= j < chains(f)[i].len() ==> f.valid(
                #[trigger] chains(f)[i][j],
            ) && f.val(chains(f)[i][j]) == Some(true) && chains(f)[i][j].0 <= 1,
        forall|i: int| 0 <= i < chains(f).len() ==> (#[trigger] chains(f)[i]).len() > 0,
{
    lemma_on_edges(f, rows, cols);
    let p = |e: Edge| f.valid(e) && f.val(e) == Some(true) && e.0 <= 1;
    let pool = on_edges(f);
    assert forall|i: int| 0 <= i < pool.len() implies #[trigger] p(pool[i]) by {
        assert(f.valid(pool[i]));
    }
    lemma_chains_keep(pool, seq![], seq![], p);
    assert forall|i: int, j: int|
        0 <= i < chains(f).len() && 0 <= j < chains(f)[i].len() implies f.valid(
        #[trigger] chains(f)[i][j],
    ) && f.val(chains(f)[i][j]) == Some(true) && chains(f)[i][j].0 <= 1 by {
        assert(p(chains(f)[i][j]));
    }
}

impl Board {
    /// Loop edges and ruled-out edges meeting at dot `(r, c)`.
    fn dot_counts(&self, r: usize, c: usize) -> (res: (usize, usize))
        requires
            self.wf(),
            r <= self.rows(),
            c <= self.cols(),
        ensures
            res.0 == self.dot_count(r as int, c as int, true),
            res.1 == self.dot_count(r as int, c as int, false),
    {
        let rows = self.tasks.rows;
        let cols = self.tasks.cols;
        let mut dashes: usize = 0;
        let mut xs: usize = 0;
        if c < cols {
            match self.fences.h.get(r, c).0 {
                Some(true) => dashes = dashes + 1,
                Some(false) => xs = xs + 1,
                None => {},
            }
        }
        if r < rows {
            match self.fences.v.get(r, c).0 {
                Some(true) => dashes = dashes + 1,
                Some(false) => xs = xs + 1,
                None => {},
            }
        }
        if c > 0 {
            match self.fences.h.get(r, c - 1).0 {
                Some(true) => dashes = dashes + 1,
                Some(false) => xs = xs + 1,
                None => {},
            }
        }
        if r > 0 {
            match self.fences.v.get(r - 1, c).0 {
                Some(true) => dashes = dashes + 1,
                Some(false) => xs = xs + 1,
                None => {},
            }
        }
        (dashes, xs)
    }

    /// Loop edges and ruled-out edges around cell `(r, c)`.
    pub fn cell_counts(&self, r: usize, c: usize) -> (res: (usize, usize))
        requires
            self.wf(),
            self.tasks.in_bounds(r as int, c as int),
        ensures
            res.0 == self.cell_count(r as int, c as int, true),
            res.1 == self.cell_count(r as int, c as int, false),
    {
        let mut dashes: usize = 0;
        let mut xs: usize = 0;
        match self.fences.h.get(r, c).0 {
            Some(true) => dashes = dashes + 1,
            Some(false) => xs = xs + 1,
            None => {},
        }
        match self.fences.v.get(r, c).0 {
            Some(true) => dashes = dashes + 1,
            Some(false) => xs = xs + 1,
            None => {},
        }
        match self.fences.h.get(r + 1, c).0 {
            Some(true) => dashes = dashes + 1,
            Some(false) => xs = xs + 1,
            None => {},
        }
        match self.fences.v.get(r, c + 1).0 {
            Some(true) => dashes = dashes + 1,
            Some(false) => xs = xs + 1,
            None => {},
        }
        (dashes, xs)
    }

    /// The chains of loop edges on this board.
    pub fn paths(&self) -> (ret: Vec<Vec<Edge>>)
        requires
            self.wf(),
        ensures
            ret@.map_values(|c: Vec<Edge>| c@) == chains(self.fences),
    {
        get_paths(&self.fences)
    }

    /// Judges the board: `Some(false)` when a rule of the puzzle is already
    /// broken, `Some(true)` when it is solved, `None` otherwise.
    pub fn result(&self) -> (res: Option<bool>)
        requires
            self.wf(),
        ensures
            res == self.verdict(),
    {
        let rows = self.tasks.rows;
        let cols = self.tasks.cols;
        let mut r: usize = 0;
        while r <= rows
            invariant
                self.wf(),
                rows == self.rows(),
                cols == self.cols(),
                r <= rows + 1,
                forall|r2: int, c2: int| 0 <= r2 < r && 0 <= c2 <= cols ==> !#[trigger] self.dot_bad(r2, c2),
            decreases rows + 1 - r,
        {
            let mut c: usize = 0;
            while c <= cols
                invariant
                    self.wf(),
                    rows == self.rows(),
                    cols == self.cols(),
                    r <= rows,
                    c <= cols + 1,
                    forall|r2: int, c2: int| 0 <= r2 < r && 0 <= c2 <= cols ==> !#[trigger] self.dot_bad(r2, c2),
                    forall|c2: int| 0 <= c2 < c ==> !#[trigger] self.dot_bad(r as int, c2),
                decreases cols + 1 - c,
            {
                let (dashes, xs) = self.dot_counts(r, c);
                if dashes > 2 || (dashes == 1 && xs == 3) {
                    assert(self.dot_bad(r as int, c as int));
                    return Some(false);
                }
                c = c + 1;
            }
            r = r + 1;
        }
        assert(!self.any_dot_bad());
        let mut all_met = true;
        let mut r: usize = 0;
        while r < rows
            invariant
                self.wf(),
                rows == self.rows(),
                cols == self.cols(),
                r <= rows,
                !self.any_dot_bad(),
                forall|r2: int, c2: int| 0 <= r2 < r && 0 <= c2 < cols ==> !#[trigger] self.clue_bad(r2, c2),
                all_met <==> forall|r2: int, c2: int| 0 <= r2 < r && 0 <= c2 < cols ==> #[trigger] self.clue_met(r2, c2),
            decreases rows - r,
        {
            let mut c: usize = 0;
            while c < cols
                invariant
                    self.wf(),
                    rows == self.rows(),
                    cols == self.cols(),
                    r < rows,
                    c <= cols,
                    forall|r2: int, c2: int| 0 <= r2 < r && 0 <= c2 < cols ==> !#[trigger] self.clue_bad(r2, c2),
                    forall|c2: int| 0 <= c2 < c ==> !#[trigger] self.clue_bad(r as int, c2),
                    all_met <==> (forall|r2: int, c2: int| 0 <= r2 < r && 0 <= c2 < cols ==> #[trigger] self.clue_met(r2, c2))
                        && (forall|c2: int| 0 <= c2 < c ==> #[trigger] self.clue_met(r as int, c2)),
                decreases cols - c,
            {
                let (dashes, xs) = self.cell_counts(r, c);
                let t = self.tasks.get(r, c);
                assert(self.tasks.in_bounds(r as int, c as int));
                if !t.is_ok(xs, dashes) {
                    assert(self.clue_bad(r as int, c as int));
                    assert(self.any_clue_bad());
                    return Some(false);
                }
                match t.0 {
                    Some(x) => {
                        if dashes != x as usize {
                            all_met = false;
                        }
                    },
                    None => {},
                }
                proof {
                    if !all_met {
                        if !self.clue_met(r as int, c as int) {
                        }
                    }
                }
                c = c + 1;
            }
            r = r + 1;
        }
        assert(!self.any_clue_bad()) by {
            if self.any_clue_bad() {
                let (r2, c2) = choose|r2: int, c2: int| #[trigger] self.tasks.in_bounds(r2, c2) && self.clue_bad(r2, c2);
                assert(!self.clue_bad(r2, c2));
            }
        }
        assert(all_met == self.all_clues_met()) by {
            if self.all_clues_met() {
                assert forall|r2: int, c2: int| 0 <= r2 < rows && 0 <= c2 < cols implies #[trigger] self.clue_met(r2, c2) by {
                    assert(self.tasks.in_bounds(r2, c2));
                }
            }
            if all_met {
                assert forall|r2: int, c2: int| #[trigger] self.tasks.in_bounds(r2, c2) implies self.clue_met(r2, c2) by {
                    assert(0 <= r2 < r && 0 <= c2 < cols);
                }
            }
        }
        let paths = self.paths();
        let ghost ch = chains(self.fences);
        proof {
            lemma_chains_valid(self.fences, rows as int, cols as int);
            assert(paths@.len() == ch.len());
            assert(forall|i: int| 0 <= i < paths@.len() ==> #[trigger] paths@[i]@ == ch[i]);
        }
        if paths.len() > 1 {
            let mut i: usize = 0;
            while i < paths.len()
                invariant
                    paths@.len() == ch.len(),
                    ch.len() > 1,
                    ch == chains(self.fences),
                    !self.any_dot_bad(),
                    !self.any_clue_bad(),
                    forall|k: int| 0 <= k < paths@.len() ==> #[trigger] paths@[k]@ == ch[k],
                    forall|k: int, j: int| 0 <= k < ch.len() && 0 <= j < ch[k].len() ==> (#[trigger] ch[k][j]).0 <= 1,
                    i <= paths.len(),
                    forall|k: int| 0 <= k < i ==> !((#[trigger] ch[k]).len() > 2 && linked(ch[k][0], ch[k].last())),
                decreases paths.len() - i,
            {
                let p = &paths[i];
                assert(p@ == ch[i as int]);
                if p.len() > 2 {
                    assert(ch[i as int][0].0 <= 1);
                    assert(ch[i as int][p.len() - 1].0 <= 1);
                    if are_linked(&p[0], &p[p.len() - 1]) {
                        assert(ch[i as int].last() == p@[p.len() - 1]);
                        assert(ch[i as int].len() > 2 && linked(ch[i as int][0], ch[i as int].last()));
                        assert(premature(ch));
                        return Some(false);
                    }
                }
                i = i + 1;
            }
        }
        assert(!premature(ch));
        if all_met && has_one_path_and_is_circular(&self.fences) {
            return Some(true);
        }
        None
    }
}

/// Whether the loop edges form exactly one chain and its ends are linked.
pub fn has_one_path_and_is_circular(fences: &Fences) -> (r: bool)
    requires
        fences.h.wf(),
        fences.v.wf(),
        fences.h.rows == fences.v.rows + 1,
        fences.v.cols == fences.h.cols + 1,
    ensures
        r == single_closed(chains(*fences)),
{
    let paths = get_paths(fences);
    let ghost ch = chains(*fences);
    proof {
        lemma_chains_valid(*fences, fences.v.rows as int, fences.h.cols as int);
        assert(paths@.len() == ch.len());
    }
    if paths.len() != 1 {
        return false;
    }
    let p = &paths[0];
    assert(p@ == ch[0]);
    assert(ch[0][0].0 <= 1);
    assert(ch[0][p.len() - 1].0 <= 1);
    assert(ch[0].last() == p@[p.len() - 1]);
    are_linked(&p[0], &p[p.len() - 1])
}


/// The flat offset `k` of a grid `cols` wide as an edge of direction `dir`.
pub open spec fn edge_at_offset(dir: usize, cols: int, k: int) -> Edge {
    (dir, (k / cols) as usize, (k % cols) as usize)
}

/// With loop edges at exactly two offsets, the scan lists them in order.
proof fn lemma_on_prefix_two(data: Seq<Fence>, cols: int, dir: usize, n: int, k1: int, k2: int)
    requires
        0 <= k1 < k2 < data.len(),
        n <= data.len(),
        forall|k: int| 0 <= k < data.len() ==> ((#[trigger] data[k]).0 == Some(true) <==> (k == k1 || k == k2)),
    ensures
        on_prefix(data, cols, dir, n) == if n <= k1 {
            Seq::<Edge>::empty()
        } else if n <= k2 {
            seq![edge_at_offset(dir, cols, k1)]
        } else {
            seq![edge_at_offset(dir, cols, k1), edge_at_offset(dir, cols, k2)]
        },
    decreases n,
{
    if n > 0 {
        lemma_on_prefix_two(data, cols, dir, n - 1, k1, k2);
        assert(data[n - 1].0 == Some(true) <==> (n - 1 == k1 || n - 1 == k2));
        if n - 1 == k1 {
            assert(on_prefix(data, cols, dir, n) =~= seq![edge_at_offset(dir, cols, k1)]);
        } else if n - 1 == k2 {
            assert(on_prefix(data, cols, dir, n) =~= seq![edge_at_offset(dir, cols, k1), edge_at_offset(dir, cols, k2)]);
        }
    }
}

/// The offset of cell `(r, c)` of a grid `cols` wide maps back to `(r, c)`.
proof fn lemma_offset_edge(dir: usize, cols: int, r: int, c: int)
    requires
        0 <= r,
        0 <= c < cols,
    ensures
        edge_at_offset(dir, cols, r * cols + c) == (dir, r as usize, c as usize),
{
    vstd::arithmetic::div_mod::lemma_fundamental_div_mod_converse(r * cols + c, cols, r, c);
}

/// Whether `e` is one of the four sides of cell `(r, c)`.
pub open spec fn is_side(e: Edge, r: usize, c: usize) -> bool {
    ||| e == (0usize, r, c)
    ||| e == (0usize, (r + 1) as usize, c)
    ||| e == (1usize, r, c)
    ||| e == (1usize, r, (c + 1) as usize)
}

/// In a grid of the board, a flat offset is the cell of a valid edge.
proof fn lemma_offset_cell(g: Grid<Fence>, k: int) -> (rc: (int, int))
    requires
        g.wf(),
        0 <= k < g.data.len(),
    ensures
        g.in_bounds(rc.0, rc.1),
        k == rc.0 * g.cols + rc.1,
        rc.0 == k / (g.cols as int),
        rc.1 == k % (g.cols as int),
{
    let cols = g.cols as int;
    if cols == 0 {
        assert(g.rows * g.cols == 0) by (nonlinear_arith)
            requires
                cols == 0,
                cols == g.cols,
        ;
    }
    vstd::arithmetic::div_mod::lemma_fundamental_div_mod(k, cols);
    let r = k / cols;
    let c = k % cols;
    assert(k == r * cols + c) by (nonlinear_arith)
        requires
            k == cols * (k / cols) + k % cols,
            r == k / cols,
            c == k % cols,
    ;
    assert(0 <= r) by (nonlinear_arith)
        requires
            k >= 0,
            k == r * cols + c,
            0 <= c < cols,
    ;
    assert(r < g.rows) by (nonlinear_arith)
        requires
            k < g.rows * cols,
            k == r * cols + c,
            0 <= c < cols,
    ;
    (r, c)
}

/// Path correctness: when the only loop edges of a board are the four sides
/// of one cell, path analysis finds exactly one chain, and its two ends are
/// linked.
pub proof fn lemma_single_cell_loop(b: Board, r: usize, c: usize)
    requires
        b.wf(),
        b.tasks.in_bounds(r as int, c as int),
        forall|e: Edge| #[trigger] b.fences.valid(e) ==> (b.edge(e) == Some(true) <==> is_side(e, r, c)),
    ensures
        chains(b.fences).len() == 1,
        single_closed(chains(b.fences)),
        chains(b.fences)[0] == seq![
            (1usize, r, c),
            (0usize, r, c),
            (1usize, r, (c + 1) as usize),
            (0usize, (r + 1) as usize, c),
        ],
{
    let f = b.fences;
    let hc = f.h.cols as int;
    let vc = f.v.cols as int;
    let h1: Edge = (0usize, r, c);
    let h2: Edge = (0usize, (r + 1) as usize, c);
    let v1: Edge = (1usize, r, c);
    let v2: Edge = (1usize, r, (c + 1) as usize);
    let k1 = r * hc + c;
    let k2 = (r + 1) * hc + c;
    let k3 = r * vc + c;
    let k4 = r * vc + c + 1;
    crate::grid::lemma_offset(f.h.rows as int, hc, r as int, c as int);
    crate::grid::lemma_offset(f.h.rows as int, hc, r + 1, c as int);
    crate::grid::lemma_offset(f.v.rows as int, vc, r as int, c as int);
    crate::grid::lemma_offset(f.v.rows as int, vc, r as int, c + 1);
    assert(k2 == k1 + hc) by (nonlinear_arith)
        requires
            k1 == r * hc + c,
            k2 == (r + 1) * hc + c,
    ;
    assert forall|k: int| 0 <= k < f.h.data.len() implies ((#[trigger] f.h.data@[k]).0 == Some(true) <==> (k == k1
        || k == k2)) by {
        let rc = lemma_offset_cell(f.h, k);
        let e: Edge = (0usize, rc.0 as usize, rc.1 as usize);
        assert(f.valid(e));
        if k == k1 {
            crate::grid::lemma_offset_injective(hc, rc.0, rc.1, r as int, c as int);
        }
        if k == k2 {
            crate::grid::lemma_offset_injective(hc, rc.0, rc.1, r + 1, c as int);
        }
        if is_side(e, r, c) {
            if e == h1 {
                assert(k == k1);
            } else {
                assert(k == k2);
            }
        }
    }
    assert forall|k: int| 0 <= k < f.v.data.len() implies ((#[trigger] f.v.data@[k]).0 == Some(true) <==> (k == k3
        || k == k4)) by {
        let rc = lemma_offset_cell(f.v, k);
        let e: Edge = (1usize, rc.0 as usize, rc.1 as usize);
        assert(f.valid(e));
        if k == k3 {
            crate::grid::lemma_offset_injective(vc, rc.0, rc.1, r as int, c as int);
        }
        if k == k4 {
            crate::grid::lemma_offset_injective(vc, rc.0, rc.1, r as int, c + 1);
        }
        if is_side(e, r, c) {
            if e == v1 {
                assert(k == k3);
            } else {
                assert(k == k4);
            }
        }
    }
    lemma_on_prefix_two(f.h.data@, hc, 0, f.h.data.len() as int, k1, k2);
    lemma_on_prefix_two(f.v.data@, vc, 1, f.v.data.len() as int, k3, k4);
    lemma_offset_edge(0, hc, r as int, c as int);
    lemma_offset_edge(0, hc, r + 1, c as int);
    lemma_offset_edge(1, vc, r as int, c as int);
    lemma_offset_edge(1, vc, r as int, c + 1);
    let pool = on_edges(f);
    assert(pool =~= seq![h1, h2, v1, v2]);
    // first round: start from v2, grow at the front by h1, at the back by h2
    let pool0 = seq![h1, h2, v1];
    assert(pool.drop_last() =~= pool0);
    assert(first_linked(pool0, v2, 0) == Some(0int));
    let pool1 = swap_removed(pool0, 0);
    assert(pool1 =~= seq![v1, h2]);
    let row1 = seq![h1] + seq![v2];
    assert(first_linked(pool1, v2, 1) == Some(1int));
    assert(first_linked(pool1, v2, 0) == Some(1int));
    let pool2 = swap_removed(pool1, 1);
    assert(pool2 =~= seq![v1]);
    let row2 = row1.push(h2);
    assert(grow_chains(pool, seq![], seq![]) == grow_chains(pool2, row2, seq![]));
    // second round: grow at the front by v1; the pool runs out
    assert(row2[0] == h1);
    assert(first_linked(pool2, h1, 0) == Some(0int));
    let row3 = seq![v1] + row2;
    let pool3 = swap_removed(pool2, 0);
    assert(pool3 =~= Seq::<Edge>::empty());
    assert(first_linked(pool3, row3.last(), 0) is None);
    assert(grow_chains(pool2, row2, seq![]) == grow_chains(pool3, seq![], seq![row3]));
    assert(chains(f) == seq![row3]);
    assert(row3 =~= seq![v1, h1, v2, h2]);
    assert(row3[0] == v1);
    assert(row3.last() == h2);
}


/// The clue a character of a board's clue string stands for: a digit up to
/// four, or no clue for any other non-digit; larger digits are refused.
pub open spec fn task_of_char(c: char) -> Option<Option<u8>> {
    if is_digit(c) {
        if c <= '4' {
            Some(Some((c as u32 - '0' as u32) as u8))
        } else {
            None
        }
    } else {
        Some(None)
    }
}

/// Reads one character of a board's clue string.
pub fn task_from_char(c: char) -> (r: Option<U2>)
    ensures
        r is Some <==> task_of_char(c) is Some,
        r matches Some(u) ==> Some(u.0) == task_of_char(c) && u.wf(),
{
    if '0' <= c && c <= '9' {
        if c <= '4' {
            Some(U2(Some((c as u32 - '0' as u32) as u8)))
        } else {
            None
        }
    } else {
        Some(U2(None))
    }
}

/// The glyph of an edge in a solution string: `y` for a loop edge, else `n`.
pub open spec fn solution_char(f: Fence) -> char {
    if f.0 == Some(true) {
        'y'
    } else {
        'n'
    }
}

/// Why a board text was refused.
#[derive(Debug, Clone, Copy, PartialEq, Eq)]
pub enum ParseError {
    /// The `cols#clues` header or the clue rows are malformed.
    Header,
    /// A clue character is not a digit up to four or a blank.
    Clues,
    /// A move line `dir row col value` is malformed or off the board.
    Move,
    /// An edge string holds a character that is not an edge glyph.
    Edges,
    /// A move contradicts an edge already set.
    Conflict(Contradiction),
}

/// `(rows + 1) * (cols + 1)` when it fits in `usize`.
pub(crate) fn board_size_fits(rows: usize, cols: usize) -> (ok: bool)
    ensures
        ok == ((rows + 1) * (cols + 1) <= usize::MAX),
{
    if rows == usize::MAX || cols == usize::MAX {
        proof {
            assert((rows + 1) * (cols + 1) > usize::MAX) by (nonlinear_arith)
                requires
                    rows == usize::MAX || cols == usize::MAX,
            ;
        }
        return false;
    }
    match (rows + 1).checked_mul(cols + 1) {
        Some(_) => true,
        None => false,
    }
}

impl Board {
    /// The board whose clues are `s[from..to]`, `cols` per row; `None` when
    /// `cols` is zero, the length is not a multiple of `cols`, a clue
    /// character is refused, or the board is too large to address.
    pub fn from_clue_chars(cols: usize, s: &Vec<char>, from: usize, to: usize) -> (r: Option<Board>)
        requires
            from <= to <= s.len(),
        ensures
            r is Some <==> {
                &&& cols > 0
                &&& ((to - from) as int) % (cols as int) == 0
                &&& forall|k: int| from <= k < to ==> (#[trigger] task_of_char(s@[k])) is Some
                &&& (((to - from) as int) / (cols as int) + 1) * (cols + 1) <= usize::MAX
            },
            r matches Some(b) ==> {
                &&& b.wf()
                &&& b.cols() == cols
                &&& b.rows() == ((to - from) as int) / (cols as int)
                &&& b.moves@.len() == 0
                &&& forall|e: Edge| #[trigger] b.fences.valid(e) ==> b.edge(e) is None
                &&& forall|rr: int, cc: int| #[trigger]
                    b.tasks.in_bounds(rr, cc) ==> Some(b.clue(rr, cc)) == task_of_char(s@[from + rr * cols + cc])
            },
    {
        if cols == 0 {
            return None;
        }
        let n = to - from;
        if n % cols != 0 {
            return None;
        }
        let rows = n / cols;
        let mut data: Vec<U2> = Vec::new();
        let mut k: usize = from;
        while k < to
            invariant
                from <= k <= to <= s.len(),
                data.len() == k - from,
                forall|j: int| 0 <= j < data.len() ==> Some((#[trigger] data@[j]).0) == task_of_char(s@[from + j]) && data@[j].wf(),
                forall|j: int| from <= j < k ==> (#[trigger] task_of_char(s@[j])) is Some,
            decreases to - k,
        {
            match task_from_char(s[k]) {
                Some(u) => data.push(u),
                None => {
                    return None;
                },
            }
            k = k + 1;
        }
        if !board_size_fits(rows, cols) {
            return None;
        }
        proof {
            let ni = n as int;
            let ci = cols as int;
            vstd::arithmetic::div_mod::lemma_fundamental_div_mod(ni, ci);
            assert(ni == rows * cols) by (nonlinear_arith)
                requires
                    ni == ci * (ni / ci) + ni % ci,
                    rows == ni / ci,
                    ni % ci == 0,
                    ci == cols,
            ;
        }
        let tasks = match Grid::from_vec(data, rows, cols) {
            Some(g) => g,
            None => {
                return None;
            },
        };
        proof {
            assert forall|rr: int, cc: int| #[trigger] tasks.in_bounds(rr, cc) implies tasks.at(rr, cc).wf() && Some(
                tasks.at(rr, cc).0,
            ) == task_of_char(s@[from + rr * cols + cc]) by {
                lemma_offset(rows as int, cols as int, rr, cc);
            }
        }
        Some(Board::from_clues(tasks))
    }

    /// The board whose clues are `task`, `cols` per row, with no edge decided.
    pub fn from_task_string(cols: usize, task: &str) -> (r: Option<Board>)
        ensures
            r is Some <==> {
                &&& cols > 0
                &&& (task@.len() as int) % (cols as int) == 0
                &&& forall|k: int| 0 <= k < task@.len() ==> (#[trigger] task_of_char(task@[k])) is Some
                &&& ((task@.len() as int) / (cols as int) + 1) * (cols + 1) <= usize::MAX
            },
            r matches Some(b) ==> {
                &&& b.wf()
                &&& b.cols() == cols
                &&& b.rows() == (task@.len() as int) / (cols as int)
                &&& b.moves@.len() == 0
                &&& forall|e: Edge| #[trigger] b.fences.valid(e) ==> b.edge(e) is None
                &&& forall|rr: int, cc: int| #[trigger]
                    b.tasks.in_bounds(rr, cc) ==> Some(b.clue(rr, cc)) == task_of_char(task@[rr * cols + cc])
            },
    {
        let v = chars_of(task);
        let r = Board::from_clue_chars(cols, &v, 0, v.len());
        proof {
            assert(v@.len() - 0 == task@.len());
            if r is Some {
                let b = r->Some_0;
                assert forall|rr: int, cc: int| #[trigger] b.tasks.in_bounds(rr, cc) implies Some(b.clue(rr, cc))
                    == task_of_char(task@[rr * cols + cc]) by {
                    assert(0 + rr * cols + cc == rr * cols + cc);
                }
            }
        }
        r
    }

    /// Overwrites the edges, direction 0 row by row and then direction 1,
    /// with the glyphs of `s[from..to]`; edges past the end keep their value.
    /// Refused, changing nothing, when a glyph used is not an edge glyph.
    pub fn set_solution_chars(&mut self, s: &Vec<char>, from: usize, to: usize) -> (r: Result<(), ParseError>)
        requires
            old(self).wf(),
            from <= to <= s.len(),
        ensures
            final(self).wf(),
            final(self).tasks == old(self).tasks,
            final(self).moves@ == old(self).moves@,
            final(self).fences.same_shape(&old(self).fences),
            r is Ok <==> forall|k: int|
                0 <= k < to - from && k < old(self).fences.h.data.len() + old(self).fences.v.data.len()
                    ==> (#[trigger] fence_of_char(s@[from + k])) is Some,
            r is Err ==> r == Err::<(), ParseError>(ParseError::Edges) && final(self).fences.same_as(&old(self).fences),
            r is Ok ==> forall|k: int|
                0 <= k < old(self).fences.h.data.len() ==> Some((#[trigger] final(self).fences.h.data@[k]).0)
                    == if k < to - from {
                    fence_of_char(s@[from + k])
                } else {
                    Some(old(self).fences.h.data@[k].0)
                },
            r is Ok ==> forall|k: int|
                0 <= k < old(self).fences.v.data.len() ==> Some((#[trigger] final(self).fences.v.data@[k]).0)
                    == if old(self).fences.h.data.len() + k < to - from {
                    fence_of_char(s@[from + old(self).fences.h.data.len() + k])
                } else {
                    Some(old(self).fences.v.data@[k].0)
                },
    {
        let hl = self.fences.h.data.len();
        let vl = self.fences.v.data.len();
        let n = to - from;
        let mut k: usize = 0;
        while k < n && k < hl
            invariant
                self.wf(),
                *self == *old(self),
                from <= to <= s.len(),
                n == to - from,
                hl == self.fences.h.data.len(),
                k <= n,
                forall|j: int| 0 <= j < k ==> (#[trigger] fence_of_char(s@[from + j])) is Some,
            decreases n - k,
        {
            if Fence::from_char(s[from + k]).is_none() {
                return Err(ParseError::Edges);
            }
            k = k + 1;
        }
        if n > hl {
            let mut j: usize = 0;
            while j < n - hl && j < vl
                invariant
                    self.wf(),
                    *self == *old(self),
                    from <= to <= s.len(),
                    n == to - from,
                    n > hl,
                    hl == self.fences.h.data.len(),
                    vl == self.fences.v.data.len(),
                    j <= n - hl,
                    forall|i: int| 0 <= i < hl + j ==> (#[trigger] fence_of_char(s@[from + i])) is Some,
                decreases n - hl - j,
            {
                if Fence::from_char(s[from + hl + j]).is_none() {
                    proof {
                        assert(from + hl + j == from + (hl + j));
                    }
                    return Err(ParseError::Edges);
                }
                proof {
                    assert forall|i: int| 0 <= i < hl + j + 1 implies (#[trigger] fence_of_char(s@[from + i])) is Some by {
                        if i == hl + j {
                            assert(from + hl + j == from + i);
                        }
                    }
                }
                j = j + 1;
            }
        }
        let ghost o = *self;
        let mut k: usize = 0;
        while k < hl
            invariant
                o == *old(self),
                from <= to <= s.len(),
                n == to - from,
                hl == o.fences.h.data.len(),
                self.fences.h.data.len() == hl,
                self.fences.h.rows == o.fences.h.rows,
                self.fences.h.cols == o.fences.h.cols,
                self.fences.v == o.fences.v,
                self.tasks == o.tasks,
                self.moves == o.moves,
                forall|j: int| 0 <= j < n && j < hl + vl ==> (#[trigger] fence_of_char(s@[from + j])) is Some,
                vl == o.fences.v.data.len(),
                k <= hl,
                forall|j: int| 0 <= j < hl ==> Some((#[trigger] self.fences.h.data@[j]).0) == if j < k && j < n {
                    fence_of_char(s@[from + j])
                } else {
                    Some(o.fences.h.data@[j].0)
                },
            decreases hl - k,
        {
            if k < n {
                assert(fence_of_char(s@[from + k]) is Some);
                let f = Fence::from_char(s[from + k]).unwrap();
                self.fences.h.data.set(k, f);
            }
            k = k + 1;
        }
        let mut k: usize = 0;
        while k < vl
            invariant
                o == *old(self),
                from <= to <= s.len(),
                n == to - from,
                hl == o.fences.h.data.len(),
                vl == o.fences.v.data.len(),
                self.fences.h.data.len() == hl,
                self.fences.h.rows == o.fences.h.rows,
                self.fences.h.cols == o.fences.h.cols,
                self.fences.v.data.len() == vl,
                self.fences.v.rows == o.fences.v.rows,
                self.fences.v.cols == o.fences.v.cols,
                self.tasks == o.tasks,
                self.moves == o.moves,
                forall|j: int| 0 <= j < n && j < hl + vl ==> (#[trigger] fence_of_char(s@[from + j])) is Some,
                k <= vl,
                forall|j: int| 0 <= j < hl ==> Some((#[trigger] self.fences.h.data@[j]).0) == if j < n {
                    fence_of_char(s@[from + j])
                } else {
                    Some(o.fences.h.data@[j].0)
                },
                forall|j: int| 0 <= j < vl ==> Some((#[trigger] self.fences.v.data@[j]).0) == if j < k && hl + j < n {
                    fence_of_char(s@[from + hl + j])
                } else {
                    Some(o.fences.v.data@[j].0)
                },
            decreases vl - k,
        {
            if n > hl && k < n - hl {
                assert(fence_of_char(s@[from + (hl + k)]) is Some);
                let f = Fence::from_char(s[from + hl + k]).unwrap();
                self.fences.v.data.set(k, f);
            }
            k = k + 1;
        }
        proof {
            assert forall|i: int| 0 <= i < self.moves.len() implies self.fences.valid(#[trigger] self.moves@[i].edge()) by {
                assert(o.fences.valid(o.moves@[i].edge()));
            }
        }
        Ok(())
    }

    /// `set_solution_chars` over a whole string.
    pub fn set_solution(&mut self, solution: &str) -> (r: Result<(), ParseError>)
        requires
            old(self).wf(),
        ensures
            final(self).wf(),
            final(self).tasks == old(self).tasks,
            final(self).moves@ == old(self).moves@,
            final(self).fences.same_shape(&old(self).fences),
            r is Ok <==> forall|k: int|
                0 <= k < solution@.len() && k < old(self).fences.h.data.len() + old(self).fences.v.data.len()
                    ==> (#[trigger] fence_of_char(solution@[k])) is Some,
            r is Err ==> final(self).fences.same_as(&old(self).fences),
            r is Ok ==> forall|k: int|
                0 <= k < old(self).fences.h.data.len() ==> Some((#[trigger] final(self).fences.h.data@[k]).0)
                    == if k < solution@.len() {
                    fence_of_char(solution@[k])
                } else {
                    Some(old(self).fences.h.data@[k].0)
                },
            r is Ok ==> forall|k: int|
                0 <= k < old(self).fences.v.data.len() ==> Some((#[trigger] final(self).fences.v.data@[k]).0)
                    == if old(self).fences.h.data.len() + k < solution@.len() {
                    fence_of_char(solution@[old(self).fences.h.data.len() + k])
                } else {
                    Some(old(self).fences.v.data@[k].0)
                },
    {
        let v = chars_of(solution);
        let ghost o = *self;
        let r = self.set_solution_chars(&v, 0, v.len());
        proof {
            assert forall|k: int| 0 <= k < v@.len() implies v@[0 + k] == #[trigger] solution@[k] by {}
            if r is Ok {
                assert forall|k: int|
                    0 <= k < o.fences.h.data.len() implies Some((#[trigger] self.fences.h.data@[k]).0) == if k
                    < solution@.len() {
                    fence_of_char(solution@[k])
                } else {
                    Some(o.fences.h.data@[k].0)
                } by {
                    if k < solution@.len() {
                        assert(v@[0 + k] == solution@[k]);
                    }
                }
                assert forall|k: int|
                    0 <= k < o.fences.v.data.len() implies Some((#[trigger] self.fences.v.data@[k]).0) == if o.fences.h.data.len()
                    + k < solution@.len() {
                    fence_of_char(solution@[o.fences.h.data.len() + k])
                } else {
                    Some(o.fences.v.data@[k].0)
                } by {
                    if o.fences.h.data.len() + k < solution@.len() {
                        assert(v@[0 + o.fences.h.data.len() + k] == solution@[o.fences.h.data.len() + k]);
                    }
                }
            }
            assert((forall|k: int| 0 <= k < v@.len() - 0 && k < o.fences.h.data.len() + o.fences.v.data.len()
                ==> (#[trigger] fence_of_char(v@[0 + k])) is Some) == (forall|k: int|
                0 <= k < solution@.len() && k < o.fences.h.data.len() + o.fences.v.data.len()
                    ==> (#[trigger] fence_of_char(solution@[k])) is Some)) by {
                assert forall|k: int| 0 <= k < v@.len() implies v@[0 + k] == #[trigger] solution@[k] by {}
            }
        }
        r
    }

    /// The edges as `y` (loop edge) or `n` (anything else), direction 0 row
    /// by row and then direction 1.
    pub fn solution(&self) -> (s: String)
        ensures
            s@ == self.fences.h.data@.map_values(|f: Fence| solution_char(f)) + self.fences.v.data@.map_values(
                |f: Fence| solution_char(f),
            ),
    {
        let mut s = String::new();
        let mut k: usize = 0;
        while k < self.fences.h.data.len()
            invariant
                k <= self.fences.h.data.len(),
                s@ == self.fences.h.data@.map_values(|f: Fence| solution_char(f)).subrange(0, k as int),
            decreases self.fences.h.data.len() - k,
        {
            let c = if self.fences.h.data[k].0 == Some(true) {
                'y'
            } else {
                'n'
            };
            s.push(c);
            k = k + 1;
        }
        let ghost first = s@;
        assert(first == self.fences.h.data@.map_values(|f: Fence| solution_char(f)));
        let mut k: usize = 0;
        while k < self.fences.v.data.len()
            invariant
                k <= self.fences.v.data.len(),
                s@ == first + self.fences.v.data@.map_values(|f: Fence| solution_char(f)).subrange(0, k as int),
            decreases self.fences.v.data.len() - k,
        {
            let c = if self.fences.v.data[k].0 == Some(true) {
                'y'
            } else {
                'n'
            };
            s.push(c);
            k = k + 1;
        }
        assert(self.fences.v.data@.map_values(|f: Fence| solution_char(f)).subrange(
            0,
            self.fences.v.data.len() as int,
        ) == self.fences.v.data@.map_values(|f: Fence| solution_char(f)));
        s
    }
}


/// The next run of non-space characters in `s[pos..end]`.
fn next_token(s: &Vec<char>, pos: usize, end: usize) -> (r: (usize, usize))
    requires
        pos <= end <= s.len(),
    ensures
        pos <= r.0 <= r.1 <= end,
{
    let mut a = pos;
    while a < end && s[a] == ' '
        invariant
            pos <= a <= end <= s.len(),
        decreases end - a,
    {
        a = a + 1;
    }
    let mut b = a;
    while b < end && s[b] != ' '
        invariant
            a <= b <= end <= s.len(),
        decreases end - b,
    {
        b = b + 1;
    }
    (a, b)
}

/// Reads a move line `dir row col value` from `s[pos..end]`.
fn parse_move(s: &Vec<char>, pos: usize, end: usize) -> (r: Option<(usize, usize, usize, bool)>)
    requires
        pos <= end <= s.len(),
{
    let (a, b) = next_token(s, pos, end);
    let dir = parse_usize(s, a, b)?;
    let (a, b) = next_token(s, b, end);
    let row = parse_usize(s, a, b)?;
    let (a, b) = next_token(s, b, end);
    let col = parse_usize(s, a, b)?;
    let (a, b) = next_token(s, b, end);
    if b - a != 1 {
        return None;
    }
    let c = s[a];
    let value = if c == 'y' || c == '-' {
        true
    } else if c == 'n' || c == 'x' {
        false
    } else {
        return None;
    };
    Some((dir, row, col, value))
}

impl Board {
    /// Reads a board from text: either a header `cols#clues` followed by
    /// lines that are moves `dir row col value` (a line starting with `0` or
    /// `1`) or edge strings (see `set_solution`), or rows of clues of equal
    /// length.
    pub fn parse(s: &str) -> (r: Result<Board, ParseError>)
        ensures
            r matches Ok(b) ==> b.wf(),
            ({
                let eol = first_from(s@, '\n', 0);
                let hash = first_from(s@, '#', 0);
                let cols = digits_value(s@.subrange(0, hash));
                (eol == s@.len() && 0 < hash < eol && (forall|k: int| 0 <= k < hash ==> is_digit(#[trigger] s@[k]))
                    && cols <= usize::MAX && cols > 0 && (eol - hash - 1) % cols == 0 && (forall|k: int|
                    hash + 1 <= k < eol ==> (#[trigger] task_of_char(s@[k])) is Some) && ((eol - hash - 1) / cols
                    + 1) * (cols + 1) <= usize::MAX) ==> r is Ok
            }),
            ({
                let eol = first_from(s@, '\n', 0);
                let hash = first_from(s@, '#', 0);
                hash < eol ==> (r matches Ok(b) ==> {
                    &&& b.cols() == digits_value(s@.subrange(0, hash))
                    &&& b.rows() * b.cols() == eol - hash - 1
                    &&& forall|rr: int, cc: int| #[trigger]
                        b.tasks.in_bounds(rr, cc) ==> Some(b.clue(rr, cc)) == task_of_char(
                            s@[hash + 1 + rr * b.cols() + cc],
                        )
                })
            }),
    {
        let v = chars_of(s);
        let len = v.len();
        let eol = find_char(&v, 0, '\n');
        let hash = find_char(&v, 0, '#');
        if hash < eol {
            let cols = match parse_usize(&v, 0, hash) {
                Some(c) => c,
                None => {
                    return Err(ParseError::Header);
                },
            };
            let mut board = match Board::from_clue_chars(cols, &v, hash + 1, eol) {
                Some(b) => b,
                None => {
                    return Err(ParseError::Clues);
                },
            };
            let ghost header = board.tasks;
            proof {
                let n = (eol - (hash + 1)) as int;
                let w = cols as int;
                vstd::arithmetic::div_mod::lemma_fundamental_div_mod(n, w);
                assert(board.rows() * board.cols() == n) by (nonlinear_arith)
                    requires
                        n == w * (n / w) + n % w,
                        board.rows() == n / w,
                        n % w == 0,
                        w == board.cols(),
                ;
            }
            let mut pos = eol;
            while pos < len
                invariant
                    len == v.len(),
                    pos <= len,
                    board.wf(),
                    board.tasks == header,
                    eol == len ==> pos == len,
                    v@ == s@,
                    eol == first_from(s@, '\n', 0),
                decreases len - pos,
            {
                let start = pos + 1;
                let end = find_char(&v, start, '\n');
                if start < end {
                    let c = v[start];
                    if c == '0' || c == '1' {
                        match parse_move(&v, start, end) {
                            Some((dir, row, col, value)) => {
                                if !board.valid_edge((dir, row, col)) {
                                    return Err(ParseError::Move);
                                }
                                match board.play(dir, (row, col), value, String::new()) {
                                    Ok(()) => {},
                                    Err(x) => {
                                        return Err(ParseError::Conflict(x));
                                    },
                                }
                            },
                            None => {
                                return Err(ParseError::Move);
                            },
                        }
                    } else {
                        board.set_solution_chars(&v, start, end)?;
                    }
                }
                pos = end;
            }
            Ok(board)
        } else {
            let cols = eol;
            let mut clues: Vec<char> = Vec::new();
            let mut pos: usize = 0;
            while pos < len
                invariant
                    len == v.len(),
                    pos <= len,
                    v@ == s@,
                    hash >= eol,
                    eol == first_from(s@, '\n', 0),
                    hash == first_from(s@, '#', 0),
                decreases len - pos,
            {
                let end = find_char(&v, pos, '\n');
                if end - pos != cols {
                    return Err(ParseError::Header);
                }
                let mut k = pos;
                while k < end
                    invariant
                        pos <= k <= end <= len == v.len(),
                    decreases end - k,
                {
                    clues.push(v[k]);
                    k = k + 1;
                }
                pos = if end < len {
                    end + 1
                } else {
                    end
                };
            }
            match Board::from_clue_chars(cols, &clues, 0, clues.len()) {
                Some(b) => Ok(b),
                None => Err(ParseError::Clues),
            }
        }
    }
}

impl core::str::FromStr for Board {
    type Err = ParseError;

    fn from_str(s: &str) -> Result<Board, ParseError> {
        Board::parse(s)
    }
}


/// Neighbouring edges of the sequence are linked.
pub open spec fn runs_linked(s: Seq<Edge>) -> bool {
    forall|k: int| 0 <= k < s.len() - 1 ==> linked(#[trigger] s[k], s[k + 1])
}

/// Some chain of `ch` holds `e`.
pub open spec fn in_some(ch: Seq<Seq<Edge>>, e: Edge) -> bool {
    exists|i: int| 0 <= i < ch.len() && (#[trigger] ch[i]).contains(e)
}

/// Linked runs stay linked runs, and every edge of the pool, the open chain
/// and the closed chains ends up in a chain.
proof fn lemma_chains_runs(pool: Seq<Edge>, row: Seq<Edge>, acc: Seq<Seq<Edge>>)
    requires
        pool.len() == 0 ==> row.len() == 0,
        runs_linked(row),
        forall|i: int| 0 <= i < acc.len() ==> runs_linked(#[trigger] acc[i]),
    ensures
        forall|i: int|
            0 <= i < grow_chains(pool, row, acc).len() ==> runs_linked(#[trigger] grow_chains(pool, row, acc)[i]),
        forall|e: Edge|
            (pool.contains(e) || row.contains(e) || in_some(acc, e)) ==> #[trigger] in_some(
                grow_chains(pool, row, acc),
                e,
            ),
    decreases 2 * pool.len() + if row.len() > 0 {
        1int
    } else {
        0int
    },
{
    if pool.len() > 0 {
        let row0 = if row.len() == 0 {
            seq![pool.last()]
        } else {
            row
        };
        let pool0 = if row.len() == 0 {
            pool.drop_last()
        } else {
            pool
        };
        assert forall|e: Edge| pool.contains(e) || row.contains(e) implies pool0.contains(e) || row0.contains(e) by {
            if pool.contains(e) && row.len() == 0 {
                let k = choose|k: int| 0 <= k < pool.len() && pool[k] == e;
                if k == pool.len() - 1 {
                    assert(row0[0] == e);
                } else {
                    assert(pool0[k] == e);
                }
            }
        }
        lemma_first_linked(pool0, row0[0], 0);
        let front = grow_front(pool0, row0);
        assert(runs_linked(front.1)) by {
            if front.2 {
                assert forall|k: int| 0 <= k < front.1.len() - 1 implies linked(#[trigger] front.1[k], front.1[k + 1]) by {
                    if k > 0 {
                        assert(front.1[k] == row0[k - 1]);
                        assert(front.1[k + 1] == row0[k]);
                    }
                }
            }
        }
        assert forall|e: Edge| pool0.contains(e) || row0.contains(e) implies front.0.contains(e) || front.1.contains(e) by {
            if front.2 {
                let i = first_linked(pool0, row0[0], 0)->Some_0;
                if pool0.contains(e) {
                    let k = choose|k: int| 0 <= k < pool0.len() && pool0[k] == e;
                    if k == i {
                        assert(front.1[0] == e);
                    } else if k == pool0.len() - 1 {
                        assert(front.0[i] == e);
                    } else {
                        assert(front.0[k] == e);
                    }
                } else {
                    let k = choose|k: int| 0 <= k < row0.len() && row0[k] == e;
                    assert(front.1[k + 1] == e);
                }
            }
        }
        lemma_first_linked(front.0, front.1.last(), 0);
        let back = grow_back(front.0, front.1);
        assert(runs_linked(back.1)) by {
            if back.2 {
                assert forall|k: int| 0 <= k < back.1.len() - 1 implies linked(#[trigger] back.1[k], back.1[k + 1]) by {
                    if k < front.1.len() - 1 {
                        assert(back.1[k] == front.1[k]);
                        assert(back.1[k + 1] == front.1[k + 1]);
                    }
                }
            }
        }
        assert forall|e: Edge| front.0.contains(e) || front.1.contains(e) implies back.0.contains(e) || back.1.contains(e) by {
            if back.2 {
                let i = first_linked(front.0, front.1.last(), 0)->Some_0;
                if front.0.contains(e) {
                    let k = choose|k: int| 0 <= k < front.0.len() && front.0[k] == e;
                    if k == i {
                        assert(back.1[back.1.len() - 1] == e);
                    } else if k == front.0.len() - 1 {
                        assert(back.0[i] == e);
                    } else {
                        assert(back.0[k] == e);
                    }
                } else {
                    let k = choose|k: int| 0 <= k < front.1.len() && front.1[k] == e;
                    assert(back.1[k] == e);
                }
            }
        }
        if !(front.2 || back.2) || back.0.len() == 0 {
            let acc2 = acc.push(back.1);
            assert forall|i: int| 0 <= i < acc2.len() implies runs_linked(#[trigger] acc2[i]) by {
                if i < acc.len() {
                    assert(acc2[i] == acc[i]);
                }
            }
            assert forall|e: Edge| back.1.contains(e) || in_some(acc, e) implies in_some(acc2, e) by {
                if back.1.contains(e) {
                    assert(acc2[acc.len() as int] == back.1);
                } else {
                    let i = choose|i: int| 0 <= i < acc.len() && (#[trigger] acc[i]).contains(e);
                    assert(acc2[i] == acc[i]);
                }
            }
            assert(grow_chains(pool, row, acc) == grow_chains(back.0, seq![], acc2));
            lemma_chains_runs(back.0, seq![], acc2);
        } else {
            assert(grow_chains(pool, row, acc) == grow_chains(back.0, back.1, acc));
            lemma_chains_runs(back.0, back.1, acc);
        }
    }
}


/// Path analysis splits the loop edges into runs: in every chain each edge is
/// linked to the next, every chain edge is a loop edge of the board, and
/// every loop edge lies on some chain.
pub proof fn lemma_paths_cover(f: Fences, rows: int, cols: int)
    requires
        f.wf_for(rows, cols),
    ensures
        forall|i: int| 0 <= i < chains(f).len() ==> runs_linked(#[trigger] chains(f)[i]),
        forall|i: int, j: int|
            0 <= i < chains(f).len() && 0 <= j < chains(f)[i].len() ==> f.valid(#[trigger] chains(f)[i][j])
                && f.val(chains(f)[i][j]) == Some(true),
        forall|e: Edge| f.valid(e) && f.val(e) == Some(true) ==> #[trigger] in_some(chains(f), e),
{
    lemma_chains_valid(f, rows, cols);
    lemma_chains_runs(on_edges(f), seq![], seq![]);
    assert forall|e: Edge| f.valid(e) && f.val(e) == Some(true) implies #[trigger] in_some(chains(f), e) by {
        lemma_on_edges_complete(f, rows, cols, e);
    }
}

/// Every loop edge of the board is listed by `on_edges`.
proof fn lemma_on_edges_complete(f: Fences, rows: int, cols: int, e: Edge)
    requires
        f.wf_for(rows, cols),
        f.valid(e),
        f.val(e) == Some(true),
    ensures
        on_edges(f).contains(e),
{
    let a = on_prefix(f.h.data@, f.h.cols as int, 0, f.h.data.len() as int);
    let b = on_prefix(f.v.data@, f.v.cols as int, 1, f.v.data.len() as int);
    if e.0 == 0 {
        let k = e.1 * f.h.cols + e.2;
        lemma_offset(f.h.rows as int, f.h.cols as int, e.1 as int, e.2 as int);
        lemma_offset_edge(0, f.h.cols as int, e.1 as int, e.2 as int);
        lemma_on_prefix_has(f.h.data@, f.h.cols as int, 0, f.h.data.len() as int, k);
        let m = choose|m: int| 0 <= m < a.len() && a[m] == e;
        assert(on_edges(f)[m] == e);
    } else {
        let k = e.1 * f.v.cols + e.2;
        lemma_offset(f.v.rows as int, f.v.cols as int, e.1 as int, e.2 as int);
        lemma_offset_edge(1, f.v.cols as int, e.1 as int, e.2 as int);
        lemma_on_prefix_has(f.v.data@, f.v.cols as int, 1, f.v.data.len() as int, k);
        let m = choose|m: int| 0 <= m < b.len() && b[m] == e;
        assert(on_edges(f)[a.len() + m] == e);
    }
}

/// A loop cell among the first `n` cells is listed by the scan.
proof fn lemma_on_prefix_has(data: Seq<Fence>, cols: int, dir: usize, n: int, k: int)
    requires
        0 <= k < n <= data.len(),
        data[k].0 == Some(true),
    ensures
        on_prefix(data, cols, dir, n).contains(edge_at_offset(dir, cols, k)),
    decreases n,
{
    let p = on_prefix(data, cols, dir, n);
    if k == n - 1 {
        assert(p[p.len() - 1] == edge_at_offset(dir, cols, k));
    } else {
        lemma_on_prefix_has(data, cols, dir, n - 1, k);
        let q = on_prefix(data, cols, dir, n - 1);
        let m = choose|m: int| 0 <= m < q.len() && q[m] == edge_at_offset(dir, cols, k);
        assert(p[m] == edge_at_offset(dir, cols, k));
    }
}

} // verus!
