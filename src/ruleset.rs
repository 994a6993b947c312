use crate::grid::{lemma_same_cells, Grid};
use crate::items::{fence_char, Fence, U2};
use crate::rules::{grid_rotation_of, TaskType};
use vstd::prelude::*;

verus! {

/// A rule without its clues: input and output edges of both directions and
/// a placement.  Rule sets key such rules by their clue pattern.
#[derive(Debug)]
pub struct Rule {
    pub in_h: Grid<Fence>,
    pub in_v: Grid<Fence>,
    pub out_h: Grid<Fence>,
    pub out_v: Grid<Fence>,
    pub location: TaskType,
}

/// Grids of one shape with the same cells.
pub open spec fn same_grid<T>(a: Grid<T>, b: Grid<T>) -> bool {
    a.rows == b.rows && a.cols == b.cols && a.data@ == b.data@
}

impl Rule {
    /// The shapes of a rule over a `rows` by `cols` clue pattern.
    pub open spec fn wf_for(&self, rows: int, cols: int) -> bool {
        &&& self.in_h.wf() && self.out_h.wf() && self.in_v.wf() && self.out_v.wf()
        &&& self.in_h.rows == rows + 1 && self.in_h.cols == cols
        &&& self.out_h.rows == rows + 1 && self.out_h.cols == cols
        &&& self.in_v.rows == rows && self.in_v.cols == cols + 1
        &&& self.out_v.rows == rows && self.out_v.cols == cols + 1
        &&& self.location.wf()
    }

    /// `self` is `o` turned a quarter turn clockwise.
    pub open spec fn rotation_of(&self, o: &Rule) -> bool {
        &&& grid_rotation_of(self.in_h, o.in_v)
        &&& grid_rotation_of(self.in_v, o.in_h)
        &&& grid_rotation_of(self.out_h, o.out_v)
        &&& grid_rotation_of(self.out_v, o.out_h)
        &&& self.location == o.location.rotated()
    }

    /// Same shapes, edges and placement.
    pub open spec fn same_as(&self, o: &Rule) -> bool {
        &&& same_grid(self.in_h, o.in_h)
        &&& same_grid(self.in_v, o.in_v)
        &&& same_grid(self.out_h, o.out_h)
        &&& same_grid(self.out_v, o.out_v)
        &&& self.location == o.location
    }

    /// The rule over a `size.0` by `size.1` clue pattern whose input and
    /// output edges are `fences` and `solution`, direction 0 row by row and
    /// then direction 1.
    pub fn new(size: (usize, usize), fences: Vec<Fence>, solution: Vec<Fence>, location: TaskType) -> (r: Rule)
        requires
            (size.0 + 1) * (size.1 + 1) <= usize::MAX,
            fences.len() == (size.0 + 1) * size.1 + size.0 * (size.1 + 1),
            solution.len() == (size.0 + 1) * size.1 + size.0 * (size.1 + 1),
            location.wf(),
        ensures
            r.wf_for(size.0 as int, size.1 as int),
            r.in_h.data@ + r.in_v.data@ == fences@,
            r.out_h.data@ + r.out_v.data@ == solution@,
            r.location == location,
    {
        let i = crate::rules::split_fences(&fences, size.0, size.1);
        let o = crate::rules::split_fences(&solution, size.0, size.1);
        Rule { in_h: i.h, in_v: i.v, out_h: o.h, out_v: o.v, location }
    }

    /// Turns the rule a quarter turn clockwise.
    pub fn rotate(&mut self)
        requires
            old(self).wf_for(old(self).in_v.rows as int, old(self).in_h.cols as int),
        ensures
            final(self).wf_for(old(self).in_h.cols as int, old(self).in_v.rows as int),
            final(self).rotation_of(old(self)),
    {
        let mut location = self.location;
        location.rotate();
        let r = Rule {
            in_h: self.in_v.rotate(),
            in_v: self.in_h.rotate(),
            out_h: self.out_v.rotate(),
            out_v: self.out_h.rotate(),
            location,
        };
        *self = r;
    }

    /// A deep copy.
    pub fn copy(&self) -> (r: Rule)
        requires
            self.in_h.wf() && self.in_v.wf() && self.out_h.wf() && self.out_v.wf(),
        ensures
            r.same_as(self),
            r.in_h.wf() && r.in_v.wf() && r.out_h.wf() && r.out_v.wf(),
    {
        Rule {
            in_h: self.in_h.clone(),
            in_v: self.in_v.clone(),
            out_h: self.out_h.clone(),
            out_v: self.out_v.clone(),
            location: self.location,
        }
    }

    /// Whether two rules have the same shapes, edges and placement.
    pub fn same(&self, o: &Rule) -> (b: bool)
        ensures
            b == self.same_as(o),
    {
        same_cells_exec(&self.in_h, &o.in_h) && same_cells_exec(&self.in_v, &o.in_v) && same_cells_exec(
            &self.out_h,
            &o.out_h,
        ) && same_cells_exec(&self.out_v, &o.out_v) && self.location == o.location
    }

    /// The rule as text: its placement, then each edge grid row by row with
    /// `|` between rows.
    pub fn print(&self) -> (s: String)
        requires
            self.in_h.wf() && self.in_v.wf() && self.out_h.wf() && self.out_v.wf(),
            self.location.wf(),
        ensures
            s@ == seq!['R', 'u', 'l', 'e', ' '] + variant_text(self.location) + seq!['\n', ' ', ' ', 'i', 'n', '_', 'h', ':', ' ']
                + grid_text(self.in_h) + seq![' ', 'o', 'u', 't', '_', 'h', ':', ' '] + grid_text(self.out_h)
                + seq!['\n', ' ', ' ', 'i', 'n', '_', 'v', ':', ' '] + grid_text(self.in_v) + seq![' ', 'o', 'u', 't', '_', 'v', ':', ' ']
                + grid_text(self.out_v),
    {
        let mut s = String::new();
        push_chars(&mut s, &vec!['R', 'u', 'l', 'e', ' ']);
        push_variant(&mut s, self.location);
        push_chars(&mut s, &vec!['\n', ' ', ' ', 'i', 'n', '_', 'h', ':', ' ']);
        push_grid(&mut s, &self.in_h);
        push_chars(&mut s, &vec![' ', 'o', 'u', 't', '_', 'h', ':', ' ']);
        push_grid(&mut s, &self.out_h);
        push_chars(&mut s, &vec!['\n', ' ', ' ', 'i', 'n', '_', 'v', ':', ' ']);
        push_grid(&mut s, &self.in_v);
        push_chars(&mut s, &vec![' ', 'o', 'u', 't', '_', 'v', ':', ' ']);
        push_grid(&mut s, &self.out_v);
        assert(s@ =~= seq!['R', 'u', 'l', 'e', ' '] + variant_text(self.location) + seq!['\n', ' ', ' ', 'i', 'n', '_', 'h', ':', ' ']
                + grid_text(self.in_h) + seq![' ', 'o', 'u', 't', '_', 'h', ':', ' '] + grid_text(self.out_h)
                + seq!['\n', ' ', ' ', 'i', 'n', '_', 'v', ':', ' '] + grid_text(self.in_v) + seq![' ', 'o', 'u', 't', '_', 'v', ':', ' ']
                + grid_text(self.out_v));
        s
    }
}

/// The text of a placement: `Corner(k)`, `Edge(k)` or `Anywhere`.
pub open spec fn variant_text(t: TaskType) -> Seq<char> {
    match t {
        TaskType::Corner(x) => seq!['C', 'o', 'r', 'n', 'e', 'r', '(', crate::rules::digit(x as int), ')'],
        TaskType::Edge(x) => seq!['E', 'd', 'g', 'e', '(', crate::rules::digit(x as int), ')'],
        TaskType::Anywhere => seq!['A', 'n', 'y', 'w', 'h', 'e', 'r', 'e'],
    }
}

/// The glyphs of the first `n` cells of `g`, with `|` after each full row
/// but the last.
pub open spec fn cells_text(g: Grid<Fence>, n: int) -> Seq<char>
    decreases n,
{
    if n <= 0 {
        seq![]
    } else {
        let prev = cells_text(g, n - 1);
        let c = fence_char(g.data@[n - 1].0);
        if (n - 1) % (g.cols as int) == 0 && n - 1 > 0 {
            prev.push('|').push(c)
        } else {
            prev.push(c)
        }
    }
}

/// The rows of `g` as glyphs, `|` between rows.
pub open spec fn grid_text(g: Grid<Fence>) -> Seq<char> {
    cells_text(g, g.data.len() as int)
}

fn push_chars(s: &mut String, cs: &Vec<char>)
    ensures
        final(s)@ == old(s)@ + cs@,
{
    let ghost start = s@;
    let mut i: usize = 0;
    while i < cs.len()
        invariant
            i <= cs.len(),
            s@ == start + cs@.subrange(0, i as int),
        decreases cs.len() - i,
    {
        s.push(cs[i]);
        i = i + 1;
        assert(start + cs@.subrange(0, i as int) =~= start + cs@.subrange(0, i - 1) + seq![cs@[i - 1]]);
    }
    assert(cs@.subrange(0, i as int) =~= cs@);
}

fn push_variant(s: &mut String, t: TaskType)
    requires
        t.wf(),
    ensures
        final(s)@ == old(s)@ + variant_text(t),
{
    let ghost start = s@;
    match t {
        TaskType::Corner(x) => {
            s.push('C');
            s.push('o');
            s.push('r');
            s.push('n');
            s.push('e');
            s.push('r');
            s.push('(');
            s.push(crate::rules::digit_char(x));
            s.push(')');
        },
        TaskType::Edge(x) => {
            s.push('E');
            s.push('d');
            s.push('g');
            s.push('e');
            s.push('(');
            s.push(crate::rules::digit_char(x));
            s.push(')');
        },
        TaskType::Anywhere => {
            s.push('A');
            s.push('n');
            s.push('y');
            s.push('w');
            s.push('h');
            s.push('e');
            s.push('r');
            s.push('e');
        },
    }
    assert(s@ =~= start + variant_text(t));
}

fn push_grid(s: &mut String, g: &Grid<Fence>)
    requires
        g.wf(),
    ensures
        final(s)@ == old(s)@ + grid_text(*g),
{
    let ghost start = s@;
    let mut k: usize = 0;
    let mut r: usize = 0;
    let mut c: usize = 0;
    while k < g.data.len()
        invariant
            g.wf(),
            k <= g.data.len(),
            k < g.data.len() ==> c < g.cols && k == r * g.cols + c,
            s@ == start + cells_text(*g, k as int),
        decreases g.data.len() - k,
    {
        proof {
            vstd::arithmetic::div_mod::lemma_fundamental_div_mod_converse(k as int, g.cols as int, r as int, c as int);
        }
        if c == 0 && k > 0 {
            s.push('|');
        }
        s.push(g.data[k].to_char());
        k = k + 1;
        c = c + 1;
        if c == g.cols {
            proof {
                assert((r + 1) * g.cols == r * g.cols + g.cols) by (nonlinear_arith);
            }
            c = 0;
            r = r + 1;
        }
        assert(s@ =~= start + cells_text(*g, k as int));
    }
}

/// Whether two grids have the same shape and cells.
fn same_cells_exec(a: &Grid<Fence>, b: &Grid<Fence>) -> (r: bool)
    ensures
        r == same_grid(*a, *b),
{
    if a.rows != b.rows || a.cols != b.cols || a.data.len() != b.data.len() {
        return false;
    }
    let mut i: usize = 0;
    while i < a.data.len()
        invariant
            a.data.len() == b.data.len(),
            i <= a.data.len(),
            forall|k: int| 0 <= k < i ==> a.data@[k] == b.data@[k],
        decreases a.data.len() - i,
    {
        if a.data[i] != b.data[i] {
            return false;
        }
        i = i + 1;
    }
    assert(a.data@ =~= b.data@);
    true
}


/// Whether two clue grids have the same shape and cells.
fn same_clues_exec(a: &Grid<U2>, b: &Grid<U2>) -> (r: bool)
    ensures
        r == same_grid(*a, *b),
{
    if a.rows != b.rows || a.cols != b.cols || a.data.len() != b.data.len() {
        return false;
    }
    let mut i: usize = 0;
    while i < a.data.len()
        invariant
            a.data.len() == b.data.len(),
            i <= a.data.len(),
            forall|k: int| 0 <= k < i ==> a.data@[k] == b.data@[k],
        decreases a.data.len() - i,
    {
        if a.data[i] != b.data[i] {
            return false;
        }
        i = i + 1;
    }
    assert(a.data@ =~= b.data@);
    true
}

/// Rules keyed by their clue pattern; every key appears once and no rule
/// twice under one key.
#[derive(Debug)]
pub struct BoardRules(pub Vec<(Grid<U2>, Vec<Rule>)>);

/// The set holds rule `r` under clue pattern `key`.
pub open spec fn holds(set: Seq<(Grid<U2>, Vec<Rule>)>, key: Grid<U2>, r: Rule) -> bool {
    exists|i: int, j: int|
        0 <= i < set.len() && 0 <= j < set[i].1.len() && same_grid(set[i].0, key) && (#[trigger] set[i].1@[j]).same_as(&r)
}

/// `x` is the rule over clue pattern `key` read from `fences`, `solution`
/// and `location`.
pub open spec fn built_from(x: Rule, key: Grid<U2>, fences: Seq<Fence>, solution: Seq<Fence>, location: TaskType) -> bool {
    &&& x.wf_for(key.rows as int, key.cols as int)
    &&& x.in_h.data@ + x.in_v.data@ == fences
    &&& x.out_h.data@ + x.out_v.data@ == solution
    &&& x.location == location
}

impl BoardRules {
    pub open spec fn wf(&self) -> bool {
        &&& forall|i: int| 0 <= i < self.0.len() ==> (#[trigger] self.0@[i]).0.wf()
        &&& forall|i: int, j: int|
            0 <= i < self.0.len() && 0 <= j < self.0.len() && i != j ==> !same_grid(
                (#[trigger] self.0@[i]).0,
                (#[trigger] self.0@[j]).0,
            )
        &&& forall|i: int, j: int, k: int|
            #![trigger self.0@[i].1@[j], self.0@[i].1@[k]]
            0 <= i < self.0.len() && 0 <= j < self.0@[i].1.len() && 0 <= k < self.0@[i].1.len() && j != k
                ==> !self.0@[i].1@[j].same_as(&self.0@[i].1@[k])
    }

    /// An empty rule set.
    pub fn new() -> (r: BoardRules)
        ensures
            r.wf(),
            r.0.len() == 0,
    {
        BoardRules(Vec::new())
    }

    /// Adds `rule` under `key` unless it is there already.
    fn insert(&mut self, key: Grid<U2>, rule: Rule)
        requires
            old(self).wf(),
            key.wf(),
        ensures
            final(self).wf(),
            holds(final(self).0@, key, rule),
            forall|k: Grid<U2>, r: Rule| holds(old(self).0@, k, r) ==> holds(final(self).0@, k, r),
            forall|k: Grid<U2>, r: Rule|
                holds(final(self).0@, k, r) ==> holds(old(self).0@, k, r) || (same_grid(k, key) && r.same_as(
                    &rule,
                )),
    {
        let mut i: usize = 0;
        while i < self.0.len()
            invariant
                *self == *old(self),
                i <= self.0.len(),
                forall|m: int| 0 <= m < i ==> !same_grid((#[trigger] self.0@[m]).0, key),
            ensures
                *self == *old(self),
                i <= self.0.len(),
                i < self.0.len() ==> same_grid(self.0@[i as int].0, key),
                i == self.0.len() ==> forall|m: int| 0 <= m < i ==> !same_grid((#[trigger] self.0@[m]).0, key),
            decreases self.0.len() - i,
        {
            if same_clues_exec(&self.0[i].0, &key) {
                break;
            }
            i = i + 1;
        }
        let ghost before = self.0@;
        if i == self.0.len() {
            let mut rs: Vec<Rule> = Vec::new();
            rs.push(rule);
            self.0.push((key, rs));
            proof {
                assert(self.0@[i as int].1@[0].same_as(&rule));
                assert forall|k: Grid<U2>, r: Rule| holds(before, k, r) implies holds(self.0@, k, r) by {
                    let (a, b) = choose|a: int, b: int|
                        0 <= a < before.len() && 0 <= b < before[a].1.len() && same_grid(before[a].0, k) && (#[trigger] before[a].1@[b]).same_as(&r);
                    assert(self.0@[a] == before[a]);
                }
                assert forall|k: Grid<U2>, r: Rule| holds(self.0@, k, r) implies holds(before, k, r) || (same_grid(k, key)
                    && r.same_as(&rule)) by {
                    let (a, b) = choose|a: int, b: int|
                        0 <= a < self.0@.len() && 0 <= b < self.0@[a].1.len() && same_grid(self.0@[a].0, k) && (#[trigger] self.0@[a].1@[b]).same_as(&r);
                    if a < before.len() {
                        assert(self.0@[a] == before[a]);
                        assert(before[a].1@[b].same_as(&r));
                    } else {
                        assert(self.0@[a].1@[b] == rule);
                    }
                }
                assert forall|a: int, b: int|
                    0 <= a < self.0.len() && 0 <= b < self.0.len() && a != b implies !same_grid(
                    (#[trigger] self.0@[a]).0,
                    (#[trigger] self.0@[b]).0,
                ) by {
                    if a < before.len() && b < before.len() {
                        assert(self.0@[a] == before[a] && self.0@[b] == before[b]);
                    } else if a < before.len() {
                        assert(self.0@[a] == before[a]);
                    } else {
                        assert(self.0@[b] == before[b]);
                    }
                }
                assert forall|a: int| 0 <= a < self.0.len() implies (#[trigger] self.0@[a]).0.wf() by {
                    if a < before.len() {
                        assert(self.0@[a] == before[a]);
                    }
                }
                assert forall|a: int, j: int, k: int|
                    #![trigger self.0@[a].1@[j], self.0@[a].1@[k]]
                    0 <= a < self.0.len() && 0 <= j < self.0@[a].1.len() && 0 <= k < self.0@[a].1.len() && j != k
                        implies !self.0@[a].1@[j].same_as(&self.0@[a].1@[k]) by {
                    if a < before.len() {
                        assert(self.0@[a] == before[a]);
                    }
                }
            }
            return;
        }
        let mut j: usize = 0;
        while j < self.0[i].1.len()
            invariant
                *self == *old(self),
                self.wf(),
                i < self.0.len(),
                same_grid(self.0@[i as int].0, key),
                before == self.0@,
                j <= self.0@[i as int].1.len(),
                forall|m: int| 0 <= m < j ==> !(#[trigger] self.0@[i as int].1@[m]).same_as(&rule),
            decreases self.0@[i as int].1.len() - j,
        {
            if self.0[i].1[j].same(&rule) {
                proof {
                    assert(same_grid(self.0@[i as int].0, key));
                    assert(holds(self.0@, key, rule));
                }
                return;
            }
            j = j + 1;
        }
        let (k0, mut rs) = self.0.remove(i);
        let ghost rs_before = rs@;
        rs.push(rule);
        self.0.insert(i, (k0, rs));
        proof {
            assert(self.0@ == before.update(i as int, (k0, rs)));
            assert(self.0@[i as int].1@[rs_before.len() as int].same_as(&rule));
            assert(same_grid(self.0@[i as int].0, key));
            assert(holds(self.0@, key, rule));
            assert forall|k: Grid<U2>, r: Rule| holds(before, k, r) implies holds(self.0@, k, r) by {
                let (a, b) = choose|a: int, b: int|
                    0 <= a < before.len() && 0 <= b < before[a].1.len() && same_grid(before[a].0, k) && (#[trigger] before[a].1@[b]).same_as(&r);
                if a == i {
                    assert(self.0@[a].1@[b] == before[a].1@[b]);
                } else {
                    assert(self.0@[a] == before[a]);
                }
            }
            assert forall|k: Grid<U2>, r: Rule| holds(self.0@, k, r) implies holds(before, k, r) || (same_grid(k, key)
                && r.same_as(&rule)) by {
                let (a, b) = choose|a: int, b: int|
                    0 <= a < self.0@.len() && 0 <= b < self.0@[a].1.len() && same_grid(self.0@[a].0, k) && (#[trigger] self.0@[a].1@[b]).same_as(&r);
                if a != i {
                    assert(self.0@[a] == before[a]);
                    assert(before[a].1@[b].same_as(&r));
                } else if b < rs_before.len() {
                    assert(self.0@[a].1@[b] == before[a].1@[b]);
                    assert(before[a].1@[b].same_as(&r));
                } else {
                    assert(self.0@[a].1@[b] == rule);
                    assert(same_grid(self.0@[a].0, key));
                }
            }
            assert forall|a: int, b: int|
                0 <= a < self.0.len() && 0 <= b < self.0.len() && a != b implies !same_grid(
                (#[trigger] self.0@[a]).0,
                (#[trigger] self.0@[b]).0,
            ) by {
                assert(self.0@[a].0 == before[a].0 && self.0@[b].0 == before[b].0);
            }
            assert forall|a: int| 0 <= a < self.0.len() implies (#[trigger] self.0@[a]).0.wf() by {
                assert(self.0@[a].0 == before[a].0);
            }
            assert forall|a: int, j2: int, k: int|
                #![trigger self.0@[a].1@[j2], self.0@[a].1@[k]]
                0 <= a < self.0.len() && 0 <= j2 < self.0@[a].1.len() && 0 <= k < self.0@[a].1.len() && j2 != k
                    implies !self.0@[a].1@[j2].same_as(&self.0@[a].1@[k]) by {
                if a != i {
                    assert(self.0@[a] == before[a]);
                } else {
                    if j2 < rs_before.len() && k < rs_before.len() {
                        assert(self.0@[a].1@[j2] == before[a].1@[j2]);
                        assert(self.0@[a].1@[k] == before[a].1@[k]);
                    } else if j2 < rs_before.len() {
                        assert(self.0@[a].1@[j2] == before[a].1@[j2]);
                    } else {
                        assert(self.0@[a].1@[k] == before[a].1@[k]);
                    }
                }
            }
        }
    }
}


/// Quarter turns of grids with the same cells have the same cells.
proof fn lemma_turn_same<T>(a: Grid<T>, b: Grid<T>, oa: Grid<T>, ob: Grid<T>)
    requires
        a.wf(),
        b.wf(),
        grid_rotation_of(a, oa),
        grid_rotation_of(b, ob),
        same_grid(oa, ob),
    ensures
        same_grid(a, b),
{
    assert forall|r: int, c: int| #[trigger] a.in_bounds(r, c) implies a.at(r, c) == b.at(r, c) by {
        assert(b.in_bounds(r, c));
    }
    lemma_same_cells(a, b);
}

/// Turning relations only depend on the cells of both grids.
proof fn lemma_turn_transfer<T>(a: Grid<T>, b: Grid<T>, oa: Grid<T>, ob: Grid<T>)
    requires
        same_grid(a, b),
        same_grid(oa, ob),
        grid_rotation_of(b, ob),
    ensures
        grid_rotation_of(a, oa),
{
    assert forall|c: int, k: int| #[trigger] a.in_bounds(c, k) implies a.at(c, k) == oa.at(oa.rows - 1 - k, c) by {
        assert(b.in_bounds(c, k));
    }
}

/// Rule turning relations only depend on the cells of both rules.
proof fn lemma_rule_turn_transfer(a: Rule, b: Rule, oa: Rule, ob: Rule)
    requires
        a.same_as(&b),
        oa.same_as(&ob),
        b.rotation_of(&ob),
    ensures
        a.rotation_of(&oa),
{
    lemma_turn_transfer(a.in_h, b.in_h, oa.in_v, ob.in_v);
    lemma_turn_transfer(a.in_v, b.in_v, oa.in_h, ob.in_h);
    lemma_turn_transfer(a.out_h, b.out_h, oa.out_v, ob.out_v);
    lemma_turn_transfer(a.out_v, b.out_v, oa.out_h, ob.out_h);
}

/// Quarter turns of rules with the same cells have the same cells.
proof fn lemma_rule_turn_same(x: Rule, y: Rule, ox: Rule, oy: Rule)
    requires
        x.in_h.wf() && x.in_v.wf() && x.out_h.wf() && x.out_v.wf(),
        y.in_h.wf() && y.in_v.wf() && y.out_h.wf() && y.out_v.wf(),
        x.rotation_of(&ox),
        y.rotation_of(&oy),
        ox.same_as(&oy),
    ensures
        x.same_as(&y),
{
    lemma_turn_same(x.in_h, y.in_h, ox.in_v, oy.in_v);
    lemma_turn_same(x.in_v, y.in_v, ox.in_h, oy.in_h);
    lemma_turn_same(x.out_h, y.out_h, ox.out_v, oy.out_v);
    lemma_turn_same(x.out_v, y.out_v, ox.out_h, oy.out_h);
}

/// Membership only depends on the cells of the key and of the rule.
proof fn lemma_holds_same(set: Seq<(Grid<U2>, Vec<Rule>)>, k1: Grid<U2>, r1: Rule, k2: Grid<U2>, r2: Rule)
    requires
        holds(set, k1, r1),
        same_grid(k1, k2),
        r1.same_as(&r2),
    ensures
        holds(set, k2, r2),
{
    let (i, j) = choose|i: int, j: int|
        0 <= i < set.len() && 0 <= j < set[i].1.len() && same_grid(set[i].0, k1) && (#[trigger] set[i].1@[j]).same_as(&r1);
    assert(set[i].1@[j].same_as(&r2));
}

/// `(k, r)` is the rule read from `fences`, `solution` and `location` under
/// `clues`, or one of its three quarter turns under the turned clue pattern.
pub open spec fn turned_pair(
    k: Grid<U2>,
    r: Rule,
    clues: Grid<U2>,
    fences: Seq<Fence>,
    solution: Seq<Fence>,
    location: TaskType,
) -> bool {
    ||| same_grid(k, clues) && built_from(r, clues, fences, solution, location)
    ||| exists|x0: Rule|
        #[trigger] built_from(x0, clues, fences, solution, location) && r.rotation_of(&x0) && grid_rotation_of(
            k,
            clues,
        )
    ||| exists|x0: Rule, x1: Rule, g1: Grid<U2>|
        #![trigger built_from(x0, clues, fences, solution, location), x1.rotation_of(&x0), grid_rotation_of(g1, clues)]
        built_from(x0, clues, fences, solution, location) && x1.rotation_of(&x0) && r.rotation_of(&x1)
            && grid_rotation_of(g1, clues) && grid_rotation_of(k, g1)
    ||| exists|x0: Rule, x1: Rule, x2: Rule, g1: Grid<U2>, g2: Grid<U2>|
        #![trigger built_from(x0, clues, fences, solution, location), x1.rotation_of(&x0), x2.rotation_of(&x1), grid_rotation_of(g1, clues), grid_rotation_of(g2, g1)]
        built_from(x0, clues, fences, solution, location) && x1.rotation_of(&x0) && x2.rotation_of(&x1)
            && r.rotation_of(&x2) && grid_rotation_of(g1, clues) && grid_rotation_of(g2, g1) && grid_rotation_of(k, g2)
}

impl BoardRules {
    /// Adds the rule read from `fences`, `solution` and `task_type` under
    /// the clue pattern `clues`, and its three quarter turns under the turned
    /// clue patterns.
    pub fn add_rule(&mut self, clues: &Grid<U2>, fences: Vec<Fence>, solution: Vec<Fence>, task_type: TaskType)
        requires
            old(self).wf(),
            clues.wf(),
            (clues.rows + 1) * (clues.cols + 1) <= usize::MAX,
            fences.len() == (clues.rows + 1) * clues.cols + clues.rows * (clues.cols + 1),
            solution.len() == (clues.rows + 1) * clues.cols + clues.rows * (clues.cols + 1),
            task_type.wf(),
        ensures
            final(self).wf(),
            forall|k: Grid<U2>, r: Rule| holds(old(self).0@, k, r) ==> holds(final(self).0@, k, r),
            forall|x0: Rule| #[trigger]
                built_from(x0, *clues, fences@, solution@, task_type) ==> holds(final(self).0@, *clues, x0),
            forall|x0: Rule, x1: Rule, g1: Grid<U2>|
                #![trigger built_from(x0, *clues, fences@, solution@, task_type), x1.rotation_of(&x0), grid_rotation_of(g1, *clues)]
                built_from(x0, *clues, fences@, solution@, task_type) && x1.in_h.wf() && x1.in_v.wf() && x1.out_h.wf()
                    && x1.out_v.wf() && g1.wf() && x1.rotation_of(&x0) && grid_rotation_of(g1, *clues) ==> holds(
                    final(self).0@,
                    g1,
                    x1,
                ),
            forall|x0: Rule, x1: Rule, x2: Rule, g1: Grid<U2>, g2: Grid<U2>|
                #![trigger built_from(x0, *clues, fences@, solution@, task_type), x1.rotation_of(&x0), x2.rotation_of(&x1), grid_rotation_of(g1, *clues), grid_rotation_of(g2, g1)]
                built_from(x0, *clues, fences@, solution@, task_type) && x1.in_h.wf() && x1.in_v.wf() && x1.out_h.wf()
                    && x1.out_v.wf() && x2.in_h.wf() && x2.in_v.wf() && x2.out_h.wf() && x2.out_v.wf() && g1.wf()
                    && g2.wf() && x1.rotation_of(&x0) && x2.rotation_of(&x1) && grid_rotation_of(g1, *clues)
                    && grid_rotation_of(g2, g1) ==> holds(final(self).0@, g2, x2),
            forall|x0: Rule, x1: Rule, x2: Rule, x3: Rule, g1: Grid<U2>, g2: Grid<U2>, g3: Grid<U2>|
                #![trigger built_from(x0, *clues, fences@, solution@, task_type), x1.rotation_of(&x0), x2.rotation_of(&x1), x3.rotation_of(&x2), grid_rotation_of(g1, *clues), grid_rotation_of(g2, g1), grid_rotation_of(g3, g2)]
                built_from(x0, *clues, fences@, solution@, task_type) && x1.in_h.wf() && x1.in_v.wf() && x1.out_h.wf()
                    && x1.out_v.wf() && x2.in_h.wf() && x2.in_v.wf() && x2.out_h.wf() && x2.out_v.wf()
                    && x3.in_h.wf() && x3.in_v.wf() && x3.out_h.wf() && x3.out_v.wf() && g1.wf() && g2.wf()
                    && g3.wf() && x1.rotation_of(&x0) && x2.rotation_of(&x1) && x3.rotation_of(&x2)
                    && grid_rotation_of(g1, *clues) && grid_rotation_of(g2, g1) && grid_rotation_of(g3, g2)
                    ==> holds(final(self).0@, g3, x3),
            forall|k: Grid<U2>, r: Rule|
                holds(final(self).0@, k, r) ==> holds(old(self).0@, k, r) || turned_pair(
                    k,
                    r,
                    *clues,
                    fences@,
                    solution@,
                    task_type,
                ),
    {
        let ghost s0 = self.0@;
        let rows = clues.rows;
        let cols = clues.cols;
        let r0 = Rule::new((rows, cols), fences, solution, task_type);
        let c0 = clues.clone();
        let k0 = c0.clone();
        let q0 = r0.copy();
        let ghost gk0 = k0;
        let ghost gq0 = q0;
        self.insert(k0, q0);
        let ghost s1 = self.0@;
        let mut r1 = r0.copy();
        r1.rotate();
        let c1 = c0.rotate();
        let k1 = c1.clone();
        let q1 = r1.copy();
        let ghost gk1 = k1;
        let ghost gq1 = q1;
        self.insert(k1, q1);
        let ghost s2 = self.0@;
        let mut r2 = r1.copy();
        r2.rotate();
        let c2 = c1.rotate();
        let k2 = c2.clone();
        let q2 = r2.copy();
        let ghost gk2 = k2;
        let ghost gq2 = q2;
        self.insert(k2, q2);
        let ghost s3 = self.0@;
        let mut r3 = r2.copy();
        r3.rotate();
        let c3 = c2.rotate();
        let k3 = c3.clone();
        let q3 = r3.copy();
        let ghost gk3 = k3;
        let ghost gq3 = q3;
        self.insert(k3, q3);
        proof {
            assert forall|k: Grid<U2>, r: Rule| holds(self.0@, k, r) implies holds(s0, k, r) || turned_pair(
                k,
                r,
                *clues,
                fences@,
                solution@,
                task_type,
            ) by {
                if !holds(s0, k, r) {
                    assert(built_from(r0, *clues, fences@, solution@, task_type));
                    if same_grid(k, gk0) && r.same_as(&gq0) {
                        assert(same_grid(k, *clues) && built_from(r, *clues, fences@, solution@, task_type));
                    } else if same_grid(k, gk1) && r.same_as(&gq1) {
                        lemma_rule_turn_transfer(r, r1, r0, r0);
                        lemma_turn_transfer(k, c1, *clues, c0);
                        assert(built_from(r0, *clues, fences@, solution@, task_type) && r.rotation_of(&r0)
                            && grid_rotation_of(k, *clues));
                    } else if same_grid(k, gk2) && r.same_as(&gq2) {
                        lemma_rule_turn_transfer(r, r2, r1, r1);
                        lemma_turn_transfer(k, c2, c1, c1);
                        lemma_turn_transfer(c1, c1, *clues, c0);
                        assert(built_from(r0, *clues, fences@, solution@, task_type) && r1.rotation_of(&r0)
                            && r.rotation_of(&r1) && grid_rotation_of(c1, *clues) && grid_rotation_of(k, c1));
                    } else {
                        assert(same_grid(k, gk3) && r.same_as(&gq3));
                        lemma_rule_turn_transfer(r, r3, r2, r2);
                        lemma_turn_transfer(k, c3, c2, c2);
                        lemma_turn_transfer(c1, c1, *clues, c0);
                        assert(built_from(r0, *clues, fences@, solution@, task_type) && r1.rotation_of(&r0)
                            && r2.rotation_of(&r1) && r.rotation_of(&r2) && grid_rotation_of(c1, *clues)
                            && grid_rotation_of(c2, c1) && grid_rotation_of(k, c2));
                    }
                }
            }
            assert(holds(self.0@, c0, r0));
            assert(holds(self.0@, c1, r1));
            assert(holds(self.0@, c2, r2));
            assert(holds(self.0@, c3, r3));
            assert forall|x0: Rule| #[trigger] built_from(x0, *clues, fences@, solution@, task_type) implies holds(self.0@, *clues, x0) by {
                lemma_built_same(x0, r0, (rows + 1) * cols);
                lemma_holds_same(self.0@, c0, r0, *clues, x0);
            }
            assert forall|x0: Rule, x1: Rule, g1: Grid<U2>|
                #![trigger built_from(x0, *clues, fences@, solution@, task_type), x1.rotation_of(&x0), grid_rotation_of(g1, *clues)]
                built_from(x0, *clues, fences@, solution@, task_type) && x1.in_h.wf() && x1.in_v.wf() && x1.out_h.wf()
                    && x1.out_v.wf() && g1.wf() && x1.rotation_of(&x0) && grid_rotation_of(g1, *clues) implies holds(
                    self.0@,
                    g1,
                    x1,
                ) by {
                lemma_built_same(x0, r0, (rows + 1) * cols);
                lemma_rule_turn_same(x1, r1, x0, r0);
                lemma_turn_same(g1, c1, *clues, c0);
                lemma_holds_same(self.0@, c1, r1, g1, x1);
            }
            assert forall|x0: Rule, x1: Rule, x2: Rule, g1: Grid<U2>, g2: Grid<U2>|
                #![trigger built_from(x0, *clues, fences@, solution@, task_type), x1.rotation_of(&x0), x2.rotation_of(&x1), grid_rotation_of(g1, *clues), grid_rotation_of(g2, g1)]
                built_from(x0, *clues, fences@, solution@, task_type) && x1.in_h.wf() && x1.in_v.wf() && x1.out_h.wf()
                    && x1.out_v.wf() && x2.in_h.wf() && x2.in_v.wf() && x2.out_h.wf() && x2.out_v.wf() && g1.wf()
                    && g2.wf() && x1.rotation_of(&x0) && x2.rotation_of(&x1) && grid_rotation_of(g1, *clues)
                    && grid_rotation_of(g2, g1) implies holds(self.0@, g2, x2) by {
                lemma_built_same(x0, r0, (rows + 1) * cols);
                lemma_rule_turn_same(x1, r1, x0, r0);
                lemma_rule_turn_same(x2, r2, x1, r1);
                lemma_turn_same(g1, c1, *clues, c0);
                lemma_turn_same(g2, c2, g1, c1);
                lemma_holds_same(self.0@, c2, r2, g2, x2);
            }
            assert forall|x0: Rule, x1: Rule, x2: Rule, x3: Rule, g1: Grid<U2>, g2: Grid<U2>, g3: Grid<U2>|
                #![trigger built_from(x0, *clues, fences@, solution@, task_type), x1.rotation_of(&x0), x2.rotation_of(&x1), x3.rotation_of(&x2), grid_rotation_of(g1, *clues), grid_rotation_of(g2, g1), grid_rotation_of(g3, g2)]
                built_from(x0, *clues, fences@, solution@, task_type) && x1.in_h.wf() && x1.in_v.wf() && x1.out_h.wf()
                    && x1.out_v.wf() && x2.in_h.wf() && x2.in_v.wf() && x2.out_h.wf() && x2.out_v.wf()
                    && x3.in_h.wf() && x3.in_v.wf() && x3.out_h.wf() && x3.out_v.wf() && g1.wf() && g2.wf()
                    && g3.wf() && x1.rotation_of(&x0) && x2.rotation_of(&x1) && x3.rotation_of(&x2)
                    && grid_rotation_of(g1, *clues) && grid_rotation_of(g2, g1) && grid_rotation_of(g3, g2)
                    implies holds(self.0@, g3, x3) by {
                lemma_built_same(x0, r0, (rows + 1) * cols);
                lemma_rule_turn_same(x1, r1, x0, r0);
                lemma_rule_turn_same(x2, r2, x1, r1);
                lemma_rule_turn_same(x3, r3, x2, r2);
                lemma_turn_same(g1, c1, *clues, c0);
                lemma_turn_same(g2, c2, g1, c1);
                lemma_turn_same(g3, c3, g2, c2);
                lemma_holds_same(self.0@, c3, r3, g3, x3);
            }
        }
    }
}

/// Two rules read from the same cells over the same clue shape have the
/// same cells.
proof fn lemma_built_same(x: Rule, y: Rule, hl: int)
    requires
        x.in_h.data@ + x.in_v.data@ == y.in_h.data@ + y.in_v.data@,
        x.out_h.data@ + x.out_v.data@ == y.out_h.data@ + y.out_v.data@,
        x.in_h.data.len() == hl,
        y.in_h.data.len() == hl,
        x.out_h.data.len() == hl,
        y.out_h.data.len() == hl,
        x.in_h.rows == y.in_h.rows && x.in_h.cols == y.in_h.cols,
        x.in_v.rows == y.in_v.rows && x.in_v.cols == y.in_v.cols,
        x.out_h.rows == y.out_h.rows && x.out_h.cols == y.out_h.cols,
        x.out_v.rows == y.out_v.rows && x.out_v.cols == y.out_v.cols,
        x.location == y.location,
    ensures
        x.same_as(&y),
{
    let a = x.in_h.data@ + x.in_v.data@;
    assert(x.in_h.data@ =~= a.subrange(0, hl));
    assert(y.in_h.data@ =~= a.subrange(0, hl));
    assert(x.in_v.data@ =~= a.subrange(hl, a.len() as int));
    assert(y.in_v.data@ =~= a.subrange(hl, a.len() as int));
    let b = x.out_h.data@ + x.out_v.data@;
    assert(x.out_h.data@ =~= b.subrange(0, hl));
    assert(y.out_h.data@ =~= b.subrange(0, hl));
    assert(x.out_v.data@ =~= b.subrange(hl, b.len() as int));
    assert(y.out_v.data@ =~= b.subrange(hl, b.len() as int));
}

} // verus!
