use crate::board::{Board, Contradiction, Edge, Fences, Idx};
use crate::grid::{lemma_same_cells, Grid};
use crate::items::{clue_char, clue_of_char, fence_char, fence_of_char, Fence, U2};
use crate::text::{chars_of, find_char};
use vstd::prelude::*;

verus! {

/// Where a rule may be anchored: at one of the four corners of the board, on
/// one of its four sides, or anywhere.  Corners count clockwise from the top
/// left, sides clockwise from the top.
#[derive(Debug, Clone, Copy, PartialEq, Eq, Structural)]
pub enum TaskType {
    Corner(usize),
    Edge(usize),
    Anywhere,
}

impl TaskType {
    pub open spec fn wf(&self) -> bool {
        match *self {
            TaskType::Corner(x) => x < 4,
            TaskType::Edge(x) => x < 4,
            TaskType::Anywhere => true,
        }
    }

    /// The placement after a quarter turn clockwise.
    pub open spec fn rotated(&self) -> TaskType {
        match *self {
            TaskType::Corner(x) => TaskType::Corner(((x + 1) % 4) as usize),
            TaskType::Edge(x) => TaskType::Edge(((x + 1) % 4) as usize),
            TaskType::Anywhere => TaskType::Anywhere,
        }
    }

    /// The placement of a rule marked `corner`, `edge`, or neither.
    pub fn new(corner: bool, edge: bool) -> (t: TaskType)
        requires
            !(corner && edge),
        ensures
            t == if corner {
                TaskType::Corner(0)
            } else if edge {
                TaskType::Edge(0)
            } else {
                TaskType::Anywhere
            },
            t.wf(),
    {
        if corner {
            TaskType::Corner(0)
        } else if edge {
            TaskType::Edge(0)
        } else {
            TaskType::Anywhere
        }
    }

    /// Turns the placement a quarter turn clockwise.
    pub fn rotate(&mut self)
        requires
            old(self).wf(),
        ensures
            *final(self) == old(self).rotated(),
            final(self).wf(),
    {
        match *self {
            TaskType::Corner(x) => *self = TaskType::Corner((x + 1) % 4),
            TaskType::Edge(x) => *self = TaskType::Edge((x + 1) % 4),
            TaskType::Anywhere => {},
        }
    }
}

/// The characters that stand for a placement in a rule key.
pub open spec fn variant_chars(t: TaskType) -> Seq<char> {
    match t {
        TaskType::Corner(x) => seq!['C', digit(x as int)],
        TaskType::Edge(x) => seq!['E', digit(x as int)],
        TaskType::Anywhere => seq!['A'],
    }
}

pub open spec fn digit(x: int) -> char {
    if x == 0 {
        '0'
    } else if x == 1 {
        '1'
    } else if x == 2 {
        '2'
    } else {
        '3'
    }
}

/// `g` is `o` turned a quarter turn clockwise.
pub open spec fn grid_rotation_of<T>(g: Grid<T>, o: Grid<T>) -> bool {
    &&& g.rows == o.cols
    &&& g.cols == o.rows
    &&& forall|c: int, k: int| #[trigger] g.in_bounds(c, k) ==> g.at(c, k) == o.at(o.rows - 1 - k, c)
}

pub open spec fn fence_chars(g: Grid<Fence>) -> Seq<char> {
    g.data@.map_values(|f: Fence| fence_char(f.0))
}

pub open spec fn clue_chars(g: Grid<U2>) -> Seq<char> {
    g.data@.map_values(|u: U2| clue_char(u.0))
}

/// A local pattern: where the clues of `task` appear on the board and the
/// edges of `fences` hold, the edges of `solution` follow.  `None` cells and
/// edges are "don't care".
#[derive(Debug)]
pub struct BoardRule {
    pub task: Grid<U2>,
    pub variant: TaskType,
    pub fences: Fences,
    pub solution: Fences,
}

/// What one rule does at one anchor.
#[derive(Debug, Clone, Copy, PartialEq, Eq, Structural)]
pub enum Apply {
    /// The placement or the clues rule the anchor out.
    NoMatch,
    /// Every edge the rule would set is decided already to the rule's value,
    /// or a decided board edge contradicts an input edge of the rule.
    Unsatisfiable,
    /// The rule may still fire here once more edges are decided.
    Pending,
    /// The rule fired and set its output edges.
    Deduced,
}

impl BoardRule {
    pub open spec fn wf(&self) -> bool {
        &&& self.task.wf()
        &&& self.task.rows >= 1
        &&& self.task.cols >= 1
        &&& (self.task.rows + 1) * (self.task.cols + 1) <= usize::MAX
        &&& forall|r: int, c: int| #[trigger] self.task.in_bounds(r, c) ==> self.task.at(r, c).wf()
        &&& self.fences.wf_for(self.task.rows as int, self.task.cols as int)
        &&& self.solution.wf_for(self.task.rows as int, self.task.cols as int)
        &&& self.variant.wf()
    }

    /// The canonical key of the rule: its clue, input and output cells and
    /// its placement, with `|` between the parts.
    pub open spec fn key(&self) -> Seq<char> {
        clue_chars(self.task) + seq!['|'] + fence_chars(self.fences.h) + seq!['|'] + fence_chars(
            self.fences.v,
        ) + seq!['|'] + fence_chars(self.solution.h) + seq!['|'] + fence_chars(self.solution.v)
            + seq!['|'] + variant_chars(self.variant)
    }

    /// `self` is `o` turned a quarter turn clockwise: the clue grid turns,
    /// the vertical edges become horizontal ones and the other way round, and
    /// the placement moves on by one.
    pub open spec fn rotation_of(&self, o: &BoardRule) -> bool {
        &&& grid_rotation_of(self.task, o.task)
        &&& grid_rotation_of(self.fences.h, o.fences.v)
        &&& grid_rotation_of(self.fences.v, o.fences.h)
        &&& grid_rotation_of(self.solution.h, o.solution.v)
        &&& grid_rotation_of(self.solution.v, o.solution.h)
        &&& self.variant == o.variant.rotated()
    }

    /// Same shapes, cells and placement.
    pub open spec fn same_as(&self, o: &BoardRule) -> bool {
        &&& self.task.rows == o.task.rows
        &&& self.task.cols == o.task.cols
        &&& self.task.data@ == o.task.data@
        &&& self.fences.same_as(&o.fences)
        &&& self.solution.same_as(&o.solution)
        &&& self.variant == o.variant
    }

    /// No quarter turn of the rule, up to three, has the key of the rule.
    pub open spec fn turns_differ(&self) -> bool {
        &&& forall|x1: BoardRule| x1.wf() && #[trigger] x1.rotation_of(self) ==> x1.key() != self.key()
        &&& forall|x1: BoardRule, x2: BoardRule|
            #![trigger x1.rotation_of(self), x2.rotation_of(&x1)]
            x1.wf() && x2.wf() && x1.rotation_of(self) && x2.rotation_of(&x1) ==> x2.key() != self.key()
        &&& forall|x1: BoardRule, x2: BoardRule, x3: BoardRule|
            #![trigger x1.rotation_of(self), x2.rotation_of(&x1), x3.rotation_of(&x2)]
            x1.wf() && x2.wf() && x3.wf() && x1.rotation_of(self) && x2.rotation_of(&x1)
                && x3.rotation_of(&x2) ==> x3.key() != self.key()
    }

    /// No quarter turn of the rule, up to three, repeats the key of the rule
    /// or of an earlier turn.
    pub open spec fn asymmetric(&self) -> bool {
        &&& forall|x1: BoardRule| x1.wf() && #[trigger] x1.rotation_of(self) ==> x1.key() != self.key()
        &&& forall|x1: BoardRule, x2: BoardRule|
            #![trigger x1.rotation_of(self), x2.rotation_of(&x1)]
            x1.wf() && x2.wf() && x1.rotation_of(self) && x2.rotation_of(&x1) ==> x2.key() != self.key()
                && x2.key() != x1.key()
        &&& forall|x1: BoardRule, x2: BoardRule, x3: BoardRule|
            #![trigger x1.rotation_of(self), x2.rotation_of(&x1), x3.rotation_of(&x2)]
            x1.wf() && x2.wf() && x3.wf() && x1.rotation_of(self) && x2.rotation_of(&x1)
                && x3.rotation_of(&x2) ==> x3.key() != self.key() && x3.key() != x1.key() && x3.key()
                != x2.key()
    }

    /// A deep copy.
    pub fn copy(&self) -> (r: BoardRule)
        requires
            self.wf(),
        ensures
            r.wf(),
            r.same_as(self),
            r.key() == self.key(),
    {
        let r = BoardRule {
            task: self.task.clone(),
            variant: self.variant,
            fences: Fences { h: self.fences.h.clone(), v: self.fences.v.clone() },
            solution: Fences { h: self.solution.h.clone(), v: self.solution.v.clone() },
        };
        assert forall|i: int, j: int| #[trigger] r.task.in_bounds(i, j) implies r.task.at(i, j).wf() by {
            assert(self.task.in_bounds(i, j));
        }
        r
    }

    /// The rule turned a quarter turn clockwise.
    pub fn rotated(&self) -> (r: BoardRule)
        requires
            self.wf(),
        ensures
            r.wf(),
            r.rotation_of(self),
    {
        let mut variant = self.variant;
        variant.rotate();
        let r = BoardRule {
            task: self.task.rotate(),
            variant,
            fences: Fences { h: self.fences.v.rotate(), v: self.fences.h.rotate() },
            solution: Fences { h: self.solution.v.rotate(), v: self.solution.h.rotate() },
        };
        proof {
            assert forall|i: int, j: int| #[trigger] r.task.in_bounds(i, j) implies r.task.at(i, j).wf() by {
                assert(self.task.in_bounds(self.task.rows - 1 - j, i));
            }
            assert((r.task.rows + 1) * (r.task.cols + 1) == (self.task.rows + 1) * (self.task.cols + 1))
                by (nonlinear_arith)
                requires
                    r.task.rows == self.task.cols,
                    r.task.cols == self.task.rows,
            ;
        }
        r
    }

    /// The canonical key of the rule as a string.
    pub fn to_hash(&self) -> (s: String)
        requires
            self.wf(),
        ensures
            s@ == self.key(),
    {
        let mut s = String::new();
        let mut i: usize = 0;
        while i < self.task.data.len()
            invariant
                i <= self.task.data.len(),
                s@ == clue_chars(self.task).subrange(0, i as int),
            decreases self.task.data.len() - i,
        {
            s.push(self.task.data[i].to_char());
            i = i + 1;
        }
        assert(s@ == clue_chars(self.task));
        s.push('|');
        push_fences(&mut s, &self.fences.h);
        s.push('|');
        push_fences(&mut s, &self.fences.v);
        s.push('|');
        push_fences(&mut s, &self.solution.h);
        s.push('|');
        push_fences(&mut s, &self.solution.v);
        s.push('|');
        match self.variant {
            TaskType::Corner(x) => {
                s.push('C');
                s.push(digit_char(x));
            },
            TaskType::Edge(x) => {
                s.push('E');
                s.push(digit_char(x));
            },
            TaskType::Anywhere => {
                s.push('A');
            },
        }
        assert(s@ =~= self.key());
        s
    }

    /// The rule and its quarter turns, up to three, stopping at the first
    /// turn whose key was seen already.
    pub fn get_rotations(&self) -> (ret: Vec<BoardRule>)
        requires
            self.wf(),
        ensures
            1 <= ret.len() <= 4,
            ret[0].same_as(self),
            forall|i: int| 0 <= i < ret.len() ==> (#[trigger] ret[i]).wf(),
            forall|i: int| 0 < i < ret.len() ==> (#[trigger] ret[i]).rotation_of(&ret[i - 1]),
            forall|i: int, j: int| 0 <= i < j < ret.len() ==> (#[trigger] ret[i]).key() != (#[trigger] ret[j]).key(),
            ret.len() < 4 ==> forall|x: BoardRule|
                x.wf() && #[trigger] x.rotation_of(&ret[ret.len() - 1]) ==> exists|j: int|
                    0 <= j < ret.len() && (#[trigger] ret[j]).key() == x.key(),
            self.rotation_of(self) ==> ret.len() == 1,
            self.asymmetric() ==> ret.len() == 4,
            self.turns_differ() ==> ret.len() == 4,
    {
        proof {
            if self.turns_differ() {
                lemma_turns_differ_asymmetric(*self);
            }
        }
        let mut ret: Vec<BoardRule> = Vec::new();
        let first = self.copy();
        let mut seen: Vec<String> = Vec::new();
        seen.push(first.to_hash());
        ret.push(first);
        let mut n: usize = 1;
        while n < 4
            invariant
                self.wf(),
                1 <= n <= 4,
                ret.len() == n,
                seen.len() == n,
                ret[0].same_as(self),
                forall|i: int| 0 <= i < ret.len() ==> (#[trigger] ret[i]).wf(),
                forall|i: int| 0 <= i < ret.len() ==> (#[trigger] seen[i])@ == ret[i].key(),
                forall|i: int| 0 < i < ret.len() ==> (#[trigger] ret[i]).rotation_of(&ret[i - 1]),
                forall|i: int, j: int| 0 <= i < j < ret.len() ==> (#[trigger] ret[i]).key() != (#[trigger] ret[j]).key(),
                self.rotation_of(self) ==> n == 1,
                self.turns_differ() ==> self.asymmetric(),
            decreases 4 - n,
        {
            let rot = ret[n - 1].rotated();
            let h = rot.to_hash();
            let mut j: usize = 0;
            let mut found = false;
            while j < seen.len()
                invariant
                    j <= seen.len(),
                    !found ==> forall|k: int| 0 <= k < j ==> (#[trigger] seen[k])@ != h@,
                    found ==> j < seen.len() && seen[j as int]@ == h@,
                ensures
                    !found ==> forall|k: int| 0 <= k < seen.len() ==> (#[trigger] seen[k])@ != h@,
                    found ==> j < seen.len() && seen[j as int]@ == h@,
                decreases seen.len() - j,
            {
                if seen[j] == h {
                    found = true;
                    break;
                }
                j = j + 1;
            }
            if found {
                proof {
                    let jj = j as int;
                    assert(ret[jj].key() == rot.key());
                    assert forall|x: BoardRule|
                        x.wf() && #[trigger] x.rotation_of(&ret[ret.len() - 1]) implies exists|k: int|
                            0 <= k < ret.len() && (#[trigger] ret[k]).key() == x.key() by {
                        lemma_rotation_key(x, rot, ret[ret.len() - 1]);
                        assert(ret[jj].key() == x.key());
                    }
                    if self.asymmetric() {
                        lemma_same_key(ret[0], *self);
                        if n == 1 {
                            lemma_same_rotation(rot, ret[0], *self);
                            assert(rot.rotation_of(self));
                            assert(false);
                        } else if n == 2 {
                            lemma_same_rotation(ret[1], ret[0], *self);
                            assert(ret[1].rotation_of(self) && rot.rotation_of(&ret[1]));
                            assert(false);
                        } else {
                            lemma_same_rotation(ret[1], ret[0], *self);
                            assert(ret[1].rotation_of(self) && ret[2].rotation_of(&ret[1]) && rot.rotation_of(&ret[2]));
                            assert(false);
                        }
                    }
                }
                return ret;
            }
            proof {
                if self.rotation_of(self) {
                    lemma_same_rotation(rot, ret[0], *self);
                    lemma_rotation_key(rot, *self, *self);
                    lemma_same_key(ret[0], *self);
                    assert(seen[0]@ == h@);
                    assert(false);
                }
                assert forall|k: int| 0 <= k < ret.len() implies (#[trigger] ret[k]).key() != rot.key() by {
                    assert(seen[k]@ != h@);
                }
            }
            seen.push(h);
            ret.push(rot);
            n = n + 1;
        }
        ret
    }
}

/// The character of a placement index below four.
pub(crate) fn digit_char(x: usize) -> (c: char)
    requires
        x < 4,
    ensures
        c == digit(x as int),
{
    if x == 0 {
        '0'
    } else if x == 1 {
        '1'
    } else if x == 2 {
        '2'
    } else {
        '3'
    }
}

/// Appends the glyphs of the cells of `g` in row-major order.
fn push_fences(s: &mut String, g: &Grid<Fence>)
    ensures
        final(s)@ == old(s)@ + fence_chars(*g),
{
    let ghost start = s@;
    let mut i: usize = 0;
    while i < g.data.len()
        invariant
            i <= g.data.len(),
            s@ == start + fence_chars(*g).subrange(0, i as int),
        decreases g.data.len() - i,
    {
        s.push(g.data[i].to_char());
        i = i + 1;
        assert(fence_chars(*g).subrange(0, i as int) == fence_chars(*g).subrange(0, i - 1).push(
            fence_char(g.data@[i - 1].0),
        ));
    }
    assert(fence_chars(*g).subrange(0, i as int) == fence_chars(*g));
}

/// Two quarter turns of one rule have the same key.
pub proof fn lemma_rotation_key(x: BoardRule, y: BoardRule, o: BoardRule)
    requires
        x.wf(),
        y.wf(),
        x.rotation_of(&o),
        y.rotation_of(&o),
    ensures
        x.key() == y.key(),
{
    assert forall|r: int, c: int| #[trigger] x.task.in_bounds(r, c) implies x.task.at(r, c) == y.task.at(r, c) by {
        assert(y.task.in_bounds(r, c));
    }
    assert forall|r: int, c: int| #[trigger] x.fences.h.in_bounds(r, c) implies x.fences.h.at(r, c) == y.fences.h.at(r, c) by {
        assert(y.fences.h.in_bounds(r, c));
    }
    assert forall|r: int, c: int| #[trigger] x.fences.v.in_bounds(r, c) implies x.fences.v.at(r, c) == y.fences.v.at(r, c) by {
        assert(y.fences.v.in_bounds(r, c));
    }
    assert forall|r: int, c: int| #[trigger] x.solution.h.in_bounds(r, c) implies x.solution.h.at(r, c) == y.solution.h.at(r, c) by {
        assert(y.solution.h.in_bounds(r, c));
    }
    assert forall|r: int, c: int| #[trigger] x.solution.v.in_bounds(r, c) implies x.solution.v.at(r, c) == y.solution.v.at(r, c) by {
        assert(y.solution.v.in_bounds(r, c));
    }
    lemma_same_cells(x.task, y.task);
    lemma_same_cells(x.fences.h, y.fences.h);
    lemma_same_cells(x.fences.v, y.fences.v);
    lemma_same_cells(x.solution.h, y.solution.h);
    lemma_same_cells(x.solution.v, y.solution.v);
}

/// Rules with the same cells have the same key.
pub proof fn lemma_same_key(x: BoardRule, y: BoardRule)
    requires
        x.same_as(&y),
    ensures
        x.key() == y.key(),
{
}

/// A quarter turn of a rule is a quarter turn of any copy of it.
pub proof fn lemma_same_rotation(x: BoardRule, o: BoardRule, o2: BoardRule)
    requires
        o.wf(),
        x.rotation_of(&o),
        o.same_as(&o2),
    ensures
        x.rotation_of(&o2),
{
}


/// Cell `(r, c)` of pattern `pat` is a "care" cell.
pub open spec fn care(pat: Grid<Fence>, r: int, c: int) -> bool {
    pat.in_bounds(r, c) && pat.at(r, c).0 is Some
}

/// Some care cell of `pat`, laid on the direction-`dir` edges of `b` at
/// `idx`, meets an undecided edge.
pub open spec fn pat_open(pat: Grid<Fence>, dir: int, b: Fences, idx: Idx) -> bool {
    exists|r: int, c: int| #[trigger] care(pat, r, c) && b.at(dir, idx.0 + r, idx.1 + c) is None
}

/// Some care cell of `pat` meets a decided edge of the opposite value.
pub open spec fn pat_conflict(pat: Grid<Fence>, dir: int, b: Fences, idx: Idx) -> bool {
    exists|r: int, c: int|
        #[trigger] care(pat, r, c) && b.at(dir, idx.0 + r, idx.1 + c) is Some && b.at(
            dir,
            idx.0 + r,
            idx.1 + c,
        ) != pat.at(r, c).0
}

/// Every care cell of `pat` meets an edge of the same value.
pub open spec fn pat_match(pat: Grid<Fence>, dir: int, b: Fences, idx: Idx) -> bool {
    forall|r: int, c: int| #[trigger] care(pat, r, c) ==> b.at(dir, idx.0 + r, idx.1 + c) == pat.at(r, c).0
}

/// The value edge `(dir, R, C)` of a board gets when pattern `p` is laid at
/// `idx`: the pattern's value where it cares, else `prev`.
pub open spec fn stamped(p: Fences, dir: int, idx: Idx, rr: int, cc: int, prev: Option<bool>) -> Option<bool> {
    let g = if dir == 0 {
        p.h
    } else {
        p.v
    };
    if care(g, rr - idx.0, cc - idx.1) {
        g.at(rr - idx.0, cc - idx.1).0
    } else {
        prev
    }
}

/// `new` is `old` with pattern `p` laid at `idx`.
pub open spec fn stamped_all(p: Fences, idx: Idx, old: Fences, new: Fences) -> bool {
    &&& old.same_shape(&new)
    &&& forall|d: int, rr: int, cc: int| #[trigger]
        old.in_dir(d, rr, cc) ==> new.at(d, rr, cc) == stamped(p, d, idx, rr, cc, old.at(d, rr, cc))
}

/// The pattern grid of direction `dir`.
pub open spec fn dir_grid(p: Fences, dir: int) -> Grid<Fence> {
    if dir == 0 {
        p.h
    } else {
        p.v
    }
}

impl BoardRule {
    /// The anchor `idx` keeps the rule inside a `rows` by `cols` board and
    /// agrees with its placement.
    pub open spec fn placed(&self, rows: int, cols: int, idx: Idx) -> bool {
        let b0 = rows - self.task.rows;
        let b1 = cols - self.task.cols;
        &&& b0 >= 0
        &&& b1 >= 0
        &&& idx.0 <= b0
        &&& idx.1 <= b1
        &&& match self.variant {
            TaskType::Corner(x) => (x == 0 && idx.0 == 0 && idx.1 == 0) || (x == 1 && idx.0 == 0
                && idx.1 == b1) || (x == 2 && idx.0 == b0 && idx.1 == b1) || (x == 3 && idx.0 == b0
                && idx.1 == 0),
            TaskType::Edge(x) => (x == 0 && idx.0 == 0) || (x == 1 && idx.1 == b1) || (x == 2 && idx.0
                == b0) || (x == 3 && idx.1 == 0),
            TaskType::Anywhere => true,
        }
    }

    /// Every clue the rule cares about equals the board's clue under it.
    pub open spec fn clues_match(&self, b: &Board, idx: Idx) -> bool {
        forall|r: int, c: int|
            #[trigger] self.task.in_bounds(r, c) && self.task.at(r, c).0 is Some ==> b.tasks.at(
                idx.0 + r,
                idx.1 + c,
            ) == self.task.at(r, c)
    }

    /// The rule may be anchored at `idx` and its clues match.
    pub open spec fn anchored(&self, b: &Board, idx: Idx) -> bool {
        self.placed(b.rows(), b.cols(), idx) && self.clues_match(b, idx)
    }

    /// Some output edge of the rule at `idx` is still undecided.
    pub open spec fn outputs_open(&self, b: &Board, idx: Idx) -> bool {
        pat_open(self.solution.h, 0, b.fences, idx) || pat_open(self.solution.v, 1, b.fences, idx)
    }

    /// The rule is anchored at `idx`, its clues match, and some output edge
    /// is still undecided or decided the other way: firing would change the
    /// board or meet a contradiction.
    pub open spec fn matched(&self, b: &Board, idx: Idx) -> bool {
        self.anchored(b, idx) && (self.outputs_open(b, idx) || self.output_conflict(b, idx))
    }

    /// A decided edge contradicts an input edge of the rule.
    pub open spec fn input_conflict(&self, b: &Board, idx: Idx) -> bool {
        pat_conflict(self.fences.h, 0, b.fences, idx) || pat_conflict(self.fences.v, 1, b.fences, idx)
    }

    /// Every input edge of the rule holds on the board.
    pub open spec fn inputs_match(&self, b: &Board, idx: Idx) -> bool {
        pat_match(self.fences.h, 0, b.fences, idx) && pat_match(self.fences.v, 1, b.fences, idx)
    }

    /// A decided edge contradicts an output edge of the rule.
    pub open spec fn output_conflict(&self, b: &Board, idx: Idx) -> bool {
        pat_conflict(self.solution.h, 0, b.fences, idx) || pat_conflict(self.solution.v, 1, b.fences, idx)
    }

    /// Whether the clues under the rule at `idx` match.
    fn clues_match_at(&self, board: &Board, idx: Idx) -> (m: bool)
        requires
            self.wf(),
            board.wf(),
            idx.0 + self.task.rows <= board.rows(),
            idx.1 + self.task.cols <= board.cols(),
        ensures
            m == self.clues_match(board, idx),
    {
        let mut r: usize = 0;
        while r < self.task.rows
            invariant
                self.wf(),
                board.wf(),
                idx.0 + self.task.rows <= board.rows(),
                idx.1 + self.task.cols <= board.cols(),
                r <= self.task.rows,
                forall|r2: int, c2: int|
                    #[trigger] self.task.in_bounds(r2, c2) && r2 < r && self.task.at(r2, c2).0 is Some
                        ==> board.tasks.at(idx.0 + r2, idx.1 + c2) == self.task.at(r2, c2),
            decreases self.task.rows - r,
        {
            let mut c: usize = 0;
            while c < self.task.cols
                invariant
                    self.wf(),
                    board.wf(),
                    idx.0 + self.task.rows <= board.rows(),
                    idx.1 + self.task.cols <= board.cols(),
                    r < self.task.rows,
                    c <= self.task.cols,
                    forall|r2: int, c2: int|
                        #[trigger] self.task.in_bounds(r2, c2) && (r2 < r || (r2 == r && c2 < c))
                            && self.task.at(r2, c2).0 is Some ==> board.tasks.at(idx.0 + r2, idx.1 + c2)
                            == self.task.at(r2, c2),
                decreases self.task.cols - c,
            {
                let t = self.task.get(r, c);
                if t.0.is_some() {
                    let b = board.tasks.get(idx.0 + r, idx.1 + c);
                    if b != t {
                        assert(self.task.in_bounds(r as int, c as int));
                        return false;
                    }
                }
                c = c + 1;
            }
            r = r + 1;
        }
        true
    }

    /// Whether the anchor `idx` agrees with the rule's placement on this board.
    fn placed_at(&self, board: &Board, idx: Idx) -> (p: bool)
        requires
            self.wf(),
            board.wf(),
        ensures
            p == self.placed(board.rows(), board.cols(), idx),
    {
        let (tr, tc) = self.task.size();
        let (rows, cols) = board.size();
        if cols < tc || rows < tr {
            return false;
        }
        let b0 = rows - tr;
        let b1 = cols - tc;
        if idx.0 > b0 || idx.1 > b1 {
            return false;
        }
        match self.variant {
            TaskType::Corner(x) => (x == 0 && idx.0 == 0 && idx.1 == 0) || (x == 1 && idx.0 == 0 && idx.1
                == b1) || (x == 2 && idx.0 == b0 && idx.1 == b1) || (x == 3 && idx.0 == b0 && idx.1 == 0),
            TaskType::Edge(x) => (x == 0 && idx.0 == 0) || (x == 1 && idx.1 == b1) || (x == 2 && idx.0
                == b0) || (x == 3 && idx.1 == 0),
            TaskType::Anywhere => true,
        }
    }
}

/// Compares pattern `pat` with the direction-`dir` edges of `b` at `idx`:
/// whether some care cell meets an undecided edge, whether one meets an
/// opposite edge, and whether all meet equal edges.
fn scan(pat: &Grid<Fence>, dir: usize, b: &Fences, idx: Idx) -> (res: (bool, Option<Idx>, bool))
    requires
        pat.wf(),
        dir <= 1,
        dir_grid(*b, dir as int).wf(),
        idx.0 + pat.rows <= dir_grid(*b, dir as int).rows,
        idx.1 + pat.cols <= dir_grid(*b, dir as int).cols,
    ensures
        res.0 == pat_open(*pat, dir as int, *b, idx),
        res.1 is Some == pat_conflict(*pat, dir as int, *b, idx),
        res.1 matches Some(p) ==> care(*pat, p.0 as int, p.1 as int) && b.at(dir as int, idx.0 + p.0, idx.1 + p.1)
            is Some && b.at(dir as int, idx.0 + p.0, idx.1 + p.1) != pat.at(p.0 as int, p.1 as int).0,
        res.2 == pat_match(*pat, dir as int, *b, idx),
{
    let g = if dir == 0 {
        &b.h
    } else {
        &b.v
    };
    let mut open = false;
    let mut conflict: Option<Idx> = None;
    let mut all = true;
    let mut r: usize = 0;
    while r < pat.rows
        invariant
            pat.wf(),
            dir <= 1,
            *g == dir_grid(*b, dir as int),
            g.wf(),
            idx.0 + pat.rows <= g.rows,
            idx.1 + pat.cols <= g.cols,
            r <= pat.rows,
            open <==> exists|r2: int, c2: int|
                #[trigger] care(*pat, r2, c2) && r2 < r && b.at(dir as int, idx.0 + r2, idx.1 + c2) is None,
            conflict is Some <==> exists|r2: int, c2: int|
                #[trigger] care(*pat, r2, c2) && r2 < r && b.at(dir as int, idx.0 + r2, idx.1 + c2) is Some
                    && b.at(dir as int, idx.0 + r2, idx.1 + c2) != pat.at(r2, c2).0,
            conflict matches Some(p) ==> care(*pat, p.0 as int, p.1 as int) && b.at(dir as int, idx.0 + p.0, idx.1 + p.1)
                is Some && b.at(dir as int, idx.0 + p.0, idx.1 + p.1) != pat.at(p.0 as int, p.1 as int).0,
            all <==> forall|r2: int, c2: int|
                #[trigger] care(*pat, r2, c2) && r2 < r ==> b.at(dir as int, idx.0 + r2, idx.1 + c2) == pat.at(
                    r2,
                    c2,
                ).0,
        decreases pat.rows - r,
    {
        let mut c: usize = 0;
        while c < pat.cols
            invariant
                pat.wf(),
                dir <= 1,
                *g == dir_grid(*b, dir as int),
                g.wf(),
                idx.0 + pat.rows <= g.rows,
                idx.1 + pat.cols <= g.cols,
                r < pat.rows,
                c <= pat.cols,
                open <==> exists|r2: int, c2: int|
                    #[trigger] care(*pat, r2, c2) && (r2 < r || (r2 == r && c2 < c)) && b.at(
                        dir as int,
                        idx.0 + r2,
                        idx.1 + c2,
                    ) is None,
                conflict is Some <==> exists|r2: int, c2: int|
                    #[trigger] care(*pat, r2, c2) && (r2 < r || (r2 == r && c2 < c)) && b.at(
                        dir as int,
                        idx.0 + r2,
                        idx.1 + c2,
                    ) is Some && b.at(dir as int, idx.0 + r2, idx.1 + c2) != pat.at(r2, c2).0,
                conflict matches Some(p) ==> care(*pat, p.0 as int, p.1 as int) && b.at(dir as int, idx.0 + p.0, idx.1 + p.1)
                    is Some && b.at(dir as int, idx.0 + p.0, idx.1 + p.1) != pat.at(p.0 as int, p.1 as int).0,
                all <==> forall|r2: int, c2: int|
                    #[trigger] care(*pat, r2, c2) && (r2 < r || (r2 == r && c2 < c)) ==> b.at(
                        dir as int,
                        idx.0 + r2,
                        idx.1 + c2,
                    ) == pat.at(r2, c2).0,
            decreases pat.cols - c,
        {
            let p = pat.get(r, c);
            let e = g.get(idx.0 + r, idx.1 + c);
            match p.0 {
                Some(v) => {
                    match e.0 {
                        None => {
                            open = true;
                            all = false;
                        },
                        Some(w) => {
                            if w != v {
                                if conflict.is_none() {
                                    conflict = Some((r, c));
                                }
                                all = false;
                            }
                        },
                    }
                },
                None => {},
            }
            proof {
                assert(care(*pat, r as int, c as int) == p.0 is Some);
            }
            c = c + 1;
        }
        r = r + 1;
    }
    (open, conflict, all)
}


/// Lays the care cells of pattern `pat` on the direction-`dir` edges of the
/// board at `idx`; none of them may contradict a decided edge.
fn stamp(pat: &Grid<Fence>, dir: usize, board: &mut Board, idx: Idx, name: &String)
    requires
        old(board).wf(),
        pat.wf(),
        dir <= 1,
        idx.0 + pat.rows <= dir_grid(old(board).fences, dir as int).rows,
        idx.1 + pat.cols <= dir_grid(old(board).fences, dir as int).cols,
        !pat_conflict(*pat, dir as int, old(board).fences, idx),
    ensures
        final(board).wf(),
        final(board).tasks == old(board).tasks,
        old(board).moves@.len() <= final(board).moves@.len(),
        final(board).moves@.subrange(0, old(board).moves@.len() as int) == old(board).moves@,
        old(board).fences.extended_by(&final(board).fences),
        old(board).fences.same_shape(&final(board).fences),
        forall|d: int, rr: int, cc: int| #[trigger]
            old(board).fences.in_dir(d, rr, cc) ==> final(board).fences.at(d, rr, cc) == if d == dir
                && care(*pat, rr - idx.0, cc - idx.1) {
                pat.at(rr - idx.0, cc - idx.1).0
            } else {
                old(board).fences.at(d, rr, cc)
            },
        pat_open(*pat, dir as int, old(board).fences, idx) ==> final(board).fences.unknowns() < old(
            board,
        ).fences.unknowns(),
{
    let ghost b0 = *board;
    let mut r: usize = 0;
    while r < pat.rows
        invariant
            b0 == *old(board),
            board.wf(),
            pat.wf(),
            dir <= 1,
            idx.0 + pat.rows <= dir_grid(b0.fences, dir as int).rows,
            idx.1 + pat.cols <= dir_grid(b0.fences, dir as int).cols,
            !pat_conflict(*pat, dir as int, b0.fences, idx),
            r <= pat.rows,
            board.tasks == b0.tasks,
            b0.moves@.len() <= board.moves@.len(),
            board.moves@.subrange(0, b0.moves@.len() as int) == b0.moves@,
            b0.fences.extended_by(&board.fences),
            b0.fences.same_shape(&board.fences),
            forall|d: int, rr: int, cc: int| #[trigger]
                b0.fences.in_dir(d, rr, cc) ==> board.fences.at(d, rr, cc) == if d == dir && care(
                    *pat,
                    rr - idx.0,
                    cc - idx.1,
                ) && rr - idx.0 < r {
                    pat.at(rr - idx.0, cc - idx.1).0
                } else {
                    b0.fences.at(d, rr, cc)
                },
            (exists|r2: int, c2: int|
                #[trigger] care(*pat, r2, c2) && r2 < r && b0.fences.at(dir as int, idx.0 + r2, idx.1 + c2)
                    is None) ==> board.fences.unknowns() < b0.fences.unknowns(),
        decreases pat.rows - r,
    {
        let mut c: usize = 0;
        while c < pat.cols
            invariant
                b0 == *old(board),
                board.wf(),
                pat.wf(),
                dir <= 1,
                idx.0 + pat.rows <= dir_grid(b0.fences, dir as int).rows,
                idx.1 + pat.cols <= dir_grid(b0.fences, dir as int).cols,
                !pat_conflict(*pat, dir as int, b0.fences, idx),
                r < pat.rows,
                c <= pat.cols,
                board.tasks == b0.tasks,
                b0.moves@.len() <= board.moves@.len(),
                board.moves@.subrange(0, b0.moves@.len() as int) == b0.moves@,
                b0.fences.extended_by(&board.fences),
                b0.fences.same_shape(&board.fences),
                forall|d: int, rr: int, cc: int| #[trigger]
                    b0.fences.in_dir(d, rr, cc) ==> board.fences.at(d, rr, cc) == if d == dir && care(
                        *pat,
                        rr - idx.0,
                        cc - idx.1,
                    ) && (rr - idx.0 < r || (rr - idx.0 == r && cc - idx.1 < c)) {
                        pat.at(rr - idx.0, cc - idx.1).0
                    } else {
                        b0.fences.at(d, rr, cc)
                    },
                (exists|r2: int, c2: int|
                    #[trigger] care(*pat, r2, c2) && (r2 < r || (r2 == r && c2 < c)) && b0.fences.at(
                        dir as int,
                        idx.0 + r2,
                        idx.1 + c2,
                    ) is None) ==> board.fences.unknowns() < b0.fences.unknowns(),
            decreases pat.cols - c,
        {
            let p = pat.get(r, c);
            let ghost before = *board;
            let rr = idx.0 + r;
            let cc = idx.1 + c;
            match p.0 {
                Some(v) => {
                    proof {
                        assert(b0.fences.in_dir(dir as int, rr as int, cc as int));
                        assert(care(*pat, r as int, c as int));
                        assert(board.fences.at(dir as int, rr as int, cc as int) == b0.fences.at(
                            dir as int,
                            rr as int,
                            cc as int,
                        ));
                        assert(before.fences.valid((dir, rr, cc)));
                    }
                    let res = board.play(dir, (rr, cc), v, name.clone());
                    proof {
                        let e = (dir, rr, cc);
                        if before.edge(e) is None {
                            before.fences.lemma_extended_trans(&before.fences, &board.fences);
                            b0.fences.lemma_extended_trans(&before.fences, &board.fences);
                        } else {
                            assert(board.fences.h.data@ == before.fences.h.data@);
                            assert(board.fences.v.data@ == before.fences.v.data@);
                        }
                        assert forall|d: int, r3: int, c3: int| #[trigger]
                            b0.fences.in_dir(d, r3, c3) implies board.fences.at(d, r3, c3) == if d == dir
                                && care(*pat, r3 - idx.0, c3 - idx.1) && (r3 - idx.0 < r || (r3 - idx.0
                                == r && c3 - idx.1 < c + 1)) {
                                pat.at(r3 - idx.0, c3 - idx.1).0
                            } else {
                                b0.fences.at(d, r3, c3)
                            } by {
                            assert(before.fences.valid((d as usize, r3 as usize, c3 as usize)));
                        }
                        assert(board.moves@.subrange(0, b0.moves@.len() as int) == b0.moves@) by {
                            assert(board.moves@.subrange(0, b0.moves@.len() as int) =~= before.moves@.subrange(
                                0,
                                b0.moves@.len() as int,
                            ));
                        }
                        if exists|r2: int, c2: int|
                            #[trigger] care(*pat, r2, c2) && (r2 < r || (r2 == r && c2 < c + 1))
                                && b0.fences.at(dir as int, idx.0 + r2, idx.1 + c2) is None {
                            if b0.fences.at(dir as int, rr as int, cc as int) is None {
                                assert(board.fences.unknowns() < before.fences.unknowns());
                                b0.fences.lemma_unknowns_mono(&before.fences);
                            } else {
                                let (r2, c2) = choose|r2: int, c2: int|
                                    #[trigger] care(*pat, r2, c2) && (r2 < r || (r2 == r && c2 < c + 1))
                                        && b0.fences.at(dir as int, idx.0 + r2, idx.1 + c2) is None;
                                assert(r2 < r || (r2 == r && c2 < c));
                            }
                        }
                    }
                },
                None => {
                    proof {
                        assert(!care(*pat, r as int, c as int));
                        if exists|r2: int, c2: int|
                            #[trigger] care(*pat, r2, c2) && (r2 < r || (r2 == r && c2 < c + 1))
                                && b0.fences.at(dir as int, idx.0 + r2, idx.1 + c2) is None {
                            let (r2, c2) = choose|r2: int, c2: int|
                                #[trigger] care(*pat, r2, c2) && (r2 < r || (r2 == r && c2 < c + 1))
                                    && b0.fences.at(dir as int, idx.0 + r2, idx.1 + c2) is None;
                            assert(r2 < r || (r2 == r && c2 < c));
                        }
                    }
                },
            }
            c = c + 1;
        }
        r = r + 1;
    }
}

impl BoardRule {
    /// Tries the rule with its top-left corner at `idx`.  When it fires, its
    /// output edges are set on the board; an output edge that the board has
    /// already decided the other way is reported as a contradiction and
    /// nothing is changed.
    pub fn apply_at(&self, board: &mut Board, idx: Idx) -> (res: Result<Apply, Contradiction>)
        requires
            self.wf(),
            old(board).wf(),
        ensures
            final(board).wf(),
            final(board).tasks == old(board).tasks,
            old(board).moves@.len() <= final(board).moves@.len(),
            final(board).moves@.subrange(0, old(board).moves@.len() as int) == old(board).moves@,
            old(board).fences.extended_by(&final(board).fences),
            !self.anchored(old(board), idx) ==> res == Ok::<Apply, Contradiction>(Apply::NoMatch)
                && final(board).fences.same_as(&old(board).fences),
            self.anchored(old(board), idx) && !self.matched(old(board), idx) ==> res == Ok::<
                Apply,
                Contradiction,
            >(Apply::Unsatisfiable) && final(board).fences.same_as(&old(board).fences),
            self.matched(old(board), idx) && self.input_conflict(old(board), idx) ==> res == Ok::<
                Apply,
                Contradiction,
            >(Apply::Unsatisfiable) && final(board).fences.same_as(&old(board).fences),
            self.matched(old(board), idx) && !self.input_conflict(old(board), idx) && !self.inputs_match(
                old(board),
                idx,
            ) ==> res == Ok::<Apply, Contradiction>(Apply::Pending) && final(board).fences.same_as(
                &old(board).fences,
            ),
            self.matched(old(board), idx) && self.inputs_match(old(board), idx) && self.output_conflict(
                old(board),
                idx,
            ) ==> res is Err && final(board).fences.same_as(&old(board).fences),
            res matches Err(x) ==> old(board).fences.valid(x.edge) && old(board).edge(x.edge) == Some(
                !x.value,
            ) && stamped(self.solution, x.edge.0 as int, idx, x.edge.1 as int, x.edge.2 as int, None)
                == Some(x.value),
            self.matched(old(board), idx) && self.inputs_match(old(board), idx) && !self.output_conflict(
                old(board),
                idx,
            ) ==> res == Ok::<Apply, Contradiction>(Apply::Deduced) && stamped_all(
                self.solution,
                idx,
                old(board).fences,
                final(board).fences,
            ) && final(board).fences.unknowns() < old(board).fences.unknowns(),
    {
        if !self.placed_at(board, idx) {
            return Ok(Apply::NoMatch);
        }
        if !self.clues_match_at(board, idx) {
            return Ok(Apply::NoMatch);
        }
        let (open_h, conflict_out_h, _) = scan(&self.solution.h, 0, &board.fences, idx);
        let (open_v, conflict_out_v, _) = scan(&self.solution.v, 1, &board.fences, idx);
        if !(open_h || open_v) && conflict_out_h.is_none() && conflict_out_v.is_none() {
            return Ok(Apply::Unsatisfiable);
        }
        let (_, conflict_in_h, match_h) = scan(&self.fences.h, 0, &board.fences, idx);
        let (_, conflict_in_v, match_v) = scan(&self.fences.v, 1, &board.fences, idx);
        if conflict_in_h.is_some() || conflict_in_v.is_some() {
            return Ok(Apply::Unsatisfiable);
        }
        if !(match_h && match_v) {
            return Ok(Apply::Pending);
        }
        match conflict_out_h {
            Some(p) => {
                let v = self.solution.h.get(p.0, p.1);
                return Err(Contradiction { edge: (0, idx.0 + p.0, idx.1 + p.1), value: v.0.unwrap() });
            },
            None => {},
        }
        match conflict_out_v {
            Some(p) => {
                let v = self.solution.v.get(p.0, p.1);
                return Err(Contradiction { edge: (1, idx.0 + p.0, idx.1 + p.1), value: v.0.unwrap() });
            },
            None => {},
        }
        let name = self.to_hash();
        let ghost b0 = *board;
        stamp(&self.solution.h, 0, board, idx, &name);
        let ghost b1 = *board;
        proof {
            assert(!pat_conflict(self.solution.v, 1, b1.fences, idx)) by {
                if pat_conflict(self.solution.v, 1, b1.fences, idx) {
                    let (r2, c2) = choose|r2: int, c2: int|
                        #[trigger] care(self.solution.v, r2, c2) && b1.fences.at(1, idx.0 + r2, idx.1 + c2) is Some
                            && b1.fences.at(1, idx.0 + r2, idx.1 + c2) != self.solution.v.at(r2, c2).0;
                    assert(b0.fences.in_dir(1, idx.0 + r2, idx.1 + c2));
                }
            }
            if pat_open(self.solution.v, 1, b0.fences, idx) {
                let (r2, c2) = choose|r2: int, c2: int|
                    #[trigger] care(self.solution.v, r2, c2) && b0.fences.at(1, idx.0 + r2, idx.1 + c2) is None;
                assert(b0.fences.in_dir(1, idx.0 + r2, idx.1 + c2));
                assert(pat_open(self.solution.v, 1, b1.fences, idx));
            }
        }
        stamp(&self.solution.v, 1, board, idx, &name);
        proof {
            b0.fences.lemma_extended_trans(&b1.fences, &board.fences);
            b0.fences.lemma_unknowns_mono(&b1.fences);
            assert(board.moves@.subrange(0, b0.moves@.len() as int) =~= b1.moves@.subrange(0, b0.moves@.len() as int));
            assert forall|d: int, rr: int, cc: int| #[trigger]
                b0.fences.in_dir(d, rr, cc) implies board.fences.at(d, rr, cc) == stamped(
                self.solution,
                d,
                idx,
                rr,
                cc,
                b0.fences.at(d, rr, cc),
            ) by {
                assert(b1.fences.in_dir(d, rr, cc));
            }
        }
        Ok(Apply::Deduced)
    }
}


/// Why a rule description was refused.
#[derive(Debug, Clone, Copy, PartialEq, Eq)]
pub enum RuleError {
    /// The rule is marked both `corner` and `edge`.
    Placement,
    /// The clue text is empty, ragged, or holds a character that is not a clue.
    Task,
    /// The input edge text has a wrong length or a character that is not an edge glyph.
    Fences,
    /// The output edge text has a wrong length or a character that is not an edge glyph.
    Solution,
}

/// The characters of `s` that carry cells: all but `skip` and line breaks.
pub open spec fn kept(s: Seq<char>, skip: char) -> Seq<char>
    decreases s.len(),
{
    if s.len() == 0 {
        s
    } else if s.last() == skip || s.last() == '\n' {
        kept(s.drop_last(), skip)
    } else {
        kept(s.drop_last(), skip).push(s.last())
    }
}

/// The length of the last line of `s`.
pub open spec fn last_line_len(s: Seq<char>) -> int
    decreases s.len(),
{
    if s.len() == 0 {
        0
    } else if s.last() == '\n' {
        0
    } else {
        last_line_len(s.drop_last()) + 1
    }
}

/// The edge text holds `n` edge glyphs and nothing else but `_` and line breaks.
pub open spec fn edges_text_ok(s: Seq<char>, n: int) -> bool {
    &&& kept(s, '_').len() == n
    &&& forall|k: int| 0 <= k < kept(s, '_').len() ==> (#[trigger] fence_of_char(kept(s, '_')[k])) is Some
}

/// The texts describe a rule: one placement at most, clue rows as wide as
/// the last one and holding only clues, at least one row, a board that can
/// be addressed, and input and output edge texts of the right length.
pub open spec fn rule_text_ok(task: Seq<char>, fences: Seq<char>, solution: Seq<char>, corner: bool, edge: bool) -> bool {
    let cells = kept(task, '\n');
    let cols = last_line_len(task);
    let rows = if cols > 0 {
        (cells.len() as int) / cols
    } else {
        0
    };
    &&& !(corner && edge)
    &&& forall|k: int| 0 <= k < cells.len() ==> (#[trigger] clue_of_char(cells[k])) is Some
    &&& cols > 0
    &&& (cells.len() as int) % cols == 0
    &&& rows > 0
    &&& (rows + 1) * (cols + 1) <= usize::MAX
    &&& edges_text_ok(fences, (rows + 1) * cols + rows * (cols + 1))
    &&& edges_text_ok(solution, (rows + 1) * cols + rows * (cols + 1))
}

/// Reads the cells of an edge text, skipping `_` and line breaks.
fn fence_cells(s: &Vec<char>) -> (r: Option<Vec<Fence>>)
    ensures
        r is Some <==> forall|k: int| 0 <= k < kept(s@, '_').len() ==> (#[trigger] fence_of_char(kept(s@, '_')[k])) is Some,
        r matches Some(v) ==> v.len() == kept(s@, '_').len() && forall|k: int|
            0 <= k < v.len() ==> Some((#[trigger] v@[k]).0) == fence_of_char(kept(s@, '_')[k]),
{
    let mut v: Vec<Fence> = Vec::new();
    let mut i: usize = 0;
    while i < s.len()
        invariant
            i <= s.len(),
            v.len() == kept(s@.subrange(0, i as int), '_').len(),
            forall|k: int| 0 <= k < v.len() ==> Some((#[trigger] v@[k]).0) == fence_of_char(kept(s@.subrange(0, i as int), '_')[k]),
            forall|k: int| 0 <= k < v.len() ==> (#[trigger] fence_of_char(kept(s@.subrange(0, i as int), '_')[k])) is Some,
        decreases s.len() - i,
    {
        let c = s[i];
        proof {
            assert(s@.subrange(0, i + 1).drop_last() == s@.subrange(0, i as int));
            assert(s@.subrange(0, i + 1).last() == c);
        }
        if c != '_' && c != '\n' {
            match Fence::from_char(c) {
                Some(f) => v.push(f),
                None => {
                    proof {
                        let t = kept(s@.subrange(0, i + 1), '_');
                        assert(t.last() == c);
                        lemma_kept_prefix(s@, i + 1, '_');
                        assert(kept(s@, '_')[t.len() - 1] == c);
                    }
                    return None;
                },
            }
        }
        i = i + 1;
    }
    assert(s@.subrange(0, i as int) == s@);
    Some(v)
}

/// What `kept` keeps of a prefix is a prefix of what it keeps of the whole.
proof fn lemma_kept_prefix(s: Seq<char>, n: int, skip: char)
    requires
        0 <= n <= s.len(),
    ensures
        kept(s.subrange(0, n), skip).len() <= kept(s, skip).len(),
        forall|k: int|
            0 <= k < kept(s.subrange(0, n), skip).len() ==> #[trigger] kept(s.subrange(0, n), skip)[k] == kept(s, skip)[k],
    decreases s.len() - n,
{
    if n < s.len() {
        lemma_kept_prefix(s, n + 1, skip);
        let a = s.subrange(0, n + 1);
        assert(a.drop_last() == s.subrange(0, n));
        assert(kept(a, skip) == if a.last() == skip || a.last() == '\n' {
            kept(s.subrange(0, n), skip)
        } else {
            kept(s.subrange(0, n), skip).push(a.last())
        });
        assert forall|k: int| 0 <= k < kept(s.subrange(0, n), skip).len() implies #[trigger] kept(s.subrange(0, n), skip)[k]
            == kept(s, skip)[k] by {
            assert(kept(s.subrange(0, n), skip)[k] == kept(a, skip)[k]);
        }
    } else {
        assert(s.subrange(0, n) == s);
    }
}

impl BoardRule {
    /// Builds a rule from its text: clue rows separated by line breaks (the
    /// width is that of the last row), and input and output edge strings
    /// (direction 0 row by row, then direction 1; `_` and line breaks are
    /// skipped).  A rule is anchored at a corner, on a side, or anywhere.
    pub fn from_text(task: &str, fences: &str, solution: &str, corner: bool, edge: bool) -> (r: Result<
        BoardRule,
        RuleError,
    >)
        ensures
            corner && edge ==> r == Err::<BoardRule, RuleError>(RuleError::Placement),
            r is Ok <==> rule_text_ok(task@, fences@, solution@, corner, edge),
            r matches Ok(x) ==> {
                &&& x.wf()
                &&& x.variant == if corner {
                    TaskType::Corner(0)
                } else if edge {
                    TaskType::Edge(0)
                } else {
                    TaskType::Anywhere
                }
                &&& forall|k: int| 0 <= k < x.task.data.len() ==> Some((#[trigger] x.task.data@[k]).0) == clue_of_char(kept(task@, '\n')[k])
                &&& x.fences.h.data@ + x.fences.v.data@ == kept(fences@, '_').map_values(|c: char| Fence(fence_of_char(c)->0))
                &&& x.solution.h.data@ + x.solution.v.data@ == kept(solution@, '_').map_values(|c: char| Fence(fence_of_char(c)->0))
            },
    {
        if corner && edge {
            return Err(RuleError::Placement);
        }
        let variant = TaskType::new(corner, edge);
        let t = chars_of(task);
        let mut cols: usize = 0;
        let mut p: usize = 0;
        while p < t.len()
            invariant
                p <= t.len(),
                cols <= p,
                cols == last_line_len(t@.subrange(0, p as int)),
            decreases t.len() - p,
        {
            proof {
                assert(t@.subrange(0, p + 1).drop_last() == t@.subrange(0, p as int));
            }
            if t[p] == '\n' {
                cols = 0;
            } else {
                cols = cols + 1;
            }
            p = p + 1;
        }
        assert(t@.subrange(0, p as int) == t@);
        let mut cells: Vec<U2> = Vec::new();
        let mut i: usize = 0;
        while i < t.len()
            invariant
                !(corner && edge),
                t@ == task@,
                cols == last_line_len(t@),
                i <= t.len(),
                cells.len() == kept(t@.subrange(0, i as int), '\n').len(),
                forall|k: int| 0 <= k < cells.len() ==> Some((#[trigger] cells@[k]).0) == clue_of_char(kept(t@.subrange(0, i as int), '\n')[k]) && cells@[k].wf(),
            decreases t.len() - i,
        {
            let c = t[i];
            proof {
                assert(t@.subrange(0, i + 1).drop_last() == t@.subrange(0, i as int));
                assert(t@.subrange(0, i + 1).last() == c);
            }
            if c != '\n' {
                match U2::from_char(c) {
                    Some(u) => cells.push(u),
                    None => {
                        proof {
                            let q = kept(t@.subrange(0, i + 1), '\n');
                            assert(q.last() == c);
                            lemma_kept_prefix(t@, i + 1, '\n');
                            assert(kept(t@, '\n')[q.len() - 1] == c);
                        }
                        return Err(RuleError::Task);
                    },
                }
            }
            i = i + 1;
        }
        assert(t@.subrange(0, i as int) == t@);
        assert forall|k: int| 0 <= k < kept(task@, '\n').len() implies (#[trigger] clue_of_char(kept(task@, '\n')[k])) is Some by {
            assert(clue_of_char(kept(t@.subrange(0, i as int), '\n')[k]) == Some(cells@[k].0));
        }
        if cols == 0 || cells.len() % cols != 0 {
            return Err(RuleError::Task);
        }
        let rows = cells.len() / cols;
        if rows == 0 || !crate::board::board_size_fits(rows, cols) {
            return Err(RuleError::Task);
        }
        let ghost cells_view = cells@;
        proof {
            let n = cells.len() as int;
            let w = cols as int;
            vstd::arithmetic::div_mod::lemma_fundamental_div_mod(n, w);
            assert(n == rows * cols) by (nonlinear_arith)
                requires
                    n == w * (n / w) + n % w,
                    rows == n / w,
                    n % w == 0,
                    w == cols,
            ;
        }
        let task_grid = match Grid::from_vec(cells, rows, cols) {
            Some(g) => g,
            None => {
                return Err(RuleError::Task);
            },
        };
        proof {
            assert(task_grid.data@ == cells_view);
            assert forall|rr: int, cc: int| #[trigger] task_grid.in_bounds(rr, cc) implies task_grid.at(rr, cc).wf() by {
                crate::grid::lemma_offset(rows as int, cols as int, rr, cc);
            }
            assert((rows + 1) * cols <= (rows + 1) * (cols + 1)) by (nonlinear_arith);
            assert(rows * (cols + 1) <= (rows + 1) * (cols + 1)) by (nonlinear_arith);
            assert(cols + 1 <= (rows + 1) * (cols + 1)) by (nonlinear_arith);
        assert(rows + 1 <= (rows + 1) * (cols + 1)) by (nonlinear_arith);
        }
        let hl = (rows + 1) * cols;
        let vl = rows * (cols + 1);
        let fv = chars_of(fences);
        let f_in = match fence_cells(&fv) {
            Some(v) => v,
            None => {
                return Err(RuleError::Fences);
            },
        };
        let sv = chars_of(solution);
        let f_out = match fence_cells(&sv) {
            Some(v) => v,
            None => {
                return Err(RuleError::Solution);
            },
        };
        if f_in.len() < hl || f_in.len() - hl != vl {
            return Err(RuleError::Fences);
        }
        if f_out.len() < hl || f_out.len() - hl != vl {
            return Err(RuleError::Solution);
        }
        let fences_pair = split_fences(&f_in, rows, cols);
        let solution_pair = split_fences(&f_out, rows, cols);
        let r = BoardRule { task: task_grid, variant, fences: fences_pair, solution: solution_pair };
        proof {
            assert(r.fences.h.data@ + r.fences.v.data@ =~= kept(fences@, '_').map_values(|c: char| Fence(fence_of_char(c)->0)));
            assert(r.solution.h.data@ + r.solution.v.data@ =~= kept(solution@, '_').map_values(|c: char| Fence(fence_of_char(c)->0)));
            assert(cells_view.len() == kept(task@, '\n').len());
            assert(forall|k: int| 0 <= k < kept(task@, '\n').len() ==> (#[trigger] clue_of_char(kept(task@, '\n')[k])) is Some);
            assert(edges_text_ok(fences@, (rows + 1) * cols + rows * (cols + 1)));
            assert(edges_text_ok(solution@, (rows + 1) * cols + rows * (cols + 1)));
        }
        Ok(r)
    }
}

/// Splits edge cells into the direction-0 grid of a `rows` by `cols` pattern
/// and the direction-1 grid after it.
pub(crate) fn split_fences(cells: &Vec<Fence>, rows: usize, cols: usize) -> (f: Fences)
    requires
        (rows + 1) * (cols + 1) <= usize::MAX,
        cells.len() == (rows + 1) * cols + rows * (cols + 1),
    ensures
        f.wf_for(rows as int, cols as int),
        f.h.data@ + f.v.data@ == cells@,
{
    proof {
        assert((rows + 1) * cols <= (rows + 1) * (cols + 1)) by (nonlinear_arith);
        assert(cols + 1 <= (rows + 1) * (cols + 1)) by (nonlinear_arith);
        assert(rows + 1 <= (rows + 1) * (cols + 1)) by (nonlinear_arith);
    }
    let hl = (rows + 1) * cols;
    let mut h: Vec<Fence> = Vec::new();
    let mut v: Vec<Fence> = Vec::new();
    let mut i: usize = 0;
    while i < cells.len()
        invariant
            hl == (rows + 1) * cols,
            i <= cells.len(),
            i <= hl ==> h@ == cells@.subrange(0, i as int) && v.len() == 0,
            i > hl ==> h@ == cells@.subrange(0, hl as int) && v@ == cells@.subrange(hl as int, i as int),
        decreases cells.len() - i,
    {
        if i < hl {
            h.push(cells[i]);
        } else {
            v.push(cells[i]);
        }
        i = i + 1;
    }
    assert(h@ + v@ =~= cells@);
    Fences { h: Grid { data: h, rows: rows + 1, cols }, v: Grid { data: v, rows, cols: cols + 1 } }
}


/// A character that separates the parts of a key splits equal keys into
/// equal parts.
proof fn lemma_split_bar(x1: Seq<char>, y1: Seq<char>, x2: Seq<char>, y2: Seq<char>)
    requires
        forall|k: int| 0 <= k < x1.len() ==> x1[k] != '|',
        forall|k: int| 0 <= k < x2.len() ==> x2[k] != '|',
        x1 + (seq!['|'] + y1) == x2 + (seq!['|'] + y2),
    ensures
        x1 == x2,
        y1 == y2,
{
    let a = x1 + (seq!['|'] + y1);
    let b = x2 + (seq!['|'] + y2);
    if x1.len() < x2.len() {
        assert(a[x1.len() as int] == '|');
        assert(b[x1.len() as int] == x2[x1.len() as int]);
    } else if x2.len() < x1.len() {
        assert(b[x2.len() as int] == '|');
        assert(a[x2.len() as int] == x1[x2.len() as int]);
    }
    assert(x1 =~= a.subrange(0, x1.len() as int));
    assert(x2 =~= b.subrange(0, x2.len() as int));
    assert(y1 =~= a.subrange(x1.len() as int + 1, a.len() as int));
    assert(y2 =~= b.subrange(x2.len() as int + 1, b.len() as int));
}

/// The key of a rule after its clue part.
pub open spec fn key_tail(x: BoardRule) -> Seq<char> {
    fence_chars(x.fences.h) + (seq!['|'] + (fence_chars(x.fences.v) + (seq!['|'] + (fence_chars(x.solution.h) + (
    seq!['|'] + (fence_chars(x.solution.v) + (seq!['|'] + variant_chars(x.variant))))))))
}

/// Fence cells with the same glyphs are the same.
proof fn lemma_fence_chars_inj(a: Grid<Fence>, b: Grid<Fence>)
    requires
        fence_chars(a) == fence_chars(b),
    ensures
        a.data@ == b.data@,
{
    assert(a.data@.len() == fence_chars(a).len());
    assert forall|k: int| 0 <= k < a.data@.len() implies a.data@[k] == b.data@[k] by {
        assert(fence_chars(a)[k] == fence_char(a.data@[k].0));
        assert(fence_chars(b)[k] == fence_char(b.data@[k].0));
        assert(fence_chars(a)[k] == fence_chars(b)[k]);
        let x = a.data@[k].0;
        let y = b.data@[k].0;
        assert(x == y) by {
            match x {
                Some(true) => {},
                Some(false) => {},
                None => {},
            }
        }
    }
    assert(a.data@ =~= b.data@);
}

/// Rules with the same key have the same cells, shapes and placement.
pub proof fn lemma_key_injective(a: BoardRule, b: BoardRule)
    requires
        a.wf(),
        b.wf(),
        a.key() == b.key(),
    ensures
        a.same_as(&b),
{
    assert(a.key() =~= clue_chars(a.task) + (seq!['|'] + key_tail(a)));
    assert(b.key() =~= clue_chars(b.task) + (seq!['|'] + key_tail(b)));
    lemma_split_bar(clue_chars(a.task), key_tail(a), clue_chars(b.task), key_tail(b));
    let ta1 = fence_chars(a.fences.v) + (seq!['|'] + (fence_chars(a.solution.h) + (seq!['|'] + (fence_chars(a.solution.v)
        + (seq!['|'] + variant_chars(a.variant))))));
    let tb1 = fence_chars(b.fences.v) + (seq!['|'] + (fence_chars(b.solution.h) + (seq!['|'] + (fence_chars(b.solution.v)
        + (seq!['|'] + variant_chars(b.variant))))));
    lemma_split_bar(fence_chars(a.fences.h), ta1, fence_chars(b.fences.h), tb1);
    let ta2 = fence_chars(a.solution.h) + (seq!['|'] + (fence_chars(a.solution.v) + (seq!['|'] + variant_chars(a.variant))));
    let tb2 = fence_chars(b.solution.h) + (seq!['|'] + (fence_chars(b.solution.v) + (seq!['|'] + variant_chars(b.variant))));
    lemma_split_bar(fence_chars(a.fences.v), ta2, fence_chars(b.fences.v), tb2);
    let ta3 = fence_chars(a.solution.v) + (seq!['|'] + variant_chars(a.variant));
    let tb3 = fence_chars(b.solution.v) + (seq!['|'] + variant_chars(b.variant));
    lemma_split_bar(fence_chars(a.solution.h), ta3, fence_chars(b.solution.h), tb3);
    lemma_split_bar(fence_chars(a.solution.v), variant_chars(a.variant), fence_chars(b.solution.v), variant_chars(b.variant));
    lemma_fence_chars_inj(a.fences.h, b.fences.h);
    lemma_fence_chars_inj(a.fences.v, b.fences.v);
    lemma_fence_chars_inj(a.solution.h, b.solution.h);
    lemma_fence_chars_inj(a.solution.v, b.solution.v);
    // clues: both rules hold clues up to four only
    assert(a.task.data@.len() == clue_chars(a.task).len());
    assert forall|k: int| 0 <= k < a.task.data@.len() implies a.task.data@[k] == b.task.data@[k] by {
        let p = crate::grid::lemma_cell_of_offset(a.task, k);
        assert(a.task.in_bounds(p.0, p.1));
        assert(a.task.data@[k].wf());
        let q = crate::grid::lemma_cell_of_offset(b.task, k);
        assert(b.task.in_bounds(q.0, q.1));
        assert(b.task.data@[k].wf());
        assert(clue_chars(a.task)[k] == clue_chars(b.task)[k]);
    }
    assert(a.task.data@ =~= b.task.data@);
    // shapes from the lengths of the clue and edge parts
    let (ra, ca, rb, cb) = (a.task.rows as int, a.task.cols as int, b.task.rows as int, b.task.cols as int);
    assert(ra * ca == rb * cb);
    assert((ra + 1) * ca == (rb + 1) * cb);
    assert(ca == cb) by (nonlinear_arith)
        requires
            ra * ca == rb * cb,
            (ra + 1) * ca == (rb + 1) * cb,
    ;
    assert(ra == rb) by (nonlinear_arith)
        requires
            ra * ca == rb * cb,
            ca == cb,
            ca >= 1,
    ;
    // placement
    assert(variant_chars(a.variant) == variant_chars(b.variant));
    match a.variant {
        TaskType::Corner(x) => {
            assert(variant_chars(b.variant)[0] == 'C');
            assert(variant_chars(a.variant)[1] == variant_chars(b.variant)[1]);
        },
        TaskType::Edge(x) => {
            assert(variant_chars(b.variant)[0] == 'E');
            assert(variant_chars(a.variant)[1] == variant_chars(b.variant)[1]);
        },
        TaskType::Anywhere => {
            assert(variant_chars(b.variant)[0] == 'A');
        },
    }
}

/// A grid is fixed by any quarter turn of it.
proof fn lemma_grid_turn_inj<T>(g: Grid<T>, h: Grid<T>, o1: Grid<T>, o2: Grid<T>)
    requires
        o1.wf(),
        o2.wf(),
        grid_rotation_of(g, o1),
        grid_rotation_of(h, o2),
        g.rows == h.rows && g.cols == h.cols && g.data@ == h.data@,
    ensures
        o1.rows == o2.rows && o1.cols == o2.cols && o1.data@ == o2.data@,
{
    assert forall|i: int, j: int| #[trigger] o1.in_bounds(i, j) implies o1.at(i, j) == o2.at(i, j) by {
        assert(g.in_bounds(j, o1.rows - 1 - i));
        assert(h.in_bounds(j, o2.rows - 1 - i));
    }
    lemma_same_cells(o1, o2);
}

/// A rule is fixed by any quarter turn of it.
pub proof fn lemma_turn_injective(x: BoardRule, y: BoardRule, o1: BoardRule, o2: BoardRule)
    requires
        o1.wf(),
        o2.wf(),
        x.rotation_of(&o1),
        y.rotation_of(&o2),
        x.same_as(&y),
    ensures
        o1.same_as(&o2),
{
    lemma_grid_turn_inj(x.task, y.task, o1.task, o2.task);
    lemma_grid_turn_inj(x.fences.h, y.fences.h, o1.fences.v, o2.fences.v);
    lemma_grid_turn_inj(x.fences.v, y.fences.v, o1.fences.h, o2.fences.h);
    lemma_grid_turn_inj(x.solution.h, y.solution.h, o1.solution.v, o2.solution.v);
    lemma_grid_turn_inj(x.solution.v, y.solution.v, o1.solution.h, o2.solution.h);
}

/// A rule with the cells of a quarter turn is that quarter turn too.
proof fn lemma_turn_copy(x: BoardRule, y: BoardRule, o: BoardRule)
    requires
        x.rotation_of(&o),
        x.same_as(&y),
    ensures
        y.rotation_of(&o),
{
    assert forall|c: int, k: int| #[trigger] y.task.in_bounds(c, k) implies y.task.at(c, k) == o.task.at(o.task.rows - 1 - k, c) by {
        assert(x.task.in_bounds(c, k));
    }
    assert forall|c: int, k: int| #[trigger] y.fences.h.in_bounds(c, k) implies y.fences.h.at(c, k) == o.fences.v.at(o.fences.v.rows - 1 - k, c) by {
        assert(x.fences.h.in_bounds(c, k));
    }
    assert forall|c: int, k: int| #[trigger] y.fences.v.in_bounds(c, k) implies y.fences.v.at(c, k) == o.fences.h.at(o.fences.h.rows - 1 - k, c) by {
        assert(x.fences.v.in_bounds(c, k));
    }
    assert forall|c: int, k: int| #[trigger] y.solution.h.in_bounds(c, k) implies y.solution.h.at(c, k) == o.solution.v.at(o.solution.v.rows - 1 - k, c) by {
        assert(x.solution.h.in_bounds(c, k));
    }
    assert forall|c: int, k: int| #[trigger] y.solution.v.in_bounds(c, k) implies y.solution.v.at(c, k) == o.solution.h.at(o.solution.h.rows - 1 - k, c) by {
        assert(x.solution.v.in_bounds(c, k));
    }
}

/// If a turn and the turn after it share a key, the rule shares it too.
proof fn lemma_two_turns_same(r: BoardRule, x1: BoardRule, x2: BoardRule)
    requires
        r.wf(),
        x1.wf(),
        x2.wf(),
        x1.rotation_of(&r),
        x2.rotation_of(&x1),
        x1.key() == x2.key(),
    ensures
        r.key() == x1.key(),
{
    lemma_key_injective(x2, x1);
    lemma_turn_copy(x2, x1, x1);
    lemma_turn_injective(x1, x1, r, x1);
    lemma_same_key(r, x1);
}

/// When no quarter turn has the rule's own key, no two turns share a key.
pub proof fn lemma_turns_differ_asymmetric(r: BoardRule)
    requires
        r.wf(),
        r.turns_differ(),
    ensures
        r.asymmetric(),
{
    assert forall|x1: BoardRule, x2: BoardRule|
        #![trigger x1.rotation_of(&r), x2.rotation_of(&x1)]
        x1.wf() && x2.wf() && x1.rotation_of(&r) && x2.rotation_of(&x1) implies x2.key() != r.key() && x2.key()
            != x1.key() by {
        if x2.key() == x1.key() {
            lemma_two_turns_same(r, x1, x2);
        }
    }
    assert forall|x1: BoardRule, x2: BoardRule, x3: BoardRule|
        #![trigger x1.rotation_of(&r), x2.rotation_of(&x1), x3.rotation_of(&x2)]
        x1.wf() && x2.wf() && x3.wf() && x1.rotation_of(&r) && x2.rotation_of(&x1) && x3.rotation_of(&x2)
            implies x3.key() != r.key() && x3.key() != x1.key() && x3.key() != x2.key() by {
        if x3.key() == x1.key() {
            lemma_key_injective(x3, x1);
            lemma_turn_injective(x3, x1, x2, r);
            lemma_same_key(x2, r);
        }
        if x3.key() == x2.key() {
            lemma_two_turns_same(x1, x2, x3);
            lemma_two_turns_same(r, x1, x2);
        }
    }
}

} // verus!
