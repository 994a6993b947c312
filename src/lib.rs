use vstd::prelude::*;

pub use crate::board::Board;

pub mod geom;
pub mod grid;
pub mod items;
pub mod render;
pub mod board;
pub mod rules;
pub mod ruleset;
pub mod solver;
pub mod symmetry;
pub mod text;

verus! {

/// Component-wise sum of two grid coordinates.
pub fn add_idx(a: (usize, usize), b: (usize, usize)) -> (r: (usize, usize))
    requires
        a.0 + b.0 <= usize::MAX,
        a.1 + b.1 <= usize::MAX,
    ensures
        r.0 == a.0 + b.0,
        r.1 == a.1 + b.1,
{
    (a.0 + b.0, a.1 + b.1)
}

/// Component-wise difference of two grid coordinates.
pub fn sub_idx(a: (usize, usize), b: (usize, usize)) -> (r: (usize, usize))
    requires
        a.0 >= b.0,
        a.1 >= b.1,
    ensures
        r.0 == a.0 - b.0,
        r.1 == a.1 - b.1,
{
    (a.0 - b.0, a.1 - b.1)
}

} // verus!
