use crate::board::Board;
use crate::grid::Grid;
use vstd::prelude::*;

verus! {

/// The shape of something laid out on rows and columns.
pub trait BoardGeom {
    spec fn shape(&self) -> (usize, usize);

    /// `(rows, cols)`.
    fn size(&self) -> (r: (usize, usize))
        ensures
            r == self.shape(),
    ;

    fn rows(&self) -> (r: usize)
        ensures
            r == self.shape().0,
    ;

    fn cols(&self) -> (r: usize)
        ensures
            r == self.shape().1,
    ;
}

impl BoardGeom for Board {
    open spec fn shape(&self) -> (usize, usize) {
        (self.tasks.rows, self.tasks.cols)
    }

    fn size(&self) -> (r: (usize, usize)) {
        (self.tasks.rows, self.tasks.cols)
    }

    fn rows(&self) -> (r: usize) {
        self.tasks.rows
    }

    fn cols(&self) -> (r: usize) {
        self.tasks.cols
    }
}

impl<T> BoardGeom for Grid<T> {
    open spec fn shape(&self) -> (usize, usize) {
        (self.rows, self.cols)
    }

    fn size(&self) -> (r: (usize, usize)) {
        (self.rows, self.cols)
    }

    fn rows(&self) -> (r: usize) {
        self.rows
    }

    fn cols(&self) -> (r: usize) {
        self.cols
    }
}

} // verus!
