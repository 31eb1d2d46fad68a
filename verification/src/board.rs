//! The three by three board of noughts and crosses, kept in an array of the
//! `ndarray` crate. Everything that is known of the array is stated here
//! and believed, not proved.

use vstd::prelude::*;

verus! {

/// The code of a cell that holds no piece.
pub const EMPTY: u8 = 0;

/// The code of a cell that holds a nought.
pub const NOUGHT: u8 = 1;

/// The code of a cell that holds a cross.
pub const CROSS: u8 = 2;

/// A board: an `ndarray::Array2<u8>` of three rows and three columns, each
/// cell holding the code of what stands in it. The array type cannot be
/// declared to the verifier by itself, for its bounds name a trait of the
/// crate; so it stands in this struct, which the verifier does not look
/// into and knows by `cells` alone.
#[verifier::external_body]
pub struct Board {
    grid: ndarray::Array2<u8>,
}

/// The nine cells that a board holds in the logical order of the array, row
/// by row: the cell in row `x` and column `y` stands in place `3 * x + y`.
pub uninterp spec fn cells(board: Board) -> Seq<u8>;

impl Board {
    /// Calls `ndarray::Array::from_elem((3, 3), EMPTY)`, which makes an array
    /// of the given shape with a copy of the element in every cell.
    #[verifier::external_body]
    pub(crate) fn empty() -> (board: Board)
        ensures
            cells(board) == Seq::new(9, |i: int| EMPTY),
    {
        Board { grid: ndarray::Array::from_elem((3, 3), EMPTY) }
    }

    /// Reads the cell in row `x` and column `y` with the index operator of
    /// the array, which panics on an index beyond the shape.
    #[verifier::external_body]
    pub(crate) fn cell(&self, x: usize, y: usize) -> (held: u8)
        requires
            x < 3,
            y < 3,
            cells(*self).len() == 9,
        ensures
            held == cells(*self)[3 * x + y],
    {
        self.grid[[x, y]]
    }

    /// Writes the cell in row `x` and column `y` through the mutable index
    /// operator of the array, which panics on an index beyond the shape. The
    /// other cells stay as they are.
    #[verifier::external_body]
    pub(crate) fn put(&mut self, x: usize, y: usize, code: u8)
        requires
            x < 3,
            y < 3,
            cells(*old(self)).len() == 9,
        ensures
            cells(*final(self)) == cells(*old(self)).update(3 * x + y, code),
        no_unwind
    {
        self.grid[[x, y]] = code;
    }

    /// Calls `clone` on the array: an array of the same shape with the same
    /// cells.
    #[verifier::external_body]
    pub(crate) fn copy(&self) -> (copied: Board)
        ensures
            cells(copied) == cells(*self),
    {
        Board { grid: self.grid.clone() }
    }

    /// Calls `iter` on the array, which visits the cells in the logical order
    /// of the array, the rightmost index varying the fastest, and collects
    /// what it yields.
    #[verifier::external_body]
    pub(crate) fn in_order(&self) -> (listed: Vec<u8>)
        ensures
            listed@ == cells(*self),
    {
        self.grid.iter().copied().collect()
    }

    /// Calls `axis_iter` on the array, which yields the subviews along the
    /// axis in turn, and collects each: for axis 0 the rows, for axis 1 the
    /// columns. It panics on an axis that the array does not have.
    #[verifier::external_body]
    pub(crate) fn lanes(&self, axis: usize) -> (lanes: Vec<Vec<u8>>)
        requires
            axis < 2,
            cells(*self).len() == 9,
        ensures
            lanes@.len() == 3,
            forall|i: int| 0 <= i < 3 ==> (#[trigger] lanes@[i])@.len() == 3,
            forall|i: int, j: int|
                0 <= i < 3 && 0 <= j < 3 ==> #[trigger] lanes@[i]@[j] == cells(*self)[if axis == 0 {
                    3 * i + j
                } else {
                    3 * j + i
                }],
    {
        self.grid.axis_iter(ndarray::Axis(axis)).map(|lane| lane.iter().copied().collect()).collect()
    }

    /// Calls `diag` on the array, which gives the cells with equal indices in
    /// both axes, and collects them.
    #[verifier::external_body]
    pub(crate) fn diagonal(&self) -> (diagonal: Vec<u8>)
        requires
            cells(*self).len() == 9,
        ensures
            diagonal@.len() == 3,
            forall|i: int| 0 <= i < 3 ==> #[trigger] diagonal@[i] == cells(*self)[4 * i],
    {
        self.grid.diag().iter().copied().collect()
    }

    /// Calls `invert_axis` on the array with axis 0, which reverses the
    /// direction of that axis: the rows come in the opposite order.
    #[verifier::external_body]
    pub(crate) fn invert_rows(&mut self)
        requires
            cells(*old(self)).len() == 9,
        ensures
            cells(*final(self)).len() == 9,
            forall|i: int, j: int|
                0 <= i < 3 && 0 <= j < 3 ==> #[trigger] cells(*final(self))[3 * i + j] == cells(
                    *old(self),
                )[3 * (2 - i) + j],
    {
        self.grid.invert_axis(ndarray::Axis(0));
    }

    /// Calls `indexed_iter` on the array, which visits the cells in the
    /// logical order and yields each with its row and column, and collects
    /// what it yields.
    #[verifier::external_body]
    pub(crate) fn indexed(&self) -> (listed: Vec<((usize, usize), u8)>)
        requires
            cells(*self).len() == 9,
        ensures
            listed@.len() == 9,
            forall|k: int|
                0 <= k < 9 ==> #[trigger] listed@[k] == (((k / 3) as usize, (k % 3) as usize), cells(*self)[k]),
    {
        self.grid.indexed_iter().map(|(at, held)| (at, *held)).collect()
    }
}

} // verus!
