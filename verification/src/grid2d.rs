use crate::fixedarray::{in_grid2, index2, FixedArray};
use vstd::prelude::*;

verus! {

/// A 2-Dimensional matrix of values.
pub struct Grid2D<T> {
    cells: FixedArray<T>,
    size: (u32, u32),
    offset: (i32, i32),
}

impl<T> View for Grid2D<T> {
    type V = Map<(i32, i32), T>;

    /// The value of each position of the grid.
    closed spec fn view(&self) -> Map<(i32, i32), T> {
        Map::new(|p: (i32, i32)| in_grid2(self.size, self.offset, p), |p: (i32, i32)| self.cells@[index2(self.size, self.offset, p)])
    }
}

impl<T> Grid2D<T> {
    /// The internal invariant of the grid.
    pub closed spec fn wf(&self) -> bool {
        &&& self.cells.wf()
        &&& self.cells@.len() == self.size.0 * self.size.1
    }

    /// The dimensions of the grid.
    pub closed spec fn grid_size(&self) -> (u32, u32) {
        self.size
    }

    /// The position of the grid's minimum corner.
    pub closed spec fn grid_offset(&self) -> (i32, i32) {
        self.offset
    }

    /// Create a new [Grid2D] using a function to initialize cells, row by row.
    pub fn new<F: FnMut((i32, i32)) -> T>(size: (u32, u32), offset: (i32, i32), init: F) -> (r: Self)
        requires
            size.0 * size.1 > 0,
            size.0 * size.1 <= usize::MAX,
            offset.0 + size.0 <= i32::MAX,
            offset.1 + size.1 <= i32::MAX,
            forall|p: (i32, i32)| call_requires(init, (p,)),
        ensures
            r.wf(),
            r.grid_size() == size,
            r.grid_offset() == offset,
            forall|p: (i32, i32)| #[trigger] r@.contains_key(p) <==> in_grid2(size, offset, p),
            forall|p: (i32, i32)| in_grid2(size, offset, p) ==> call_ensures(init, (p,), #[trigger] r@[p]),
    {
        Self { cells: FixedArray::new_2d(size, offset, init), size, offset }
    }
}

} // verus!
