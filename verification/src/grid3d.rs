use crate::bounds3d::{before3, box3, lemma_box3, lemma_box3_len, sorted3, Bounds3D, Bounds3DIter};
use crate::fixedarray::{in_grid3, index3, lemma_index3, FixedArray};
use crate::math::add_u32_to_i32;
use vstd::prelude::*;

verus! {

/// A 3-Dimensional matrix.
pub struct Grid3D<T> {
    cells: FixedArray<T>,
    size: (u32, u32, u32),
    offset: (i32, i32, i32),
}

impl<T> View for Grid3D<T> {
    type V = Map<(i32, i32, i32), T>;

    /// The value of each position of the grid.
    closed spec fn view(&self) -> Map<(i32, i32, i32), T> {
        Map::new(
            |p: (i32, i32, i32)| in_grid3(self.size, self.offset, p),
            |p: (i32, i32, i32)| self.cells@[index3(self.size, self.offset, p)],
        )
    }
}

impl<T> Grid3D<T> {
    /// The internal invariant of the grid.
    pub closed spec fn wf(&self) -> bool {
        &&& self.cells.wf()
        &&& self.cells@.len() == self.size.0 * self.size.1 * self.size.2
        &&& self.size.0 * self.size.1 * self.size.2 > 0
        &&& self.size.0 * self.size.1 * self.size.2 <= usize::MAX
        &&& self.offset.0 + self.size.0 <= i32::MAX
        &&& self.offset.1 + self.size.1 <= i32::MAX
        &&& self.offset.2 + self.size.2 <= i32::MAX
    }

    /// The dimensions of the grid.
    pub closed spec fn grid_size(&self) -> (u32, u32, u32) {
        self.size
    }

    /// The position of the grid's minimum corner.
    pub closed spec fn grid_offset(&self) -> (i32, i32, i32) {
        self.offset
    }

    /// Whether `p` lies inside the grid.
    #[verifier::inline]
    pub open spec fn in_bounds(&self, p: (i32, i32, i32)) -> bool {
        in_grid3(self.grid_size(), self.grid_offset(), p)
    }

    /// The grid holds a value for exactly the positions inside it.
    pub proof fn lemma_view_domain(&self)
        ensures
            forall|p: (i32, i32, i32)| #[trigger] self@.contains_key(p) <==> self.in_bounds(p),
    {
    }

    /// Create a new [Grid3D] using a function to initialize cells.
    ///
    /// The init function should take as input the coordinate that is
    /// being initialized, and should return the desired value for the
    /// cell.
    pub fn new<F: FnMut((i32, i32, i32)) -> T>(size: (u32, u32, u32), offset: (i32, i32, i32), init: F) -> (r: Self)
        requires
            size.0 * size.1 * size.2 > 0,
            size.0 * size.1 * size.2 <= usize::MAX,
            offset.0 + size.0 <= i32::MAX,
            offset.1 + size.1 <= i32::MAX,
            offset.2 + size.2 <= i32::MAX,
            forall|p: (i32, i32, i32)| call_requires(init, (p,)),
        ensures
            r.wf(),
            r.grid_size() == size,
            r.grid_offset() == offset,
            forall|p: (i32, i32, i32)| r.in_bounds(p) ==> call_ensures(init, (p,), #[trigger] r@[p]),
    {
        Self { cells: FixedArray::new_3d(size, offset, init), size, offset }
    }

    /// The grid has an offset, so this function will find the index of the cell
    /// at the world coordinate `(x, y, z)`.
    pub fn offset_index(&self, coord: (i32, i32, i32)) -> (r: Option<usize>)
        requires
            self.wf(),
        ensures
            r is Some <==> self.in_bounds(coord),
            r matches Some(i) ==> i == index3(self.grid_size(), self.grid_offset(), coord) && i < self.grid_size().0 * self.grid_size().1 * self.grid_size().2,
    {
        let (x, y, z) = (coord.0 as i64, coord.1 as i64, coord.2 as i64);
        let (off_x, off_y, off_z) = (self.offset.0 as i64, self.offset.1 as i64, self.offset.2 as i64);
        let width = self.size.0 as i64;
        let height = self.size.1 as i64;
        let depth = self.size.2 as i64;
        if x < off_x || y < off_y || z < off_z || x >= off_x + width || y >= off_y + height || z >= off_z + depth {
            return None;
        }
        let adj_x = (x - off_x) as usize;
        let adj_y = (y - off_y) as usize;
        let adj_z = (z - off_z) as usize;
        proof {
            lemma_index3(self.size, self.offset, coord, coord);
            assert(adj_y * (self.size.2 as int) <= adj_y * (self.size.2 as int) + adj_z < self.size.1 * self.size.2) by (nonlinear_arith)
                requires
                    0 <= adj_y < self.size.1,
                    0 <= adj_z < self.size.2,
            ;
            assert(self.size.1 * self.size.2 <= self.size.0 * self.size.1 * self.size.2) by (nonlinear_arith)
                requires
                    self.size.0 * self.size.1 * self.size.2 > 0,
            ;
            let t = adj_y * (self.size.2 as int) + adj_z;
            assert(t * self.size.0 <= t * self.size.0 + adj_x) by (nonlinear_arith)
                requires
                    0 <= t,
                    0 <= adj_x,
            ;
        }
        Some((adj_y * self.size.2 as usize + adj_z) * self.size.0 as usize + adj_x)
    }

    /// Get the offset relative to the grid's offset.
    pub fn relative_offset(&self, coord: (i32, i32, i32)) -> (r: (i64, i64, i64))
        ensures
            r == ((coord.0 - self.grid_offset().0) as i64, (coord.1 - self.grid_offset().1) as i64, (coord.2 - self.grid_offset().2) as i64),
    {
        let (x, y, z) = (coord.0 as i64, coord.1 as i64, coord.2 as i64);
        let (ox, oy, oz) = (self.offset.0 as i64, self.offset.1 as i64, self.offset.2 as i64);
        (x - ox, y - oy, z - oz)
    }

    /// Replace item at `coord` using `replace` function that takes as
    /// input the old value and returns the new value. This will swap the
    /// value in-place.
    pub fn replace_with<F: FnOnce(T) -> T>(&mut self, coord: (i32, i32, i32), replace: F)
        requires
            old(self).wf(),
            old(self).in_bounds(coord),
            call_requires(replace, (old(self)@[coord],)),
        ensures
            final(self).wf(),
            final(self).grid_size() == old(self).grid_size(),
            final(self).grid_offset() == old(self).grid_offset(),
            final(self)@.dom() == old(self)@.dom(),
            call_ensures(replace, (old(self)@[coord],), final(self)@[coord]),
            forall|p: (i32, i32, i32)| old(self)@.contains_key(p) && p != coord ==> #[trigger] final(self)@[p] == old(self)@[p],
    {
        let index = self.offset_index(coord).unwrap();
        self.cells.replace_with(index, replace);
        proof {
            assert forall|p: (i32, i32, i32)| self.in_bounds(p) && p != coord implies #[trigger] self@[p] == old(self)@[p] by {
                lemma_index3(self.size, self.offset, p, coord);
            }
            assert(self@.dom() =~= old(self)@.dom());
        }
    }

    /// Replace item at `coord` using [std::mem::replace] and then returns
    /// the old value.
    pub fn replace(&mut self, coord: (i32, i32, i32), value: T) -> (r: T)
        requires
            old(self).wf(),
            old(self).in_bounds(coord),
        ensures
            r == old(self)@[coord],
            final(self).wf(),
            final(self).grid_size() == old(self).grid_size(),
            final(self).grid_offset() == old(self).grid_offset(),
            final(self)@ == old(self)@.insert(coord, value),
    {
        let index = self.offset_index(coord).unwrap();
        let r = self.cells.replace(index, value);
        proof {
            assert forall|p: (i32, i32, i32)| self.in_bounds(p) && p != coord implies #[trigger] self@[p] == old(self)@[p] by {
                lemma_index3(self.size, self.offset, p, coord);
            }
            assert(self@ =~= old(self)@.insert(coord, value));
        }
        r
    }

    /// Get a reference to the cell's value if it exists and the coord is in bounds, otherwise return `None`.
    pub fn get(&self, coord: (i32, i32, i32)) -> (r: Option<&T>)
        requires
            self.wf(),
        ensures
            r is Some <==> self.in_bounds(coord),
            r matches Some(v) ==> *v == self@[coord],
    {
        match self.offset_index(coord) {
            Some(index) => Some(self.cells.get(index)),
            None => None,
        }
    }

    /// Get a mutable reference to the cell's value if the coord is in bounds, otherwise return `None`.
    pub fn get_mut(&mut self, coord: (i32, i32, i32)) -> (r: Option<&mut T>)
        requires
            old(self).wf(),
        ensures
            r is Some <==> old(self).in_bounds(coord),
            final(self).wf(),
            final(self).grid_size() == old(self).grid_size(),
            final(self).grid_offset() == old(self).grid_offset(),
            r matches Some(v) ==> *v == old(self)@[coord] && final(self)@ == old(self)@.insert(coord, *final(v)),
            r is None ==> final(self)@ == old(self)@,
    {
        match self.offset_index(coord) {
            Some(index) => {
                proof {
                    assert forall|p: (i32, i32, i32)| self.in_bounds(p) && p != coord implies #[trigger] index3(self.size, self.offset, p) != index
                        && 0 <= index3(self.size, self.offset, p) < self.cells@.len() by {
                        lemma_index3(self.size, self.offset, p, coord);
                    }
                }
                let ghost g = *self;
                let v = self.cells.get_mut(index);
                proof {
                    assert(after_borrow(*self)@ =~= g@.insert(coord, *final(v))) by {
                        assert forall|p: (i32, i32, i32)| g.in_bounds(p) && p != coord implies #[trigger] after_borrow(*self)@[p] == g@[p] by {
                            lemma_index3(g.size, g.offset, p, coord);
                        }
                    }
                }
                Some(v)
            },
            None => None,
        }
    }

    /// Set the cell's value, returning the old value in the process.
    /// Returns `None` and leaves the grid unchanged when `coord` is out of bounds.
    pub fn set(&mut self, coord: (i32, i32, i32), value: T) -> (r: Option<T>)
        requires
            old(self).wf(),
        ensures
            final(self).wf(),
            final(self).grid_size() == old(self).grid_size(),
            final(self).grid_offset() == old(self).grid_offset(),
            old(self).in_bounds(coord) ==> r == Some(old(self)@[coord]) && final(self)@ == old(self)@.insert(coord, value),
            !old(self).in_bounds(coord) ==> r is None && final(self)@ == old(self)@,
    {
        match self.offset_index(coord) {
            Some(_) => Some(self.replace(coord, value)),
            None => None,
        }
    }

    /// Get the dimensions of the grid.
    pub fn size(&self) -> (r: (u32, u32, u32))
        ensures
            r == self.grid_size(),
    {
        self.size
    }

    /// The size along the X axis.
    pub fn width(&self) -> (r: u32)
        ensures
            r == self.grid_size().0,
    {
        self.size.0
    }

    /// The size along the Y axis.
    pub fn height(&self) -> (r: u32)
        ensures
            r == self.grid_size().1,
    {
        self.size.1
    }

    /// The size along the Z axis.
    pub fn depth(&self) -> (r: u32)
        ensures
            r == self.grid_size().2,
    {
        self.size.2
    }

    /// Get the offset of the grid.
    pub fn offset(&self) -> (r: (i32, i32, i32))
        ensures
            r == self.grid_offset(),
    {
        self.offset
    }

    /// Get the minimum bound on the `X` axis.
    pub fn x_min(&self) -> (r: i32)
        ensures
            r == self.grid_offset().0,
    {
        self.offset.0
    }

    /// Get the maximum bound on the `X` axis.
    pub fn x_max(&self) -> (r: i32)
        requires
            self.wf(),
        ensures
            r == self.grid_offset().0 + self.grid_size().0,
    {
        add_u32_to_i32(self.offset.0, self.size.0)
    }

    /// Get the minimum bound on the `Y` axis.
    pub fn y_min(&self) -> (r: i32)
        ensures
            r == self.grid_offset().1,
    {
        self.offset.1
    }

    /// Get the maximum bound on the `Y` axis.
    pub fn y_max(&self) -> (r: i32)
        requires
            self.wf(),
        ensures
            r == self.grid_offset().1 + self.grid_size().1,
    {
        add_u32_to_i32(self.offset.1, self.size.1)
    }

    /// Get the minimum bound on the `Z` axis.
    pub fn z_min(&self) -> (r: i32)
        ensures
            r == self.grid_offset().2,
    {
        self.offset.2
    }

    /// Get the maximum bound on the `Z` axis.
    pub fn z_max(&self) -> (r: i32)
        requires
            self.wf(),
        ensures
            r == self.grid_offset().2 + self.grid_size().2,
    {
        add_u32_to_i32(self.offset.2, self.size.2)
    }

    /// Get the bounds of the grid.
    pub fn bounds(&self) -> (r: Bounds3D)
        requires
            self.wf(),
        ensures
            r.min == self.grid_offset(),
            r.max == (
                (self.grid_offset().0 + self.grid_size().0) as i32,
                (self.grid_offset().1 + self.grid_size().1) as i32,
                (self.grid_offset().2 + self.grid_size().2) as i32,
            ),
            forall|p: (i32, i32, i32)| r.contains_spec(p) <==> self.in_bounds(p),
    {
        Bounds3D { min: (self.x_min(), self.y_min(), self.z_min()), max: (self.x_max(), self.y_max(), self.z_max()) }
    }

    /// This is equivalent to the volume (width * height * depth).
    pub fn len(&self) -> (r: usize)
        requires
            self.wf(),
        ensures
            r == self.grid_size().0 * self.grid_size().1 * self.grid_size().2,
    {
        assert(self.size.0 * self.size.1 <= self.size.0 * self.size.1 * self.size.2) by (nonlinear_arith)
            requires
                self.size.0 * self.size.1 * self.size.2 > 0,
        ;
        self.size.0 as usize * self.size.1 as usize * self.size.2 as usize
    }

    /// The positions of the grid in iteration order: `x` fastest, then `z`, then `y`.
    pub open spec fn bounds_points(&self) -> Seq<(i32, i32, i32)> {
        box3(
            self.grid_offset().0 as int,
            self.grid_offset().0 + self.grid_size().0,
            self.grid_offset().1 as int,
            self.grid_offset().1 + self.grid_size().1,
            self.grid_offset().2 as int,
            self.grid_offset().2 + self.grid_size().2,
        )
    }

    /// Get an iterator over the cells in the grid, in iteration order.
    pub fn iter(&self) -> (r: Grid3DIterator<'_, T>)
        requires
            self.wf(),
        ensures
            r.grid() == self,
            r.wf(),
            r.remaining() == self.bounds_points(),
    {
        let b = self.bounds();
        proof {
            lemma_box3(b.min.0 as int, b.max.0 as int, b.min.1 as int, b.max.1 as int, b.min.2 as int, b.max.2 as int);
        }
        Grid3DIterator { grid: self, bounds_iter: b.iter() }
    }

    /// Calls `f` with every position of the grid and a mutable reference to its value,
    /// in iteration order (`x` fastest, then `z`, then `y`).
    pub fn iter_mut<F: FnMut((i32, i32, i32), &mut T)>(&mut self, f: F)
        requires
            old(self).wf(),
            forall|a: (i32, i32, i32), c: &mut T| call_requires(f, (a, c)),
        ensures
            final(self).wf(),
            final(self).grid_size() == old(self).grid_size(),
            final(self).grid_offset() == old(self).grid_offset(),
            forall|p: (i32, i32, i32)|
                #![trigger old(self)@[p]]
                old(self).in_bounds(p) ==> exists|c: &mut T| *c == old(self)@[p] && *final(c) == final(self)@[p] && #[trigger] call_ensures(f, (p, c), ()),
    {
        let ghost f0 = f;
        let ghost start = *self;
        let mut f = f;
        let b = self.bounds();
        let mut it = b.iter();
        let ghost pts = it.remaining();
        let mut i: usize = 0;
        proof {
            lemma_box3(b.min.0 as int, b.max.0 as int, b.min.1 as int, b.max.1 as int, b.min.2 as int, b.max.2 as int);
            lemma_box3_len(b.min.0 as int, b.max.0 as int, b.min.1 as int, b.max.1 as int, b.min.2 as int, b.max.2 as int);
            assert(pts.len() == self.grid_size().0 * self.grid_size().1 * self.grid_size().2) by (nonlinear_arith)
                requires
                    pts.len() == (b.max.1 - b.min.1) * ((b.max.2 - b.min.2) * (b.max.0 - b.min.0)),
                    b.max.1 - b.min.1 == self.grid_size().1,
                    b.max.2 - b.min.2 == self.grid_size().2,
                    b.max.0 - b.min.0 == self.grid_size().0,
            ;
            assert(it.remaining() == pts.subrange(0, pts.len() as int));
        }
        loop
            invariant
                self.wf(),
                self.grid_size() == start.grid_size(),
                self.grid_offset() == start.grid_offset(),
                *old(self) == start,
                start.wf(),
                it.wf(),
                it.bounds() == b,
                pts == b.points(),
                forall|p: (i32, i32, i32)| #[trigger] pts.contains(p) <==> start.in_bounds(p),
                sorted3(pts),
                pts.len() <= usize::MAX,
                0 <= i <= pts.len(),
                it.remaining() == pts.subrange(i as int, pts.len() as int),
                f == f0,
                forall|a: (i32, i32, i32), c: &mut T| call_requires(f0, (a, c)),
                forall|k: int| i <= k < pts.len() ==> #[trigger] self@[pts[k]] == start@[pts[k]],
                forall|k: int|
                    #![trigger pts[k]]
                    0 <= k < i && start.in_bounds(pts[k]) ==> exists|c: &mut T| *c == start@[pts[k]] && *final(c) == self@[pts[k]] && #[trigger] call_ensures(f0, (pts[k], c), ()),
            ensures
                i == pts.len(),
            decreases pts.len() - i,
        {
            match it.next() {
                Some(p) => {
                    proof {
                        assert(pts[i as int] == p);
                        assert(pts.contains(p));
                        assert(self.in_bounds(p));
                    }
                    let index = self.offset_index(p).unwrap();
                    let ghost before = *self;
                    proof {
                        assert(before@[pts[i as int]] == start@[pts[i as int]]);
                    }
                    {
                        let cell = self.cells.get_mut(index);
                        f(p, cell);
                    }
                    proof {
                        assert forall|k: int| 0 <= k < pts.len() && k != i implies #[trigger] self@[pts[k]] == before@[pts[k]] by {
                            let q = pts[k];
                            if k < i {
                                assert(before3(pts[k], pts[i as int]));
                            } else {
                                assert(before3(pts[i as int], pts[k]));
                            }
                            assert(pts.contains(q));
                            lemma_index3(self.size, self.offset, q, p);
                        }
                        assert(exists|c: &mut T| *c == before@[p] && *final(c) == self@[p] && #[trigger] call_ensures(f0, (p, c), ()));
                        assert(it.remaining() =~= pts.subrange(i + 1, pts.len() as int));
                        assert forall|k: int| #![trigger pts[k]] 0 <= k < i + 1 && start.in_bounds(pts[k]) implies exists|c: &mut T| *c == start@[pts[k]] && *final(c) == self@[pts[k]] && #[trigger] call_ensures(f0, (pts[k], c), ()) by {
                            if k == i {
                                assert(pts[k] == p);
                            } else {
                                assert(self@[pts[k]] == before@[pts[k]]);
                                assert(exists|c: &mut T| *c == start@[pts[k]] && *final(c) == before@[pts[k]] && #[trigger] call_ensures(f0, (pts[k], c), ()));
                            }
                        }
                    }
                    i = i + 1;
                },
                None => {
                    proof {
                        assert(pts.subrange(i as int, pts.len() as int).len() == 0);
                    }
                    break;
                },
            }
        }
        proof {
            assert forall|p: (i32, i32, i32)| start.in_bounds(p) implies exists|c: &mut T|
                *c == start@[p] && *final(c) == self@[p] && #[trigger] call_ensures(f0, (p, c), ()) by {
                assert(pts.contains(p));
                let k = choose|k: int| 0 <= k < pts.len() && pts[k] == p;
                assert(pts[k] == p);
            }
        }
    }
}

impl<T: Copy> Grid3D<T> {
    /// Get a copy of the grid value.
    pub fn get_copy(&self, coord: (i32, i32, i32)) -> (r: Option<T>)
        requires
            self.wf(),
        ensures
            r == (if self.in_bounds(coord) { Some(self@[coord]) } else { None::<T> }),
    {
        match self.get(coord) {
            Some(v) => Some(*v),
            None => None,
        }
    }
}

impl<T: Clone> Grid3D<T> {
    /// Get a clone of the grid value.
    pub fn get_clone(&self, coord: (i32, i32, i32)) -> (r: Option<T>)
        requires
            self.wf(),
        ensures
            r is Some <==> self.in_bounds(coord),
            r matches Some(v) ==> cloned::<T>(self@[coord], v),
    {
        match self.get(coord) {
            Some(v) => Some(v.clone()),
            None => None,
        }
    }
}

impl<T: Clone> Clone for Grid3D<T> {
    /// Clones every cell of the grid.
    fn clone(&self) -> (r: Self)
        ensures
            self.wf() ==> r.wf(),
            r.grid_size() == self.grid_size(),
            r.grid_offset() == self.grid_offset(),
            r@.dom() == self@.dom(),
            self.wf() ==> forall|p: (i32, i32, i32)| self@.contains_key(p) ==> cloned::<T>(self@[p], #[trigger] r@[p]),
    {
        let r = Grid3D { cells: self.cells.clone(), size: self.size, offset: self.offset };
        proof {
            assert(r@.dom() =~= self@.dom());
            if self.wf() {
                assert forall|p: (i32, i32, i32)| self@.contains_key(p) implies cloned::<T>(self@[p], #[trigger] r@[p]) by {
                    lemma_index3(self.size, self.offset, p, p);
                }
            }
        }
        r
    }
}

/// Iterator over all cells in a [Grid3D].
pub struct Grid3DIterator<'a, T> {
    grid: &'a Grid3D<T>,
    bounds_iter: Bounds3DIter,
}

impl<'a, T> Grid3DIterator<'a, T> {
    /// The grid being iterated.
    pub closed spec fn grid(self) -> &'a Grid3D<T> {
        self.grid
    }

    /// The iterator's internal invariant.
    pub closed spec fn wf(self) -> bool {
        &&& self.grid.wf()
        &&& self.bounds_iter.wf()
        &&& forall|i: int| 0 <= i < self.bounds_iter.remaining().len() ==> self.grid.in_bounds(#[trigger] self.bounds_iter.remaining()[i])
    }

    /// The positions still to be visited, in order.
    pub closed spec fn remaining(self) -> Seq<(i32, i32, i32)> {
        self.bounds_iter.remaining()
    }

    /// The number of cells still to be visited, as a lower and an upper bound.
    pub fn size_hint(&self) -> (r: (usize, Option<usize>))
        requires
            self.wf(),
            self.remaining().len() <= usize::MAX,
        ensures
            r == (self.remaining().len() as usize, Some(self.remaining().len() as usize)),
    {
        self.bounds_iter.size_hint()
    }

    /// Returns the next position and a reference to its value.
    pub fn next(&mut self) -> (r: Option<((i32, i32, i32), &'a T)>)
        requires
            old(self).wf(),
        ensures
            final(self).wf(),
            final(self).grid() == old(self).grid(),
            old(self).remaining().len() == 0 ==> r is None && final(self).remaining() == old(self).remaining(),
            old(self).remaining().len() > 0 ==> final(self).remaining() == old(self).remaining().drop_first(),
            old(self).remaining().len() > 0 ==> (r matches Some((p, v)) && p == old(self).remaining()[0] && *v == old(self).grid()@[p]),
    {
        let next = self.bounds_iter.next();
        match next {
            Some(p) => {
                proof {
                    assert(old(self).bounds_iter.remaining()[0] == p);
                    assert forall|i: int| 0 <= i < self.bounds_iter.remaining().len() implies self.grid.in_bounds(#[trigger] self.bounds_iter.remaining()[i]) by {
                        assert(self.bounds_iter.remaining()[i] == old(self).bounds_iter.remaining()[i + 1]);
                    }
                }
                match self.grid.get(p) {
                    Some(v) => Some((p, v)),
                    None => vstd::pervasive::unreached(),
                }
            },
            None => None,
        }
    }
}

} // verus!
