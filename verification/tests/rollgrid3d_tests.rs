use rollgrid::bounds3d::Bounds3D;
use rollgrid::cell_manager;
use rollgrid::rollgrid3d::RollGrid3D;

#[test]
fn iter_test() {
    let mut grid = RollGrid3D::new(2, 2, 2, (0, 0, 0), |pos: (i32, i32, i32)| pos);
    let mut it = grid.iter();
    while let Some((pos, cell)) = it.next() {
        assert_eq!(pos, *cell);
    }
    grid.iter_mut(|_, cell| {
        cell.0 += 1;
        cell.1 += 1;
        cell.2 += 1;
    });
    let mut it = grid.iter();
    while let Some((pos, cell)) = it.next() {
        let pos = (pos.0 + 1, pos.1 + 1, pos.2 + 1);
        assert_eq!(*cell, pos);
    }
}

fn verify_coord_grid(grid: &RollGrid3D<(i32, i32, i32)>) {
    for y in grid.y_min()..grid.y_max() {
        for z in grid.z_min()..grid.z_max() {
            for x in grid.x_min()..grid.x_max() {
                let pos = (x, y, z);
                let cell = grid.get(pos).unwrap();
                assert_eq!(pos, *cell);
            }
        }
    }
}

fn reload(old: (i32, i32, i32), new: (i32, i32, i32), cell: &mut (i32, i32, i32)) {
    assert_eq!(old, *cell);
    *cell = new;
}

#[test]
fn reposition_test() {
    let mut grid = RollGrid3D::new(4, 4, 4, (0, 0, 0), |pos| pos);
    verify_coord_grid(&grid);
    for y in -10..11 {
        for z in -10..11 {
            for x in -10..11 {
                grid.translate((x, y, z), reload);
                verify_coord_grid(&grid);
            }
        }
    }
}

struct DropCoord {
    coord: (i32, i32, i32),
    unloaded: bool,
}

impl From<(i32, i32, i32)> for DropCoord {
    fn from(value: (i32, i32, i32)) -> Self {
        Self { coord: value, unloaded: false }
    }
}

impl Drop for DropCoord {
    fn drop(&mut self) {
        assert!(self.unloaded);
    }
}

fn verify_drop_grid(grid: &RollGrid3D<DropCoord>) {
    for y in grid.y_min()..grid.y_max() {
        for z in grid.z_min()..grid.z_max() {
            for x in grid.x_min()..grid.x_max() {
                let pos = (x, y, z);
                let cell = grid.get(pos).expect("Cell was None");
                assert_eq!(pos, cell.coord);
            }
        }
    }
}

#[test]
fn rollgrid3d_resize_and_reposition_test() {
    for height in 1..7 {
        for depth in 1..7 {
            for width in 1..7 {
                for y in -1..6 {
                    for z in -1..6 {
                        for x in -1..6 {
                            let mut grid = RollGrid3D::new(4, 4, 4, (0, 0, 0), |pos: (i32, i32, i32)| DropCoord::from(pos));
                            // reposition to half point to ensure wrapping doesn't cause lookup invalidation.
                            grid.reposition((2, 2, 2), |old_pos, new_pos, cell| {
                                assert_eq!(old_pos, cell.coord);
                                cell.coord = new_pos;
                            });
                            grid.resize_and_reposition(
                                width,
                                height,
                                depth,
                                (x, y, z),
                                cell_manager(
                                    // Load
                                    |pos| DropCoord::from(pos),
                                    // Unload
                                    |pos, mut old_value: DropCoord| {
                                        assert_eq!(pos, old_value.coord);
                                        old_value.unloaded = true;
                                    },
                                    // Reload
                                    |old_pos, new_pos, cell: &mut DropCoord| {
                                        cell.unloaded = true;
                                        assert_eq!(old_pos, cell.coord);
                                        let mut old = std::mem::replace(cell, DropCoord::from(new_pos));
                                        old.unloaded = true;
                                    },
                                ),
                            );
                            grid.iter_mut(|_, cell| {
                                cell.unloaded = true;
                            });
                            verify_drop_grid(&grid);
                        }
                    }
                }
            }
        }
    }
}

struct OffsetFix {
    /// the old grid offset that we can use to
    /// create a relational offset
    offset: (i32, i32, i32),
    size: (i32, i32, i32),
}

impl OffsetFix {
    fn wrap(&self, pos: (i32, i32, i32)) -> (i32, i32, i32) {
        let x = (pos.0 - self.offset.0).rem_euclid(self.size.0) + self.offset.0;
        let y = (pos.1 - self.offset.1).rem_euclid(self.size.1) + self.offset.1;
        let z = (pos.2 - self.offset.2).rem_euclid(self.size.2) + self.offset.2;
        (x, y, z)
    }
}

#[test]
fn offsetfix_test() {
    let fix = OffsetFix { offset: (5, 5, 5), size: (4, 4, 4) };
    let (x, y, z) = fix.wrap((9, 9, 9));
    println!("({x}, {y}, {z})");
}

struct IndexGrid {
    offset: (i32, i32, i32),
    size: (i32, i32, i32),
}

impl IndexGrid {
    fn offset_index(&self, x: i32, y: i32, z: i32) -> Option<usize> {
        if x < self.offset.0
            || y < self.offset.1
            || z < self.offset.2
            || x > self.offset.0 + self.size.0
            || y > self.offset.1 + self.size.1
            || z > self.offset.2 + self.size.2
        {
            return None;
        }
        let x = x - self.offset.0;
        let y = y - self.offset.1;
        let z = z - self.offset.2;
        let wd = self.size.0 * self.size.2;
        Some((y * wd + z * self.size.0 + x) as usize)
    }

    fn index_offset(&self, index: usize) -> Option<(i32, i32, i32)> {
        let volume = (self.size.0 * self.size.1 * self.size.2) as usize;
        if index >= volume {
            return None;
        }
        let index = index as i32;
        let wd = self.size.0 * self.size.2;
        let y = index / wd;
        let xz_rem = index.rem_euclid(wd);
        let z = xz_rem / self.size.0;
        let x = xz_rem.rem_euclid(self.size.0);
        Some((x + self.offset.0, y + self.offset.1, z + self.offset.2))
    }
}

#[test]
fn offset_index_test() {
    let grid = IndexGrid { offset: (-3, -1, -5), size: (23, 32, 18) };
    let index = grid.offset_index(0, 0, 0).expect("Out of bounds");
    assert_eq!(index, 532);
    let (x, y, z) = grid.index_offset(index).expect("Out of bounds");
    assert_eq!((x, y, z), (0, 0, 0));
    for y in grid.offset.1..grid.offset.1 + grid.size.1 {
        for z in grid.offset.2..grid.offset.2 + grid.size.2 {
            for x in grid.offset.0..grid.offset.0 + grid.size.0 {
                let index = grid.offset_index(x, y, z).expect("Out of bounds");
                let (rx, ry, rz) = grid.index_offset(index).expect("Out of bounds");
                assert_eq!((rx, ry, rz), (x, y, z));
            }
        }
    }
}

#[test]
fn rollgrid3d_bounds_test() {
    let max_bounds = Bounds3D::new((i32::MIN, i32::MIN, i32::MIN), (i32::MAX, i32::MAX, i32::MAX));
    println!("{}", max_bounds.volume());
}
