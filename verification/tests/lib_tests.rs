use rollgrid::bounds2d::Bounds2D;
use rollgrid::cell_manager;
use rollgrid::rollgrid2d::RollGrid2D;

fn print_char_grid(grid: &RollGrid2D<char>) {
    for y in grid.y_min()..grid.y_max() {
        let mut line = String::new();
        for x in grid.x_min()..grid.x_max() {
            if let Some(c) = grid.get((x, y)) {
                line.push_str(&format!("{}", *c));
            }
        }
        println!("{}", line);
    }
}

#[test]
fn roll_test() {
    const HEX_CHARS: [char; 16] = [
        '0', '1', '2', '3', '4', '5', '6', '7', '8', '9', 'A', 'B', 'C', 'D', 'E', 'F',
    ];
    let mut hex = HEX_CHARS.into_iter();
    let mut grid = RollGrid2D::new(4, 4, (0, 0), |_pos: (i32, i32)| hex.next().unwrap());
    print_char_grid(&grid);
    grid.translate((1, 1), |_old_pos, _new_pos, _old_value| {});
    print_char_grid(&grid);
}

fn intersects(a: ((i32, i32), (i32, i32)), b: ((i32, i32), (i32, i32))) -> bool {
    Bounds2D::from_bounds(a.0, a.1).intersects(Bounds2D::from_bounds(b.0, b.1))
}

#[test]
fn lib_bounds_test() {
    assert!(!intersects(((0, 0), (3, 3)), ((3, 0), (6, 3))));
    assert!(intersects(((0, 0), (1, 1)), ((0, 0), (1, 1))));
    assert!(intersects(((-1, -1), (0, 0)), ((-1, -1), (0, 0))));
    assert!(intersects(((0, 0), (3, 3)), ((1, 1), (2, 2))));
    assert!(intersects(((1, 1), (2, 2)), ((0, 0), (3, 3))));
    assert!(!intersects(((0, 0), (1, 1)), ((1, 0), (2, 1))));
    assert!(!intersects(((1, 0), (2, 1)), ((0, 0), (1, 1))));
    assert!(!intersects(((0, 0), (1, 1)), ((0, 1), (1, 2))));
    assert!(!intersects(((0, 1), (1, 2)), ((0, 0), (1, 1))));
}

fn print_coord_grid(grid: &RollGrid2D<(i32, i32)>) {
    println!("***");
    for y in grid.y_min()..grid.y_max() {
        let mut line = String::new();
        for x in grid.x_min()..grid.x_max() {
            if let Some(&(cx, cy)) = grid.get((x, y)) {
                line.push_str(&format!("({cx:3},{cy:3})"));
            }
        }
        println!("{}", line);
    }
}

#[test]
#[allow(unreachable_code)]
fn rollgrid2d_test() {
    let mut grid = RollGrid2D::new(2, 2, (0, 0), |coord: (i32, i32)| coord);
    print_coord_grid(&grid);
    grid.translate((1, 1), |old, _new, old_value| {
        *old_value = old;
    });
    print_coord_grid(&grid);
    return;
    grid.inflate_size(
        (1, 1),
        cell_manager(
            |pos: (i32, i32)| {
                println!("Load: ({}, {})", pos.0, pos.1);
                pos
            },
            |_pos, _value| {},
            |_old_pos, _new_pos, _value| {},
        ),
    );
    println!("***");
    print_coord_grid(&grid);
    if let Some(&(x, y)) = grid.get((-5, -16)) {
        println!("({x}, {y})");
    } else {
        println!("None");
    }
}
