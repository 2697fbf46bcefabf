use rollgrid::rollgrid2d::RollGrid2D;

#[test]
fn readme_reposition_changes_test() {
    let mut grid = RollGrid2D::new(4, 4, (0, 0), |pos: (i32, i32)| pos);
    let mut iterations = 0;
    let mut changes = vec![];
    grid.reposition((1, 2), |old, new, cell_mut| {
        iterations += 1;
        changes.push((old, new));
        *cell_mut = new;
    });
    assert_eq!(iterations, 10);
    assert_eq!(
        changes,
        vec![
            ((0, 2), (4, 2)),
            ((0, 3), (4, 3)),
            ((1, 0), (1, 4)),
            ((2, 0), (2, 4)),
            ((3, 0), (3, 4)),
            ((1, 1), (1, 5)),
            ((2, 1), (2, 5)),
            ((3, 1), (3, 5)),
            ((0, 0), (4, 4)),
            ((0, 1), (4, 5)),
        ]
    );
    for y in 2..6 {
        for x in 1..5 {
            assert_eq!(grid.get_copy((x, y)), Some((x, y)));
        }
    }
    assert_eq!(grid.get_copy((4, 5)), Some((4, 5)));
    assert_eq!(grid.get_copy((0, 0)), None);
}

#[test]
fn readme_translate_hex_test() {
    let hex = ['0', '1', '2', '3', '4', '5', '6', '7', '8', '9', 'A', 'B', 'C', 'D', 'E', 'F'];
    let mut next = 0usize;
    let mut grid = RollGrid2D::new(4, 4, (0, 0), |_pos: (i32, i32)| {
        let c = hex[next];
        next += 1;
        c
    });
    grid.translate((1, 1), |_old, _new, _value| {});
    let mut rows = vec![];
    for y in grid.y_min()..grid.y_max() {
        let mut line = String::new();
        for x in grid.x_min()..grid.x_max() {
            line.push(*grid.get((x, y)).unwrap());
        }
        rows.push(line);
    }
    assert_eq!(rows, vec!["5674", "9AB8", "DEFC", "1230"]);
}
