use rollgrid::rollgrid2d::RollGrid2D;
use rollgrid::rollgrid3d::RollGrid3D;
use rollgrid::{cell_manager, try_cell_manager, CellManage, TryCellManage};

fn coords_hold(grid: &RollGrid2D<(i32, i32)>) -> bool {
    for y in grid.y_min()..grid.y_max() {
        for x in grid.x_min()..grid.x_max() {
            if grid.get_copy((x, y)) != Some((x, y)) {
                return false;
            }
        }
    }
    true
}

#[test]
fn rollgrid2d_access_test() {
    let mut grid = RollGrid2D::new(3, 2, (-1, 4), |p: (i32, i32)| p);
    assert_eq!(grid.size(), (3, 2));
    assert_eq!((grid.width(), grid.height()), (3, 2));
    assert_eq!(grid.offset(), (-1, 4));
    assert_eq!((grid.x_min(), grid.x_max(), grid.y_min(), grid.y_max()), (-1, 2, 4, 6));
    assert_eq!(grid.len(), 6);
    assert_eq!(grid.relative_offset((0, 0)), (1, -4));
    assert_eq!(grid.bounds().max, (2, 6));
    assert_eq!(grid.set((0, 4), (9, 9)), Some((0, 4)));
    assert_eq!(grid.set((9, 9), (9, 9)), None);
    assert_eq!(grid.replace((0, 4), (1, 1)), (9, 9));
    grid.replace_with((0, 4), |(a, b)| (a + 1, b + 1));
    assert_eq!(grid.get_clone((0, 4)), Some((2, 2)));
    *grid.get_mut((1, 5)).unwrap() = (7, 7);
    assert_eq!(grid.get((1, 5)), Some(&(7, 7)));
    assert_eq!(grid.get_mut((5, 5)), None);
    let mut it = grid.iter();
    assert_eq!(it.size_hint(), (6, Some(6)));
    assert_eq!(it.next(), Some(((-1, 4), &(-1, 4))));
}

#[test]
fn rollgrid2d_translate_round_trip_test() {
    let mut grid = RollGrid2D::new(4, 3, (0, 0), |p: (i32, i32)| p);
    grid.translate((2, -1), |_old, new, v| *v = new);
    assert!(coords_hold(&grid));
    assert_eq!(grid.offset(), (2, -1));
    grid.translate((-2, 1), |_old, new, v| *v = new);
    assert!(coords_hold(&grid));
    assert_eq!(grid.offset(), (0, 0));
}

#[test]
fn rollgrid2d_inflate_deflate_test() {
    let mut grid = RollGrid2D::new(2, 2, (1, 1), |p: (i32, i32)| p);
    let mut loads = vec![];
    grid.inflate_size(
        (1, 1),
        cell_manager(
            |p: (i32, i32)| {
                loads.push(p);
                p
            },
            |_p, _v| {},
            |_o, _n, _v| {},
        ),
    );
    assert_eq!(grid.size(), (4, 4));
    assert_eq!(grid.offset(), (0, 0));
    assert_eq!(loads.len(), 12);
    assert_eq!(loads[0], (0, 0));
    assert!(coords_hold(&grid));
    let mut unloads = vec![];
    grid.deflate_size(
        (1, 1),
        cell_manager(|p: (i32, i32)| p, |p, v: (i32, i32)| unloads.push((p, v)), |_o, _n, _v| {}),
    );
    assert_eq!(grid.size(), (2, 2));
    assert_eq!(grid.offset(), (1, 1));
    assert_eq!(unloads.len(), 12);
    assert!(unloads.iter().all(|(p, v)| p == v));
    assert!(coords_hold(&grid));
    grid.resize(3, 1, cell_manager(|p: (i32, i32)| p, |_p, _v| {}, |_o, _n, _v| {}));
    assert_eq!(grid.size(), (3, 1));
    assert!(coords_hold(&grid));
}

#[test]
fn rollgrid2d_try_new_error_test() {
    let r: Result<RollGrid2D<i32>, String> =
        RollGrid2D::try_new(2, 2, (0, 0), |p: (i32, i32)| if p == (1, 1) { Err(String::from("bad")) } else { Ok(0) });
    assert_eq!(r.err(), Some(String::from("bad")));
    let ok: Result<RollGrid2D<i32>, String> = RollGrid2D::try_new(2, 2, (0, 0), |p: (i32, i32)| Ok(p.0));
    assert_eq!(ok.unwrap().get_copy((1, 0)), Some(1));
}

#[test]
fn rollgrid2d_try_reposition_error_test() {
    let mut grid = RollGrid2D::new(2, 2, (0, 0), |p: (i32, i32)| p);
    let r: Result<(), &str> = grid.try_reposition((1, 0), |_o, _n, _v| Err("stop"));
    assert_eq!(r, Err("stop"));
    assert_eq!(grid.offset(), (1, 0));
    assert_eq!(grid.get_copy((1, 0)), Some((1, 0)));
    // The cell that was not reloaded keeps the value of the cell it took over.
    assert_eq!(grid.get_copy((2, 0)), Some((0, 0)));
    let r: Result<(), &str> = grid.try_translate((0, 1), |_o, n, v| {
        *v = n;
        Ok(())
    });
    assert_eq!(r, Ok(()));
    assert_eq!(grid.offset(), (1, 1));
    assert_eq!(grid.get_copy((1, 2)), Some((1, 2)));
    assert_eq!(grid.get_copy((2, 2)), Some((2, 2)));
    assert_eq!(grid.get_copy((2, 1)), Some((0, 1)));
}

#[test]
fn rollgrid2d_try_reposition_stops_in_reload_order_test() {
    let mut grid = RollGrid2D::new(2, 2, (0, 0), |p: (i32, i32)| p);
    // Entering cells are reloaded column strip first, then row strip, then corner.
    let r: Result<(), &str> = grid.try_reposition((1, 1), |_o, n, v| {
        *v = n;
        if n == (1, 2) { Err("stop") } else { Ok(()) }
    });
    assert_eq!(r, Err("stop"));
    assert_eq!(grid.offset(), (1, 1));
    assert_eq!(grid.get_copy((1, 1)), Some((1, 1)));
    assert_eq!(grid.get_copy((2, 1)), Some((2, 1)));
    assert_eq!(grid.get_copy((1, 2)), Some((1, 2)));
    assert_eq!(grid.get_copy((2, 2)), Some((0, 0)));
}

#[test]
fn rollgrid2d_try_resize_error_test() {
    let mut grid = RollGrid2D::new(3, 3, (0, 0), |p: (i32, i32)| p);
    let r = grid.try_resize_and_reposition(
        2,
        2,
        (0, 0),
        try_cell_manager(|p: (i32, i32)| Ok(p), |_p, _v: (i32, i32)| Err(7), |_o, _n, _v| Ok(())),
    );
    assert_eq!(r, Err(7));
    assert_eq!(grid.size(), (3, 3));
    assert_eq!(grid.offset(), (0, 0));
    assert_eq!(grid.get_copy((0, 0)), Some((0, 0)));
    let mut grid = RollGrid2D::new(2, 2, (0, 0), |p: (i32, i32)| p);
    let r = grid.try_inflate_size((1, 1), try_cell_manager(|_p: (i32, i32)| Err(3), |_p, _v| Ok(()), |_o, _n, _v| Ok(())));
    assert_eq!(r, Err(3));
    assert_eq!(grid.size(), (2, 2));
    let r = grid.try_resize(3, 2, try_cell_manager(|p: (i32, i32)| Ok::<(i32, i32), i32>(p), |_p, _v| Ok(()), |_o, _n, _v| Ok(())));
    assert_eq!(r, Ok(()));
    assert_eq!(grid.size(), (3, 2));
    assert!(coords_hold(&grid));
}

#[test]
fn cell_manager_calls_test() {
    let mut m = cell_manager(|p: (i32, i32)| p.0 * 2, |_p: (i32, i32), _v: i32| {}, |_o: (i32, i32), n: (i32, i32), v: &mut i32| *v = n.1);
    assert_eq!(m.load((4, 0)), 8);
    let mut v = 0;
    m.reload((0, 0), (0, 5), &mut v);
    assert_eq!(v, 5);
    m.unload((1, 1), 3);
    let mut t = try_cell_manager(|p: (i32, i32)| if p.0 < 0 { Err("neg") } else { Ok(p.0) }, |_p, _v| Err("no"), |_o, _n, _v: &mut i32| Ok(()));
    assert_eq!(t.try_load((3, 0)), Ok(3));
    assert_eq!(t.try_load((-3, 0)), Err("neg"));
    assert_eq!(t.try_unload((0, 0), 1), Err("no"));
    let mut w = 0;
    assert_eq!(t.try_reload((0, 0), (1, 1), &mut w), Ok(()));
}

fn coords_hold3(grid: &RollGrid3D<(i32, i32, i32)>) -> bool {
    for y in grid.y_min()..grid.y_max() {
        for z in grid.z_min()..grid.z_max() {
            for x in grid.x_min()..grid.x_max() {
                if grid.get_copy((x, y, z)) != Some((x, y, z)) {
                    return false;
                }
            }
        }
    }
    true
}

#[test]
fn rollgrid3d_resize_test() {
    let mut grid = RollGrid3D::new_default(2, 2, 2, (0, 0, 0));
    assert_eq!(grid.get_copy((1, 1, 1)), Some((0, 0, 0)));
    grid.iter_mut(|p, v| *v = p);
    assert!(coords_hold3(&grid));
    grid.inflate_size((1, 0, 2), cell_manager(|p: (i32, i32, i32)| p, |_p, _v| {}, |_o, _n, _v| {}));
    assert_eq!(grid.size(), (4, 2, 6));
    assert_eq!(grid.offset(), (-1, 0, -2));
    assert_eq!(grid.len(), 48);
    assert!(coords_hold3(&grid));
    let mut unloaded = 0;
    grid.deflate_size((1, 0, 2), cell_manager(|p: (i32, i32, i32)| p, |_p, _v| unloaded += 1, |_o, _n, _v| {}));
    assert_eq!(unloaded, 40);
    assert_eq!(grid.size(), (2, 2, 2));
    assert!(coords_hold3(&grid));
    grid.resize(3, 3, 3, cell_manager(|p: (i32, i32, i32)| p, |_p, _v| {}, |_o, _n, _v| {}));
    assert_eq!((grid.width(), grid.height(), grid.depth()), (3, 3, 3));
    assert_eq!((grid.x_max(), grid.y_max(), grid.z_max()), (3, 3, 3));
    assert_eq!(grid.z_min(), 0);
    assert!(coords_hold3(&grid));
    assert_eq!(grid.relative_offset((5, 5, 5)), (5, 5, 5));
}

#[test]
fn rollgrid3d_try_ops_test() {
    let r: Result<RollGrid3D<u8>, u8> = RollGrid3D::try_new(2, 2, 2, (0, 0, 0), |p: (i32, i32, i32)| if p.1 == 1 { Err(1) } else { Ok(0) });
    assert_eq!(r.err(), Some(1));
    let mut grid = RollGrid3D::new(2, 2, 2, (0, 0, 0), |p: (i32, i32, i32)| p);
    let r = grid.try_resize_and_reposition(
        3,
        2,
        2,
        (0, 0, 0),
        try_cell_manager(|_p: (i32, i32, i32)| Err("load"), |_p, _v| Ok(()), |_o, _n, _v| Ok(())),
    );
    assert_eq!(r, Err("load"));
    assert_eq!(grid.size(), (2, 2, 2));
    let r: Result<(), &str> = grid.try_translate((1, 1, 1), |_o, n, v| {
        *v = n;
        Ok(())
    });
    assert_eq!(r, Ok(()));
    assert_eq!(grid.offset(), (1, 1, 1));
    let r = grid.try_deflate_size((0, 0, 0), try_cell_manager(|p: (i32, i32, i32)| Ok::<(i32, i32, i32), &str>(p), |_p, _v| Ok(()), |_o, _n, _v| Ok(())));
    assert_eq!(r, Ok(()));
    let r = grid.try_inflate_size((1, 1, 1), try_cell_manager(|p: (i32, i32, i32)| Ok::<(i32, i32, i32), &str>(p), |_p, _v| Ok(()), |_o, _n, _v| Ok(())));
    assert_eq!(r, Ok(()));
    let r = grid.try_resize(2, 2, 2, try_cell_manager(|p: (i32, i32, i32)| Ok::<(i32, i32, i32), &str>(p), |_p, _v| Ok(()), |_o, _n, _v| Ok(())));
    assert_eq!(r, Ok(()));
    assert_eq!(grid.size(), (2, 2, 2));
    let mut it = grid.iter();
    assert_eq!(it.size_hint(), (8, Some(8)));
    while let Some((p, v)) = it.next() {
        assert_eq!(p, *v);
    }
    *grid.get_mut((0, 0, 0)).unwrap() = (9, 9, 9);
    assert_eq!(grid.set((0, 0, 0), (0, 0, 0)), Some((9, 9, 9)));
    assert_eq!(grid.replace((0, 0, 0), (1, 1, 1)), (0, 0, 0));
    grid.replace_with((0, 0, 0), |_| (0, 0, 0));
    assert_eq!(grid.get_clone((0, 0, 0)), Some((0, 0, 0)));
    assert_eq!(grid.bounds().min, (0, 0, 0));
}

#[test]
fn rollgrid_clone_test() {
    let mut grid = RollGrid2D::new(2, 2, (0, 0), |p: (i32, i32)| p);
    grid.translate((1, 0), |_o, n, v| *v = n);
    let copy = grid.clone();
    assert!(coords_hold(&copy));
    assert_eq!(copy.offset(), (1, 0));
    let grid3 = RollGrid3D::new(1, 2, 1, (0, 0, 0), |p: (i32, i32, i32)| p);
    let copy3 = grid3.clone();
    assert!(coords_hold3(&copy3));
}

#[test]
fn inflate_deflate_doc_example_test() {
    let mut grid = RollGrid3D::new(2, 2, 2, (1, 1, 1), |p: (i32, i32, i32)| p);
    grid.inflate_size((1, 1, 1), cell_manager(|p: (i32, i32, i32)| p, |_p, _v| {}, |_o, _n, _v| {}));
    assert_eq!(grid.size(), (4, 4, 4));
    assert_eq!(grid.offset(), (0, 0, 0));
    assert!(coords_hold3(&grid));
    grid.deflate_size((1, 1, 1), cell_manager(|p: (i32, i32, i32)| p, |_p, _v| {}, |_o, _n, _v| {}));
    assert_eq!(grid.size(), (2, 2, 2));
    assert_eq!(grid.offset(), (1, 1, 1));
    assert!(coords_hold3(&grid));
}

/// A manager written by hand, without the `cell_manager` helper.
struct PositionManager {
    unloaded: usize,
}

impl CellManage<(i32, i32), (i32, i32)> for PositionManager {
    fn load(&mut self, position: (i32, i32)) -> (i32, i32) {
        position
    }

    fn unload(&mut self, _position: (i32, i32), _old_value: (i32, i32)) {
        self.unloaded += 1;
    }

    fn reload(&mut self, _old_position: (i32, i32), new_position: (i32, i32), value: &mut (i32, i32)) {
        *value = new_position;
    }
}

#[test]
fn custom_manager_test() {
    let mut grid = RollGrid2D::new(2, 2, (0, 0), |p: (i32, i32)| p);
    grid.inflate_size((1, 1), PositionManager { unloaded: 0 });
    assert_eq!(grid.size(), (4, 4));
    assert_eq!(grid.get_copy((-1, -1)), Some((-1, -1)));
    assert_eq!(grid.get_copy((2, 2)), Some((2, 2)));
    grid.resize_and_reposition(4, 4, (1, 1), PositionManager { unloaded: 0 });
    for y in 1..5 {
        for x in 1..5 {
            assert_eq!(grid.get_copy((x, y)), Some((x, y)));
        }
    }
}

#[test]
fn rollgrid2d_try_resize_stops_at_failed_unload_test() {
    let log = std::cell::RefCell::new(Vec::new());
    let mut grid = RollGrid2D::new(3, 3, (0, 0), |p: (i32, i32)| p);
    let r = grid.try_resize_and_reposition(
        2,
        2,
        (0, 0),
        try_cell_manager(
            |p: (i32, i32)| {
                log.borrow_mut().push(("load", p));
                Ok(p)
            },
            |p, _v: (i32, i32)| {
                log.borrow_mut().push(("unload", p));
                if log.borrow().len() == 2 { Err(p) } else { Ok(()) }
            },
            |o, _n, _v| {
                log.borrow_mut().push(("reload", o));
                Ok(())
            },
        ),
    );
    let log = log.into_inner();
    assert_eq!(log.len(), 2);
    assert!(log.iter().all(|c| c.0 == "unload"));
    assert_eq!(r, Err(log[1].1));
    assert_eq!(grid.size(), (3, 3));
    assert_eq!(grid.offset(), (0, 0));
    for y in 0..3 {
        for x in 0..3 {
            let gone = log.iter().any(|c| c.1 == (x, y));
            assert_eq!(grid.get_copy((x, y)), if gone { None } else { Some((x, y)) });
        }
    }
}

#[test]
fn rollgrid2d_try_inflate_stops_at_failed_load_test() {
    let log = std::cell::RefCell::new(Vec::new());
    let mut grid = RollGrid2D::new(2, 2, (0, 0), |p: (i32, i32)| p);
    let r = grid.try_inflate_size(
        (1, 1),
        try_cell_manager(
            |p: (i32, i32)| {
                log.borrow_mut().push(("load", p));
                if log.borrow().len() == 3 { Err("load") } else { Ok(p) }
            },
            |p, _v: (i32, i32)| {
                log.borrow_mut().push(("unload", p));
                Ok(())
            },
            |o, _n, _v| {
                log.borrow_mut().push(("reload", o));
                Ok(())
            },
        ),
    );
    let log = log.into_inner();
    assert_eq!(r, Err("load"));
    assert_eq!(log, vec![("load", (-1, -1)), ("load", (0, -1)), ("load", (1, -1))]);
    assert_eq!(grid.size(), (2, 2));
    assert_eq!(grid.offset(), (0, 0));
    for p in [(0, 0), (1, 0), (0, 1), (1, 1)] {
        assert_eq!(grid.get_copy(p), Some(p));
    }
    let r = grid.try_resize(3, 2, try_cell_manager(|_p: (i32, i32)| Err("load"), |_p, _v| Ok(()), |_o, _n, _v| Ok(())));
    assert_eq!(r, Err("load"));
    assert_eq!(grid.size(), (2, 2));
    assert_eq!(grid.get_copy((0, 0)), None);
    assert_eq!(grid.get_copy((1, 0)), None);
    assert_eq!(grid.get_copy((0, 1)), Some((0, 1)));
    assert_eq!(grid.get_copy((1, 1)), Some((1, 1)));
}

#[test]
fn rollgrid2d_try_move_stops_at_failed_reload_test() {
    let log = std::cell::RefCell::new(Vec::new());
    let mut grid = RollGrid2D::new(3, 3, (0, 0), |p: (i32, i32)| p);
    let r = grid.try_resize_and_reposition(
        3,
        3,
        (1, 0),
        try_cell_manager(
            |p: (i32, i32)| {
                log.borrow_mut().push(p);
                Ok(p)
            },
            |p, _v: (i32, i32)| {
                log.borrow_mut().push(p);
                Ok(())
            },
            |_o, n, v: &mut (i32, i32)| {
                log.borrow_mut().push(n);
                if log.borrow().len() == 2 {
                    Err(n)
                } else {
                    *v = n;
                    Ok(())
                }
            },
        ),
    );
    let log = log.into_inner();
    assert_eq!(log.len(), 2);
    assert_eq!(r, Err(log[1]));
    assert_eq!(grid.size(), (3, 3));
    assert_eq!(grid.offset(), (1, 0));
    assert_eq!(grid.get_copy(log[0]), Some(log[0]));
    for y in 0..3 {
        assert_eq!(grid.get_copy((1, y)), Some((1, y)));
        assert_eq!(grid.get_copy((2, y)), Some((2, y)));
        if (3, y) != log[0] {
            assert_eq!(grid.get_copy((3, y)), Some((0, y)));
        }
    }
}

#[test]
fn rollgrid3d_try_resize_stops_at_failed_load_test() {
    let log = std::cell::RefCell::new(Vec::new());
    let mut grid = RollGrid3D::new(2, 2, 2, (0, 0, 0), |p: (i32, i32, i32)| p);
    let r = grid.try_resize_and_reposition(
        2,
        2,
        2,
        (1, 0, 0),
        try_cell_manager(
            |p: (i32, i32, i32)| {
                log.borrow_mut().push(("load", p));
                Ok(p)
            },
            |p, _v: (i32, i32, i32)| {
                log.borrow_mut().push(("unload", p));
                Ok(())
            },
            |_o, n, v: &mut (i32, i32, i32)| {
                log.borrow_mut().push(("reload", n));
                if log.borrow().len() == 3 {
                    Err(n)
                } else {
                    *v = n;
                    Ok(())
                }
            },
        ),
    );
    let log = log.into_inner();
    assert_eq!(log.len(), 3);
    assert!(log.iter().all(|c| c.0 == "reload"));
    assert_eq!(r, Err(log[2].1));
    assert_eq!(grid.offset(), (1, 0, 0));
    assert_eq!(grid.get_copy(log[0].1), Some(log[0].1));
    assert_eq!(grid.get_copy(log[1].1), Some(log[1].1));
    assert_eq!(grid.get_copy(log[2].1), Some((0, log[2].1 .1, log[2].1 .2)));
    let mut shrink_log = Vec::new();
    let mut grid = RollGrid3D::new(2, 2, 2, (0, 0, 0), |p: (i32, i32, i32)| p);
    let r = grid.try_resize(
        1,
        1,
        2,
        try_cell_manager(
            |_p: (i32, i32, i32)| Err("load"),
            |p, _v: (i32, i32, i32)| {
                shrink_log.push(p);
                if shrink_log.len() == 3 { Err("unload") } else { Ok(()) }
            },
            |_o, _n, _v| Ok(()),
        ),
    );
    assert_eq!(r, Err("unload"));
    assert_eq!(shrink_log.len(), 3);
    assert_eq!(grid.size(), (2, 2, 2));
    for p in shrink_log {
        assert_eq!(grid.get_copy(p), None);
    }
    assert_eq!(grid.get_copy((0, 0, 0)), Some((0, 0, 0)));
}
