use rollgrid::fixedarray::FixedArray;
use rollgrid::grid2d::Grid2D;
use rollgrid::grid3d::Grid3D;

#[test]
fn fixedarray_layout_test() {
    let a = FixedArray::new_2d((2, 2), (5, 7), |p: (i32, i32)| p);
    assert_eq!(a.len(), 4);
    assert_eq!(a.into_vec(), vec![(5, 7), (6, 7), (5, 8), (6, 8)]);
    let b = FixedArray::new_3d((2, 1, 2), (0, 0, 0), |p: (i32, i32, i32)| p);
    assert_eq!(b.into_vec(), vec![(0, 0, 0), (1, 0, 0), (0, 0, 1), (1, 0, 1)]);
    let c = FixedArray::new_1d(3, -1, |x: i32| x * 10);
    assert_eq!(c.into_vec(), vec![-10, 0, 10]);
}

#[test]
fn fixedarray_try_new_test() {
    let ok: Result<FixedArray<i32>, String> = FixedArray::try_new_2d((2, 2), (0, 0), |p: (i32, i32)| Ok(p.0 + p.1));
    assert_eq!(ok.unwrap().into_vec(), vec![0, 1, 1, 2]);
    let err: Result<FixedArray<i32>, (i32, i32)> =
        FixedArray::try_new_2d((2, 2), (0, 0), |p: (i32, i32)| if p == (1, 0) { Err(p) } else { Ok(0) });
    assert_eq!(err.err(), Some((1, 0)));
    let err3: Result<FixedArray<i32>, (i32, i32, i32)> =
        FixedArray::try_new_3d((2, 2, 2), (0, 0, 0), |p: (i32, i32, i32)| if p.2 == 1 { Err(p) } else { Ok(0) });
    assert_eq!(err3.err(), Some((0, 0, 1)));
}

#[test]
fn fixedarray_access_test() {
    let mut a = FixedArray::new_1d(3, 0, |x: i32| x);
    assert_eq!(*a.get(1), 1);
    *a.get_mut(1) = 7;
    assert_eq!(a.replace(2, 9), 2);
    a.replace_with(0, |v| v - 4);
    assert_eq!(a.take(1), 7);
    let mut it = a.iter();
    assert_eq!(it.size_hint(), (3, Some(3)));
    assert_eq!(it.next(), Some(&-4));
    assert_eq!(it.next(), Some(&0));
    assert_eq!(it.next(), Some(&9));
    assert_eq!(it.next(), None);
    let mut owned = a.into_iter();
    assert_eq!(owned.next(), Some(-4));
    assert_eq!(owned.next(), Some(0));
    assert_eq!(owned.next(), Some(9));
    assert_eq!(owned.next(), None);
}

#[test]
fn grid2d_new_test() {
    let _grid = Grid2D::new((3, 2), (1, 1), |p: (i32, i32)| p.0 * p.1);
}

#[test]
fn grid3d_offset_index_test() {
    let grid = Grid3D::new((2, 3, 4), (10, 20, 30), |p: (i32, i32, i32)| p);
    assert_eq!(grid.offset_index((10, 20, 30)), Some(0));
    assert_eq!(grid.offset_index((11, 20, 30)), Some(1));
    assert_eq!(grid.offset_index((10, 20, 31)), Some(2));
    assert_eq!(grid.offset_index((10, 21, 30)), Some(8));
    assert_eq!(grid.offset_index((11, 22, 33)), Some(23));
    assert_eq!(grid.offset_index((12, 20, 30)), None);
    assert_eq!(grid.offset_index((10, 19, 30)), None);
    assert_eq!(grid.relative_offset((0, 0, 0)), (-10, -20, -30));
}

#[test]
fn grid3d_access_test() {
    let mut grid = Grid3D::new((2, 2, 2), (-1, -1, -1), |p: (i32, i32, i32)| p.0 + 10 * p.1 + 100 * p.2);
    for y in grid.y_min()..grid.y_max() {
        for z in grid.z_min()..grid.z_max() {
            for x in grid.x_min()..grid.x_max() {
                assert_eq!(grid.get_copy((x, y, z)), Some(x + 10 * y + 100 * z));
            }
        }
    }
    assert_eq!(grid.get((1, 0, 0)), None);
    assert_eq!(grid.set((0, 0, 0), 5), Some(0));
    assert_eq!(grid.set((5, 0, 0), 5), None);
    assert_eq!(grid.replace((0, 0, 0), 6), 5);
    grid.replace_with((0, 0, 0), |v| v * 2);
    assert_eq!(grid.get_clone((0, 0, 0)), Some(12));
    *grid.get_mut((-1, -1, -1)).unwrap() = 1;
    assert_eq!(grid.get_copy((-1, -1, -1)), Some(1));
    assert_eq!(grid.size(), (2, 2, 2));
    assert_eq!((grid.width(), grid.height(), grid.depth()), (2, 2, 2));
    assert_eq!(grid.offset(), (-1, -1, -1));
    assert_eq!((grid.x_max(), grid.y_max(), grid.z_max()), (1, 1, 1));
    assert_eq!(grid.len(), 8);
    assert_eq!(grid.bounds().min, (-1, -1, -1));
    assert_eq!(grid.bounds().max, (1, 1, 1));
    grid.iter_mut(|_, v| *v += 1);
    let mut it = grid.iter();
    let mut seen = vec![];
    while let Some((p, v)) = it.next() {
        seen.push((p, *v));
    }
    assert_eq!(seen.len(), 8);
    assert_eq!(seen[0], ((-1, -1, -1), 2));
    assert_eq!(seen[1], ((0, -1, -1), 0 + -10 + -100 + 1));
    assert_eq!(seen[7], ((0, 0, 0), 13));
}

#[test]
fn grid3d_index_matches_layout_test() {
    let grid = Grid3D::new((23, 32, 18), (-3, -1, -5), |p: (i32, i32, i32)| p);
    assert_eq!(grid.offset_index((0, 0, 0)), Some(532));
    let mut expected = 0usize;
    let mut it = grid.iter();
    while let Some((p, v)) = it.next() {
        assert_eq!(*v, p);
        assert_eq!(grid.offset_index(p), Some(expected));
        expected += 1;
    }
    assert_eq!(expected, 23 * 32 * 18);
}

#[test]
fn clone_test() {
    let a = FixedArray::new_1d(3, 0, |x: i32| vec![x]);
    let b = a.clone();
    assert_eq!(b.into_vec(), vec![vec![0], vec![1], vec![2]]);
    let g = Grid3D::new((1, 1, 2), (0, 0, 0), |p: (i32, i32, i32)| p.2);
    let h = g.clone();
    assert_eq!(h.get_copy((0, 0, 1)), Some(1));
}
