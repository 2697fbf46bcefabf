use rollgrid::bounds2d::Bounds2D;
use rollgrid::bounds3d::Bounds3D;
use rollgrid::math::{add_u32_to_i32, checked_add_u32_to_i32, i32_to_u32, u32_to_i32};
use rollgrid::math::{AddCoord, Convert, DivCoord, MulCoord, RemCoord, SubCoord};

#[test]
fn bounds2d_contains_test() {
    let b = Bounds2D::new((0, 10), (5, 20));
    assert!(b.contains((0, 10)));
    assert!(b.contains((4, 19)));
    assert!(!b.contains((4, 9)));
    assert!(!b.contains((5, 10)));
    assert!(!b.contains((0, 20)));
    // y below the minimum but above the minimum x.
    assert!(!b.contains((3, 5)));
}

#[test]
fn bounds2d_measure_test() {
    let b = Bounds2D::from_bounds((3, -2), (-1, 4));
    assert_eq!(b.min, (-1, -2));
    assert_eq!(b.max, (3, 4));
    assert_eq!(b.width(), 4);
    assert_eq!(b.height(), 6);
    assert_eq!(b.area(), 24);
    assert_eq!((b.x_min(), b.y_min(), b.x_max(), b.y_max()), (-1, -2, 3, 4));
    let wide = Bounds2D::new((i32::MIN, 0), (i32::MAX, 2));
    assert_eq!(wide.area(), 4294967295i64 * 2);
}

#[test]
fn bounds2d_iter_test() {
    let b = Bounds2D::new((1, 1), (3, 3));
    let mut it = b.iter();
    assert_eq!(it.size_hint(), (4, Some(4)));
    let mut points = vec![];
    while let Some(p) = it.next() {
        points.push(p);
    }
    assert_eq!(points, vec![(1, 1), (2, 1), (1, 2), (2, 2)]);
    assert_eq!(it.size_hint(), (0, Some(0)));
    assert_eq!(it.next(), None);
    let mut empty = Bounds2D::new((0, 0), (0, 5)).iter();
    assert_eq!(empty.next(), None);
}

#[test]
fn bounds3d_test() {
    let b = Bounds3D::from_bounds((2, 0, 1), (0, 3, 0));
    assert_eq!(b.min, (0, 0, 0));
    assert_eq!(b.max, (2, 3, 1));
    assert_eq!((b.width(), b.height(), b.depth()), (2, 3, 1));
    assert_eq!(b.volume(), 6);
    assert!(b.contains((1, 2, 0)));
    assert!(!b.contains((1, 2, 1)));
    assert!(b.intersects(Bounds3D::new((1, 1, 0), (5, 5, 5))));
    assert!(!b.intersects(Bounds3D::new((2, 0, 0), (5, 5, 5))));
    let mut it = Bounds3D::new((0, 0, 0), (2, 2, 2)).iter();
    assert_eq!(it.size_hint(), (8, Some(8)));
    let mut points = vec![];
    while let Some(p) = it.next() {
        points.push(p);
    }
    assert_eq!(
        points,
        vec![(0, 0, 0), (1, 0, 0), (0, 0, 1), (1, 0, 1), (0, 1, 0), (1, 1, 0), (0, 1, 1), (1, 1, 1)]
    );
    let max_bounds = Bounds3D::new((i32::MIN, i32::MIN, i32::MIN), (i32::MAX, i32::MAX, i32::MAX));
    assert_eq!(max_bounds.volume(), 4294967295i128 * 4294967295i128 * 4294967295i128);
}

#[test]
fn math_conversion_test() {
    assert_eq!(i32_to_u32(i32::MIN), 0);
    assert_eq!(i32_to_u32(0), 0x8000_0000);
    assert_eq!(i32_to_u32(i32::MAX), u32::MAX);
    assert_eq!(u32_to_i32(0), i32::MIN);
    assert_eq!(u32_to_i32(u32::MAX), i32::MAX);
    for v in [-7, 0, 1, i32::MIN, i32::MAX] {
        assert_eq!(u32_to_i32(i32_to_u32(v)), v);
    }
    assert!(i32_to_u32(-3) < i32_to_u32(2));
}

#[test]
fn math_add_test() {
    assert_eq!(add_u32_to_i32(-5, 10), 5);
    assert_eq!(add_u32_to_i32(i32::MIN, u32::MAX), i32::MAX);
    assert_eq!(checked_add_u32_to_i32(i32::MAX, 1), None);
    assert_eq!(checked_add_u32_to_i32(-1, 1), Some(0));
    assert_eq!(checked_add_u32_to_i32(i32::MIN, u32::MAX), Some(i32::MAX));
}

#[test]
fn coord_ops_test() {
    assert_eq!((1, 2).add_coord((3, -4)), (4, -2));
    assert_eq!((1, 2, 3).sub_coord((3, 2, 1)), (-2, 0, 2));
    assert_eq!((2, -3).mul_coord(4), (8, -12));
    assert_eq!((7, -7).div_coord((-2, 2)), (-3, -3));
    assert_eq!((7, -7).rem_coord((-2, 2)), (1, -1));
    assert_eq!((7, -7, 9).div_coord(2), (3, -3, 4));
    assert_eq!((7, -7, 9).rem_coord(4), (3, -3, 1));
    assert_eq!((1, 1, 1).add_coord(-1), (0, 0, 0));
}

#[test]
fn convert_test() {
    let a: (i64, i64) = (i32::MIN, i32::MAX).convert();
    assert_eq!(a, (i32::MIN as i64, i32::MAX as i64));
    let b: (usize, usize, usize) = (1u32, 2u32, u32::MAX).convert();
    assert_eq!(b, (1, 2, u32::MAX as usize));
    let c: (i64, i64, i64) = (u32::MAX, 0u32, 5u32).convert();
    assert_eq!(c, (u32::MAX as i64, 0, 5));
}
