use rollgrid::rollgrid2d::{reposition_plan2, unload_plan2};
use rollgrid::rollgrid3d::{reposition_plan3, unload_plan3};

#[test]
fn reposition_plan2_far_move_test() {
    let plan = reposition_plan2((2, 2), (0, 0), (10, 10));
    assert_eq!(
        plan,
        vec![((0, 0), (10, 10)), ((1, 0), (11, 10)), ((0, 1), (10, 11)), ((1, 1), (11, 11))]
    );
}

#[test]
fn reposition_plan2_negative_roll_test() {
    let plan = reposition_plan2((3, 3), (0, 0), (-1, 0));
    assert_eq!(plan, vec![((2, 0), (-1, 0)), ((2, 1), (-1, 1)), ((2, 2), (-1, 2))]);
}

#[test]
fn reposition_plan2_half_roll_test() {
    let plan = reposition_plan2((4, 4), (0, 0), (2, 2));
    assert_eq!(plan.len(), 12);
    assert_eq!(plan[0], ((0, 2), (4, 2)));
    assert_eq!(plan[11], ((1, 1), (5, 5)));
}

#[test]
fn unload_plan2_shrink_test() {
    let plan = unload_plan2((4, 4), (0, 0), (2, 2), (1, 1));
    assert_eq!(
        plan,
        vec![
            (0, 1), (0, 2), (0, 3),
            (0, 0), (1, 0), (2, 0),
            (3, 0), (3, 1), (3, 2),
            (1, 3), (2, 3), (3, 3),
        ]
    );
}

#[test]
fn unload_plan2_disjoint_test() {
    let plan = unload_plan2((2, 2), (0, 0), (3, 3), (5, 5));
    assert_eq!(plan, vec![(0, 0), (1, 0), (0, 1), (1, 1)]);
}

#[test]
fn reposition_plan3_x_step_test() {
    let plan = reposition_plan3((4, 4, 4), (0, 0, 0), (1, 0, 0));
    assert_eq!(plan.len(), 16);
    assert_eq!(plan[0], ((0, 0, 0), (4, 0, 0)));
    assert_eq!(plan[1], ((0, 0, 1), (4, 0, 1)));
    assert_eq!(plan[4], ((0, 1, 0), (4, 1, 0)));
    assert_eq!(plan[15], ((0, 3, 3), (4, 3, 3)));
}

#[test]
fn reposition_plan3_diagonal_test() {
    let plan = reposition_plan3((2, 2, 2), (0, 0, 0), (1, 1, 1));
    assert_eq!(
        plan,
        vec![
            ((0, 1, 1), (2, 1, 1)),
            ((0, 1, 0), (2, 1, 2)),
            ((0, 0, 1), (2, 2, 1)),
            ((0, 0, 0), (2, 2, 2)),
            ((1, 1, 0), (1, 1, 2)),
            ((1, 0, 0), (1, 2, 2)),
            ((1, 0, 1), (1, 2, 1)),
        ]
    );
}

#[test]
fn reposition_plan3_far_move_test() {
    let plan = reposition_plan3((1, 2, 1), (0, 0, 0), (5, 0, 0));
    assert_eq!(plan, vec![((0, 0, 0), (5, 0, 0)), ((0, 1, 0), (5, 1, 0))]);
}

#[test]
fn unload_plan3_shrink_test() {
    let plan = unload_plan3((3, 3, 3), (0, 0, 0), (1, 1, 1), (1, 1, 1));
    assert_eq!(plan.len(), 26);
    let mut expected = vec![];
    for z in 0..3 {
        for x in 0..3 {
            expected.push((x, 2, z));
        }
    }
    for z in 0..3 {
        for x in 0..3 {
            expected.push((x, 0, z));
        }
    }
    for x in 0..3 {
        expected.push((x, 1, 2));
    }
    for x in 0..3 {
        expected.push((x, 1, 0));
    }
    expected.push((2, 1, 1));
    expected.push((0, 1, 1));
    assert_eq!(plan, expected);
}

#[test]
fn unload_plan3_disjoint_test() {
    let plan = unload_plan3((2, 1, 2), (0, 0, 0), (1, 1, 1), (9, 9, 9));
    assert_eq!(plan, vec![(0, 0, 0), (1, 0, 0), (0, 0, 1), (1, 0, 1)]);
}
