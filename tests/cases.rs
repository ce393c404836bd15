use line_drawing::{
    bresenham, bresenham_3d, bresenham_3d_sorted, reverse_slice, reverse_vec_deque, supercover,
};
use std::collections::VecDeque;

#[test]
fn sorted_3d_scenario_is_mirrored() {
    let forward = bresenham_3d_sorted((0, 0, 0), (3, 1, 1));
    let backward = bresenham_3d_sorted((3, 1, 1), (0, 0, 0));
    assert_eq!(forward.len(), backward.len());
    assert_eq!(forward.front(), Some(&(0, 0, 0)));
    assert_eq!(backward.front(), Some(&(3, 1, 1)));
    assert_eq!(forward, reverse_vec_deque(backward));
    let expected: VecDeque<(i32, i32, i32)> =
        vec![(0, 0, 0), (1, 0, 0), (2, 1, 1), (3, 1, 1)].into_iter().collect();
    assert_eq!(forward, expected);
}

#[test]
fn sorted_3d_from_greater_endpoint() {
    let r: Vec<(i32, i32, i32)> = bresenham_3d_sorted((3, 1, 1), (0, 0, 0)).into_iter().collect();
    assert_eq!(r, vec![(3, 1, 1), (2, 1, 1), (1, 0, 0), (0, 0, 0)]);
}

#[test]
fn single_cell_for_every_algorithm() {
    assert_eq!(supercover((4, -7), (4, -7)), vec![(4, -7)]);
    assert_eq!(bresenham((4, -7), (4, -7)), vec![(4, -7)]);
    assert_eq!(bresenham_3d((1, 2, 3), (1, 2, 3)), vec![(1, 2, 3)]);
    let s: Vec<(i32, i32, i32)> = bresenham_3d_sorted((1, 2, 3), (1, 2, 3)).into_iter().collect();
    assert_eq!(s, vec![(1, 2, 3)]);
}

#[test]
fn bresenham_shallow_line() {
    assert_eq!(
        bresenham((0, 0), (5, 2)),
        vec![(0, 0), (1, 0), (2, 1), (3, 1), (4, 2), (5, 2)]
    );
}

#[test]
fn bresenham_negative_direction() {
    assert_eq!(bresenham((0, 0), (-3, -1)), vec![(0, 0), (-1, 0), (-2, -1), (-3, -1)]);
}

#[test]
fn bresenham_steep_line() {
    assert_eq!(bresenham((1, 1), (2, 4)), vec![(1, 1), (1, 2), (2, 3), (2, 4)]);
}

#[test]
fn bresenham_asymmetric_pair() {
    assert_eq!(bresenham((0, 0), (2, 1)), vec![(0, 0), (1, 1), (2, 1)]);
    assert_eq!(bresenham((2, 1), (0, 0)), vec![(2, 1), (1, 0), (0, 0)]);
    assert_ne!(bresenham((0, 0), (2, 1)), reverse_slice(&bresenham((2, 1), (0, 0))));
}

#[test]
fn bresenham_3d_asymmetric_pair() {
    assert_eq!(bresenham_3d((0, 0, 0), (2, 1, 0)), vec![(0, 0, 0), (1, 1, 0), (2, 1, 0)]);
    assert_ne!(
        bresenham_3d((0, 0, 0), (2, 1, 0)),
        reverse_slice(&bresenham_3d((2, 1, 0), (0, 0, 0)))
    );
}

#[test]
fn bresenham_3d_driven_by_z() {
    assert_eq!(
        bresenham_3d((0, 0, 0), (1, -2, 4)),
        vec![(0, 0, 0), (0, -1, 1), (1, -1, 2), (1, -2, 3), (1, -2, 4)]
    );
}

#[test]
fn supercover_corner_emits_both_side_cells() {
    assert_eq!(
        supercover((0, 0), (2, 2)),
        vec![(0, 0), (1, 0), (0, 1), (1, 1), (2, 1), (1, 2), (2, 2)]
    );
    assert_eq!(
        supercover((2, 2), (0, 0)),
        vec![(2, 2), (1, 2), (2, 1), (1, 1), (0, 1), (1, 0), (0, 0)]
    );
}

#[test]
fn supercover_corner_in_middle_of_steep_line() {
    assert_eq!(
        supercover((0, 0), (1, 3)),
        vec![(0, 0), (0, 1), (1, 1), (0, 2), (1, 2), (1, 3)]
    );
}

#[test]
fn supercover_shallow_line() {
    assert_eq!(supercover((0, 0), (2, 1)), vec![(0, 0), (1, 0), (1, 1), (2, 1)]);
    assert_eq!(supercover((2, 1), (0, 0)), vec![(2, 1), (1, 1), (1, 0), (0, 0)]);
}

#[test]
fn supercover_axis_aligned() {
    assert_eq!(supercover((3, 5), (3, 2)), vec![(3, 5), (3, 4), (3, 3), (3, 2)]);
    assert_eq!(supercover((-1, 0), (1, 0)), vec![(-1, 0), (0, 0), (1, 0)]);
}

#[test]
fn lines_at_the_edge_of_the_coordinate_range() {
    assert_eq!(
        supercover((i32::MAX - 1, i32::MIN), (i32::MAX, i32::MIN + 1)),
        vec![
            (i32::MAX - 1, i32::MIN),
            (i32::MAX, i32::MIN),
            (i32::MAX - 1, i32::MIN + 1),
            (i32::MAX, i32::MIN + 1)
        ]
    );
    assert_eq!(
        bresenham((i32::MAX, i32::MIN), (i32::MAX - 2, i32::MIN)),
        vec![(i32::MAX, i32::MIN), (i32::MAX - 1, i32::MIN), (i32::MAX - 2, i32::MIN)]
    );
    assert_eq!(
        bresenham_3d((i32::MIN, 0, i32::MAX), (i32::MIN + 1, 0, i32::MAX)),
        vec![(i32::MIN, 0, i32::MAX), (i32::MIN + 1, 0, i32::MAX)]
    );
}

#[test]
fn reverse_helpers() {
    let v = vec![(1, 2), (3, 4), (5, 6)];
    assert_eq!(reverse_slice(&v), vec![(5, 6), (3, 4), (1, 2)]);
    assert_eq!(reverse_slice(&reverse_slice(&v)), v);
    let empty: Vec<(i32, i32)> = Vec::new();
    assert_eq!(reverse_slice(&empty), empty);
    let d: VecDeque<i32> = vec![1, 2, 3].into_iter().collect();
    let r = reverse_vec_deque(d.clone());
    assert_eq!(r, vec![3, 2, 1].into_iter().collect::<VecDeque<i32>>());
    assert_eq!(reverse_vec_deque(r), d);
}
