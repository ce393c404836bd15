use line_drawing::{
    bresenham, bresenham_3d, bresenham_3d_sorted, reverse_slice, reverse_vec_deque, supercover,
    Point, Voxel,
};
use rand::Rng;

const NUM_TESTS: u16 = 10000;
const RANGE: i32 = 500;

fn random_point(rng: &mut rand::rngs::ThreadRng, range: i32) -> Point<i32> {
    (rng.gen_range(-range..range), rng.gen_range(-range..range))
}

fn random_voxel(rng: &mut rand::rngs::ThreadRng, range: i32) -> Voxel<i32> {
    (
        rng.gen_range(-range..range),
        rng.gen_range(-range..range),
        rng.gen_range(-range..range),
    )
}

#[test]
fn supercover_symmetrical() {
    let mut rng = rand::thread_rng();

    for _ in 0..NUM_TESTS {
        let start = random_point(&mut rng, RANGE);
        let end = random_point(&mut rng, RANGE);

        assert_eq!(supercover(start, end), reverse_slice(&supercover(end, start)));
    }
}

#[test]
#[should_panic]
fn bresenham_not_symmetrical() {
    let mut rng = rand::thread_rng();

    for _ in 0..NUM_TESTS {
        let start = random_point(&mut rng, RANGE);
        let end = random_point(&mut rng, RANGE);

        assert_eq!(bresenham(start, end), reverse_slice(&bresenham(end, start)));
    }
}

#[test]
#[should_panic]
fn bresenham_3d_not_symmetrical() {
    let mut rng = rand::thread_rng();

    for _ in 0..NUM_TESTS {
        let start = random_voxel(&mut rng, RANGE);
        let end = random_voxel(&mut rng, RANGE);

        assert_eq!(bresenham_3d(start, end), reverse_slice(&bresenham_3d(end, start)));
    }
}

#[test]
fn bresenham_3d_sorted_symmetrical() {
    let mut rng = rand::thread_rng();

    for _ in 0..NUM_TESTS {
        let start = random_voxel(&mut rng, RANGE);
        let end = random_voxel(&mut rng, RANGE);

        assert_eq!(
            bresenham_3d_sorted(start, end),
            reverse_vec_deque(bresenham_3d_sorted(end, start))
        );
    }
}
