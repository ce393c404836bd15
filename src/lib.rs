//! Discrete traversals of line segments over 2D and 3D integer grids.

mod bresenham;
mod grid;
mod reverse;
mod supercover;

pub use bresenham::{
    bresenham, bresenham_3d, bresenham_3d_not_reversible, bresenham_3d_sorted,
    bresenham_3d_sorted_reverses, bresenham_line, bresenham_line_3d, bresenham_not_reversible,
    bresenham_single_cell, line_cell, line_cell_3d, rounded_offset, sorted_line_3d, voxel_le,
};
pub use grid::{dist, max2, toward, Point, Voxel};
pub use reverse::{reverse_slice, reverse_twice, reverse_vec_deque};
pub use supercover::{
    corner_cells, cover_cell, cover_next, cover_walk, mirrored, on_segment, supercover, supercover_line,
    supercover_reverses, supercover_single_cell,
};
