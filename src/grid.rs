use vstd::prelude::*;

verus! {

/// A cell of a 2D grid, as (x, y).
pub type Point<T> = (T, T);

/// A cell of a 3D grid, as (x, y, z).
pub type Voxel<T> = (T, T, T);

/// Number of unit steps between two coordinates.
pub open spec fn dist(s: int, e: int) -> int {
    if e >= s {
        e - s
    } else {
        s - e
    }
}

/// The coordinate reached after `m` unit steps from `s` towards `e`.
pub open spec fn toward(s: int, e: int, m: int) -> int {
    if e >= s {
        s + m
    } else {
        s - m
    }
}

pub open spec fn max2(a: int, b: int) -> int {
    if a >= b {
        a
    } else {
        b
    }
}

/// Number of unit steps between two coordinates.
pub fn distance(s: i32, e: i32) -> (r: u64)
    ensures
        r as int == dist(s as int, e as int),
        r < 0x1_0000_0000,
{
    if e >= s {
        (e as i64 - s as i64) as u64
    } else {
        (s as i64 - e as i64) as u64
    }
}

/// The coordinate reached after `m` unit steps from `s` towards `e`.
pub fn step_toward(s: i32, e: i32, m: u64) -> (r: i32)
    requires
        m <= dist(s as int, e as int),
    ensures
        r as int == toward(s as int, e as int, m as int),
{
    if e >= s {
        (s as i64 + m as i64) as i32
    } else {
        (s as i64 - m as i64) as i32
    }
}

} // verus!
