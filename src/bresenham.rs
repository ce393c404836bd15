use crate::grid::{dist, distance, max2, step_toward, toward, Point, Voxel};
use std::collections::VecDeque;
use vstd::arithmetic::div_mod::lemma_fundamental_div_mod_converse;
use vstd::prelude::*;

verus! {

/// Offset along an axis of length `n` after `k` steps along a driving axis of
/// length `big`: `k * n / big`, rounded to the nearest integer, halves away
/// from the start.
pub open spec fn rounded_offset(k: int, n: int, big: int) -> int {
    if big == 0 {
        0
    } else {
        (2 * k * n + big) / (2 * big)
    }
}

/// The cell at step `k` of the 2D Bresenham line from `start` to `end`.
pub open spec fn line_cell(start: Point<i32>, end: Point<i32>, k: int) -> Point<i32> {
    let nx = dist(start.0 as int, end.0 as int);
    let ny = dist(start.1 as int, end.1 as int);
    let big = max2(nx, ny);
    (
        toward(start.0 as int, end.0 as int, rounded_offset(k, nx, big)) as i32,
        toward(start.1 as int, end.1 as int, rounded_offset(k, ny, big)) as i32,
    )
}

/// The 2D Bresenham line: one cell per step along the longer axis.
pub open spec fn bresenham_line(start: Point<i32>, end: Point<i32>) -> Seq<Point<i32>> {
    let big = max2(dist(start.0 as int, end.0 as int), dist(start.1 as int, end.1 as int));
    Seq::new((big + 1) as nat, |k: int| line_cell(start, end, k))
}

/// The cell at step `k` of the 3D Bresenham line from `start` to `end`.
pub open spec fn line_cell_3d(start: Voxel<i32>, end: Voxel<i32>, k: int) -> Voxel<i32> {
    let nx = dist(start.0 as int, end.0 as int);
    let ny = dist(start.1 as int, end.1 as int);
    let nz = dist(start.2 as int, end.2 as int);
    let big = max2(max2(nx, ny), nz);
    (
        toward(start.0 as int, end.0 as int, rounded_offset(k, nx, big)) as i32,
        toward(start.1 as int, end.1 as int, rounded_offset(k, ny, big)) as i32,
        toward(start.2 as int, end.2 as int, rounded_offset(k, nz, big)) as i32,
    )
}

/// The 3D Bresenham line: one voxel per step along the longest axis.
pub open spec fn bresenham_line_3d(start: Voxel<i32>, end: Voxel<i32>) -> Seq<Voxel<i32>> {
    let big = max2(
        max2(dist(start.0 as int, end.0 as int), dist(start.1 as int, end.1 as int)),
        dist(start.2 as int, end.2 as int),
    );
    Seq::new((big + 1) as nat, |k: int| line_cell_3d(start, end, k))
}

/// Lexicographic order on voxels.
pub open spec fn voxel_le(a: Voxel<i32>, b: Voxel<i32>) -> bool {
    a.0 < b.0 || (a.0 == b.0 && (a.1 < b.1 || (a.1 == b.1 && a.2 <= b.2)))
}

/// The 3D Bresenham line, always drawn from the lesser endpoint to the
/// greater one and then put in travel order from `start` to `end`.
pub open spec fn sorted_line_3d(start: Voxel<i32>, end: Voxel<i32>) -> Seq<Voxel<i32>> {
    if voxel_le(start, end) {
        bresenham_line_3d(start, end)
    } else {
        bresenham_line_3d(end, start).reverse()
    }
}

/// State of one axis after `k` steps: `m` cells travelled, and `err` the
/// accumulated error, `2kn + big - 2m * big`, kept in `[0, 2 * big)`.
spec fn axis_ok(k: int, n: int, big: int, m: int, err: int) -> bool {
    &&& 0 <= err < 2 * big
    &&& err == 2 * k * n + big - 2 * m * big
}

proof fn lemma_axis_offset(k: int, n: int, big: int, m: int, err: int)
    requires
        axis_ok(k, n, big, m, err),
        0 <= k <= big,
        0 <= n <= big,
    ensures
        m == rounded_offset(k, n, big),
        0 <= m <= n,
        k == big ==> m == n,
{
    assert(2 * k * n + big == m * (2 * big) + err) by (nonlinear_arith)
        requires
            err == 2 * k * n + big - 2 * m * big,
    ;
    lemma_fundamental_div_mod_converse(2 * k * n + big, 2 * big, m, err);
    assert(0 <= m <= n) by (nonlinear_arith)
        requires
            0 <= err < 2 * big,
            err == 2 * k * n + big - 2 * m * big,
            0 <= k <= big,
            0 <= n,
    ;
    if k == big {
        assert(m == n) by (nonlinear_arith)
            requires
                0 <= err < 2 * big,
                err == 2 * k * n + big - 2 * m * big,
                k == big,
        ;
    }
}

/// One step of the driving axis: advances the axis when the error reaches a
/// full step.
fn advance_axis(m: u64, err: u64, n: u64, big: u64, Ghost(k): Ghost<int>) -> (r: (u64, u64))
    requires
        axis_ok(k, n as int, big as int, m as int, err as int),
        0 <= k < big,
        n <= big,
        big < 0x1_0000_0000,
    ensures
        axis_ok(k + 1, n as int, big as int, r.0 as int, r.1 as int),
{
    proof {
        lemma_axis_offset(k, n as int, big as int, m as int, err as int);
    }
    let e = err + 2 * n;
    if e >= 2 * big {
        assert(e - 2 * big == 2 * (k + 1) * n + big - 2 * (m + 1) * big) by (nonlinear_arith)
            requires
                err == 2 * k * n + big - 2 * m * big,
                e == err + 2 * n,
        ;
        (m + 1, e - 2 * big)
    } else {
        assert(e == 2 * (k + 1) * n + big - 2 * m * big) by (nonlinear_arith)
            requires
                err == 2 * k * n + big - 2 * m * big,
                e == err + 2 * n,
        ;
        (m, e)
    }
}

proof fn lemma_axis_start(n: int, big: int)
    requires
        0 < big,
        0 <= n,
    ensures
        axis_ok(0, n, big, 0, big),
{
    assert(2 * 0 * n == 0 && 2 * 0 * big == 0) by (nonlinear_arith);
}

/// The cells of the 2D Bresenham line from `start` to `end`, in travel order.
pub fn bresenham(start: Point<i32>, end: Point<i32>) -> (r: Vec<Point<i32>>)
    ensures
        r@ == bresenham_line(start, end),
        r@[0] == start,
        r@.last() == end,
{
    let nx = distance(start.0, end.0);
    let ny = distance(start.1, end.1);
    let big = if nx >= ny {
        nx
    } else {
        ny
    };
    let ghost line = bresenham_line(start, end);
    let mut points: Vec<Point<i32>> = Vec::new();
    points.push(start);
    let mut mx: u64 = 0;
    let mut ex: u64 = big;
    let mut my: u64 = 0;
    let mut ey: u64 = big;
    let mut k: u64 = 0;
    proof {
        if big > 0 {
            lemma_axis_start(nx as int, big as int);
            lemma_axis_start(ny as int, big as int);
            lemma_axis_offset(0, nx as int, big as int, 0, big as int);
            lemma_axis_offset(0, ny as int, big as int, 0, big as int);
        }
        assert(line_cell(start, end, 0) == start);
        assert(points@ =~= line.take(1));
    }
    while k < big
        invariant
            k <= big,
            big as int == max2(nx as int, ny as int),
            nx as int == dist(start.0 as int, end.0 as int),
            ny as int == dist(start.1 as int, end.1 as int),
            big < 0x1_0000_0000,
            line == bresenham_line(start, end),
            big > 0 ==> axis_ok(k as int, nx as int, big as int, mx as int, ex as int),
            big > 0 ==> axis_ok(k as int, ny as int, big as int, my as int, ey as int),
            points@ == line.take(k + 1),
        decreases big - k,
    {
        let (a, b) = advance_axis(mx, ex, nx, big, Ghost(k as int));
        mx = a;
        ex = b;
        let (a, b) = advance_axis(my, ey, ny, big, Ghost(k as int));
        my = a;
        ey = b;
        k = k + 1;
        proof {
            lemma_axis_offset(k as int, nx as int, big as int, mx as int, ex as int);
            lemma_axis_offset(k as int, ny as int, big as int, my as int, ey as int);
        }
        let p = (step_toward(start.0, end.0, mx), step_toward(start.1, end.1, my));
        points.push(p);
        proof {
            assert(p == line_cell(start, end, k as int));
            assert(points@ =~= line.take(k + 1));
        }
    }
    proof {
        assert(points@ =~= line);
        if big > 0 {
            lemma_axis_offset(k as int, nx as int, big as int, mx as int, ex as int);
            lemma_axis_offset(k as int, ny as int, big as int, my as int, ey as int);
        }
    }
    points
}

/// The voxels of the 3D Bresenham line from `start` to `end`, in travel order.
pub fn bresenham_3d(start: Voxel<i32>, end: Voxel<i32>) -> (r: Vec<Voxel<i32>>)
    ensures
        r@ == bresenham_line_3d(start, end),
        r@[0] == start,
        r@.last() == end,
{
    let nx = distance(start.0, end.0);
    let ny = distance(start.1, end.1);
    let nz = distance(start.2, end.2);
    let mut big = if nx >= ny {
        nx
    } else {
        ny
    };
    if nz > big {
        big = nz;
    }
    let ghost line = bresenham_line_3d(start, end);
    let mut points: Vec<Voxel<i32>> = Vec::new();
    points.push(start);
    let mut mx: u64 = 0;
    let mut ex: u64 = big;
    let mut my: u64 = 0;
    let mut ey: u64 = big;
    let mut mz: u64 = 0;
    let mut ez: u64 = big;
    let mut k: u64 = 0;
    proof {
        if big > 0 {
            lemma_axis_start(nx as int, big as int);
            lemma_axis_start(ny as int, big as int);
            lemma_axis_start(nz as int, big as int);
            lemma_axis_offset(0, nx as int, big as int, 0, big as int);
            lemma_axis_offset(0, ny as int, big as int, 0, big as int);
            lemma_axis_offset(0, nz as int, big as int, 0, big as int);
        }
        assert(line_cell_3d(start, end, 0) == start);
        assert(points@ =~= line.take(1));
    }
    while k < big
        invariant
            k <= big,
            big as int == max2(max2(nx as int, ny as int), nz as int),
            nx as int == dist(start.0 as int, end.0 as int),
            ny as int == dist(start.1 as int, end.1 as int),
            nz as int == dist(start.2 as int, end.2 as int),
            big < 0x1_0000_0000,
            line == bresenham_line_3d(start, end),
            big > 0 ==> axis_ok(k as int, nx as int, big as int, mx as int, ex as int),
            big > 0 ==> axis_ok(k as int, ny as int, big as int, my as int, ey as int),
            big > 0 ==> axis_ok(k as int, nz as int, big as int, mz as int, ez as int),
            points@ == line.take(k + 1),
        decreases big - k,
    {
        let (a, b) = advance_axis(mx, ex, nx, big, Ghost(k as int));
        mx = a;
        ex = b;
        let (a, b) = advance_axis(my, ey, ny, big, Ghost(k as int));
        my = a;
        ey = b;
        let (a, b) = advance_axis(mz, ez, nz, big, Ghost(k as int));
        mz = a;
        ez = b;
        k = k + 1;
        proof {
            lemma_axis_offset(k as int, nx as int, big as int, mx as int, ex as int);
            lemma_axis_offset(k as int, ny as int, big as int, my as int, ey as int);
            lemma_axis_offset(k as int, nz as int, big as int, mz as int, ez as int);
        }
        let p = (
            step_toward(start.0, end.0, mx),
            step_toward(start.1, end.1, my),
            step_toward(start.2, end.2, mz),
        );
        points.push(p);
        proof {
            assert(p == line_cell_3d(start, end, k as int));
            assert(points@ =~= line.take(k + 1));
        }
    }
    proof {
        assert(points@ =~= line);
        if big > 0 {
            lemma_axis_offset(k as int, nx as int, big as int, mx as int, ex as int);
            lemma_axis_offset(k as int, ny as int, big as int, my as int, ey as int);
            lemma_axis_offset(k as int, nz as int, big as int, mz as int, ez as int);
        }
    }
    points
}

/// Lexicographic order on voxels.
fn voxel_before_or_at(a: Voxel<i32>, b: Voxel<i32>) -> (r: bool)
    ensures
        r == voxel_le(a, b),
{
    a.0 < b.0 || (a.0 == b.0 && (a.1 < b.1 || (a.1 == b.1 && a.2 <= b.2)))
}

/// The voxels of the 3D Bresenham line between `start` and `end`, in travel
/// order from `start`. The line is always drawn from the lesser endpoint, so
/// swapping the endpoints gives the same voxels in the opposite order.
pub fn bresenham_3d_sorted(start: Voxel<i32>, end: Voxel<i32>) -> (r: VecDeque<Voxel<i32>>)
    ensures
        r@ == sorted_line_3d(start, end),
        r@[0] == start,
        r@.last() == end,
{
    let forward = voxel_before_or_at(start, end);
    let line = if forward {
        bresenham_3d(start, end)
    } else {
        bresenham_3d(end, start)
    };
    let mut out: VecDeque<Voxel<i32>> = VecDeque::new();
    let mut i: usize = 0;
    while i < line.len()
        invariant
            i <= line@.len(),
            forward ==> out@ == line@.take(i as int),
            !forward ==> out@ == line@.take(i as int).reverse(),
        decreases line@.len() - i,
    {
        let v = line[i];
        if forward {
            out.push_back(v);
        } else {
            out.push_front(v);
        }
        i = i + 1;
        proof {
            if forward {
                assert(out@ =~= line@.take(i as int));
            } else {
                assert(out@ =~= line@.take(i as int).reverse());
            }
        }
    }
    proof {
        assert(line@.take(line@.len() as int) =~= line@);
        if !forward {
            assert(out@[0] == line@.last());
            assert(out@.last() == line@[0]);
        }
    }
    out
}

/// Swapping the endpoints of `bresenham_3d_sorted` gives the same voxels in
/// the opposite order.
pub proof fn bresenham_3d_sorted_reverses(start: Voxel<i32>, end: Voxel<i32>)
    ensures
        sorted_line_3d(start, end) == sorted_line_3d(end, start).reverse(),
{
    if start == end {
        let line = bresenham_line_3d(start, end);
        assert(line.len() == 1);
        assert(line.reverse() =~= line);
    } else if voxel_le(start, end) {
        assert(!voxel_le(end, start));
        assert(bresenham_line_3d(start, end).reverse().reverse() =~= bresenham_line_3d(
            start,
            end,
        ));
    } else {
        assert(voxel_le(end, start));
    }
}

/// A line from a cell to itself holds that one cell, in 2D and in 3D.
pub proof fn bresenham_single_cell(p: Point<i32>, v: Voxel<i32>)
    ensures
        bresenham_line(p, p) == seq![p],
        bresenham_line_3d(v, v) == seq![v],
        sorted_line_3d(v, v) == seq![v],
{
    assert(bresenham_line(p, p) =~= seq![p]);
    assert(bresenham_line_3d(v, v) =~= seq![v]);
}

/// The 2D Bresenham line is not always the same cells in the opposite order
/// when its endpoints are swapped: from (0, 0) to (2, 1) it passes (1, 1),
/// the other way round (1, 0).
pub proof fn bresenham_not_reversible()
    ensures
        exists|start: Point<i32>, end: Point<i32>|
            bresenham_line(start, end) != bresenham_line(end, start).reverse(),
{
    let s: Point<i32> = (0, 0);
    let e: Point<i32> = (2, 1);
    assert(bresenham_line(s, e)[1] == (1i32, 1i32));
    assert(bresenham_line(e, s).reverse()[1] == (1i32, 0i32));
}

/// The 3D Bresenham line is not always the same voxels in the opposite order
/// when its endpoints are swapped: from (0, 0, 0) to (2, 1, 0) it passes
/// (1, 1, 0), the other way round (1, 0, 0).
pub proof fn bresenham_3d_not_reversible()
    ensures
        exists|start: Voxel<i32>, end: Voxel<i32>|
            bresenham_line_3d(start, end) != bresenham_line_3d(end, start).reverse(),
{
    let s: Voxel<i32> = (0, 0, 0);
    let e: Voxel<i32> = (2, 1, 0);
    assert(bresenham_line_3d(s, e)[1] == (1i32, 1i32, 0i32));
    assert(bresenham_line_3d(e, s).reverse()[1] == (1i32, 0i32, 0i32));
}

} // verus!
