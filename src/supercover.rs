use crate::grid::{dist, distance, step_toward, toward, Point};
use vstd::prelude::*;

verus! {

/// The next counters of the walk after `a` steps along x and `b` along y.
/// The segment crosses its next x boundary at `(2a + 1) / (2nx)` of its
/// length and its next y boundary at `(2b + 1) / (2ny)`: the walk takes the
/// earlier crossing, or both when they coincide at a corner.
pub open spec fn cover_next(a: int, b: int, nx: int, ny: int) -> (int, int) {
    if a >= nx {
        (a, b + 1)
    } else if b >= ny {
        (a + 1, b)
    } else if (2 * a + 1) * ny < (2 * b + 1) * nx {
        (a + 1, b)
    } else if (2 * a + 1) * ny > (2 * b + 1) * nx {
        (a, b + 1)
    } else {
        (a + 1, b + 1)
    }
}

/// The counters of the two cells that share the corner the segment passes
/// through on leaving `(a, b)`, x side first; none where it leaves through
/// a side.
pub open spec fn corner_cells(a: int, b: int, nx: int, ny: int) -> Seq<(int, int)> {
    if cover_next(a, b, nx, ny) == (a + 1, b + 1) {
        seq![(a + 1, b), (a, b + 1)]
    } else {
        Seq::empty()
    }
}

/// The counters visited from `(a, b)` until `(nx, ny)`.
pub open spec fn cover_walk(a: int, b: int, nx: int, ny: int) -> Seq<(int, int)>
    decreases (nx - a) + (ny - b),
{
    if a > nx || b > ny || (a == nx && b == ny) {
        seq![(a, b)]
    } else {
        let n = cover_next(a, b, nx, ny);
        seq![(a, b)] + corner_cells(a, b, nx, ny) + cover_walk(n.0, n.1, nx, ny)
    }
}

/// The cell reached after `c.0` steps along x and `c.1` steps along y.
pub open spec fn cover_cell(start: Point<i32>, end: Point<i32>, c: (int, int)) -> Point<i32> {
    (
        toward(start.0 as int, end.0 as int, c.0) as i32,
        toward(start.1 as int, end.1 as int, c.1) as i32,
    )
}

/// Every cell that the segment from `start` to `end` touches, in travel order.
pub open spec fn supercover_line(start: Point<i32>, end: Point<i32>) -> Seq<Point<i32>> {
    let nx = dist(start.0 as int, end.0 as int);
    let ny = dist(start.1 as int, end.1 as int);
    cover_walk(0, 0, nx, ny).map_values(|c: (int, int)| cover_cell(start, end, c))
}

proof fn lemma_walk_last(a: int, b: int, nx: int, ny: int)
    requires
        0 <= a <= nx,
        0 <= b <= ny,
    ensures
        cover_walk(a, b, nx, ny).last() == (nx, ny),
    decreases (nx - a) + (ny - b),
{
    if !(a == nx && b == ny) {
        let t = cover_next(a, b, nx, ny);
        lemma_walk_last(t.0, t.1, nx, ny);
        lemma_walk_head(t.0, t.1, nx, ny);
    }
}

proof fn lemma_walk_head(a: int, b: int, nx: int, ny: int)
    ensures
        cover_walk(a, b, nx, ny).len() >= 1,
        cover_walk(a, b, nx, ny)[0] == (a, b),
{
}

/// Every cell that the segment from `start` to `end` touches, in travel
/// order: where the segment passes exactly through a grid corner, the two
/// cells beside the corner come first (the one along x, then the one along
/// y), then the cell diagonally across.
pub fn supercover(start: Point<i32>, end: Point<i32>) -> (r: Vec<Point<i32>>)
    ensures
        r@ == supercover_line(start, end),
        r@[0] == start,
        r@.last() == end,
{
    let nx = distance(start.0, end.0);
    let ny = distance(start.1, end.1);
    let ghost line = supercover_line(start, end);
    let ghost f = |c: (int, int)| cover_cell(start, end, c);
    let mut points: Vec<Point<i32>> = Vec::new();
    points.push(start);
    let mut a: u64 = 0;
    let mut b: u64 = 0;
    proof {
        lemma_walk_head(0, 0, nx as int, ny as int);
        assert(cover_cell(start, end, (0, 0)) == start);
        let w = cover_walk(0, 0, nx as int, ny as int);
        assert(line == w.map_values(f));
        assert(points@ + w.map_values(f).skip(1) =~= line);
    }
    while a < nx || b < ny
        invariant
            a <= nx,
            b <= ny,
            nx < 0x1_0000_0000,
            ny < 0x1_0000_0000,
            nx as int == dist(start.0 as int, end.0 as int),
            ny as int == dist(start.1 as int, end.1 as int),
            line == supercover_line(start, end),
            f == (|c: (int, int)| cover_cell(start, end, c)),
            points@ + cover_walk(a as int, b as int, nx as int, ny as int).map_values(f).skip(1)
                == line,
        decreases (nx - a) + (ny - b),
    {
        let ghost w = cover_walk(a as int, b as int, nx as int, ny as int);
        let ghost prev = points@;
        let ghost a0 = a;
        let ghost b0 = b;
        if a >= nx {
            b = b + 1;
        } else if b >= ny {
            a = a + 1;
        } else {
            assert((2 * a + 1) * ny <= 0x2_0000_0000 * 0x1_0000_0000) by (nonlinear_arith)
                requires
                    a < 0x1_0000_0000,
                    ny < 0x1_0000_0000,
            ;
            assert((2 * b + 1) * nx <= 0x2_0000_0000 * 0x1_0000_0000) by (nonlinear_arith)
                requires
                    b < 0x1_0000_0000,
                    nx < 0x1_0000_0000,
            ;
            let l: u128 = (2 * a as u128 + 1) * ny as u128;
            let r: u128 = (2 * b as u128 + 1) * nx as u128;
            if l < r {
                a = a + 1;
            } else if l > r {
                b = b + 1;
            } else {
                points.push((step_toward(start.0, end.0, a + 1), step_toward(start.1, end.1, b)));
                points.push((step_toward(start.0, end.0, a), step_toward(start.1, end.1, b + 1)));
                a = a + 1;
                b = b + 1;
            }
        }
        let p = (step_toward(start.0, end.0, a), step_toward(start.1, end.1, b));
        points.push(p);
        proof {
            let w2 = cover_walk(a as int, b as int, nx as int, ny as int);
            let c = corner_cells(a0 as int, b0 as int, nx as int, ny as int);
            lemma_walk_head(a as int, b as int, nx as int, ny as int);
            assert(w == seq![w[0]] + c + w2);
            assert(w.map_values(f).skip(1) =~= c.map_values(f) + w2.map_values(f));
            assert(w2.map_values(f) =~= seq![p] + w2.map_values(f).skip(1));
            assert(points@ =~= prev + c.map_values(f) + seq![p]);
            assert(points@ + w2.map_values(f).skip(1) =~= prev + w.map_values(f).skip(1));
        }
    }
    proof {
        assert(cover_walk(a as int, b as int, nx as int, ny as int).map_values(f).skip(1).len()
            == 0);
        assert(points@ =~= points@ + cover_walk(
            a as int,
            b as int,
            nx as int,
            ny as int,
        ).map_values(f).skip(1));
        lemma_walk_last(0, 0, nx as int, ny as int);
        lemma_walk_head(0, 0, nx as int, ny as int);
    }
    points
}

/// The counters `(a, b)` lie inside the segment's box, and the cell they
/// name overlaps the segment: its last x boundary is crossed before its next
/// y boundary, and its last y boundary before its next x boundary.
pub open spec fn on_segment(a: int, b: int, nx: int, ny: int) -> bool {
    &&& 0 <= a <= nx
    &&& 0 <= b <= ny
    &&& (2 * a - 1) * ny < (2 * b + 1) * nx
    &&& (2 * b - 1) * nx < (2 * a + 1) * ny
}

/// The counters of a walk seen from the other end of the segment.
pub open spec fn mirrored(w: Seq<(int, int)>, nx: int, ny: int) -> Seq<(int, int)> {
    w.map_values(|c: (int, int)| (nx - c.0, ny - c.1))
}

/// A step of the walk keeps it on the segment.
proof fn lemma_next_on_segment(a: int, b: int, nx: int, ny: int)
    requires
        on_segment(a, b, nx, ny),
        !(a == nx && b == ny),
    ensures
        on_segment(cover_next(a, b, nx, ny).0, cover_next(a, b, nx, ny).1, nx, ny),
{
    if a >= nx {
        assert((2 * a - 1) * ny < (2 * b + 3) * nx) by (nonlinear_arith)
            requires
                (2 * a - 1) * ny < (2 * b + 1) * nx,
                nx >= 0,
        ;
        assert((2 * b + 1) * nx < (2 * a + 1) * ny) by (nonlinear_arith)
            requires
                a == nx,
                0 <= b < ny,
                nx >= 0,
        ;
    } else if b >= ny {
        assert((2 * b - 1) * nx < (2 * a + 3) * ny) by (nonlinear_arith)
            requires
                (2 * b - 1) * nx < (2 * a + 1) * ny,
                ny >= 0,
        ;
        assert((2 * a + 1) * ny < (2 * b + 1) * nx) by (nonlinear_arith)
            requires
                b == ny,
                0 <= a < nx,
                ny >= 0,
        ;
    } else if (2 * a + 1) * ny < (2 * b + 1) * nx {
        assert((2 * b - 1) * nx < (2 * a + 3) * ny) by (nonlinear_arith)
            requires
                (2 * b - 1) * nx < (2 * a + 1) * ny,
                ny >= 0,
        ;
    } else if (2 * a + 1) * ny > (2 * b + 1) * nx {
        assert((2 * a - 1) * ny < (2 * b + 3) * nx) by (nonlinear_arith)
            requires
                (2 * a - 1) * ny < (2 * b + 1) * nx,
                nx >= 0,
        ;
    } else {
        assert((2 * a + 1) * ny < (2 * b + 3) * nx) by (nonlinear_arith)
            requires
                (2 * a + 1) * ny == (2 * b + 1) * nx,
                nx > 0,
        ;
        assert((2 * b + 1) * nx < (2 * a + 3) * ny) by (nonlinear_arith)
            requires
                (2 * a + 1) * ny == (2 * b + 1) * nx,
                ny > 0,
        ;
    }
}

/// Walking forward from the mirror image of a step's target leads back to
/// the mirror image of its source.
proof fn lemma_next_reverses(a: int, b: int, nx: int, ny: int)
    requires
        on_segment(a, b, nx, ny),
        !(a == nx && b == ny),
    ensures
        ({
            let t = cover_next(a, b, nx, ny);
            cover_next(nx - t.0, ny - t.1, nx, ny) == (nx - a, ny - b)
        }),
{
    let t = cover_next(a, b, nx, ny);
    let (ma, mb) = (nx - t.0, ny - t.1);
    if a >= nx {
        if nx > 0 {
            assert((2 * ma + 1) * ny > (2 * mb + 1) * nx) by (nonlinear_arith)
                requires
                    ma == 0,
                    mb == ny - b - 1,
                    a == nx,
                    (2 * a - 1) * ny < (2 * b + 1) * nx,
            ;
        }
    } else if b >= ny {
        if ny > 0 {
            assert((2 * ma + 1) * ny < (2 * mb + 1) * nx) by (nonlinear_arith)
                requires
                    mb == 0,
                    ma == nx - a - 1,
                    b == ny,
                    (2 * b - 1) * nx < (2 * a + 1) * ny,
            ;
        }
    } else if (2 * a + 1) * ny < (2 * b + 1) * nx {
        if b > 0 {
            assert((2 * ma + 1) * ny < (2 * mb + 1) * nx) by (nonlinear_arith)
                requires
                    ma == nx - a - 1,
                    mb == ny - b,
                    (2 * b - 1) * nx < (2 * a + 1) * ny,
            ;
        }
    } else if (2 * a + 1) * ny > (2 * b + 1) * nx {
        if a > 0 {
            assert((2 * ma + 1) * ny > (2 * mb + 1) * nx) by (nonlinear_arith)
                requires
                    ma == nx - a,
                    mb == ny - b - 1,
                    (2 * a - 1) * ny < (2 * b + 1) * nx,
            ;
        }
    } else {
        assert((2 * ma + 1) * ny == (2 * mb + 1) * nx) by (nonlinear_arith)
            requires
                ma == nx - a - 1,
                mb == ny - b - 1,
                (2 * a + 1) * ny == (2 * b + 1) * nx,
        ;
    }
}

/// The walk from the start passes, in order, through the mirror images of
/// the walk from `(a, b)` read backwards, and then goes on from the mirror
/// image of `(a, b)`.
#[verifier::rlimit(60)]
proof fn lemma_walk_mirror(a: int, b: int, nx: int, ny: int)
    requires
        on_segment(a, b, nx, ny),
    ensures
        cover_walk(0, 0, nx, ny) == mirrored(cover_walk(a, b, nx, ny), nx, ny).reverse()
            + cover_walk(nx - a, ny - b, nx, ny).skip(1),
    decreases (nx - a) + (ny - b),
{
    if a == nx && b == ny {
        lemma_walk_head(0, 0, nx, ny);
        assert(mirrored(cover_walk(a, b, nx, ny), nx, ny).reverse() =~= seq![(0int, 0int)]);
        assert(cover_walk(0, 0, nx, ny) =~= seq![(0int, 0int)] + cover_walk(0, 0, nx, ny).skip(
            1,
        ));
    } else {
        let t = cover_next(a, b, nx, ny);
        lemma_next_on_segment(a, b, nx, ny);
        lemma_next_reverses(a, b, nx, ny);
        lemma_walk_mirror(t.0, t.1, nx, ny);
        let ws = cover_walk(a, b, nx, ny);
        let wt = cover_walk(t.0, t.1, nx, ny);
        let cs = corner_cells(a, b, nx, ny);
        assert(ws == seq![(a, b)] + cs + wt);
        let mcs = mirrored(cs, nx, ny).reverse();
        assert(mirrored(ws, nx, ny).reverse() =~= mirrored(wt, nx, ny).reverse() + mcs + seq![
            (nx - a, ny - b),
        ]);
        let mt = cover_walk(nx - t.0, ny - t.1, nx, ny);
        let ms = cover_walk(nx - a, ny - b, nx, ny);
        assert(!(nx - t.0 == nx && ny - t.1 == ny));
        assert(mcs =~= corner_cells(nx - t.0, ny - t.1, nx, ny));
        assert(mt == seq![(nx - t.0, ny - t.1)] + mcs + ms);
        assert(mt.skip(1) =~= mcs + ms);
        lemma_walk_head(nx - a, ny - b, nx, ny);
        assert(ms =~= seq![(nx - a, ny - b)] + ms.skip(1));
        assert(mirrored(wt, nx, ny).reverse() + mt.skip(1) =~= mirrored(ws, nx, ny).reverse()
            + ms.skip(1));
    }
}

/// Every counter pair of a walk from inside the box stays inside the box.
proof fn lemma_walk_in_box(a: int, b: int, nx: int, ny: int)
    requires
        0 <= a <= nx,
        0 <= b <= ny,
    ensures
        forall|i: int|
            0 <= i < cover_walk(a, b, nx, ny).len() ==> {
                let c = #[trigger] cover_walk(a, b, nx, ny)[i];
                0 <= c.0 <= nx && 0 <= c.1 <= ny
            },
    decreases (nx - a) + (ny - b),
{
    if !(a == nx && b == ny) {
        let t = cover_next(a, b, nx, ny);
        lemma_walk_in_box(t.0, t.1, nx, ny);
        let w = cover_walk(a, b, nx, ny);
        let cs = corner_cells(a, b, nx, ny);
        assert(w == seq![(a, b)] + cs + cover_walk(t.0, t.1, nx, ny));
        assert forall|i: int| 0 <= i < w.len() implies {
            let c = #[trigger] w[i];
            0 <= c.0 <= nx && 0 <= c.1 <= ny
        } by {
            if 0 < i <= cs.len() {
                assert(w[i] == cs[i - 1]);
            } else if i > cs.len() {
                assert(w[i] == cover_walk(t.0, t.1, nx, ny)[i - 1 - cs.len()]);
            }
        }
    }
}

/// The walk is symmetric: read backwards and seen from the other end of the
/// segment, it is the same walk.
proof fn lemma_walk_symmetric(nx: int, ny: int)
    requires
        0 <= nx,
        0 <= ny,
    ensures
        cover_walk(0, 0, nx, ny) == mirrored(cover_walk(0, 0, nx, ny), nx, ny).reverse(),
{
    if nx == 0 && ny == 0 {
        assert(cover_walk(0, 0, nx, ny) == seq![(0int, 0int)]);
        assert(mirrored(cover_walk(0, 0, nx, ny), nx, ny).reverse() =~= seq![(0int, 0int)]);
    } else {
        assert(on_segment(0, 0, nx, ny)) by (nonlinear_arith)
            requires
                0 <= nx,
                0 <= ny,
                !(nx == 0 && ny == 0),
        ;
        lemma_walk_mirror(0, 0, nx, ny);
        assert(cover_walk(nx, ny, nx, ny) == seq![(nx, ny)]);
        assert(cover_walk(nx, ny, nx, ny).skip(1) =~= Seq::<(int, int)>::empty());
        assert(mirrored(cover_walk(0, 0, nx, ny), nx, ny).reverse() + Seq::<(int, int)>::empty()
            =~= mirrored(cover_walk(0, 0, nx, ny), nx, ny).reverse());
    }
}

/// Swapping the endpoints of `supercover` gives the same cells in the
/// opposite order.
pub proof fn supercover_reverses(start: Point<i32>, end: Point<i32>)
    ensures
        supercover_line(start, end) == supercover_line(end, start).reverse(),
{
    let nx = dist(start.0 as int, end.0 as int);
    let ny = dist(start.1 as int, end.1 as int);
    assert(dist(end.0 as int, start.0 as int) == nx);
    assert(dist(end.1 as int, start.1 as int) == ny);
    let w = cover_walk(0, 0, nx, ny);
    lemma_walk_symmetric(nx, ny);
    lemma_walk_in_box(0, 0, nx, ny);
    let fwd = supercover_line(start, end);
    let bwd = supercover_line(end, start);
    let m = mirrored(w, nx, ny);
    assert(m.len() == w.len());
    assert forall|i: int| 0 <= i < fwd.len() implies fwd[i] == bwd.reverse()[i] by {
        let j = w.len() - 1 - i;
        let c = w[j];
        assert(0 <= c.0 <= nx && 0 <= c.1 <= ny);
        assert(w[i] == m.reverse()[i]);
        assert(m.reverse()[i] == m[j]);
        assert(bwd.reverse()[i] == bwd[j]);
        assert(bwd[j] == cover_cell(end, start, c));
        assert(fwd[i] == cover_cell(start, end, (nx - c.0, ny - c.1)));
    }
    assert(fwd =~= bwd.reverse());
}

/// The supercover of a segment from a cell to itself is that one cell.
pub proof fn supercover_single_cell(p: Point<i32>)
    ensures
        supercover_line(p, p) == seq![p],
{
    assert(cover_walk(0, 0, 0, 0) == seq![(0int, 0int)]);
    assert(supercover_line(p, p) =~= seq![p]);
}

} // verus!
