use vstd::prelude::*;
use vstd::arithmetic::div_mod::{
    lemma_div_nonincreasing,
    lemma_div_pos_is_pos,
    lemma_multiply_divide_le,
};

verus! {

/// A planar point in fixed-point millionths of a millimetre.
#[derive(Clone, Copy, PartialEq, Eq, Structural, Debug)]
pub struct Point {
    pub x: i64,
    pub y: i64,
}

/// Largest magnitude accepted for an input coordinate handed to a Slice.
pub const COORD_LIMIT: i64 = 2_000_000_000_000_000;

/// Largest magnitude accepted for a coordinate entering the scanline fill
/// (inputs may have been rotated once, which can enlarge them).
pub const FILL_LIMIT: i64 = 4_000_000_000_000_000;

/// Largest magnitude any move coordinate produced by the planner can reach.
pub const CHAIN_LIMIT: i64 = 30_000_000_000_000_000;

/// Largest accepted bead width.
pub const WIDTH_LIMIT: u64 = 1_000_000_000;

/// Largest accepted number of vertices in one ring.
pub const RING_LIMIT: usize = 1_000_000;

/// Fixed-point scale of the rotation coefficients.
pub const ROT_SCALE: i64 = 1_000_000_000;

/// sin(120 degrees) at `ROT_SCALE` fixed point.
pub const SIN_120: i64 = 866_025_404;

/// cos(120 degrees) at `ROT_SCALE` fixed point.
pub const COS_120: i64 = -500_000_000;

pub open spec fn pt_in(p: Point, b: int) -> bool {
    -b <= p.x <= b && -b <= p.y <= b
}

pub open spec fn ring_in(r: Seq<Point>, b: int) -> bool {
    forall|i: int| 0 <= i < r.len() ==> pt_in(#[trigger] r[i], b)
}

/// One exterior ring and zero or more interior rings (holes). Rings are
/// closed implicitly: the edge from the last point back to the first is
/// part of the ring.
#[derive(Clone, Debug)]
pub struct Polygon {
    pub exterior: Vec<Point>,
    pub interiors: Vec<Vec<Point>>,
}

pub open spec fn ring_views(rs: Seq<Vec<Point>>) -> Seq<Seq<Point>> {
    rs.map_values(|r: Vec<Point>| r@)
}

pub open spec fn valid_ring(r: Seq<Point>) -> bool {
    3 <= r.len() <= RING_LIMIT
}

pub open spec fn valid_polygon(p: Polygon) -> bool {
    &&& valid_ring(p.exterior@)
    &&& forall|i: int|
        0 <= i < p.interiors@.len() ==> valid_ring(#[trigger] ring_views(p.interiors@)[i])
}

/// Mathematical image of a `Polygon`: its rings as sequences of points.
#[verifier::ext_equal]
pub ghost struct PolyView {
    pub exterior: Seq<Point>,
    pub interiors: Seq<Seq<Point>>,
}

impl View for Polygon {
    type V = PolyView;

    open spec fn view(&self) -> PolyView {
        PolyView { exterior: self.exterior@, interiors: ring_views(self.interiors@) }
    }
}

pub open spec fn poly_in(p: Polygon, b: int) -> bool {
    &&& ring_in(p.exterior@, b)
    &&& forall|i: int|
        0 <= i < p.interiors@.len() ==> ring_in(#[trigger] ring_views(p.interiors@)[i], b)
}

/// Truncating (round-toward-zero) division, the semantics of Rust's `/`.
pub open spec fn div_trunc(a: int, b: int) -> int
    recommends
        b > 0,
{
    if a >= 0 {
        a / b
    } else {
        -((-a) / b)
    }
}

pub proof fn lemma_mul_bounds(a: int, b: int, ab: int, bb: int)
    requires
        -ab <= a <= ab,
        -bb <= b <= bb,
        0 <= ab,
        0 <= bb,
    ensures
        -(ab * bb) <= a * b <= ab * bb,
{
    assert(-(ab * bb) <= a * b <= ab * bb) by (nonlinear_arith)
        requires
            -ab <= a <= ab,
            -bb <= b <= bb,
            0 <= ab,
            0 <= bb,
    ;
}

pub proof fn lemma_div_trunc_bounds(a: int, b: int, c: int)
    requires
        b > 0,
        c >= 0,
        -(c * b) <= a <= c * b,
    ensures
        -c <= div_trunc(a, b) <= c,
{
    if a >= 0 {
        lemma_div_pos_is_pos(a, b);
        assert(a <= b * c) by (nonlinear_arith)
            requires
                a <= c * b,
        ;
        lemma_multiply_divide_le(a, b, c);
    } else {
        lemma_div_pos_is_pos(-a, b);
        assert(-a <= b * c) by (nonlinear_arith)
            requires
                -(c * b) <= a,
        ;
        lemma_multiply_divide_le(-a, b, c);
    }
}

pub proof fn lemma_div_trunc_mag(a: int, b: int)
    requires
        b > 0,
    ensures
        a >= 0 ==> 0 <= div_trunc(a, b) <= a,
        a < 0 ==> a <= div_trunc(a, b) <= 0,
{
    if a >= 0 {
        lemma_div_pos_is_pos(a, b);
        lemma_div_nonincreasing(a, b);
    } else {
        lemma_div_pos_is_pos(-a, b);
        lemma_div_nonincreasing(-a, b);
    }
}

/// Truncating division on machine integers; numerator may be negative,
/// denominator must be positive.
pub fn div_trunc_i128(a: i128, b: i128) -> (r: i128)
    requires
        b > 0,
        -0x1000_0000_0000_0000_0000_0000_0000_0000 < a,
    ensures
        r == div_trunc(a as int, b as int),
{
    if a >= 0 {
        a / b
    } else {
        -((-a) / b)
    }
}

/// Squared Euclidean distance between two points.
pub open spec fn dist2(a: Point, b: Point) -> int {
    (a.x - b.x) * (a.x - b.x) + (a.y - b.y) * (a.y - b.y)
}

pub fn dist2_exec(a: Point, b: Point) -> (r: i128)
    requires
        pt_in(a, CHAIN_LIMIT as int),
        pt_in(b, CHAIN_LIMIT as int),
    ensures
        r == dist2(a, b),
{
    let dx: i128 = a.x as i128 - b.x as i128;
    let dy: i128 = a.y as i128 - b.y as i128;
    proof {
        lemma_mul_bounds(dx as int, dx as int, 2 * CHAIN_LIMIT as int, 2 * CHAIN_LIMIT as int);
        lemma_mul_bounds(dy as int, dy as int, 2 * CHAIN_LIMIT as int, 2 * CHAIN_LIMIT as int);
    }
    dx * dx + dy * dy
}

/// One term of the doubled shoelace sum: the edge from `r[i]` to its
/// circular successor contributes `(x_i + x_j) * (y_j - y_i)`.
pub open spec fn area_term(r: Seq<Point>, i: int) -> int
    recommends
        r.len() > 0,
        0 <= i < r.len(),
{
    let j = if i + 1 == r.len() { 0int } else { i + 1 };
    (r[i].x + r[j].x) * (r[j].y - r[i].y)
}

pub open spec fn area_sum(r: Seq<Point>, n: int) -> int
    recommends
        0 <= n <= r.len(),
    decreases n,
{
    if n <= 0 {
        0
    } else {
        area_sum(r, n - 1) + area_term(r, n - 1)
    }
}

/// Twice the signed area of a closed ring under the shoelace formula;
/// positive means counter-clockwise.
pub open spec fn doubled_area(r: Seq<Point>) -> int {
    area_sum(r, r.len() as int)
}

/// Twice the signed area of the ring, exactly.
pub fn doubled_area_exec(ring: &Vec<Point>) -> (r: i128)
    requires
        ring_in(ring@, COORD_LIMIT as int),
        ring@.len() <= RING_LIMIT,
    ensures
        r == doubled_area(ring@),
{
    let n = ring.len();
    let mut acc: i128 = 0;
    let mut i: usize = 0;
    while i < n
        invariant
            0 <= i <= n,
            n == ring@.len() <= RING_LIMIT,
            ring_in(ring@, COORD_LIMIT as int),
            acc == area_sum(ring@, i as int),
            -(i as int) * 20_000_000_000_000_000_000_000_000_000_000 <= acc <= (i as int)
                * 20_000_000_000_000_000_000_000_000_000_000,
        decreases n - i,
    {
        let j = if i + 1 == n {
            0
        } else {
            i + 1
        };
        let xs: i128 = ring[i].x as i128 + ring[j].x as i128;
        let yd: i128 = ring[j].y as i128 - ring[i].y as i128;
        proof {
            lemma_mul_bounds(
                xs as int,
                yd as int,
                2 * COORD_LIMIT as int,
                2 * COORD_LIMIT as int,
            );
        }
        let term: i128 = xs * yd;
        acc = acc + term;
        i = i + 1;
    }
    acc
}

/// Whether the horizontal ray from `p` toward positive x crosses the edge
/// from `a` to `b`, under a half-open convention on y.
pub open spec fn ray_hits(a: Point, b: Point, p: Point) -> bool {
    let lo = if a.y <= b.y {
        a
    } else {
        b
    };
    let hi = if a.y <= b.y {
        b
    } else {
        a
    };
    lo.y <= p.y < hi.y && p.x < lo.x + div_trunc((p.y - lo.y) * (hi.x - lo.x), hi.y - lo.y)
}

pub open spec fn hits_count(r: Seq<Point>, p: Point, n: int) -> int
    recommends
        0 <= n <= r.len(),
    decreases n,
{
    if n <= 0 {
        0
    } else {
        let j = if n == r.len() { 0int } else { n };
        hits_count(r, p, n - 1) + if ray_hits(r[n - 1], r[j], p) {
            1int
        } else {
            0int
        }
    }
}

/// Even-odd membership of a point in a closed ring: true when the ray from
/// `p` crosses the ring's edges an odd number of times. Points on the
/// boundary may be classified either way; the answer is deterministic.
pub open spec fn point_in_ring(r: Seq<Point>, p: Point) -> bool {
    hits_count(r, p, r.len() as int) % 2 == 1
}

/// Axis-aligned bounding rectangle of a ring: the corner points
/// `(min x, min y)` and `(max x, max y)`. Every vertex lies between the
/// corners and each of the four bounds is attained by some vertex.
pub fn bounding_rect(ring: &Vec<Point>) -> (r: (Point, Point))
    requires
        ring@.len() >= 1,
    ensures
        forall|i: int|
            0 <= i < ring@.len() ==> r.0.x <= #[trigger] ring@[i].x <= r.1.x && r.0.y
                <= ring@[i].y <= r.1.y,
        exists|i: int| 0 <= i < ring@.len() && #[trigger] ring@[i].x == r.0.x,
        exists|i: int| 0 <= i < ring@.len() && #[trigger] ring@[i].x == r.1.x,
        exists|i: int| 0 <= i < ring@.len() && #[trigger] ring@[i].y == r.0.y,
        exists|i: int| 0 <= i < ring@.len() && #[trigger] ring@[i].y == r.1.y,
{
    let n = ring.len();
    let mut min_x = ring[0].x;
    let mut max_x = ring[0].x;
    let mut min_y = ring[0].y;
    let mut max_y = ring[0].y;
    let mut i: usize = 1;
    while i < n
        invariant
            1 <= i <= n,
            n == ring@.len(),
            forall|q: int|
                0 <= q < i ==> min_x <= #[trigger] ring@[q].x <= max_x && min_y <= ring@[q].y
                    <= max_y,
            exists|q: int| 0 <= q < i && #[trigger] ring@[q].x == min_x,
            exists|q: int| 0 <= q < i && #[trigger] ring@[q].x == max_x,
            exists|q: int| 0 <= q < i && #[trigger] ring@[q].y == min_y,
            exists|q: int| 0 <= q < i && #[trigger] ring@[q].y == max_y,
        decreases n - i,
    {
        if ring[i].x < min_x {
            min_x = ring[i].x;
        }
        if ring[i].x > max_x {
            max_x = ring[i].x;
        }
        if ring[i].y < min_y {
            min_y = ring[i].y;
        }
        if ring[i].y > max_y {
            max_y = ring[i].y;
        }
        i = i + 1;
    }
    (Point { x: min_x, y: min_y }, Point { x: max_x, y: max_y })
}

/// Fixed-point cosine of `120 * k` degrees for `k` modulo 3.
pub open spec fn rot_cos(k: int) -> int {
    if k == 0 {
        1_000_000_000
    } else {
        -500_000_000
    }
}

/// Fixed-point sine of `120 * k` degrees for `k` modulo 3.
pub open spec fn rot_sin(k: int) -> int {
    if k == 0 {
        0
    } else if k == 1 {
        866_025_404
    } else {
        -866_025_404
    }
}

/// Rigid rotation of a point about the origin by the angle whose fixed-point
/// cosine and sine are `c` and `s`, truncating toward zero.
pub open spec fn rotate_pt(p: Point, c: int, s: int) -> Point {
    Point {
        x: #[verifier::truncate] (div_trunc(p.x * c - p.y * s, ROT_SCALE as int) as i64),
        y: #[verifier::truncate] (div_trunc(p.x * s + p.y * c, ROT_SCALE as int) as i64),
    }
}

pub open spec fn rot_ring(r: Seq<Point>, c: int, s: int) -> Seq<Point> {
    Seq::new(r.len(), |i: int| rotate_pt(r[i], c, s))
}

pub open spec fn rot_rings(rs: Seq<Seq<Point>>, c: int, s: int) -> Seq<Seq<Point>> {
    Seq::new(rs.len(), |i: int| rot_ring(rs[i], c, s))
}

pub fn rotate_point_exec(p: Point, c: i64, s: i64) -> (r: Point)
    requires
        pt_in(p, 12_000_000_000_000_000),
        -ROT_SCALE as int <= c <= ROT_SCALE as int,
        -ROT_SCALE as int <= s <= ROT_SCALE as int,
    ensures
        r == rotate_pt(p, c as int, s as int),
        pt_in(r, 24_000_000_000_000_000),
        pt_in(p, COORD_LIMIT as int) ==> pt_in(r, FILL_LIMIT as int),
{
    proof {
        lemma_mul_bounds(p.x as int, c as int, 12_000_000_000_000_000, ROT_SCALE as int);
        lemma_mul_bounds(p.y as int, s as int, 12_000_000_000_000_000, ROT_SCALE as int);
        lemma_mul_bounds(p.x as int, s as int, 12_000_000_000_000_000, ROT_SCALE as int);
        lemma_mul_bounds(p.y as int, c as int, 12_000_000_000_000_000, ROT_SCALE as int);
        if pt_in(p, COORD_LIMIT as int) {
            lemma_mul_bounds(p.x as int, c as int, COORD_LIMIT as int, ROT_SCALE as int);
            lemma_mul_bounds(p.y as int, s as int, COORD_LIMIT as int, ROT_SCALE as int);
            lemma_mul_bounds(p.x as int, s as int, COORD_LIMIT as int, ROT_SCALE as int);
            lemma_mul_bounds(p.y as int, c as int, COORD_LIMIT as int, ROT_SCALE as int);
        }
    }
    let xn: i128 = p.x as i128 * c as i128 - p.y as i128 * s as i128;
    let yn: i128 = p.x as i128 * s as i128 + p.y as i128 * c as i128;
    proof {
        lemma_div_trunc_bounds(xn as int, ROT_SCALE as int, 24_000_000_000_000_000);
        lemma_div_trunc_bounds(yn as int, ROT_SCALE as int, 24_000_000_000_000_000);
        if pt_in(p, COORD_LIMIT as int) {
            lemma_div_trunc_bounds(xn as int, ROT_SCALE as int, FILL_LIMIT as int);
            lemma_div_trunc_bounds(yn as int, ROT_SCALE as int, FILL_LIMIT as int);
        }
    }
    let rx: i128 = div_trunc_i128(xn, ROT_SCALE as i128);
    let ry: i128 = div_trunc_i128(yn, ROT_SCALE as i128);
    Point { x: rx as i64, y: ry as i64 }
}

/// Rotate every point of a ring about the origin.
pub fn rotate_ring_exec(r: &Vec<Point>, c: i64, s: i64) -> (out: Vec<Point>)
    requires
        ring_in(r@, 12_000_000_000_000_000),
        -ROT_SCALE as int <= c <= ROT_SCALE as int,
        -ROT_SCALE as int <= s <= ROT_SCALE as int,
    ensures
        out@ == rot_ring(r@, c as int, s as int),
        ring_in(out@, 24_000_000_000_000_000),
        ring_in(r@, COORD_LIMIT as int) ==> ring_in(out@, FILL_LIMIT as int),
{
    let n = r.len();
    let mut out: Vec<Point> = Vec::new();
    let mut i: usize = 0;
    while i < n
        invariant
            0 <= i <= n,
            n == r@.len(),
            ring_in(r@, 12_000_000_000_000_000),
            -ROT_SCALE as int <= c <= ROT_SCALE as int,
            -ROT_SCALE as int <= s <= ROT_SCALE as int,
            out@ =~= rot_ring(r@, c as int, s as int).take(i as int),
            ring_in(out@, 24_000_000_000_000_000),
            ring_in(r@, COORD_LIMIT as int) ==> ring_in(out@, FILL_LIMIT as int),
        decreases n - i,
    {
        let q = rotate_point_exec(r[i], c, s);
        out.push(q);
        proof {
            assert(out@ =~= rot_ring(r@, c as int, s as int).take(i + 1));
        }
        i = i + 1;
    }
    proof {
        assert(out@ =~= rot_ring(r@, c as int, s as int));
    }
    out
}

/// Rotate a polygon rigidly about the origin.
pub fn rotate_polygon_exec(p: &Polygon, c: i64, s: i64) -> (out: Polygon)
    requires
        valid_polygon(*p),
        poly_in(*p, 12_000_000_000_000_000),
        -ROT_SCALE as int <= c <= ROT_SCALE as int,
        -ROT_SCALE as int <= s <= ROT_SCALE as int,
    ensures
        out@.exterior == rot_ring(p.exterior@, c as int, s as int),
        out@.interiors =~~= rot_rings(ring_views(p.interiors@), c as int, s as int),
        valid_polygon(out),
        poly_in(out, 24_000_000_000_000_000),
        poly_in(*p, COORD_LIMIT as int) ==> poly_in(out, FILL_LIMIT as int),
{
    let ext = rotate_ring_exec(&p.exterior, c, s);
    let m = p.interiors.len();
    let mut ints: Vec<Vec<Point>> = Vec::new();
    let mut i: usize = 0;
    while i < m
        invariant
            0 <= i <= m,
            m == p.interiors@.len(),
            valid_polygon(*p),
            poly_in(*p, 12_000_000_000_000_000),
            -ROT_SCALE as int <= c <= ROT_SCALE as int,
            -ROT_SCALE as int <= s <= ROT_SCALE as int,
            ring_views(ints@) =~= rot_rings(ring_views(p.interiors@), c as int, s as int).take(
                i as int,
            ),
            forall|q: int|
                0 <= q < ints@.len() ==> valid_ring(#[trigger] ring_views(ints@)[q]) && ring_in(
                    ring_views(ints@)[q],
                    24_000_000_000_000_000,
                ),
            poly_in(*p, COORD_LIMIT as int) ==> forall|q: int|
                0 <= q < ints@.len() ==> ring_in(
                    #[trigger] ring_views(ints@)[q],
                    FILL_LIMIT as int,
                ),
        decreases m - i,
    {
        assert(ring_in(ring_views(p.interiors@)[i as int], 12_000_000_000_000_000));
        assert(valid_ring(ring_views(p.interiors@)[i as int]));
        let rr = rotate_ring_exec(&p.interiors[i], c, s);
        proof {
            assert(ring_views(p.interiors@)[i as int] == p.interiors@[i as int]@);
            assert(rr@ == rot_ring(ring_views(p.interiors@)[i as int], c as int, s as int));
            assert(rot_rings(ring_views(p.interiors@), c as int, s as int)[i as int] == rot_ring(
                ring_views(p.interiors@)[i as int],
                c as int,
                s as int,
            ));
        }
        let ghost pre = ints@;
        ints.push(rr);
        proof {
            assert(ints@ == pre.push(rr));
            assert(ring_views(ints@) =~= ring_views(pre).push(rr@));
            assert(ring_views(ints@) =~= rot_rings(
                ring_views(p.interiors@),
                c as int,
                s as int,
            ).take(i + 1));
        }
        i = i + 1;
    }
    proof {
        assert(ring_views(ints@) =~= rot_rings(ring_views(p.interiors@), c as int, s as int));
    }
    Polygon { exterior: ext, interiors: ints }
}

/// Ray-cast point-in-ring test.
pub fn point_in_ring_exec(ring: &Vec<Point>, p: Point) -> (r: bool)
    requires
        ring_in(ring@, COORD_LIMIT as int),
        pt_in(p, COORD_LIMIT as int),
    ensures
        r == point_in_ring(ring@, p),
{
    let n = ring.len();
    let mut hits: u64 = 0;
    let mut i: usize = 0;
    while i < n
        invariant
            0 <= i <= n,
            n == ring@.len(),
            ring_in(ring@, COORD_LIMIT as int),
            pt_in(p, COORD_LIMIT as int),
            hits <= i,
            hits == hits_count(ring@, p, i as int),
        decreases n - i,
    {
        let j = if i + 1 == n {
            0
        } else {
            i + 1
        };
        let a = ring[i];
        let b = ring[j];
        let (lo, hi) = if a.y <= b.y {
            (a, b)
        } else {
            (b, a)
        };
        if lo.y <= p.y && p.y < hi.y {
            let ny: i128 = p.y as i128 - lo.y as i128;
            let nx: i128 = hi.x as i128 - lo.x as i128;
            proof {
                lemma_mul_bounds(
                    ny as int,
                    nx as int,
                    2 * COORD_LIMIT as int,
                    2 * COORD_LIMIT as int,
                );
            }
            let num: i128 = ny * nx;
            let den: i128 = hi.y as i128 - lo.y as i128;
            let q: i128 = div_trunc_i128(num, den);
            proof {
                lemma_div_trunc_mag(num as int, den as int);
            }
            if (p.x as i128) < lo.x as i128 + q {
                hits = hits + 1;
            }
        }
        i = i + 1;
    }
    hits % 2 == 1
}

} // verus!
