//! Turning a straight segment into a jittered, reconnected, non-diagonal
//! path of grid points: sample the segment, randomly nudge interior points,
//! re-connect pairs that drifted apart, and split surviving diagonal steps.

use crate::point::{dist_sq, Point};
use crate::rng::{chance, coin, pick_in_range};
use vstd::math::abs;
use vstd::math::max;
use vstd::math::min;
use vstd::prelude::*;

verus! {

/// The scale against which chance configuration values are read: a chance
/// value of `c` fires with probability `c / CHANCE_SCALE`.
pub const CHANCE_SCALE: u32 = 1000;

/// The number of unit steps a straight sampling of the segment from `a` to
/// `b` takes: the larger of the two absolute coordinate differences.
pub open spec fn seg_steps(a: Point, b: Point) -> int {
    max(abs(b.x - a.x) as int, abs(b.y - a.y) as int)
}

/// `p / q` rounded to the nearest integer, halves away from zero.
pub open spec fn round_div(p: int, q: int) -> int {
    if p >= 0 {
        (2 * p + q) / (2 * q)
    } else {
        -((2 * (-p) + q) / (2 * q))
    }
}

/// The `i`-th of `n + 1` evenly spaced samples between `s` and `e`,
/// rounded to the nearest integer.
pub open spec fn lerp(s: int, e: int, i: int, n: int) -> int {
    if n <= 0 {
        s
    } else {
        s + round_div((e - s) * i, n)
    }
}

/// The straight-line sampling of the segment from `a` to `b`: both
/// coordinates interpolated linearly and rounded, diagonal steps allowed.
pub open spec fn line_pts(a: Point, b: Point) -> Seq<Point> {
    Seq::new(
        (seg_steps(a, b) + 1) as nat,
        |i: int|
            Point {
                x: lerp(a.x as int, b.x as int, i, seg_steps(a, b)) as i32,
                y: lerp(a.y as int, b.y as int, i, seg_steps(a, b)) as i32,
            },
    )
}

/// `q` is `p` moved by exactly one along exactly one axis.
pub open spec fn unit_nudge(p: Point, q: Point) -> bool {
    ||| (q.x == p.x && abs(q.y - p.y) == 1)
    ||| (q.y == p.y && abs(q.x - p.x) == 1)
}

/// `q` is `p` itself or `p` moved by one along exactly one axis.
pub open spec fn nudged(p: Point, q: Point) -> bool {
    q == p || unit_nudge(p, q)
}

/// A step between two points that moves along at most one axis.
pub open spec fn axis_step(a: Point, b: Point) -> bool {
    a.x == b.x || a.y == b.y
}

/// A step that moves by exactly one along exactly one axis.
pub open spec fn unit_step(a: Point, b: Point) -> bool {
    ||| (a.x == b.x && (b.y - a.y == 1 || a.y - b.y == 1))
    ||| (a.y == b.y && (b.x - a.x == 1 || a.x - b.x == 1))
}

/// Every consecutive pair of the path is a unit step: the path is connected,
/// takes no diagonal step and never repeats a point consecutively.
pub open spec fn unit_path(s: Seq<Point>) -> bool {
    forall|i: int| 0 <= i < s.len() - 1 ==> unit_step(#[trigger] s[i], s[i + 1])
}

/// A step between two distinct points that moves by at most one on each
/// axis (a king move: straight or diagonal).
pub open spec fn king_step(a: Point, b: Point) -> bool {
    a != b && -1 <= b.x - a.x <= 1 && -1 <= b.y - a.y <= 1
}

/// Every consecutive pair of the path is a king move.
pub open spec fn king_path(s: Seq<Point>) -> bool {
    forall|i: int| 0 <= i < s.len() - 1 ==> king_step(#[trigger] s[i], s[i + 1])
}

/// Every consecutive pair of the path is either a repetition or a king move.
pub open spec fn near_path(s: Seq<Point>) -> bool {
    forall|i: int| 0 <= i < s.len() - 1 ==> (#[trigger] s[i] == s[i + 1] || king_step(s[i], s[i + 1]))
}

/// `e` is one of the two elbow options that split the step from `a` to `b`.
pub open spec fn is_elbow(a: Point, b: Point, e: Point) -> bool {
    e == (Point { x: b.x, y: a.y }) || e == (Point { x: a.x, y: b.y })
}

/// The exact relation between a path and a dediagonalized form of it: every
/// input point survives in order; before the destination of each diagonal
/// step exactly one elbow, taken from the two corner options, is inserted;
/// and nothing else is added.
pub open spec fn dediag_rel(inp: Seq<Point>, out: Seq<Point>) -> bool
    decreases inp.len(),
{
    if inp.len() <= 1 {
        out == inp
    } else {
        let a = inp[0];
        let b = inp[1];
        if a.x != b.x && a.y != b.y {
            &&& out.len() >= 2
            &&& out[0] == a
            &&& is_elbow(a, b, out[1])
            &&& dediag_rel(inp.skip(1), out.skip(2))
        } else {
            &&& out.len() >= 1
            &&& out[0] == a
            &&& dediag_rel(inp.skip(1), out.skip(1))
        }
    }
}

/// No consecutive pair of the path moves along both axes at once.
pub open spec fn no_diagonal(s: Seq<Point>) -> bool {
    forall|i: int| 0 <= i < s.len() - 1 ==> axis_step(#[trigger] s[i], s[i + 1])
}

/// The point lies inside the closed coordinate box.
pub open spec fn within(p: Point, lo_x: int, lo_y: int, hi_x: int, hi_y: int) -> bool {
    lo_x <= p.x <= hi_x && lo_y <= p.y <= hi_y
}

/// Every point of the sequence lies inside the closed coordinate box.
pub open spec fn all_within(s: Seq<Point>, lo_x: int, lo_y: int, hi_x: int, hi_y: int) -> bool {
    forall|i: int| 0 <= i < s.len() ==> within(#[trigger] s[i], lo_x, lo_y, hi_x, hi_y)
}

/// The reconnection of one consecutive pair: a pair that drifted more than
/// Euclidean distance 1.5 apart (squared distance above 2) is replaced by a
/// fresh straight-line sampling; any other pair is kept as it stands.
pub open spec fn join_pair(a: Point, b: Point) -> Seq<Point> {
    if dist_sq(a, b) > 2 {
        line_pts(a, b)
    } else {
        seq![a, b]
    }
}

/// The concatenation of the reconnections of all consecutive pairs. A
/// sequence without a consecutive pair is kept as it stands.
pub open spec fn join_all(points: Seq<Point>) -> Seq<Point>
    decreases points.len(),
{
    if points.len() < 2 {
        points
    } else if points.len() == 2 {
        join_pair(points[0], points[1])
    } else {
        join_pair(points[0], points[1]) + join_all(points.skip(1))
    }
}

/// The sequence with consecutive duplicate points collapsed.
pub open spec fn dedup_spec(points: Seq<Point>) -> Seq<Point>
    decreases points.len(),
{
    if points.len() <= 1 {
        points
    } else if points[0] == points[1] {
        dedup_spec(points.skip(1))
    } else {
        seq![points[0]] + dedup_spec(points.skip(1))
    }
}

/// Rounding a quotient that lies between two integers stays between them.
pub proof fn lemma_round_div_bounds(p: int, q: int, lo: int, hi: int)
    requires
        1 <= q,
        lo * q <= p,
        p <= hi * q,
    ensures
        lo <= round_div(p, q) <= hi,
{
    if p >= 0 {
        assert(lo <= (2 * p + q) / (2 * q) <= hi) by (nonlinear_arith)
            requires 1 <= q, lo * q <= p, p <= hi * q, p >= 0,
        ;
    } else {
        assert(lo <= -((2 * (-p) + q) / (2 * q)) <= hi) by (nonlinear_arith)
            requires 1 <= q, lo * q <= p, p <= hi * q, p < 0,
        ;
    }
}

/// Negating the dividend negates the rounded quotient.
proof fn lemma_round_div_neg(m: int, n: int)
    requires
        0 <= m,
        1 <= n,
    ensures
        round_div(-m, n) == -round_div(m, n),
{
    if m == 0 {
        assert((2 * 0 + n) / (2 * n) == 0) by (nonlinear_arith)
            requires 1 <= n,
        ;
    }
}

/// Growing a non-negative dividend by at most the divisor moves the rounded
/// quotient up by at most one.
proof fn lemma_round_div_adjacent_nonneg(p: int, d: int, n: int)
    requires
        1 <= n,
        0 <= d <= n,
        0 <= p,
    ensures
        round_div(p, n) <= round_div(p + d, n) <= round_div(p, n) + 1,
{
    assert((2 * p + n) / (2 * n) <= (2 * (p + d) + n) / (2 * n) <= (2 * p + n) / (2 * n) + 1)
        by (nonlinear_arith)
        requires 1 <= n, 0 <= d <= n, 0 <= p,
    ;
}

/// One interpolation step moves each coordinate by at most one, and moves
/// the dominant coordinate — the one spanning the full step count — always.
proof fn lemma_lerp_step(sc: int, ec: int, i: int, n: int)
    requires
        1 <= n,
        0 <= i < n,
        abs(ec - sc) <= n,
    ensures
        -1 <= lerp(sc, ec, i + 1, n) - lerp(sc, ec, i, n) <= 1,
        abs(ec - sc) == n ==> lerp(sc, ec, i + 1, n) != lerp(sc, ec, i, n),
{
    let d = ec - sc;
    if d >= 0 {
        assert(d * (i + 1) == d * i + d && d * i >= 0) by (nonlinear_arith)
            requires d >= 0, 0 <= i,
        ;
        lemma_round_div_adjacent_nonneg(d * i, d, n);
        if d == n {
            assert(i * n <= d * i && d * i <= i * n) by (nonlinear_arith)
                requires d == n,
            ;
            lemma_round_div_bounds(d * i, n, i, i);
            assert((i + 1) * n <= d * (i + 1) && d * (i + 1) <= (i + 1) * n) by (nonlinear_arith)
                requires d == n,
            ;
            lemma_round_div_bounds(d * (i + 1), n, i + 1, i + 1);
        }
    } else {
        let m = -d;
        assert(m * i == -(d * i) && m * (i + 1) == -(d * (i + 1)) && m * (i + 1) == m * i + m
            && m * i >= 0) by (nonlinear_arith)
            requires m == -d, d < 0, 0 <= i,
        ;
        lemma_round_div_neg(m * i, n);
        lemma_round_div_neg(m * (i + 1), n);
        lemma_round_div_adjacent_nonneg(m * i, m, n);
        if m == n {
            assert(i * n <= m * i && m * i <= i * n) by (nonlinear_arith)
                requires m == n,
            ;
            lemma_round_div_bounds(m * i, n, i, i);
            assert((i + 1) * n <= m * (i + 1) && m * (i + 1) <= (i + 1) * n) by (nonlinear_arith)
                requires m == n,
            ;
            lemma_round_div_bounds(m * (i + 1), n, i + 1, i + 1);
        }
    }
}

/// One sampled coordinate stays between the segment's two endpoints.
proof fn lemma_lerp_in_range(sc: int, ec: int, i: int, n: int)
    requires
        1 <= n,
        0 <= i <= n,
        abs(ec - sc) <= n,
    ensures
        min(sc, ec) <= lerp(sc, ec, i, n) <= max(sc, ec),
{
    let d = ec - sc;
    assert(min(0, d) * n <= d * i <= max(0, d) * n) by (nonlinear_arith)
        requires 0 <= i <= n, n >= 1, d == ec - sc,
    ;
    lemma_round_div_bounds(d * i, n, min(0, d), max(0, d));
}

/// Every consecutive pair of the sampling is a king move: distinct points
/// at most one apart on each axis.
pub proof fn lemma_line_pts_king(a: Point, b: Point)
    ensures
        king_path(line_pts(a, b)),
{
    let n = seg_steps(a, b);
    let line = line_pts(a, b);
    if n >= 1 {
        assert forall|i: int| 0 <= i < line.len() - 1 implies king_step(
            #[trigger] line[i],
            line[i + 1],
        ) by {
            lemma_lerp_step(a.x as int, b.x as int, i, n);
            lemma_lerp_step(a.y as int, b.y as int, i, n);
            lemma_lerp_in_range(a.x as int, b.x as int, i, n);
            lemma_lerp_in_range(a.x as int, b.x as int, i + 1, n);
            lemma_lerp_in_range(a.y as int, b.y as int, i, n);
            lemma_lerp_in_range(a.y as int, b.y as int, i + 1, n);
            assert(abs(b.x - a.x) == n || abs(b.y - a.y) == n);
        };
    }
}

/// The sampling starts at `a` and ends at `b`.
pub proof fn lemma_line_pts_endpoints(a: Point, b: Point)
    ensures
        line_pts(a, b).len() == seg_steps(a, b) + 1,
        line_pts(a, b).len() >= 1,
        line_pts(a, b)[0] == a,
        line_pts(a, b).last() == b,
{
    let n = seg_steps(a, b);
    if n >= 1 {
        assert((b.x - a.x) * 0 == 0);
        assert((b.y - a.y) * 0 == 0);
        assert((0 + n) / (2 * n) == 0) by (nonlinear_arith)
            requires n >= 1,
        ;
        lemma_round_div_bounds((b.x - a.x) * n, n, b.x - a.x, b.x - a.x);
        lemma_round_div_bounds((b.y - a.y) * n, n, b.y - a.y, b.y - a.y);
    }
}

/// Every sampled point stays inside the bounding box of the two endpoints.
pub proof fn lemma_line_pts_within(a: Point, b: Point)
    ensures
        all_within(
            line_pts(a, b),
            min(a.x as int, b.x as int),
            min(a.y as int, b.y as int),
            max(a.x as int, b.x as int),
            max(a.y as int, b.y as int),
        ),
{
    let n = seg_steps(a, b);
    assert forall|i: int| 0 <= i < line_pts(a, b).len() implies within(
        #[trigger] line_pts(a, b)[i],
        min(a.x as int, b.x as int),
        min(a.y as int, b.y as int),
        max(a.x as int, b.x as int),
        max(a.y as int, b.y as int),
    ) by {
        if n >= 1 {
            let dx = b.x - a.x;
            let dy = b.y - a.y;
            assert(min(0, dx) * n <= dx * i <= max(0, dx) * n) by (nonlinear_arith)
                requires 0 <= i <= n, n >= 1, dx == b.x - a.x,
            ;
            assert(min(0, dy) * n <= dy * i <= max(0, dy) * n) by (nonlinear_arith)
                requires 0 <= i <= n, n >= 1, dy == b.y - a.y,
            ;
            lemma_round_div_bounds(dx * i, n, min(0, dx), max(0, dx));
            lemma_round_div_bounds(dy * i, n, min(0, dy), max(0, dy));
        }
    };
}

/// One interpolated coordinate: the `i`-th of `n + 1` samples between `s`
/// and `e`, which always stays between them.
fn lerp_coord(s: i32, e: i32, i: u64, n: u64) -> (r: i32)
    requires
        1 <= n,
        i <= n,
        n <= 0xffff_ffff,
        abs(e as int - s as int) <= n,
    ensures
        r == lerp(s as int, e as int, i as int, n as int),
        min(s as int, e as int) <= r <= max(s as int, e as int),
{
    let d: i64 = e as i64 - s as i64;
    let neg = d < 0;
    let mag: u64 = if neg {
        (-d) as u64
    } else {
        d as u64
    };
    proof {
        assert(mag as int * i as int <= 0xffff_ffff * 0xffff_ffff) by (nonlinear_arith)
            requires 0 <= mag as int <= 0xffff_ffff, 0 <= i as int <= 0xffff_ffff,
        ;
    }
    let num: u128 = mag as u128 * i as u128;
    let rq: u128 = (2 * num + n as u128) / (2 * n as u128);
    let ghost p = (e as int - s as int) * (i as int);
    proof {
        if neg {
            assert(p == -(mag as int * i as int)) by (nonlinear_arith)
                requires
                    mag as int == -(e as int - s as int),
                    p == (e as int - s as int) * (i as int),
            ;
        } else {
            assert(p == mag as int * i as int) by (nonlinear_arith)
                requires
                    mag as int == e as int - s as int,
                    p == (e as int - s as int) * (i as int),
            ;
        }
        let dd = e as int - s as int;
        assert(min(0, dd) * (n as int) <= p <= max(0, dd) * (n as int)) by (nonlinear_arith)
            requires 0 <= i <= n, n >= 1, p == dd * (i as int),
        ;
        lemma_round_div_bounds(p, n as int, min(0, dd), max(0, dd));
        if p >= 0 {
            assert(rq as int == round_div(p, n as int));
        } else {
            assert(rq as int == (2 * (-p) + n as int) / (2 * n as int));
            assert(round_div(p, n as int) == -(rq as int));
        }
        assert(rq as int <= mag as int);
    }
    let rd: i64 = if neg {
        -(rq as i64)
    } else {
        rq as i64
    };
    (s as i64 + rd) as i32
}

/// Samples `n + 1` points along the segment from `start` to `end`, where
/// `n` is the larger absolute coordinate difference, interpolating both
/// coordinates linearly and rounding to the nearest integer. When the two
/// points coincide the path is the single point itself.
pub fn straight_line(start: &Point, end: &Point) -> (r: Vec<Point>)
    ensures
        r@ == line_pts(*start, *end),
        r@.len() == seg_steps(*start, *end) + 1,
        r@[0] == *start,
        r@.last() == *end,
        king_path(r@),
        all_within(
            r@,
            min(start.x as int, end.x as int),
            min(start.y as int, end.y as int),
            max(start.x as int, end.x as int),
            max(start.y as int, end.y as int),
        ),
{
    proof {
        lemma_line_pts_endpoints(*start, *end);
        lemma_line_pts_within(*start, *end);
        lemma_line_pts_king(*start, *end);
    }
    let dx: i64 = end.x as i64 - start.x as i64;
    let dy: i64 = end.y as i64 - start.y as i64;
    let adx: u64 = if dx < 0 {
        (-dx) as u64
    } else {
        dx as u64
    };
    let ady: u64 = if dy < 0 {
        (-dy) as u64
    } else {
        dy as u64
    };
    let n: u64 = if adx > ady {
        adx
    } else {
        ady
    };
    let ghost sn = seg_steps(*start, *end);
    let mut r: Vec<Point> = Vec::new();
    if n == 0 {
        r.push(Point { x: start.x, y: start.y });
        proof {
            assert(r@ =~= line_pts(*start, *end));
        }
    } else {
        let mut i: u64 = 0;
        while i <= n
            invariant
                1 <= n <= 0xffff_ffff,
                n == sn,
                sn == seg_steps(*start, *end),
                abs(end.x as int - start.x as int) <= n,
                abs(end.y as int - start.y as int) <= n,
                i <= n + 1,
                r@.len() == i,
                forall|j: int| 0 <= j < i ==> r@[j] == line_pts(*start, *end)[j],
            decreases n + 1 - i,
        {
            let x = lerp_coord(start.x, end.x, i, n);
            let y = lerp_coord(start.y, end.y, i, n);
            r.push(Point { x, y });
            i = i + 1;
        }
        proof {
            assert(r@ =~= line_pts(*start, *end));
        }
    }
    r
}

/// A generator of organic-looking paths: straight segments are jittered
/// point by point with the configured chance, then repaired back into a
/// connected, non-diagonal path.
pub struct DistortedLineGnerator {
    pub distortion_chance: u32,
}

impl DistortedLineGnerator {
    /// The chance configuration stays within its scale.
    pub open spec fn wf(&self) -> bool {
        self.distortion_chance <= CHANCE_SCALE
    }

    pub fn new(distortion_chance: u32) -> (g: Self)
        requires
            distortion_chance <= CHANCE_SCALE,
        ensures
            g.wf(),
            g.distortion_chance == distortion_chance,
    {
        DistortedLineGnerator { distortion_chance }
    }

    /// Nudges every interior point, with the configured chance, by one along
    /// a single randomly chosen axis. Points equal in value to the first or
    /// last point are never nudged, so the endpoints stay in place.
    pub fn distort_points(&self, points: Vec<Point>) -> (r: Vec<Point>)
        requires
            self.wf(),
            points@.len() >= 1,
            all_within(
                points@,
                i32::MIN + 1,
                i32::MIN + 1,
                i32::MAX - 1,
                i32::MAX - 1,
            ),
        ensures
            r@.len() == points@.len(),
            r@[0] == points@[0],
            r@.last() == points@.last(),
            forall|k: int| 0 <= k < r@.len() ==> nudged(points@[k], #[trigger] r@[k]),
            forall|k: int|
                0 <= k < r@.len() && (points@[k] == points@[0] || points@[k] == points@.last())
                    ==> #[trigger] r@[k] == points@[k],
            self.distortion_chance == 0 ==> r@ == points@,
            self.distortion_chance == CHANCE_SCALE ==> forall|k: int|
                0 <= k < r@.len() && points@[k] != points@[0] && points@[k] != points@.last()
                    ==> unit_nudge(points@[k], #[trigger] r@[k]),
            forall|lo_x: int, lo_y: int, hi_x: int, hi_y: int|
                #[trigger] all_within(points@, lo_x, lo_y, hi_x, hi_y) ==> all_within(
                    r@,
                    lo_x - 1,
                    lo_y - 1,
                    hi_x + 1,
                    hi_y + 1,
                ),
    {
        let first = points[0];
        let last = points[points.len() - 1];
        let mut r: Vec<Point> = Vec::new();
        let mut j: usize = 0;
        while j < points.len()
            invariant
                self.wf(),
                points@.len() >= 1,
                all_within(points@, i32::MIN + 1, i32::MIN + 1, i32::MAX - 1, i32::MAX - 1),
                first == points@[0],
                last == points@.last(),
                j <= points@.len(),
                r@.len() == j,
                forall|k: int| 0 <= k < j ==> nudged(points@[k], #[trigger] r@[k]),
                forall|k: int|
                    0 <= k < j && (points@[k] == points@[0] || points@[k] == points@.last())
                        ==> #[trigger] r@[k] == points@[k],
                self.distortion_chance == 0 ==> r@ == points@.take(j as int),
                self.distortion_chance == CHANCE_SCALE ==> forall|k: int|
                    0 <= k < j && points@[k] != points@[0] && points@[k] != points@.last()
                        ==> unit_nudge(points@[k], #[trigger] r@[k]),
            decreases points@.len() - j,
        {
            let p = points[j];
            let mut q = p;
            if p != first && p != last && chance(self.distortion_chance, CHANCE_SCALE) {
                let off: i32 = if coin() {
                    1
                } else {
                    -1
                };
                if coin() {
                    q = Point { x: p.x, y: p.y + off };
                } else {
                    q = Point { x: p.x + off, y: p.y };
                }
            }
            r.push(q);
            proof {
                assert(points@.take(j + 1) =~= points@.take(j as int).push(points@[j as int]));
            }
            j = j + 1;
        }
        proof {
            assert(points@.take(points@.len() as int) =~= points@);
            assert forall|lo_x: int, lo_y: int, hi_x: int, hi_y: int|
                #[trigger] all_within(points@, lo_x, lo_y, hi_x, hi_y) implies all_within(
                r@,
                lo_x - 1,
                lo_y - 1,
                hi_x + 1,
                hi_y + 1,
            ) by {
                assert forall|k: int| 0 <= k < r@.len() implies within(
                    #[trigger] r@[k],
                    lo_x - 1,
                    lo_y - 1,
                    hi_x + 1,
                    hi_y + 1,
                ) by {
                    assert(within(points@[k], lo_x, lo_y, hi_x, hi_y));
                    assert(nudged(points@[k], r@[k]));
                };
            };
        }
        r
    }

    /// The whole pipeline: sample the straight segment, nudge its interior
    /// points, reconnect pairs that drifted apart, collapse duplicates and
    /// split the surviving diagonal steps. The result runs from `start` to
    /// `end` inclusive, takes no diagonal step, and strays at most one cell
    /// beyond the segment's bounding box.
    pub fn generate(&self, start: &Point, end: &Point) -> (r: Vec<Point>)
        requires
            self.wf(),
            i32::MIN + 1 <= start.x <= i32::MAX - 1,
            i32::MIN + 1 <= start.y <= i32::MAX - 1,
            i32::MIN + 1 <= end.x <= i32::MAX - 1,
            i32::MIN + 1 <= end.y <= i32::MAX - 1,
        ensures
            r@.len() >= 1,
            r@[0] == *start,
            r@.last() == *end,
            no_diagonal(r@),
            unit_path(r@),
            *start == *end ==> r@ == seq![*start],
            all_within(
                r@,
                min(start.x as int, end.x as int) - 1,
                min(start.y as int, end.y as int) - 1,
                max(start.x as int, end.x as int) + 1,
                max(start.y as int, end.y as int) + 1,
            ),
    {
        let ghost lo_x = min(start.x as int, end.x as int);
        let ghost lo_y = min(start.y as int, end.y as int);
        let ghost hi_x = max(start.x as int, end.x as int);
        let ghost hi_y = max(start.y as int, end.y as int);
        let pts1 = straight_line(start, end);
        proof {
            assert forall|k: int| 0 <= k < pts1@.len() implies within(
                #[trigger] pts1@[k],
                i32::MIN + 1,
                i32::MIN + 1,
                i32::MAX - 1,
                i32::MAX - 1,
            ) by {
                assert(within(pts1@[k], lo_x, lo_y, hi_x, hi_y));
            };
        }
        let pts2 = self.distort_points(pts1);
        proof {
            assert(all_within(pts2@, lo_x - 1, lo_y - 1, hi_x + 1, hi_y + 1));
        }
        let pts3 = connect_points(pts2);
        proof {
            lemma_join_all_props(pts2@);
            lemma_dedup_props(join_all(pts2@));
            lemma_join_all_within(pts2@, lo_x - 1, lo_y - 1, hi_x + 1, hi_y + 1);
            lemma_dedup_within(join_all(pts2@), lo_x - 1, lo_y - 1, hi_x + 1, hi_y + 1);
        }
        let r = dediagonalize(pts3);
        proof {
            assert(all_within(pts3@, lo_x - 1, lo_y - 1, hi_x + 1, hi_y + 1));
            assert(all_within(r@, lo_x - 1, lo_y - 1, hi_x + 1, hi_y + 1));
            lemma_dediag_unit(pts3@, r@);
            if *start == *end {
                assert(seg_steps(*start, *end) == 0);
                assert(pts1@ =~= seq![*start]);
                assert(pts2@ =~= seq![*start]);
                assert(join_all(pts2@) == pts2@);
                assert(dedup_spec(pts2@) == pts2@);
                assert(pts3@ == pts2@);
                assert(dediag_rel(pts3@, r@));
                assert(r@ == pts3@);
                assert(r@ == seq![*start]);
            }
        }
        r
    }
}

/// Reconnects one consecutive pair, exactly as `join_pair` states.
fn join_pair_exec(a: &Point, b: &Point) -> (r: Vec<Point>)
    ensures
        r@ == join_pair(*a, *b),
{
    let d = a.dist_squared(b);
    if d > 2 {
        straight_line(a, b)
    } else {
        let mut v: Vec<Point> = Vec::new();
        v.push(*a);
        v.push(*b);
        proof {
            assert(v@ =~= seq![*a, *b]);
        }
        v
    }
}

/// Appending a point reconnects exactly one further pair.
proof fn lemma_join_all_snoc(s: Seq<Point>, q: Point)
    requires
        s.len() >= 2,
    ensures
        join_all(s.push(q)) == join_all(s) + join_pair(s.last(), q),
    decreases s.len(),
{
    if s.len() == 2 {
        let t = s.push(q);
        assert(t.len() == 3);
        assert(t[0] == s[0]);
        assert(t[1] == s[1]);
        assert(t.skip(1) =~= seq![s[1], q]);
        assert(join_all(t) == join_pair(t[0], t[1]) + join_all(t.skip(1)));
        assert(seq![s[1], q][0] == s[1] && seq![s[1], q][1] == q);
        assert(join_all(seq![s[1], q]) == join_pair(s[1], q));
        assert(join_all(s) == join_pair(s[0], s[1]));
        assert(s.last() == s[1]);
    } else {
        assert(s.push(q).skip(1) =~= s.skip(1).push(q));
        lemma_join_all_snoc(s.skip(1), q);
        assert(join_all(s.push(q)) == join_pair(s[0], s[1]) + (join_all(s.skip(1)) + join_pair(
            s.last(),
            q,
        )));
        assert(join_pair(s[0], s[1]) + (join_all(s.skip(1)) + join_pair(s.last(), q)) =~= (
        join_pair(s[0], s[1]) + join_all(s.skip(1))) + join_pair(s.last(), q));
    }
}

/// Collapsing duplicates after appending a point either absorbs it into the
/// last run or appends it.
proof fn lemma_dedup_snoc(s: Seq<Point>, q: Point)
    requires
        s.len() >= 1,
    ensures
        dedup_spec(s.push(q)) == if s.last() == q {
            dedup_spec(s)
        } else {
            dedup_spec(s).push(q)
        },
    decreases s.len(),
{
    if s.len() == 1 {
        let t = s.push(q);
        assert(t.len() == 2);
        assert(t[0] == s[0]);
        assert(t[1] == q);
        assert(t.skip(1) =~= seq![q]);
        assert(dedup_spec(seq![q]) == seq![q]);
        assert(dedup_spec(s) == s);
        assert(s.last() == s[0]);
        if s.last() == q {
            assert(dedup_spec(t) == dedup_spec(t.skip(1)));
            assert(dedup_spec(t) =~= dedup_spec(s));
        } else {
            assert(dedup_spec(t) == seq![t[0]] + dedup_spec(t.skip(1)));
            assert(dedup_spec(t) =~= dedup_spec(s).push(q));
        }
    } else {
        assert(s.push(q).skip(1) =~= s.skip(1).push(q));
        lemma_dedup_snoc(s.skip(1), q);
        if s.last() == q {
            if s[0] == s[1] {
            } else {
                assert(dedup_spec(s.push(q)) =~= dedup_spec(s));
            }
        } else {
            if s[0] == s[1] {
            } else {
                assert(seq![s[0]] + dedup_spec(s.skip(1)).push(q) =~= (seq![s[0]] + dedup_spec(
                    s.skip(1),
                )).push(q));
            }
        }
    }
}

/// The reconnection of all pairs keeps the first and last points and never
/// shortens the path.
pub proof fn lemma_join_all_props(s: Seq<Point>)
    requires
        s.len() >= 1,
    ensures
        join_all(s).len() >= s.len(),
        join_all(s)[0] == s[0],
        join_all(s).last() == s.last(),
    decreases s.len(),
{
    if s.len() >= 2 {
        lemma_join_pair_props(s[0], s[1]);
        if s.len() > 2 {
            lemma_join_all_props(s.skip(1));
            assert(s.skip(1).last() == s.last());
            assert(join_all(s).last() == join_all(s.skip(1)).last());
        }
    }
}

/// One reconnected pair runs from its first to its second point.
pub proof fn lemma_join_pair_props(a: Point, b: Point)
    ensures
        join_pair(a, b).len() >= 2,
        join_pair(a, b)[0] == a,
        join_pair(a, b).last() == b,
{
    if dist_sq(a, b) > 2 {
        lemma_line_pts_endpoints(a, b);
        if a.x == b.x && a.y == b.y {
            assert((a.x - b.x) * (a.x - b.x) == 0) by (nonlinear_arith)
                requires a.x == b.x,
            ;
            assert((a.y - b.y) * (a.y - b.y) == 0) by (nonlinear_arith)
                requires a.y == b.y,
            ;
            assert(false);
        }
        assert(seg_steps(a, b) >= 1);
    }
}

/// Reconnection keeps every point inside any box that holds the input.
pub proof fn lemma_join_all_within(s: Seq<Point>, lo_x: int, lo_y: int, hi_x: int, hi_y: int)
    requires
        all_within(s, lo_x, lo_y, hi_x, hi_y),
    ensures
        all_within(join_all(s), lo_x, lo_y, hi_x, hi_y),
    decreases s.len(),
{
    if s.len() < 2 {
    } else {
        lemma_join_pair_within(s[0], s[1], lo_x, lo_y, hi_x, hi_y);
        if s.len() > 2 {
            assert(all_within(s.skip(1), lo_x, lo_y, hi_x, hi_y)) by {
                assert forall|i: int| 0 <= i < s.skip(1).len() implies within(
                    #[trigger] s.skip(1)[i],
                    lo_x,
                    lo_y,
                    hi_x,
                    hi_y,
                ) by {
                    assert(s.skip(1)[i] == s[i + 1]);
                };
            };
            lemma_join_all_within(s.skip(1), lo_x, lo_y, hi_x, hi_y);
            assert forall|i: int| 0 <= i < join_all(s).len() implies within(
                #[trigger] join_all(s)[i],
                lo_x,
                lo_y,
                hi_x,
                hi_y,
            ) by {
                if i < join_pair(s[0], s[1]).len() {
                    assert(join_all(s)[i] == join_pair(s[0], s[1])[i]);
                } else {
                    assert(join_all(s)[i] == join_all(s.skip(1))[i - join_pair(
                        s[0],
                        s[1],
                    ).len()]);
                }
            };
        }
    }
}

/// One reconnected pair stays inside any box that holds its two points.
pub proof fn lemma_join_pair_within(
    a: Point,
    b: Point,
    lo_x: int,
    lo_y: int,
    hi_x: int,
    hi_y: int,
)
    requires
        within(a, lo_x, lo_y, hi_x, hi_y),
        within(b, lo_x, lo_y, hi_x, hi_y),
    ensures
        all_within(join_pair(a, b), lo_x, lo_y, hi_x, hi_y),
{
    if dist_sq(a, b) > 2 {
        lemma_line_pts_within(a, b);
        assert forall|i: int| 0 <= i < join_pair(a, b).len() implies within(
            #[trigger] join_pair(a, b)[i],
            lo_x,
            lo_y,
            hi_x,
            hi_y,
        ) by {
            assert(within(
                line_pts(a, b)[i],
                min(a.x as int, b.x as int),
                min(a.y as int, b.y as int),
                max(a.x as int, b.x as int),
                max(a.y as int, b.y as int),
            ));
        };
    } else {
        assert forall|i: int| 0 <= i < join_pair(a, b).len() implies within(
            #[trigger] join_pair(a, b)[i],
            lo_x,
            lo_y,
            hi_x,
            hi_y,
        ) by {
            assert(join_pair(a, b)[i] == a || join_pair(a, b)[i] == b);
        };
    }
}

/// Collapsing duplicates keeps the first and last points and never empties
/// a non-empty path.
pub proof fn lemma_dedup_props(s: Seq<Point>)
    requires
        s.len() >= 1,
    ensures
        dedup_spec(s).len() >= 1,
        dedup_spec(s)[0] == s[0],
        dedup_spec(s).last() == s.last(),
    decreases s.len(),
{
    if s.len() > 1 {
        lemma_dedup_props(s.skip(1));
    }
}

/// Collapsing duplicates keeps every point inside any box that holds the
/// input.
pub proof fn lemma_dedup_within(s: Seq<Point>, lo_x: int, lo_y: int, hi_x: int, hi_y: int)
    requires
        all_within(s, lo_x, lo_y, hi_x, hi_y),
    ensures
        all_within(dedup_spec(s), lo_x, lo_y, hi_x, hi_y),
    decreases s.len(),
{
    if s.len() <= 1 {
    } else {
        assert(all_within(s.skip(1), lo_x, lo_y, hi_x, hi_y)) by {
            assert forall|i: int| 0 <= i < s.skip(1).len() implies within(
                #[trigger] s.skip(1)[i],
                lo_x,
                lo_y,
                hi_x,
                hi_y,
            ) by {
                assert(s.skip(1)[i] == s[i + 1]);
            };
        };
        lemma_dedup_within(s.skip(1), lo_x, lo_y, hi_x, hi_y);
        if s[0] == s[1] {
        } else {
            assert forall|i: int| 0 <= i < dedup_spec(s).len() implies within(
                #[trigger] dedup_spec(s)[i],
                lo_x,
                lo_y,
                hi_x,
                hi_y,
            ) by {
                if i == 0 {
                    assert(dedup_spec(s)[0] == s[0]);
                } else {
                    assert(dedup_spec(s)[i] == dedup_spec(s.skip(1))[i - 1]);
                }
            };
        }
    }
}

/// Two sequences inside a box concatenate into a sequence inside the box.
pub proof fn lemma_all_within_concat(
    a: Seq<Point>,
    b: Seq<Point>,
    lo_x: int,
    lo_y: int,
    hi_x: int,
    hi_y: int,
)
    requires
        all_within(a, lo_x, lo_y, hi_x, hi_y),
        all_within(b, lo_x, lo_y, hi_x, hi_y),
    ensures
        all_within(a + b, lo_x, lo_y, hi_x, hi_y),
{
    assert forall|i: int| 0 <= i < (a + b).len() implies within(
        #[trigger] (a + b)[i],
        lo_x,
        lo_y,
        hi_x,
        hi_y,
    ) by {
        if i < a.len() {
            assert((a + b)[i] == a[i]);
        } else {
            assert((a + b)[i] == b[i - a.len()]);
        }
    };
}

/// One reconnected pair is a run of repetitions and king moves: a kept
/// pair lies within squared distance two, a re-sampled pair is a king walk.
proof fn lemma_join_pair_near(a: Point, b: Point)
    ensures
        near_path(join_pair(a, b)),
{
    if dist_sq(a, b) > 2 {
        lemma_line_pts_king(a, b);
        let line = line_pts(a, b);
        assert forall|i: int| 0 <= i < line.len() - 1 implies (#[trigger] line[i] == line[i + 1]
            || king_step(line[i], line[i + 1])) by {
            assert(king_step(line[i], line[i + 1]));
        };
    } else {
        assert(-1 <= b.x - a.x <= 1 && -1 <= b.y - a.y <= 1) by (nonlinear_arith)
            requires (a.x - b.x) * (a.x - b.x) + (a.y - b.y) * (a.y - b.y) <= 2,
        ;
        let jp = seq![a, b];
        assert(jp[0] == a && jp[1] == b);
    }
}

/// The reconnection of all pairs is a run of repetitions and king moves.
proof fn lemma_join_all_near(s: Seq<Point>)
    ensures
        near_path(join_all(s)),
    decreases s.len(),
{
    if s.len() < 2 {
    } else if s.len() == 2 {
        lemma_join_pair_near(s[0], s[1]);
    } else {
        lemma_join_pair_near(s[0], s[1]);
        lemma_join_all_near(s.skip(1));
        lemma_join_pair_props(s[0], s[1]);
        assert(s.skip(1).len() >= 1);
        lemma_join_all_props(s.skip(1));
        assert(s.skip(1)[0] == s[1]);
        assert(s.skip(1).len() >= 2 ==> s.skip(1)[1] == s[2]);
        let jp = join_pair(s[0], s[1]);
        let rest = join_all(s.skip(1));
        assert(jp.last() == s[1] && rest[0] == s[1]);
        assert forall|i: int| 0 <= i < (jp + rest).len() - 1 implies (#[trigger] (jp + rest)[i]
            == (jp + rest)[i + 1] || king_step((jp + rest)[i], (jp + rest)[i + 1])) by {
            if i < jp.len() - 1 {
                assert((jp + rest)[i] == jp[i]);
                assert((jp + rest)[i + 1] == jp[i + 1]);
                assert(jp[i] == jp[i + 1] || king_step(jp[i], jp[i + 1]));
            } else if i == jp.len() - 1 {
                assert((jp + rest)[i] == jp[jp.len() - 1]);
                assert((jp + rest)[i + 1] == rest[0]);
                assert(jp[jp.len() - 1] == jp.last());
            } else {
                let j = i - jp.len();
                assert((jp + rest)[i] == rest[j]);
                assert((jp + rest)[i + 1] == rest[j + 1]);
                assert(rest[j] == rest[j + 1] || king_step(rest[j], rest[j + 1]));
            }
        };
        assert(join_all(s) == jp + rest);
    }
}

/// Collapsing the repetitions of a repetition-and-king run leaves a pure
/// king walk.
proof fn lemma_dedup_king(s: Seq<Point>)
    requires
        near_path(s),
    ensures
        king_path(dedup_spec(s)),
    decreases s.len(),
{
    if s.len() <= 1 {
    } else {
        assert(near_path(s.skip(1))) by {
            assert forall|i: int| 0 <= i < s.skip(1).len() - 1 implies (#[trigger] s.skip(1)[i]
                == s.skip(1)[i + 1] || king_step(s.skip(1)[i], s.skip(1)[i + 1])) by {
                assert(s.skip(1)[i] == s[i + 1]);
                assert(s.skip(1)[i + 1] == s[i + 2]);
                assert(s[i + 1] == s[i + 2] || king_step(s[i + 1], s[i + 2]));
            };
        };
        lemma_dedup_king(s.skip(1));
        if s[0] == s[1] {
        } else {
            lemma_dedup_props(s.skip(1));
            assert(s.skip(1)[0] == s[1]);
            let d = dedup_spec(s.skip(1));
            assert(d[0] == s[1]);
            assert(s[0] == s[1] || king_step(s[0], s[1]));
            let full = seq![s[0]] + d;
            assert forall|i: int| 0 <= i < full.len() - 1 implies king_step(
                #[trigger] full[i],
                full[i + 1],
            ) by {
                if i == 0 {
                    assert(full[0] == s[0] && full[1] == d[0]);
                } else {
                    assert(full[i] == d[i - 1]);
                    assert(full[i + 1] == d[i]);
                    assert(king_step(d[i - 1], d[i]));
                }
            };
            assert(dedup_spec(s) == full);
        }
    }
}

/// Reconnects every consecutive pair whose points drifted more than
/// Euclidean distance 1.5 apart, then collapses consecutive duplicates.
pub fn connect_points(points: Vec<Point>) -> (r: Vec<Point>)
    ensures
        r@ == dedup_spec(join_all(points@)),
        king_path(r@),
{
    proof {
        lemma_join_all_near(points@);
        lemma_dedup_king(join_all(points@));
    }
    if points.len() < 2 {
        proof {
            assert(join_all(points@) == points@);
            assert(dedup_spec(points@) == points@);
        }
        return points;
    }
    let mut out: Vec<Point> = Vec::new();
    let mut jp = join_pair_exec(&points[0], &points[1]);
    out.append(&mut jp);
    let mut i: usize = 2;
    proof {
        assert(points@.take(2) =~= seq![points@[0], points@[1]]);
        assert(out@ =~= Seq::<Point>::empty() + join_pair(points@[0], points@[1]));
        assert(out@ == join_all(points@.take(2)));
    }
    while i < points.len()
        invariant
            2 <= i <= points@.len(),
            points@.len() >= 2,
            out@ == join_all(points@.take(i as int)),
        decreases points@.len() - i,
    {
        let mut jp = join_pair_exec(&points[i - 1], &points[i]);
        out.append(&mut jp);
        proof {
            let t = points@.take(i as int);
            assert(t.len() >= 2);
            assert(t.last() == points@[i - 1]);
            lemma_join_all_snoc(t, points@[i as int]);
            assert(t.push(points@[i as int]) =~= points@.take(i + 1));
        }
        i = i + 1;
    }
    proof {
        assert(points@.take(points@.len() as int) =~= points@);
    }
    dedup_points(out)
}

/// Collapses consecutive duplicate points, keeping the first of each run.
fn dedup_points(points: Vec<Point>) -> (r: Vec<Point>)
    ensures
        r@ == dedup_spec(points@),
{
    let mut out: Vec<Point> = Vec::new();
    if points.len() == 0 {
        proof {
            assert(out@ =~= dedup_spec(points@));
        }
        return out;
    }
    out.push(points[0]);
    let mut i: usize = 1;
    proof {
        assert(points@.take(1) =~= seq![points@[0]]);
        assert(out@ =~= dedup_spec(points@.take(1)));
    }
    while i < points.len()
        invariant
            1 <= i <= points@.len(),
            points@.len() >= 1,
            out@ == dedup_spec(points@.take(i as int)),
        decreases points@.len() - i,
    {
        proof {
            let t = points@.take(i as int);
            assert(t.last() == points@[i - 1]);
            lemma_dedup_snoc(t, points@[i as int]);
            assert(t.push(points@[i as int]) =~= points@.take(i + 1));
        }
        if points[i] != points[i - 1] {
            out.push(points[i]);
        }
        i = i + 1;
    }
    proof {
        assert(points@.take(points@.len() as int) =~= points@);
    }
    out
}

/// Appending a point extends the dediagonalization relation by one step:
/// with an elbow when the new pair is diagonal, plainly otherwise.
proof fn lemma_dediag_snoc(s: Seq<Point>, o: Seq<Point>, q: Point, e: Point)
    requires
        s.len() >= 1,
        dediag_rel(s, o),
    ensures
        s.last().x != q.x && s.last().y != q.y && is_elbow(s.last(), q, e) ==> dediag_rel(
            s.push(q),
            o.push(e).push(q),
        ),
        s.last().x == q.x || s.last().y == q.y ==> dediag_rel(s.push(q), o.push(q)),
    decreases s.len(),
{
    let t = s.push(q);
    assert(t[0] == s[0]);
    assert(s.last() == s[s.len() - 1]);
    if s.len() == 1 {
        assert(o == s);
        assert(t.len() == 2 && t[1] == q);
        if s.last().x != q.x && s.last().y != q.y && is_elbow(s.last(), q, e) {
            let o2 = o.push(e).push(q);
            assert(o2[0] == s[0] && o2[1] == e);
            assert(t.skip(1) =~= seq![q]);
            assert(o2.skip(2) =~= seq![q]);
            assert(dediag_rel(t.skip(1), o2.skip(2)));
            assert(dediag_rel(t, o2));
        } else if s.last().x == q.x || s.last().y == q.y {
            let o2 = o.push(q);
            assert(o2[0] == s[0]);
            assert(t.skip(1) =~= seq![q]);
            assert(o2.skip(1) =~= seq![q]);
            assert(dediag_rel(t.skip(1), o2.skip(1)));
            assert(dediag_rel(t, o2));
        }
    } else {
        assert(t.len() >= 3 && t[1] == s[1]);
        assert(t.skip(1) =~= s.skip(1).push(q));
        assert(s.skip(1).last() == s.last());
        assert(s.skip(1)[0] == s[1]);
        assert(s.skip(1).last() == s.last());
        if s[0].x != s[1].x && s[0].y != s[1].y {
            assert(o.len() >= 2 && o[0] == s[0] && is_elbow(s[0], s[1], o[1]));
            lemma_dediag_snoc(s.skip(1), o.skip(2), q, e);
            if s.last().x != q.x && s.last().y != q.y && is_elbow(s.last(), q, e) {
                let o2 = o.push(e).push(q);
                assert(o2[0] == o[0] && o2[1] == o[1]);
                assert(o2.skip(2) =~= o.skip(2).push(e).push(q));
                assert(dediag_rel(s.skip(1).push(q), o.skip(2).push(e).push(q)));
                assert(dediag_rel(t.skip(1), o2.skip(2)));
                assert(dediag_rel(t, o2));
            } else if s.last().x == q.x || s.last().y == q.y {
                let o2 = o.push(q);
                assert(o2[0] == o[0] && o2[1] == o[1]);
                assert(o2.skip(2) =~= o.skip(2).push(q));
                assert(dediag_rel(s.skip(1).push(q), o.skip(2).push(q)));
                assert(dediag_rel(t.skip(1), o2.skip(2)));
                assert(dediag_rel(t, o2));
            }
        } else {
            assert(o.len() >= 1 && o[0] == s[0]);
            lemma_dediag_snoc(s.skip(1), o.skip(1), q, e);
            if s.last().x != q.x && s.last().y != q.y && is_elbow(s.last(), q, e) {
                let o2 = o.push(e).push(q);
                assert(o2[0] == o[0]);
                assert(o2.skip(1) =~= o.skip(1).push(e).push(q));
                assert(dediag_rel(s.skip(1).push(q), o.skip(1).push(e).push(q)));
                assert(dediag_rel(t.skip(1), o2.skip(1)));
                assert(dediag_rel(t, o2));
            } else if s.last().x == q.x || s.last().y == q.y {
                let o2 = o.push(q);
                assert(o2[0] == o[0]);
                assert(o2.skip(1) =~= o.skip(1).push(q));
                assert(dediag_rel(s.skip(1).push(q), o.skip(1).push(q)));
                assert(dediag_rel(t.skip(1), o2.skip(1)));
                assert(dediag_rel(t, o2));
            }
        }
    }
}

/// A path without a diagonal step passes through dediagonalization
/// unchanged: the relation forces the output to equal the input.
pub proof fn lemma_dediag_identity(s: Seq<Point>, o: Seq<Point>)
    requires
        dediag_rel(s, o),
        no_diagonal(s),
    ensures
        o == s,
    decreases s.len(),
{
    if s.len() > 1 {
        assert(axis_step(s[0], s[1]));
        assert(no_diagonal(s.skip(1))) by {
            assert forall|i: int| 0 <= i < s.skip(1).len() - 1 implies axis_step(
                s.skip(1)[i],
                #[trigger] s.skip(1)[i + 1],
            ) by {
                assert(s.skip(1)[i] == s[i + 1]);
                assert(s.skip(1)[i + 1] == s[i + 2]);
                assert(axis_step(s[i + 1], s[i + 2]));
            };
        };
        lemma_dediag_identity(s.skip(1), o.skip(1));
        assert(o.len() == s.len());
        assert forall|i: int| 0 <= i < s.len() implies o[i] == s[i] by {
            if i >= 1 {
                assert(o.skip(1)[i - 1] == s.skip(1)[i - 1]);
            }
        };
        assert(o =~= s);
    }
}

/// Dediagonalizing a path of king moves yields a path of unit steps: each
/// diagonal move splits into two unit steps, each straight move already is
/// one.
pub proof fn lemma_dediag_unit(s: Seq<Point>, o: Seq<Point>)
    requires
        dediag_rel(s, o),
        king_path(s),
    ensures
        unit_path(o),
    decreases s.len(),
{
    if s.len() <= 1 {
        assert(o == s);
    } else {
        let a = s[0];
        let b = s[1];
        assert(king_step(a, b));
        assert(king_path(s.skip(1))) by {
            assert forall|i: int| 0 <= i < s.skip(1).len() - 1 implies king_step(
                s.skip(1)[i],
                #[trigger] s.skip(1)[i + 1],
            ) by {
                assert(s.skip(1)[i] == s[i + 1]);
                assert(s.skip(1)[i + 1] == s[i + 2]);
                assert(king_step(s[i + 1], s[i + 2]));
            };
        };
        assert(s.skip(1)[0] == s[1]);
        if s.skip(1).len() >= 2 {
            assert(s.skip(1)[1] == s[2]);
        }
        if a.x != b.x && a.y != b.y {
            lemma_dediag_unit(s.skip(1), o.skip(2));
            assert(dediag_rel(s.skip(1), o.skip(2)));
            if s.skip(1).len() <= 1 {
                assert(o.skip(2) == s.skip(1));
            }
            assert(o.skip(2).len() >= 1);
            assert(o.skip(2)[0] == s.skip(1)[0]);
            assert(o.skip(2)[0] == b);
            assert(o[2] == o.skip(2)[0]);
            assert(unit_step(a, o[1]) && unit_step(o[1], o[2]));
            assert forall|i: int| 0 <= i < o.len() - 1 implies unit_step(o[i], #[trigger] o[i + 1]) by {
                if i >= 2 {
                    assert(o[i] == o.skip(2)[i - 2]);
                    assert(o[i + 1] == o.skip(2)[i - 1]);
                    assert(unit_step(o.skip(2)[i - 2], o.skip(2)[i - 1]));
                }
            };
        } else {
            lemma_dediag_unit(s.skip(1), o.skip(1));
            assert(dediag_rel(s.skip(1), o.skip(1)));
            if s.skip(1).len() <= 1 {
                assert(o.skip(1) == s.skip(1));
            }
            assert(o.skip(1).len() >= 1);
            assert(o.skip(1)[0] == s.skip(1)[0]);
            assert(o.skip(1)[0] == b);
            assert(o[1] == o.skip(1)[0]);
            assert(unit_step(a, b));
            assert forall|i: int| 0 <= i < o.len() - 1 implies unit_step(o[i], #[trigger] o[i + 1]) by {
                if i >= 1 {
                    assert(o[i] == o.skip(1)[i - 1]);
                    assert(o[i + 1] == o.skip(1)[i]);
                    assert(unit_step(o.skip(1)[i - 1], o.skip(1)[i]));
                }
            };
        }
    }
}

/// Splits every diagonal step by inserting one elbow point, chosen at
/// random between the two corner options, so that every step of the result
/// moves along at most one axis. The path's points, first and last included,
/// all survive in order.
pub fn dediagonalize(points: Vec<Point>) -> (r: Vec<Point>)
    ensures
        dediag_rel(points@, r@),
        r@.len() >= points@.len(),
        points@.len() >= 1 ==> r@.len() >= 1 && r@[0] == points@[0] && r@.last()
            == points@.last(),
        no_diagonal(r@),
        forall|lo_x: int, lo_y: int, hi_x: int, hi_y: int|
            #[trigger] all_within(points@, lo_x, lo_y, hi_x, hi_y) ==> all_within(
                r@,
                lo_x,
                lo_y,
                hi_x,
                hi_y,
            ),
{
    let mut r: Vec<Point> = Vec::new();
    if points.len() == 0 {
        proof {
            assert(r@ =~= points@);
        }
        return r;
    }
    r.push(points[0]);
    let mut i: usize = 1;
    proof {
        assert(points@.take(1) =~= seq![points@[0]]);
        assert(r@ =~= seq![points@[0]]);
    }
    while i < points.len()
        invariant
            1 <= i <= points@.len(),
            r@.len() >= i,
            r@[0] == points@[0],
            r@.last() == points@[i - 1],
            no_diagonal(r@),
            dediag_rel(points@.take(i as int), r@),
            forall|k: int|
                0 <= k < r@.len() ==> exists|u: int, v: int|
                    0 <= u < points@.len() && 0 <= v < points@.len() && #[trigger] r@[k].x
                        == points@[u].x && r@[k].y == points@[v].y,
        decreases points@.len() - i,
    {
        let ghost r_old = r@;
        let ghost t = points@.take(i as int);
        let prev = points[i - 1];
        let p = points[i];
        if p.x != prev.x && p.y != prev.y {
            let elbow = if coin() {
                Point { x: p.x, y: prev.y }
            } else {
                Point { x: prev.x, y: p.y }
            };
            r.push(elbow);
            r.push(p);
            proof {
                assert(t.last() == points@[i - 1]);
                assert(is_elbow(prev, p, elbow));
                lemma_dediag_snoc(t, r_old, p, elbow);
                assert(r@ =~= r_old.push(elbow).push(p));
                assert(t.push(p) =~= points@.take(i + 1));
            }
        } else {
            r.push(p);
            proof {
                assert(t.last() == points@[i - 1]);
                lemma_dediag_snoc(t, r_old, p, p);
                assert(t.push(p) =~= points@.take(i + 1));
            }
        }
        proof {
            assert forall|k: int| 0 <= k < r@.len() - 1 implies axis_step(
                r@[k],
                #[trigger] r@[k + 1],
            ) by {
                if k < r_old.len() - 1 {
                    assert(r@[k] == r_old[k]);
                    assert(r@[k + 1] == r_old[k + 1]);
                }
            };
            assert forall|k: int| 0 <= k < r@.len() implies exists|u: int, v: int|
                0 <= u < points@.len() && 0 <= v < points@.len() && #[trigger] r@[k].x
                    == points@[u].x && r@[k].y == points@[v].y by {
                if k < r_old.len() {
                    assert(r@[k] == r_old[k]);
                } else {
                    assert(r@[k].x == points@[i - 1].x || r@[k].x == points@[i as int].x);
                    assert(r@[k].y == points@[i - 1].y || r@[k].y == points@[i as int].y);
                }
            };
        }
        i = i + 1;
    }
    proof {
        assert(points@.take(points@.len() as int) =~= points@);
        assert forall|lo_x: int, lo_y: int, hi_x: int, hi_y: int|
            #[trigger] all_within(points@, lo_x, lo_y, hi_x, hi_y) implies all_within(
            r@,
            lo_x,
            lo_y,
            hi_x,
            hi_y,
        ) by {
            assert forall|k: int| 0 <= k < r@.len() implies within(
                #[trigger] r@[k],
                lo_x,
                lo_y,
                hi_x,
                hi_y,
            ) by {
                let (u, v) = choose|u: int, v: int|
                    0 <= u < points@.len() && 0 <= v < points@.len() && r@[k].x == points@[u].x
                        && r@[k].y == points@[v].y;
                assert(within(points@[u], lo_x, lo_y, hi_x, hi_y));
                assert(within(points@[v], lo_x, lo_y, hi_x, hi_y));
            };
        };
    }
    r
}

} // verus!
