//! Squared Euclidean distance between quantised feature vectors, and the
//! bounding boxes that bound it from below.

use vstd::prelude::*;

verus! {

/// Number of features of a transaction.
pub const DIMS: usize = 14;

/// Number of lanes of a stored vector: the features and two zero lanes.
pub const LANES: usize = 16;

/// A quantised vector with its label (1 for fraud, 0 for legit).
pub type Point = ([i16; 16], u8);

/// Square of an integer.
pub open spec fn sq(x: int) -> int {
    x * x
}

/// Sum of the squared differences of the first `n` lanes.
pub open spec fn dist_upto(a: Seq<i16>, b: Seq<i16>, n: nat) -> int
    decreases n,
{
    if n == 0 {
        0
    } else {
        dist_upto(a, b, (n - 1) as nat) + sq(a[n - 1] - b[n - 1])
    }
}

/// Squared Euclidean distance over the features.
pub open spec fn dist(a: Seq<i16>, b: Seq<i16>) -> int {
    dist_upto(a, b, DIMS as nat)
}

proof fn lemma_sq_bound(x: int, bound: int)
    requires
        -bound <= x <= bound,
    ensures
        0 <= sq(x) <= sq(bound),
{
    assert(0 <= x * x <= bound * bound) by (nonlinear_arith)
        requires
            -bound <= x <= bound,
    ;
}

/// A sum of squares of 16-bit differences is bounded by the number of lanes.
pub proof fn lemma_dist_upto_bounds(a: Seq<i16>, b: Seq<i16>, n: nat)
    ensures
        0 <= dist_upto(a, b, n) <= n * 4294836225,
    decreases n,
{
    if n > 0 {
        lemma_dist_upto_bounds(a, b, (n - 1) as nat);
        lemma_sq_bound(a[n - 1] - b[n - 1], 65535);
        assert(sq(65535) == 4294836225) by (nonlinear_arith);
    }
}

/// Squared Euclidean distance, in 64 bits: holds for every pair of vectors.
pub fn dist_sq_i64(a: &[i16; 16], b: &[i16; 16]) -> (r: i64)
    ensures
        r == dist(a@, b@),
{
    let mut sum: i64 = 0;
    let mut i: usize = 0;
    while i < DIMS
        invariant
            i <= DIMS,
            sum == dist_upto(a@, b@, i as nat),
            0 <= sum <= i * 4294836225,
        decreases DIMS - i,
    {
        let d: i64 = a[i] as i64 - b[i] as i64;
        proof {
            lemma_sq_bound(d as int, 65535);
            lemma_dist_upto_bounds(a@, b@, (i + 1) as nat);
        }
        sum = sum + d * d;
        i = i + 1;
    }
    sum
}

/// Squared Euclidean distance in 32 bits, the width that an index stores.
pub fn dist_sq_i16(a: &[i16; 16], b: &[i16; 16]) -> (r: i32)
    requires
        dist(a@, b@) <= i32::MAX,
    ensures
        r == dist(a@, b@),
{
    proof {
        lemma_dist_upto_bounds(a@, b@, DIMS as nat);
    }
    dist_sq_i64(a, b) as i32
}

/// How far `q` lies outside the interval from `lo` to `hi`.
pub open spec fn gap(q: int, lo: int, hi: int) -> int {
    if q < lo {
        lo - q
    } else if q > hi {
        q - hi
    } else {
        0
    }
}

/// Sum of the squared gaps of the first `n` lanes.
pub open spec fn box_gap_upto(q: Seq<i16>, min: Seq<i16>, max: Seq<i16>, n: nat) -> int
    decreases n,
{
    if n == 0 {
        0
    } else {
        box_gap_upto(q, min, max, (n - 1) as nat) + sq(
            gap(q[n - 1] as int, min[n - 1] as int, max[n - 1] as int),
        )
    }
}

/// Squared distance from `q` to the box between `min` and `max`.
pub open spec fn box_gap(q: Seq<i16>, min: Seq<i16>, max: Seq<i16>) -> int {
    box_gap_upto(q, min, max, DIMS as nat)
}

/// Squared distance from a query to a bounding box, cut off at `i32::MAX`.
pub fn lb_box_sq(q: &[i16; 16], min: &[i16; 16], max: &[i16; 16]) -> (r: i32)
    ensures
        r == if box_gap(q@, min@, max@) <= i32::MAX {
            box_gap(q@, min@, max@)
        } else {
            i32::MAX as int
        },
{
    let mut sum: i64 = 0;
    let mut i: usize = 0;
    while i < DIMS
        invariant
            i <= DIMS,
            sum == box_gap_upto(q@, min@, max@, i as nat),
            0 <= sum <= i * 4294836225,
        decreases DIMS - i,
    {
        let qi: i64 = q[i] as i64;
        let lo: i64 = min[i] as i64;
        let hi: i64 = max[i] as i64;
        let d: i64 = if qi < lo {
            lo - qi
        } else if qi > hi {
            qi - hi
        } else {
            0
        };
        proof {
            lemma_sq_bound(d as int, 65535);
            assert(sq(65535) == 4294836225) by (nonlinear_arith);
        }
        sum = sum + d * d;
        i = i + 1;
    }
    if sum > i32::MAX as i64 {
        i32::MAX
    } else {
        sum as i32
    }
}

/// The smaller of two lane values.
pub open spec fn lesser(a: i16, b: i16) -> i16 {
    if b < a {
        b
    } else {
        a
    }
}

/// The larger of two lane values.
pub open spec fn greater(a: i16, b: i16) -> i16 {
    if b > a {
        b
    } else {
        a
    }
}

/// Smallest value of a lane over the points (`i16::MAX` where there are none).
pub open spec fn lane_min(points: Seq<Point>, lane: int) -> i16
    decreases points.len(),
{
    if points.len() == 0 {
        i16::MAX
    } else {
        lesser(lane_min(points.drop_last(), lane), points.last().0@[lane])
    }
}

/// Largest value of a lane over the points (`i16::MIN` where there are none).
pub open spec fn lane_max(points: Seq<Point>, lane: int) -> i16
    decreases points.len(),
{
    if points.len() == 0 {
        i16::MIN
    } else {
        greater(lane_max(points.drop_last(), lane), points.last().0@[lane])
    }
}

/// `min` and `max` hold the extent of every feature over the points, and zeros
/// in the two lanes that are no feature.
pub open spec fn is_bbox(points: Seq<Point>, min: Seq<i16>, max: Seq<i16>) -> bool {
    &&& min.len() == LANES
    &&& max.len() == LANES
    &&& forall|l: int|
        0 <= l < DIMS ==> #[trigger] min[l] == lane_min(points, l)
    &&& forall|l: int|
        0 <= l < DIMS ==> #[trigger] max[l] == lane_max(points, l)
    &&& forall|l: int| DIMS <= l < LANES ==> #[trigger] min[l] == 0
    &&& forall|l: int| DIMS <= l < LANES ==> #[trigger] max[l] == 0
}

/// Bounding box of the points.
pub fn compute_bbox(points: &[Point]) -> (r: ([i16; 16], [i16; 16]))
    ensures
        is_bbox(points@, r.0@, r.1@),
{
    let mut min: [i16; 16] = [i16::MAX; 16];
    let mut max: [i16; 16] = [i16::MIN; 16];
    let mut k: usize = 0;
    while k < points.len()
        invariant
            k <= points.len(),
            forall|l: int|
                0 <= l < DIMS ==> #[trigger] min@[l] == lane_min(points@.take(k as int), l),
            forall|l: int|
                0 <= l < DIMS ==> #[trigger] max@[l] == lane_max(points@.take(k as int), l),
        decreases points.len() - k,
    {
        let v: [i16; 16] = points[k].0;
        let ghost before = points@.take(k as int);
        let ghost after = points@.take(k + 1);
        proof {
            assert(after.drop_last() =~= before);
            assert(after.last() == points@[k as int]);
        }
        let mut i: usize = 0;
        while i < DIMS
            invariant
                i <= DIMS,
                after.len() > 0,
                after.drop_last() == before,
                after.last().0@ == v@,
                forall|l: int|
                    0 <= l < i ==> #[trigger] min@[l] == lane_min(after, l),
                forall|l: int|
                    0 <= l < i ==> #[trigger] max@[l] == lane_max(after, l),
                forall|l: int|
                    i <= l < DIMS ==> #[trigger] min@[l] == lane_min(before, l),
                forall|l: int|
                    i <= l < DIMS ==> #[trigger] max@[l] == lane_max(before, l),
            decreases DIMS - i,
        {
            if v[i] < min[i] {
                min[i] = v[i];
            }
            if v[i] > max[i] {
                max[i] = v[i];
            }
            i = i + 1;
        }
        k = k + 1;
    }
    proof {
        assert(points@.take(points@.len() as int) =~= points@);
    }
    min[14] = 0;
    max[14] = 0;
    min[15] = 0;
    max[15] = 0;
    (min, max)
}

/// A point lies inside a box in every feature.
pub open spec fn in_box(x: Seq<i16>, min: Seq<i16>, max: Seq<i16>) -> bool {
    forall|l: int| 0 <= l < DIMS ==> min[l] <= #[trigger] x[l] <= max[l]
}

proof fn lemma_lane_extent(points: Seq<Point>, lane: int, k: int)
    requires
        0 <= k < points.len(),
    ensures
        lane_min(points, lane) <= points[k].0@[lane] <= lane_max(points, lane),
    decreases points.len(),
{
    if k < points.len() - 1 {
        lemma_lane_extent(points.drop_last(), lane, k);
    }
}

/// Positions at which a lane takes its smallest and its largest value.
proof fn lemma_lane_extent_attained(points: Seq<Point>, lane: int) -> (at: (int, int))
    requires
        points.len() > 0,
        0 <= lane < LANES,
    ensures
        0 <= at.0 < points.len(),
        0 <= at.1 < points.len(),
        points[at.0].0@[lane] == lane_min(points, lane),
        points[at.1].0@[lane] == lane_max(points, lane),
    decreases points.len(),
{
    let n = points.len() - 1;
    let last = points.last().0@[lane];
    if n == 0 {
        assert(lane_min(points.drop_last(), lane) == i16::MAX);
        assert(lane_max(points.drop_last(), lane) == i16::MIN);
        (0, 0)
    } else {
        let at = lemma_lane_extent_attained(points.drop_last(), lane);
        (
            if last < lane_min(points.drop_last(), lane) {
                n
            } else {
                at.0
            },
            if last > lane_max(points.drop_last(), lane) {
                n
            } else {
                at.1
            },
        )
    }
}

/// One of the points has the value `v` in a lane.
pub open spec fn lane_takes(points: Seq<Point>, lane: int, v: i16) -> bool {
    exists|k: int| 0 <= k < points.len() && (#[trigger] points[k]).0@[lane] == v
}

/// A bounding box holds every point it was computed from, and each of its
/// faces is touched by one of them.
pub proof fn law_bbox_holds_points_tightly(points: Seq<Point>, min: Seq<i16>, max: Seq<i16>)
    requires
        is_bbox(points, min, max),
    ensures
        forall|k: int| 0 <= k < points.len() ==> in_box(#[trigger] points[k].0@, min, max),
        forall|l: int| 0 <= l < DIMS && points.len() > 0 ==> lane_takes(points, l, #[trigger] min[l]),
        forall|l: int| 0 <= l < DIMS && points.len() > 0 ==> lane_takes(points, l, #[trigger] max[l]),
{
    assert forall|k: int| 0 <= k < points.len() implies in_box(
        #[trigger] points[k].0@,
        min,
        max,
    ) by {
        assert forall|l: int| 0 <= l < DIMS implies min[l] <= #[trigger] points[k].0@[l]
            <= max[l] by {
            lemma_lane_extent(points, l, k);
        }
    }
    assert forall|l: int| 0 <= l < DIMS && points.len() > 0 implies lane_takes(
        points,
        l,
        #[trigger] min[l],
    ) by {
        let at = lemma_lane_extent_attained(points, l);
        assert(points[at.0].0@[l] == min[l]);
    }
    assert forall|l: int| 0 <= l < DIMS && points.len() > 0 implies lane_takes(
        points,
        l,
        #[trigger] max[l],
    ) by {
        let at = lemma_lane_extent_attained(points, l);
        assert(points[at.1].0@[l] == max[l]);
    }
}

proof fn lemma_box_gap_upto_le_dist(
    q: Seq<i16>,
    x: Seq<i16>,
    min: Seq<i16>,
    max: Seq<i16>,
    n: nat,
)
    requires
        n <= DIMS,
        in_box(x, min, max),
    ensures
        box_gap_upto(q, min, max, n) <= dist_upto(q, x, n),
    decreases n,
{
    if n > 0 {
        lemma_box_gap_upto_le_dist(q, x, min, max, (n - 1) as nat);
        let l = n - 1;
        let d = q[l] - x[l];
        let g = gap(q[l] as int, min[l] as int, max[l] as int);
        assert(min[l] <= x[l] <= max[l]);
        assert(g <= if d < 0 { -d } else { d });
        assert(g * g <= d * d) by (nonlinear_arith)
            requires
                0 <= g,
                g <= if d < 0 { -d } else { d },
        ;
    }
}

/// The distance to a box is a lower bound of the distance to every point in it.
pub proof fn law_box_gap_is_lower_bound(q: Seq<i16>, x: Seq<i16>, min: Seq<i16>, max: Seq<i16>)
    requires
        in_box(x, min, max),
    ensures
        box_gap(q, min, max) <= dist(q, x),
{
    lemma_box_gap_upto_le_dist(q, x, min, max, DIMS as nat);
}

/// The sum over the first `n` lanes of `(q - x) * (v - x)`.
spec fn dot_upto(q: Seq<i16>, v: Seq<i16>, x: Seq<i16>, n: nat) -> int
    decreases n,
{
    if n == 0 {
        0
    } else {
        dot_upto(q, v, x, (n - 1) as nat) + (q[n - 1] - x[n - 1]) * (v[n - 1] - x[n - 1])
    }
}

proof fn lemma_dist_by_dot(q: Seq<i16>, v: Seq<i16>, x: Seq<i16>, n: nat)
    ensures
        dist_upto(q, v, n) == dist_upto(q, x, n) + dist_upto(v, x, n) - 2 * dot_upto(q, v, x, n),
    decreases n,
{
    if n > 0 {
        lemma_dist_by_dot(q, v, x, (n - 1) as nat);
        let a = q[n - 1] - x[n - 1];
        let b = v[n - 1] - x[n - 1];
        assert(q[n - 1] - v[n - 1] == a - b);
        assert((a - b) * (a - b) == a * a + b * b - 2 * (a * b)) by (nonlinear_arith);
    }
}

/// One step of the Cauchy-Schwarz inequality.
proof fn lemma_cauchy_schwarz_step(p: int, xx: int, yy: int, a: int, b: int)
    requires
        0 <= xx,
        0 <= yy,
        p * p <= xx * yy,
    ensures
        (p + a * b) * (p + a * b) <= (xx + a * a) * (yy + b * b),
{
    let s = xx * (b * b) + yy * (a * a);
    let t = 2 * (p * (a * b));
    assert(0 <= s) by (nonlinear_arith)
        requires
            0 <= xx,
            0 <= yy,
            s == xx * (b * b) + yy * (a * a),
    ;
    // t * t <= s * s
    assert(t <= s) by {
        let u = xx * (b * b);
        let w = yy * (a * a);
        let ab = a * b;
        assert(s == u + w);
        assert((u + w) * (u + w) - 4 * (u * w) == (u - w) * (u - w)) by (nonlinear_arith);
        assert(0 <= (u - w) * (u - w)) by (nonlinear_arith);
        assert(u * w == (xx * yy) * (ab * ab)) by (nonlinear_arith)
            requires
                u == xx * (b * b),
                w == yy * (a * a),
                ab == a * b,
        ;
        assert((p * p) * (ab * ab) <= (xx * yy) * (ab * ab)) by (nonlinear_arith)
            requires
                p * p <= xx * yy,
        ;
        assert(t * t == 4 * ((p * p) * (ab * ab))) by (nonlinear_arith)
            requires
                t == 2 * (p * ab),
        ;
        assert(t * t <= s * s);
        assert(t <= s) by (nonlinear_arith)
            requires
                t * t <= s * s,
                0 <= s,
        ;
    }
    assert((p + a * b) * (p + a * b) == p * p + t + (a * b) * (a * b)) by (nonlinear_arith)
        requires
            t == 2 * (p * (a * b)),
    ;
    assert((xx + a * a) * (yy + b * b) == xx * yy + s + (a * b) * (a * b)) by (nonlinear_arith)
        requires
            s == xx * (b * b) + yy * (a * a),
    ;
}

proof fn lemma_cauchy_schwarz(q: Seq<i16>, v: Seq<i16>, x: Seq<i16>, n: nat)
    ensures
        sq(dot_upto(q, v, x, n)) <= dist_upto(q, x, n) * dist_upto(v, x, n),
    decreases n,
{
    if n > 0 {
        let m = (n - 1) as nat;
        lemma_cauchy_schwarz(q, v, x, m);
        lemma_dist_upto_bounds(q, x, m);
        lemma_dist_upto_bounds(v, x, m);
        lemma_cauchy_schwarz_step(
            dot_upto(q, v, x, m),
            dist_upto(q, x, m),
            dist_upto(v, x, m),
            q[m as int] - x[m as int],
            v[m as int] - x[m as int],
        );
    }
}

proof fn lemma_dist_upto_symmetric(a: Seq<i16>, b: Seq<i16>, n: nat)
    ensures
        dist_upto(a, b, n) == dist_upto(b, a, n),
    decreases n,
{
    if n > 0 {
        lemma_dist_upto_symmetric(a, b, (n - 1) as nat);
        let d = a[n - 1] - b[n - 1];
        assert(d * d == (-d) * (-d)) by (nonlinear_arith);
    }
}

/// The squared distance is symmetric.
pub proof fn law_dist_symmetric(a: Seq<i16>, b: Seq<i16>)
    ensures
        dist(a, b) == dist(b, a),
{
    lemma_dist_upto_symmetric(a, b, DIMS as nat);
}

/// The triangle inequality between three vectors, in squared distances.
///
/// It says that `sqrt(dist(q, v))` is at most
/// `sqrt(dist(v, x)) + sqrt(dist(q, x))`, and at least their difference.
pub proof fn law_triangle_inequality(q: Seq<i16>, v: Seq<i16>, x: Seq<i16>)
    ensures
        sq(dist(q, v) - dist(v, x) - dist(q, x)) <= 4 * (dist(v, x) * dist(q, x)),
{
    let n = DIMS as nat;
    lemma_dist_by_dot(q, v, x, n);
    lemma_cauchy_schwarz(q, v, x, n);
    let d = dot_upto(q, v, x, n);
    let c = dist(q, x);
    let b = dist(v, x);
    assert((-2 * d) * (-2 * d) == 4 * (d * d)) by (nonlinear_arith);
    assert(b * c == c * b) by (nonlinear_arith);
}

proof fn lemma_dist_upto_le_diagonal(
    x: Seq<i16>,
    y: Seq<i16>,
    min: Seq<i16>,
    max: Seq<i16>,
    n: nat,
)
    requires
        n <= DIMS,
        in_box(x, min, max),
        in_box(y, min, max),
    ensures
        dist_upto(x, y, n) <= dist_upto(min, max, n),
    decreases n,
{
    if n > 0 {
        lemma_dist_upto_le_diagonal(x, y, min, max, (n - 1) as nat);
        let l = n - 1;
        let d = x[l] - y[l];
        let e = min[l] - max[l];
        assert(min[l] <= x[l] <= max[l]);
        assert(min[l] <= y[l] <= max[l]);
        assert(d * d <= e * e) by (nonlinear_arith)
            requires
                e <= d <= -e,
        ;
    }
}

/// Two points of a box are no farther apart than its corners.
pub proof fn law_box_diagonal_bounds_distances(
    x: Seq<i16>,
    y: Seq<i16>,
    min: Seq<i16>,
    max: Seq<i16>,
)
    requires
        in_box(x, min, max),
        in_box(y, min, max),
    ensures
        dist(x, y) <= dist(min, max),
{
    lemma_dist_upto_le_diagonal(x, y, min, max, DIMS as nat);
}

/// Smallest quantised value of each feature: -1 marks the two features of the
/// last transaction where there is none, every other feature starts at 0.
pub open spec fn feature_min() -> Seq<i16> {
    Seq::new(
        LANES as nat,
        |l: int|
            if l == 5 || l == 6 {
                -10000i16
            } else {
                0i16
            },
    )
}

/// Largest quantised value of each feature.
pub open spec fn feature_max() -> Seq<i16> {
    Seq::new(LANES as nat, |l: int| if l < DIMS { 10000i16 } else { 0i16 })
}

/// Vectors whose features lie in their normalised ranges are at most
/// `2_000_000_000` apart, which 32 bits hold.
pub proof fn law_normalised_distances_fit(a: Seq<i16>, b: Seq<i16>)
    requires
        in_box(a, feature_min(), feature_max()),
        in_box(b, feature_min(), feature_max()),
    ensures
        dist(a, b) <= 2_000_000_000 < i32::MAX,
{
    let lo = feature_min();
    let hi = feature_max();
    law_box_diagonal_bounds_distances(a, b, lo, hi);
    assert(dist(lo, hi) == 2_000_000_000) by {
        reveal_with_fuel(dist_upto, 15);
        assert((-10000) * (-10000) == 100_000_000) by (nonlinear_arith);
        assert((-20000) * (-20000) == 400_000_000) by (nonlinear_arith);
    }
}

proof fn lemma_dist_upto_lane(a: Seq<i16>, b: Seq<i16>, lane: int, n: nat)
    requires
        0 <= lane < a.len(),
        n <= a.len(),
    ensures
        dist_upto(a, b, n) == dist_upto(a.update(lane, b[lane]), b, n) + if lane < n {
            sq(a[lane] - b[lane])
        } else {
            0
        },
    decreases n,
{
    if n > 0 {
        lemma_dist_upto_lane(a, b, lane, (n - 1) as nat);
        if lane == n - 1 {
            assert(a.update(lane, b[lane])[lane] == b[lane]);
            assert(sq(0) == 0);
        }
    }
}

/// Every feature adds the square of its difference to the distance: making one
/// equal takes that square away. Vectors that agree in all features are at
/// distance zero.
pub proof fn law_every_feature_adds_its_square(a: Seq<i16>, b: Seq<i16>, lane: int)
    requires
        a.len() == 16,
        b.len() == 16,
        0 <= lane < 14,
    ensures
        dist(a, b) == dist(a.update(lane, b[lane]), b) + (a[lane] - b[lane]) * (a[lane] - b[lane]),
        (forall|l: int| 0 <= l < 14 ==> #[trigger] a[l] == b[l]) ==> dist(a, b) == 0,
{
    lemma_dist_upto_lane(a, b, lane, DIMS as nat);
    if forall|l: int| 0 <= l < 14 ==> #[trigger] a[l] == b[l] {
        lemma_dist_upto_equal(a, a, b, DIMS as nat);
        lemma_dist_upto_self(a, b, DIMS as nat);
    }
}

proof fn lemma_dist_upto_self(a: Seq<i16>, b: Seq<i16>, n: nat)
    requires
        n <= 14,
        forall|l: int| 0 <= l < 14 ==> #[trigger] a[l] == b[l],
    ensures
        dist_upto(a, b, n) == 0,
    decreases n,
{
    if n > 0 {
        lemma_dist_upto_self(a, b, (n - 1) as nat);
        assert(a[n - 1] == b[n - 1]);
    }
}

proof fn lemma_dist_upto_equal(a: Seq<i16>, c: Seq<i16>, b: Seq<i16>, n: nat)
    requires
        n <= 14,
        forall|l: int| 0 <= l < 14 ==> #[trigger] a[l] == c[l],
    ensures
        dist_upto(a, b, n) == dist_upto(c, b, n),
    decreases n,
{
    if n > 0 {
        lemma_dist_upto_equal(a, c, b, (n - 1) as nat);
        assert(a[n - 1] == c[n - 1]);
    }
}

/// Only the 14 features have a part in the distance.
pub proof fn law_distance_is_of_features(a: Seq<i16>, c: Seq<i16>, b: Seq<i16>)
    requires
        forall|l: int| 0 <= l < 14 ==> #[trigger] a[l] == c[l],
    ensures
        dist(a, b) == dist(c, b),
        dist(b, a) == dist(b, c),
{
    lemma_dist_upto_equal(a, c, b, DIMS as nat);
    law_dist_symmetric(a, b);
    law_dist_symmetric(c, b);
}

proof fn lemma_box_gap_upto_of_nearest(
    q: Seq<i16>,
    x: Seq<i16>,
    min: Seq<i16>,
    max: Seq<i16>,
    n: nat,
)
    requires
        n <= 14,
        forall|l: int|
            0 <= l < 14 ==> #[trigger] x[l] == if q[l] < min[l] {
                min[l]
            } else if q[l] > max[l] {
                max[l]
            } else {
                q[l]
            },
    ensures
        box_gap_upto(q, min, max, n) == dist_upto(q, x, n),
    decreases n,
{
    if n > 0 {
        lemma_box_gap_upto_of_nearest(q, x, min, max, (n - 1) as nat);
        let l = n - 1;
        let g = gap(q[l] as int, min[l] as int, max[l] as int);
        let d = q[l] - x[l];
        assert(x[l] == x[l]);
        assert(d == g || d == -g);
        assert(g * g == (-g) * (-g)) by (nonlinear_arith);
    }
}

/// The distance to a box is the distance to the nearest point of it: no point
/// between its corners is nearer, and one is as near.
pub proof fn law_box_gap_is_nearest_point(q: Seq<i16>, min: Seq<i16>, max: Seq<i16>) -> (x: Seq<
    i16,
>)
    requires
        forall|l: int| 0 <= l < 14 ==> #[trigger] min[l] <= max[l],
    ensures
        x.len() == 16,
        forall|l: int| 0 <= l < 14 ==> min[l] <= #[trigger] x[l] <= max[l],
        box_gap(q, min, max) == dist(q, x),
        forall|y: Seq<i16>|
            (forall|l: int| 0 <= l < 14 ==> min[l] <= #[trigger] y[l] <= max[l]) ==> box_gap(
                q,
                min,
                max,
            ) <= #[trigger] dist(q, y),
{
    let x = Seq::new(
        16,
        |l: int|
            if q[l] < min[l] {
                min[l]
            } else if q[l] > max[l] {
                max[l]
            } else {
                q[l]
            },
    );
    assert forall|l: int| 0 <= l < 14 implies min[l] <= #[trigger] x[l] <= max[l] by {
        assert(min[l] <= max[l]);
    }
    lemma_box_gap_upto_of_nearest(q, x, min, max, DIMS as nat);
    assert forall|y: Seq<i16>|
        (forall|l: int| 0 <= l < 14 ==> min[l] <= #[trigger] y[l] <= max[l]) implies box_gap(
        q,
        min,
        max,
    ) <= #[trigger] dist(q, y) by {
        law_box_gap_is_lower_bound(q, y, min, max);
    }
    x
}

/// A bounding box by its lanes: each of the 14 features lies between the two
/// corners for every point, and both lanes that are no feature are zero. Without
/// points the corners are those that any point moves.
pub proof fn law_bbox_lanes(points: Seq<Point>, min: Seq<i16>, max: Seq<i16>, k: int, lane: int)
    requires
        is_bbox(points, min, max),
    ensures
        0 <= k < points.len() && 0 <= lane < 14 ==> min[lane] <= points[k].0@[lane] <= max[lane],
        14 <= lane < 16 ==> min[lane] == 0 && max[lane] == 0,
        points.len() == 0 && 0 <= lane < 14 ==> min[lane] == i16::MAX && max[lane] == i16::MIN,
        points.len() > 0 && 0 <= lane < 14 ==> (exists|i: int|
            0 <= i < points.len() && (#[trigger] points[i]).0@[lane] == min[lane]) && (exists|
            i: int,
        |
            0 <= i < points.len() && (#[trigger] points[i]).0@[lane] == max[lane]),
{
    if 0 <= lane < 14 {
        assert(min[lane] == lane_min(points, lane));
        assert(max[lane] == lane_max(points, lane));
        if 0 <= k < points.len() {
            lemma_lane_extent(points, lane, k);
        }
        if points.len() > 0 {
            let at = lemma_lane_extent_attained(points, lane);
            assert(points[at.0].0@[lane] == min[lane]);
            assert(points[at.1].0@[lane] == max[lane]);
        }
    }
}

}
