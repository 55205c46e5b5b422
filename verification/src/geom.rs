//! Fixed-point plane geometry: points, squared distances, integer square
//! roots, and polygon area/centroid, shared by every generation stage.

use vstd::prelude::*;

verus! {

/// Number of fixed-point coordinate steps per world unit.
pub const SCALE: i64 = 1000;

/// Every coordinate handled by the pipeline stays within this bound,
/// which keeps all squared-distance arithmetic inside `i128`.
pub const COORD_LIMIT: i64 = 0x8000_0000;

/// A point of the plane in fixed-point coordinates.
#[derive(Clone, Copy, Debug, PartialEq, Eq, Structural)]
pub struct Vec2i {
    pub x: i64,
    pub y: i64,
}

/// A coordinate the pipeline accepts: bounded so products fit in `i128`.
pub open spec fn coord_ok(c: int) -> bool {
    -COORD_LIMIT <= c <= COORD_LIMIT
}

/// A point whose two coordinates are in bounds.
pub open spec fn point_ok(p: Vec2i) -> bool {
    coord_ok(p.x as int) && coord_ok(p.y as int)
}

/// Squared Euclidean distance between two points.
pub open spec fn dist_sq(a: Vec2i, b: Vec2i) -> int {
    (a.x - b.x) * (a.x - b.x) + (a.y - b.y) * (a.y - b.y)
}

/// `r` is the floor of the square root of `x`.
pub open spec fn is_sqrt_floor(x: int, r: int) -> bool {
    0 <= r && r * r <= x && x < (r + 1) * (r + 1)
}

/// The floor of the square root of a non-negative integer.
pub open spec fn sqrt_floor(x: int) -> int {
    choose|r: int| is_sqrt_floor(x, r)
}

/// The floor square root is unique, so any witness equals `sqrt_floor`.
pub proof fn lemma_sqrt_floor_unique(x: int, r: int)
    requires
        is_sqrt_floor(x, r),
    ensures
        sqrt_floor(x) == r,
{
    let s = choose|s: int| is_sqrt_floor(x, s);
    assert(is_sqrt_floor(x, s));
    assert(s == r) by (nonlinear_arith)
        requires
            is_sqrt_floor(x, s),
            is_sqrt_floor(x, r),
    ;
}

/// Squared distance is symmetric.
pub proof fn lemma_dist_sq_symmetric(a: Vec2i, b: Vec2i)
    ensures
        dist_sq(a, b) == dist_sq(b, a),
{
    assert((a.x - b.x) * (a.x - b.x) == (b.x - a.x) * (b.x - a.x)) by (nonlinear_arith);
    assert((a.y - b.y) * (a.y - b.y) == (b.y - a.y) * (b.y - a.y)) by (nonlinear_arith);
}

/// Squared distance to a fixed point is symmetric across a whole sequence.
pub proof fn lemma_dist_sq_symmetric_all(s: Seq<Vec2i>, p: Vec2i)
    ensures
        forall|i: int| 0 <= i < s.len() ==> #[trigger] dist_sq(s[i], p) == dist_sq(p, s[i]),
{
    assert forall|i: int| 0 <= i < s.len() implies #[trigger] dist_sq(s[i], p) == dist_sq(
        p,
        s[i],
    ) by {
        lemma_dist_sq_symmetric(s[i], p);
    }
}

/// Squared distance is never negative.
pub proof fn lemma_dist_sq_nonneg(a: Vec2i, b: Vec2i)
    ensures
        dist_sq(a, b) >= 0,
{
    assert((a.x - b.x) * (a.x - b.x) >= 0) by (nonlinear_arith);
    assert((a.y - b.y) * (a.y - b.y) >= 0) by (nonlinear_arith);
}

/// Squared distance between bounded points fits well inside `i128`.
pub proof fn lemma_dist_sq_bound(a: Vec2i, b: Vec2i)
    requires
        point_ok(a),
        point_ok(b),
    ensures
        dist_sq(a, b) <= 0x8_0000_0000_0000_0000,
{
    let dx = a.x - b.x;
    let dy = a.y - b.y;
    assert(dx * dx <= 0x4_0000_0000_0000_0000) by (nonlinear_arith)
        requires
            -0x2_0000_0000 <= dx <= 0x2_0000_0000,
    ;
    assert(dy * dy <= 0x4_0000_0000_0000_0000) by (nonlinear_arith)
        requires
            -0x2_0000_0000 <= dy <= 0x2_0000_0000,
    ;
}

/// Compute the squared distance between two bounded points exactly.
pub fn dist_sq_val(a: Vec2i, b: Vec2i) -> (r: i128)
    requires
        point_ok(a),
        point_ok(b),
    ensures
        r == dist_sq(a, b),
        0 <= r <= 0x8_0000_0000_0000_0000,
{
    proof {
        lemma_dist_sq_nonneg(a, b);
        lemma_dist_sq_bound(a, b);
    }
    let dx: i128 = a.x as i128 - b.x as i128;
    let dy: i128 = a.y as i128 - b.y as i128;
    proof {
        assert(0 <= dx * dx <= 0x4_0000_0000_0000_0000) by (nonlinear_arith)
            requires
                -0x2_0000_0000 <= dx <= 0x2_0000_0000,
        ;
        assert(0 <= dy * dy <= 0x4_0000_0000_0000_0000) by (nonlinear_arith)
            requires
                -0x2_0000_0000 <= dy <= 0x2_0000_0000,
        ;
    }
    dx * dx + dy * dy
}

/// A polygon border the pipeline accepts: at least three vertices, not too
/// many, and every vertex inside the clipped non-negative coordinate range.
pub open spec fn poly_ok(s: Seq<Vec2i>) -> bool {
    &&& 3 <= s.len() <= 65536
    &&& forall|i: int| 0 <= i < s.len() ==> #[trigger] in_rect(s[i])
}

/// A point with both coordinates in `[0, COORD_LIMIT]`, as produced by
/// clipping cells to the map rectangle.
pub open spec fn in_rect(p: Vec2i) -> bool {
    0 <= p.x <= COORD_LIMIT && 0 <= p.y <= COORD_LIMIT
}

/// The vertex index following `i` on a closed polygon of `len` vertices.
pub open spec fn next_idx(len: int, i: int) -> int {
    if i + 1 == len {
        0
    } else {
        i + 1
    }
}

/// Cross product of two points taken as vectors from the origin.
pub open spec fn cross(a: Vec2i, b: Vec2i) -> int {
    a.x * b.y - b.x * a.y
}

/// Cross product along polygon edge `i`.
pub open spec fn edge_cross(s: Seq<Vec2i>, i: int) -> int {
    cross(s[i], s[next_idx(s.len() as int, i)])
}

/// Partial sum of edge cross products: twice the signed area of the first
/// `k` edges of the closed polygon.
pub open spec fn area2_upto(s: Seq<Vec2i>, k: int) -> int
    decreases k,
{
    if k <= 0 {
        0
    } else {
        area2_upto(s, k - 1) + edge_cross(s, k - 1)
    }
}

/// Twice the signed area of the closed polygon.
pub open spec fn area2_of(s: Seq<Vec2i>) -> int {
    area2_upto(s, s.len() as int)
}

/// Partial sum of the x numerator of the polygon centroid formula.
pub open spec fn cx_num_upto(s: Seq<Vec2i>, k: int) -> int
    decreases k,
{
    if k <= 0 {
        0
    } else {
        cx_num_upto(s, k - 1) + (s[k - 1].x + s[next_idx(s.len() as int, k - 1)].x) * edge_cross(
            s,
            k - 1,
        )
    }
}

/// Partial sum of the y numerator of the polygon centroid formula.
pub open spec fn cy_num_upto(s: Seq<Vec2i>, k: int) -> int
    decreases k,
{
    if k <= 0 {
        0
    } else {
        cy_num_upto(s, k - 1) + (s[k - 1].y + s[next_idx(s.len() as int, k - 1)].y) * edge_cross(
            s,
            k - 1,
        )
    }
}

/// The x coordinate of the area-weighted centroid, rounded down after
/// normalising the denominator to be positive.
pub open spec fn centroid_x_of(s: Seq<Vec2i>) -> int
    recommends
        area2_of(s) != 0,
{
    let a2 = area2_of(s);
    if a2 > 0 {
        cx_num_upto(s, s.len() as int) / (3 * a2)
    } else {
        (-cx_num_upto(s, s.len() as int)) / (3 * -a2)
    }
}

/// The y coordinate of the area-weighted centroid.
pub open spec fn centroid_y_of(s: Seq<Vec2i>) -> int
    recommends
        area2_of(s) != 0,
{
    let a2 = area2_of(s);
    if a2 > 0 {
        cy_num_upto(s, s.len() as int) / (3 * a2)
    } else {
        (-cy_num_upto(s, s.len() as int)) / (3 * -a2)
    }
}

/// The centroid a polygon yields, if its area is non-zero and the rounded
/// centroid lands inside the accepted coordinate range.
pub open spec fn centroid_of(s: Seq<Vec2i>) -> Option<Vec2i> {
    if area2_of(s) == 0 {
        None
    } else {
        let c = Vec2i { x: centroid_x_of(s) as i64, y: centroid_y_of(s) as i64 };
        if 0 <= centroid_x_of(s) <= COORD_LIMIT && 0 <= centroid_y_of(s) <= COORD_LIMIT {
            Some(c)
        } else {
            None
        }
    }
}

/// Floor division of a bounded numerator by a positive divisor.
fn div_floor_i128(a: i128, b: i128) -> (q: i128)
    requires
        0 < b <= 0x1_0000_0000_0000_0000_0000_0000_0000,
        -0x1_0000_0000_0000_0000_0000_0000_0000 <= a <= 0x1_0000_0000_0000_0000_0000_0000_0000,
    ensures
        q == a as int / b as int,
{
    if a >= 0 {
        let q0: u128 = (a as u128) / (b as u128);
        proof {
            vstd::arithmetic::div_mod::lemma_fundamental_div_mod(a as int, b as int);
        }
        q0 as i128
    } else {
        let m: u128 = (-a) as u128;
        let bb: u128 = b as u128;
        let q0: u128 = (m + bb - 1) / bb;
        proof {
            vstd::arithmetic::div_mod::lemma_fundamental_div_mod((m + bb - 1) as int, bb as int);
            vstd::arithmetic::div_mod::lemma_fundamental_div_mod(a as int, b as int);
            let ghost ai: int = a as int;
            let ghost bi: int = b as int;
            let ghost mi: int = (m + bb - 1) as int;
            assert(-(q0 as int) == ai / bi) by (nonlinear_arith)
                requires
                    bi > 0,
                    ai < 0,
                    mi == -ai + bi - 1,
                    mi == bi * (mi / bi) + mi % bi,
                    0 <= mi % bi < bi,
                    ai == bi * (ai / bi) + ai % bi,
                    0 <= ai % bi < bi,
                    q0 == mi / bi,
            ;
        }
        -(q0 as i128)
    }
}

/// Twice the signed area of a polygon, computed exactly.
pub fn area(border: &Vec<Vec2i>) -> (r: i128)
    requires
        poly_ok(border@),
    ensures
        r == area2_of(border@),
{
    let n = border.len();
    let mut acc: i128 = 0;
    let mut i: usize = 0;
    while i < n
        invariant
            poly_ok(border@),
            n == border@.len(),
            0 <= i <= n,
            acc == area2_upto(border@, i as int),
            -0x8000_0000_0000_0000_0000 * (i as int) <= acc <= 0x8000_0000_0000_0000_0000 * (
            i as int),
        decreases n - i,
    {
        let j = if i + 1 == n {
            0
        } else {
            i + 1
        };
        let a = border[i];
        let b = border[j];
        proof {
            assert(in_rect(border@[i as int]));
            assert(in_rect(border@[j as int]));
            assert((a.x as int) * (b.y as int) <= 0x4000_0000_0000_0000_0000
                && (a.x as int) * (b.y as int) >= 0) by (nonlinear_arith)
                requires
                    0 <= a.x <= 0x8000_0000,
                    0 <= b.y <= 0x8000_0000,
            ;
            assert((b.x as int) * (a.y as int) <= 0x4000_0000_0000_0000_0000
                && (b.x as int) * (a.y as int) >= 0) by (nonlinear_arith)
                requires
                    0 <= b.x <= 0x8000_0000,
                    0 <= a.y <= 0x8000_0000,
            ;
        }
        let c: i128 = (a.x as i128) * (b.y as i128) - (b.x as i128) * (a.y as i128);
        proof {
            assert(c == edge_cross(border@, i as int));
            assert(-0x8000_0000_0000_0000_0000 * ((i + 1) as int) <= acc + c
                <= 0x8000_0000_0000_0000_0000 * ((i + 1) as int)) by (nonlinear_arith)
                requires
                    -0x8000_0000_0000_0000_0000 <= c <= 0x8000_0000_0000_0000_0000,
                    -0x8000_0000_0000_0000_0000 * (i as int) <= acc <= 0x8000_0000_0000_0000_0000
                        * (i as int),
            ;
        }
        acc = acc + c;
        i = i + 1;
    }
    acc
}

/// The partial area sum of a bounded polygon is itself bounded.
proof fn lemma_area2_upto_bound(s: Seq<Vec2i>, k: int)
    requires
        poly_ok(s),
        0 <= k <= s.len(),
    ensures
        -(k * 0x8000_0000_0000_0000_0000) <= area2_upto(s, k) <= k * 0x8000_0000_0000_0000_0000,
    decreases k,
{
    if k > 0 {
        lemma_area2_upto_bound(s, k - 1);
        assert(in_rect(s[k - 1]));
        assert(in_rect(s[next_idx(s.len() as int, k - 1)]));
        let a = s[k - 1];
        let b = s[next_idx(s.len() as int, k - 1)];
        assert(-0x8000_0000_0000_0000_0000 <= cross(a, b) <= 0x8000_0000_0000_0000_0000)
            by (nonlinear_arith)
            requires
                0 <= a.x <= 0x8000_0000,
                0 <= a.y <= 0x8000_0000,
                0 <= b.x <= 0x8000_0000,
                0 <= b.y <= 0x8000_0000,
        ;
        assert(-(k * 0x8000_0000_0000_0000_0000) <= area2_upto(s, k) <= k
            * 0x8000_0000_0000_0000_0000) by (nonlinear_arith)
            requires
                area2_upto(s, k) == area2_upto(s, k - 1) + edge_cross(s, k - 1),
                -((k - 1) * 0x8000_0000_0000_0000_0000) <= area2_upto(s, k - 1) <= (k - 1)
                    * 0x8000_0000_0000_0000_0000,
                -0x8000_0000_0000_0000_0000 <= edge_cross(s, k - 1) <= 0x8000_0000_0000_0000_0000,
        ;
    }
}

/// The partial centroid numerator sums of a bounded polygon are bounded.
proof fn lemma_centroid_num_bound(s: Seq<Vec2i>, k: int)
    requires
        poly_ok(s),
        0 <= k <= s.len(),
    ensures
        -(k * 0x8000_0000_0000_0000_0000_0000) <= cx_num_upto(s, k) <= k
            * 0x8000_0000_0000_0000_0000_0000,
        -(k * 0x8000_0000_0000_0000_0000_0000) <= cy_num_upto(s, k) <= k
            * 0x8000_0000_0000_0000_0000_0000,
    decreases k,
{
    if k > 0 {
        lemma_centroid_num_bound(s, k - 1);
        assert(in_rect(s[k - 1]));
        assert(in_rect(s[next_idx(s.len() as int, k - 1)]));
        let a = s[k - 1];
        let b = s[next_idx(s.len() as int, k - 1)];
        assert(-0x8000_0000_0000_0000 <= cross(a, b) <= 0x8000_0000_0000_0000
            && -0x8000_0000_0000_0000_0000_0000 <= (a.x + b.x) * cross(a, b)
                <= 0x8000_0000_0000_0000_0000_0000
            && -0x8000_0000_0000_0000_0000_0000 <= (a.y + b.y) * cross(a, b)
                <= 0x8000_0000_0000_0000_0000_0000) by (nonlinear_arith)
            requires
                0 <= a.x <= 0x8000_0000,
                0 <= a.y <= 0x8000_0000,
                0 <= b.x <= 0x8000_0000,
                0 <= b.y <= 0x8000_0000,
        ;
        assert(-(k * 0x8000_0000_0000_0000_0000_0000) <= cx_num_upto(s, k) <= k
            * 0x8000_0000_0000_0000_0000_0000 && -(k * 0x8000_0000_0000_0000_0000_0000)
            <= cy_num_upto(s, k) <= k * 0x8000_0000_0000_0000_0000_0000) by (nonlinear_arith)
            requires
                cx_num_upto(s, k) == cx_num_upto(s, k - 1) + (a.x + b.x) * edge_cross(s, k - 1),
                cy_num_upto(s, k) == cy_num_upto(s, k - 1) + (a.y + b.y) * edge_cross(s, k - 1),
                edge_cross(s, k - 1) == cross(a, b),
                -((k - 1) * 0x8000_0000_0000_0000_0000_0000) <= cx_num_upto(s, k - 1) <= (k - 1)
                    * 0x8000_0000_0000_0000_0000_0000,
                -((k - 1) * 0x8000_0000_0000_0000_0000_0000) <= cy_num_upto(s, k - 1) <= (k - 1)
                    * 0x8000_0000_0000_0000_0000_0000,
                -0x8000_0000_0000_0000_0000_0000 <= (a.x + b.x) * cross(a, b)
                    <= 0x8000_0000_0000_0000_0000_0000,
                -0x8000_0000_0000_0000_0000_0000 <= (a.y + b.y) * cross(a, b)
                    <= 0x8000_0000_0000_0000_0000_0000,
        ;
    }
}

/// Area-weighted centroid of a polygon, rounded down, or `None` for a
/// degenerate polygon (zero area, or a rounded centroid out of range).
pub fn centroid(border: &Vec<Vec2i>) -> (r: Option<Vec2i>)
    requires
        poly_ok(border@),
    ensures
        r == centroid_of(border@),
{
    let n = border.len();
    let a2 = area(border);
    if a2 == 0 {
        return None;
    }
    let mut cx: i128 = 0;
    let mut cy: i128 = 0;
    let mut i: usize = 0;
    while i < n
        invariant
            poly_ok(border@),
            n == border@.len(),
            0 <= i <= n,
            cx == cx_num_upto(border@, i as int),
            cy == cy_num_upto(border@, i as int),
        decreases n - i,
    {
        let j = if i + 1 == n {
            0
        } else {
            i + 1
        };
        let a = border[i];
        let b = border[j];
        proof {
            assert(in_rect(border@[i as int]));
            assert(in_rect(border@[j as int]));
            lemma_centroid_num_bound(border@, i as int);
            lemma_centroid_num_bound(border@, i + 1);
            assert((a.x as int) * (b.y as int) <= 0x4000_0000_0000_0000
                && (a.x as int) * (b.y as int) >= 0) by (nonlinear_arith)
                requires
                    0 <= a.x <= 0x8000_0000,
                    0 <= b.y <= 0x8000_0000,
            ;
            assert((b.x as int) * (a.y as int) <= 0x4000_0000_0000_0000
                && (b.x as int) * (a.y as int) >= 0) by (nonlinear_arith)
                requires
                    0 <= b.x <= 0x8000_0000,
                    0 <= a.y <= 0x8000_0000,
            ;
        }
        let c: i128 = (a.x as i128) * (b.y as i128) - (b.x as i128) * (a.y as i128);
        proof {
            assert(c == edge_cross(border@, i as int));
            assert((a.x as int + b.x as int) * (c as int) == cx_num_upto(border@, i + 1)
                - cx_num_upto(border@, i as int) && (a.y as int + b.y as int) * (c as int)
                == cy_num_upto(border@, i + 1) - cy_num_upto(border@, i as int))
                by (nonlinear_arith)
                requires
                    cx_num_upto(border@, i + 1) == cx_num_upto(border@, i as int) + (a.x + b.x)
                        * edge_cross(border@, i as int),
                    cy_num_upto(border@, i + 1) == cy_num_upto(border@, i as int) + (a.y + b.y)
                        * edge_cross(border@, i as int),
                    c == edge_cross(border@, i as int),
            ;
            assert(-0x8000_0000_0000_0000_0000_0000 <= (a.x as int + b.x as int) * (c as int)
                <= 0x8000_0000_0000_0000_0000_0000
                && -0x8000_0000_0000_0000_0000_0000 <= (a.y as int + b.y as int) * (c as int)
                <= 0x8000_0000_0000_0000_0000_0000) by (nonlinear_arith)
                requires
                    0 <= a.x + b.x <= 0x1_0000_0000,
                    0 <= a.y + b.y <= 0x1_0000_0000,
                    -0x8000_0000_0000_0000 <= c <= 0x8000_0000_0000_0000,
            ;
        }
        cx = cx + (a.x as i128 + b.x as i128) * c;
        cy = cy + (a.y as i128 + b.y as i128) * c;
        i = i + 1;
    }
    proof {
        lemma_centroid_num_bound(border@, n as int);
        lemma_area2_upto_bound(border@, n as int);
        assert(n * 0x8000_0000_0000_0000_0000_0000 <= 0x1_0000_0000_0000_0000_0000_0000_0000
            && n * 0x8000_0000_0000_0000_0000_0000 >= 0
            && n * 0x8000_0000_0000_0000_0000 <= 0x8_0000_0000_0000_0000_0000_0000)
            by (nonlinear_arith)
            requires
                0 <= n <= 65536,
        ;
    }
    let num_x: i128;
    let num_y: i128;
    let den: i128;
    if a2 > 0 {
        num_x = cx;
        num_y = cy;
        den = 3 * a2;
    } else {
        num_x = -cx;
        num_y = -cy;
        den = 3 * (-a2);
    }
    let qx = div_floor_i128(num_x, den);
    let qy = div_floor_i128(num_y, den);
    if 0 <= qx && qx <= COORD_LIMIT as i128 && 0 <= qy && qy <= COORD_LIMIT as i128 {
        Some(Vec2i { x: qx as i64, y: qy as i64 })
    } else {
        None
    }
}

/// Floor integer square root by binary search.
pub fn isqrt(x: u128) -> (r: u64)
    ensures
        is_sqrt_floor(x as int, r as int),
        sqrt_floor(x as int) == r as int,
{
    let mut lo: u128 = 0;
    let mut hi: u128 = 0x1_0000_0000_0000_0000;
    proof {
        assert(0x1_0000_0000_0000_0000 * 0x1_0000_0000_0000_0000 > u128::MAX) by (nonlinear_arith);
    }
    while lo + 1 < hi
        invariant
            lo < hi,
            hi <= 0x1_0000_0000_0000_0000,
            lo * lo <= x,
            (x as int) < hi * hi,
        decreases hi - lo,
    {
        let mid: u128 = lo + (hi - lo) / 2;
        proof {
            assert(mid * mid < 0x1_0000_0000_0000_0000 * 0x1_0000_0000_0000_0000)
                by (nonlinear_arith)
                requires
                    mid < 0x1_0000_0000_0000_0000u128,
            ;
        }
        if mid * mid <= x {
            lo = mid;
        } else {
            hi = mid;
        }
    }
    proof {
        lemma_sqrt_floor_unique(x as int, lo as int);
    }
    lo as u64
}

} // verus!
