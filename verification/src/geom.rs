//! Planar geometry in whole numbers: positions, squared distances, and segment lengths
//! rounded up to a whole unit, so that sums of lengths are exact and the triangle
//! inequality holds of them.

use vstd::arithmetic::div_mod::{lemma_fundamental_div_mod, lemma_fundamental_div_mod_converse};
use vstd::prelude::*;

verus! {

/// A position with whole-number coordinates. On the map `x` is the longitude and `y`
/// the latitude, in fixed-point degrees; on the screen they are pixels.
#[derive(Clone, Copy, Debug, PartialEq, Eq, Structural)]
pub struct Point {
    pub x: i32,
    pub y: i32,
}

/// The squared Euclidean distance between two positions.
pub open spec fn dist2(p: Point, q: Point) -> nat {
    ((p.x - q.x) * (p.x - q.x) + (p.y - q.y) * (p.y - q.y)) as nat
}

/// `r` is the least natural number whose square is at least `n`.
pub open spec fn is_ceil_sqrt(n: nat, r: nat) -> bool {
    &&& n <= r * r
    &&& r > 0 ==> (r - 1) * (r - 1) < n
}

/// The square root of `n`, rounded up.
pub open spec fn ceil_sqrt(n: nat) -> nat {
    choose|r: nat| is_ceil_sqrt(n, r)
}

/// The length of the straight segment from `p` to `q`, rounded up to a whole unit.
pub open spec fn edge_len(p: Point, q: Point) -> nat {
    ceil_sqrt(dist2(p, q))
}

/// A bound on the length of every segment between two positions.
pub open spec fn max_edge_len() -> nat {
    0x2_0000_0000
}

proof fn lemma_square_monotonic(a: nat, b: nat)
    requires
        a <= b,
    ensures
        a * a <= b * b,
{
    assert(a * a <= b * b) by (nonlinear_arith)
        requires
            a <= b,
    ;
}

proof fn lemma_ceil_sqrt_search(n: nat, r: nat)
    requires
        r > 0 ==> (r - 1) * (r - 1) < n,
        r <= n,
    ensures
        exists|s: nat| is_ceil_sqrt(n, s),
    decreases n - r,
{
    if n <= r * r {
        assert(is_ceil_sqrt(n, r));
    } else {
        assert(r < n) by (nonlinear_arith)
            requires
                r * r < n,
                r <= n,
        ;
        lemma_ceil_sqrt_search(n, r + 1);
    }
}

/// Every natural number has exactly one rounded-up square root.
pub proof fn lemma_ceil_sqrt_unique(n: nat, r: nat)
    requires
        is_ceil_sqrt(n, r),
    ensures
        ceil_sqrt(n) == r,
{
    let s = ceil_sqrt(n);
    assert(is_ceil_sqrt(n, s));
    if s < r {
        lemma_square_monotonic(s, (r - 1) as nat);
    } else if r < s {
        lemma_square_monotonic(r, (s - 1) as nat);
    }
}

/// The rounded-up square root exists, and no smaller number bounds the root.
pub proof fn lemma_ceil_sqrt_is_least(n: nat, s: nat)
    ensures
        is_ceil_sqrt(n, ceil_sqrt(n)),
        n <= s * s ==> ceil_sqrt(n) <= s,
{
    lemma_ceil_sqrt_search(n, 0);
    let r = ceil_sqrt(n);
    if n <= s * s && s < r {
        lemma_square_monotonic(s, (r - 1) as nat);
    }
}

/// Computes the square root of `n`, rounded up.
pub fn ceil_sqrt_of(n: u128) -> (r: u64)
    requires
        n <= 0xFFFF_FFFF_FFFF_FFFF * 0xFFFF_FFFF_FFFF_FFFF,
    ensures
        r == ceil_sqrt(n as nat),
{
    let mut lo: u128 = 0;
    let mut hi: u128 = 0xFFFF_FFFF_FFFF_FFFF;
    while lo < hi
        invariant
            lo <= hi <= 0xFFFF_FFFF_FFFF_FFFF,
            n <= hi * hi,
            lo > 0 ==> (lo - 1) * (lo - 1) < n,
        decreases hi - lo,
    {
        let mid: u128 = lo + (hi - lo) / 2;
        assert(mid * mid <= 0xFFFF_FFFF_FFFF_FFFF * 0xFFFF_FFFF_FFFF_FFFF) by (nonlinear_arith)
            requires
                mid <= 0xFFFF_FFFF_FFFF_FFFF,
        ;
        if mid * mid >= n {
            hi = mid;
        } else {
            lo = mid + 1;
        }
    }
    proof {
        assert(is_ceil_sqrt(n as nat, lo as nat));
        lemma_ceil_sqrt_unique(n as nat, lo as nat);
    }
    lo as u64
}

/// A segment has the same length in both directions, and a point is at distance zero
/// from itself.
pub proof fn lemma_edge_len_symmetric(p: Point, q: Point)
    ensures
        edge_len(p, q) == edge_len(q, p),
        edge_len(p, p) == 0,
        edge_len(p, q) <= max_edge_len(),
{
    assert(dist2(p, q) == dist2(q, p)) by (nonlinear_arith);
    assert(dist2(p, p) == 0);
    assert(is_ceil_sqrt(0, 0));
    lemma_ceil_sqrt_unique(0, 0);
    lemma_dist2_bound(p, q);
    lemma_ceil_sqrt_is_least(dist2(p, q), max_edge_len());
}

proof fn lemma_dist2_bound(p: Point, q: Point)
    ensures
        dist2(p, q) == (p.x - q.x) * (p.x - q.x) + (p.y - q.y) * (p.y - q.y),
        dist2(p, q) <= 0x2_0000_0000 * 0x2_0000_0000,
        dist2(p, q) <= 0xFFFF_FFFF_FFFF_FFFF * 0xFFFF_FFFF_FFFF_FFFF,
{
    let dx = p.x - q.x;
    let dy = p.y - q.y;
    assert(dx * dx <= 0x1_0000_0000 * 0x1_0000_0000) by (nonlinear_arith)
        requires
            -0x1_0000_0000 <= dx <= 0x1_0000_0000,
    ;
    assert(dy * dy <= 0x1_0000_0000 * 0x1_0000_0000) by (nonlinear_arith)
        requires
            -0x1_0000_0000 <= dy <= 0x1_0000_0000,
    ;
    assert(dx * dx >= 0) by (nonlinear_arith);
    assert(dy * dy >= 0) by (nonlinear_arith);
}

proof fn lemma_square_of_product(a: int, b: int)
    ensures
        (a * a) * (b * b) == (a * b) * (a * b),
{
    assert((a * a) * (b * b) == (a * b) * (a * b)) by (nonlinear_arith);
}

proof fn lemma_swap_factors(a: int, b: int, c: int, d: int)
    ensures
        (a * b) * (c * d) == (a * d) * (c * b),
{
    assert((a * b) * (c * d) == (a * d) * (c * b)) by (nonlinear_arith);
}

proof fn lemma_lagrange_identity(ax: int, ay: int, bx: int, by: int)
    ensures
        (ax * ax + ay * ay) * (bx * bx + by * by) == (ax * bx + ay * by) * (ax * bx + ay * by) + (
        ax * by - ay * bx) * (ax * by - ay * bx),
{
    let xx = ax * bx;
    let yy = ay * by;
    let xy = ax * by;
    let yx = ay * bx;
    let sa = ax * ax;
    let sb = ay * ay;
    let sc = bx * bx;
    let sd = by * by;
    lemma_square_of_product(ax, bx);
    lemma_square_of_product(ax, by);
    lemma_square_of_product(ay, bx);
    lemma_square_of_product(ay, by);
    lemma_swap_factors(ax, bx, ay, by);
    assert(xx * yy == xy * yx);
    assert((sa + sb) * (sc + sd) == sa * sc + sa * sd + sb * sc + sb * sd) by (nonlinear_arith);
    assert((xx + yy) * (xx + yy) == xx * xx + 2 * (xx * yy) + yy * yy) by (nonlinear_arith);
    assert((xy - yx) * (xy - yx) == xy * xy - 2 * (xy * yx) + yx * yx) by (nonlinear_arith);
}

proof fn lemma_dot_bound(ax: int, ay: int, bx: int, by: int, la: nat, lb: nat)
    requires
        ax * ax + ay * ay <= la * la,
        bx * bx + by * by <= lb * lb,
    ensures
        ax * bx + ay * by <= la * lb,
{
    let na = ax * ax + ay * ay;
    let nb = bx * bx + by * by;
    let dot = ax * bx + ay * by;
    let cross = ax * by - ay * bx;
    lemma_lagrange_identity(ax, ay, bx, by);
    assert(na * nb == dot * dot + cross * cross);
    assert(cross * cross >= 0) by (nonlinear_arith);
    assert(ax * ax >= 0 && ay * ay >= 0 && bx * bx >= 0 && by * by >= 0) by (nonlinear_arith);
    assert(na * nb <= (la * la) * (lb * lb)) by (nonlinear_arith)
        requires
            0 <= na <= la * la,
            0 <= nb <= lb * lb,
    ;
    lemma_square_of_product(la as int, lb as int);
    if dot > la * lb {
        assert(la * lb >= 0) by (nonlinear_arith);
        assert(dot * dot > (la * lb) * (la * lb)) by (nonlinear_arith)
            requires
                dot > la * lb,
                la * lb >= 0,
        ;
    }
}

/// Rounded-up lengths obey the triangle inequality: a detour through `q` is never
/// shorter than the direct segment.
pub proof fn lemma_edge_len_triangle(p: Point, q: Point, r: Point)
    ensures
        edge_len(p, r) <= edge_len(p, q) + edge_len(q, r),
{
    let la = edge_len(p, q);
    let lb = edge_len(q, r);
    lemma_ceil_sqrt_is_least(dist2(p, q), 0);
    lemma_ceil_sqrt_is_least(dist2(q, r), 0);
    lemma_dist2_bound(p, q);
    lemma_dist2_bound(q, r);
    lemma_dist2_bound(p, r);
    let ax = q.x - p.x;
    let ay = q.y - p.y;
    let bx = r.x - q.x;
    let by = r.y - q.y;
    assert(ax * ax == (p.x - q.x) * (p.x - q.x)) by (nonlinear_arith)
        requires
            ax == q.x - p.x,
    ;
    assert(ay * ay == (p.y - q.y) * (p.y - q.y)) by (nonlinear_arith)
        requires
            ay == q.y - p.y,
    ;
    assert(bx * bx == (q.x - r.x) * (q.x - r.x)) by (nonlinear_arith)
        requires
            bx == r.x - q.x,
    ;
    assert(by * by == (q.y - r.y) * (q.y - r.y)) by (nonlinear_arith)
        requires
            by == r.y - q.y,
    ;
    lemma_dot_bound(ax, ay, bx, by, la, lb);
    assert((p.x - r.x) * (p.x - r.x) == ax * ax + bx * bx + 2 * (ax * bx)) by (nonlinear_arith)
        requires
            p.x - r.x == -(ax + bx),
    ;
    assert((p.y - r.y) * (p.y - r.y) == ay * ay + by * by + 2 * (ay * by)) by (nonlinear_arith)
        requires
            p.y - r.y == -(ay + by),
    ;
    assert((la + lb) * (la + lb) == la * la + lb * lb + 2 * (la * lb)) by (nonlinear_arith);
    assert(dist2(p, r) <= (la + lb) * (la + lb));
    lemma_ceil_sqrt_is_least(dist2(p, r), la + lb);
}

/// Computes the squared distance between two positions.
pub fn dist2_of(p: Point, q: Point) -> (d: u128)
    ensures
        d == dist2(p, q),
{
    let dx: i128 = p.x as i128 - q.x as i128;
    let dy: i128 = p.y as i128 - q.y as i128;
    proof {
        lemma_dist2_bound(p, q);
        assert(0 <= dx * dx <= 0x1_0000_0000 * 0x1_0000_0000) by (nonlinear_arith)
            requires
                -0x1_0000_0000 <= dx <= 0x1_0000_0000,
        ;
        assert(0 <= dy * dy <= 0x1_0000_0000 * 0x1_0000_0000) by (nonlinear_arith)
            requires
                -0x1_0000_0000 <= dy <= 0x1_0000_0000,
        ;
    }
    let sum: i128 = dx * dx + dy * dy;
    sum as u128
}

/// Computes the length of the segment from `p` to `q`, rounded up to a whole unit.
pub fn edge_len_of(p: Point, q: Point) -> (len: u64)
    ensures
        len == edge_len(p, q),
        len <= max_edge_len(),
{
    proof {
        lemma_dist2_bound(p, q);
        lemma_edge_len_symmetric(p, q);
    }
    ceil_sqrt_of(dist2_of(p, q))
}

/// Divides `a` by a positive `b` and rounds down.
pub fn floor_div(a: i128, b: i128) -> (q: i128)
    requires
        b > 0,
    ensures
        q == a / b,
{
    if a >= 0 {
        let q: u128 = (a as u128) / (b as u128);
        q as i128
    } else {
        let m: u128 = (-(a + 1)) as u128;
        let q: u128 = m / (b as u128);
        let ghost r = (m as int) % (b as int);
        proof {
            lemma_fundamental_div_mod(m as int, b as int);
            assert(q * b <= m) by (nonlinear_arith)
                requires
                    m == b * q + r,
                    0 <= r,
            ;
            assert(a as int == (-(q as int) - 1) * b + (b - 1 - r)) by (nonlinear_arith)
                requires
                    m == b * q + r,
                    a as int == -(m as int) - 1,
            ;
            lemma_fundamental_div_mod_converse(a as int, b as int, -(q as int) - 1, b - 1 - r);
        }
        -(q as i128) - 1
    }
}

} // verus!
