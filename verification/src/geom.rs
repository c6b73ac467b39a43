use vstd::prelude::*;

verus! {

/// Largest coordinate magnitude the engine accepts.  The bound is chosen so
/// that every intermediate product of the intersection, winding and area
/// arithmetic (differences up to `4 * MAX_COORD`, products of two such
/// differences, and sums of one such product per vertex) fits in an `i128`.
pub const MAX_COORD: i64 = 1_000_000_000;

/// A vertex: a pair of signed 64-bit integer coordinates.
pub type Pt = (i64, i64);

/// A directed straight edge between two vertices.
pub type Seg = (Pt, Pt);

/// Component-wise equality of two vertices.
pub fn pt_eq(a: Pt, b: Pt) -> (r: bool)
    ensures
        r == (a == b),
{
    a.0 == b.0 && a.1 == b.1
}

pub open spec fn pt_ok(p: Pt) -> bool {
    &&& -MAX_COORD <= p.0 <= MAX_COORD
    &&& -MAX_COORD <= p.1 <= MAX_COORD
}

pub open spec fn ring_ok(s: Seq<Pt>) -> bool {
    forall|i: int| 0 <= i < s.len() ==> pt_ok(#[trigger] s[i])
}

pub open spec fn rings_ok(s: Seq<Seq<Pt>>) -> bool {
    forall|i: int| 0 <= i < s.len() ==> ring_ok(#[trigger] s[i])
}

pub open spec fn seg_ok(s: Seg) -> bool {
    pt_ok(s.0) && pt_ok(s.1)
}

pub open spec fn segs_ok(s: Seq<Seg>) -> bool {
    forall|i: int| 0 <= i < s.len() ==> seg_ok(#[trigger] s[i])
}

/// Cross product of the vectors `o -> a` and `o -> b`, over unbounded integers.
pub open spec fn cross_i(ox: int, oy: int, ax: int, ay: int, bx: int, by: int) -> int {
    (ax - ox) * (by - oy) - (ay - oy) * (bx - ox)
}

/// Cross product of `o -> a` and `o -> b` for stored vertices: positive when
/// `b` lies strictly to the left of the directed line `o -> a`.
pub open spec fn cross3(o: Pt, a: Pt, b: Pt) -> int {
    cross_i(o.0 as int, o.1 as int, a.0 as int, a.1 as int, b.0 as int, b.1 as int)
}

/// A product of two bounded factors is bounded by the product of the bounds.
pub proof fn lemma_mul_bound(x: int, y: int, bx: int, by: int)
    requires
        -bx <= x <= bx,
        -by <= y <= by,
        0 <= bx,
        0 <= by,
    ensures
        -(bx * by) <= x * y <= bx * by,
{
    assert(-(bx * by) <= x * y <= bx * by) by (nonlinear_arith)
        requires
            -bx <= x <= bx,
            -by <= y <= by,
            0 <= bx,
            0 <= by,
    ;
}

/// `cross3`, computed exactly in `i128`.
pub fn orient(o: Pt, a: Pt, b: Pt) -> (r: i128)
    requires
        pt_ok(o),
        pt_ok(a),
        pt_ok(b),
    ensures
        r as int == cross3(o, a, b),
{
    let ox = o.0 as i128;
    let oy = o.1 as i128;
    let v1x: i128 = a.0 as i128 - ox;
    let v1y: i128 = a.1 as i128 - oy;
    let v2x: i128 = b.0 as i128 - ox;
    let v2y: i128 = b.1 as i128 - oy;
    proof {
        lemma_mul_bound(v1x as int, v2y as int, 2_000_000_000, 2_000_000_000);
        lemma_mul_bound(v1y as int, v2x as int, 2_000_000_000, 2_000_000_000);
    }
    v1x * v2y - v1y * v2x
}

/// One shoelace term: the cross product of consecutive vertices `a` and `b`.
pub open spec fn shoelace_term(a: Pt, b: Pt) -> int {
    (a.0 as int) * (b.1 as int) - (b.0 as int) * (a.1 as int)
}

/// Shoelace sum over the first `n` edges of the closed ring `s` (the edge
/// leaving `s[n-1]` wraps around to `s[0]` when `n == s.len()`).
pub open spec fn area2_to(s: Seq<Pt>, n: int) -> int
    decreases n,
{
    if n <= 0 {
        0
    } else {
        let a = s[n - 1];
        let b = if n == s.len() { s[0] } else { s[n] };
        area2_to(s, n - 1) + shoelace_term(a, b)
    }
}

/// Twice the signed area of the closed ring `s`: positive for a
/// counter-clockwise ring, negative for a clockwise one.
pub open spec fn area2(s: Seq<Pt>) -> int {
    area2_to(s, s.len() as int)
}

/// Bound on one shoelace term of coordinates within `MAX_COORD`.
pub proof fn lemma_term_bound(a: Pt, b: Pt)
    requires
        pt_ok(a),
        pt_ok(b),
    ensures
        -2_000_000_000_000_000_000 <= shoelace_term(a, b) <= 2_000_000_000_000_000_000,
{
    assert(-2_000_000_000_000_000_000 <= (a.0 as int) * (b.1 as int) - (b.0 as int) * (a.1 as int)
        <= 2_000_000_000_000_000_000) by (nonlinear_arith)
        requires
            -MAX_COORD <= a.0 as int <= MAX_COORD,
            -MAX_COORD <= a.1 as int <= MAX_COORD,
            -MAX_COORD <= b.0 as int <= MAX_COORD,
            -MAX_COORD <= b.1 as int <= MAX_COORD,
            MAX_COORD == 1_000_000_000,
    ;
}

/// The partial shoelace sum grows at most linearly in the number of terms.
pub proof fn lemma_area2_to_bound(s: Seq<Pt>, n: int)
    requires
        ring_ok(s),
        0 <= n <= s.len(),
    ensures
        -n * 2_000_000_000_000_000_000 <= area2_to(s, n) <= n * 2_000_000_000_000_000_000,
    decreases n,
{
    if n > 0 {
        lemma_area2_to_bound(s, n - 1);
        let a = s[n - 1];
        let b = if n == s.len() { s[0] } else { s[n] };
        lemma_term_bound(a, b);
        assert((n - 1) * 2_000_000_000_000_000_000 + 2_000_000_000_000_000_000
            == n * 2_000_000_000_000_000_000) by (nonlinear_arith);
    }
}

/// Twice the signed area of a closed ring, computed exactly in `i128`.
pub fn signed_area2(v: &Vec<Pt>) -> (r: i128)
    requires
        ring_ok(v@),
    ensures
        r as int == area2(v@),
{
    let mut acc: i128 = 0;
    let mut i: usize = 0;
    while i < v.len()
        invariant
            0 <= i <= v.len(),
            acc as int == area2_to(v@, i as int),
        decreases v.len() - i,
    {
        let a = v[i];
        let b = if i + 1 == v.len() { v[0] } else { v[i + 1] };
        proof {
            lemma_area2_to_bound(v@, i as int);
            lemma_area2_to_bound(v@, i + 1);
            lemma_term_bound(a, b);
            lemma_mul_bound(a.0 as int, b.1 as int, MAX_COORD as int, MAX_COORD as int);
            lemma_mul_bound(b.0 as int, a.1 as int, MAX_COORD as int, MAX_COORD as int);
            lemma_mul_bound(i as int, 2_000_000_000_000_000_000, 0xffff_ffff_ffff_ffff, 2_000_000_000_000_000_000);
            lemma_mul_bound(i + 1, 2_000_000_000_000_000_000, 0xffff_ffff_ffff_ffff, 2_000_000_000_000_000_000);
        }
        let t: i128 = (a.0 as i128) * (b.1 as i128) - (b.0 as i128) * (a.1 as i128);
        acc = acc + t;
        i = i + 1;
    }
    acc
}

/// Division by a positive divisor, rounded to the nearest integer with ties
/// away from zero.
pub open spec fn rdiv(a: int, b: int) -> int {
    if a >= 0 {
        (2 * a + b) / (2 * b)
    } else {
        -((2 * (-a) + b) / (2 * b))
    }
}

/// `rdiv`, computed exactly in `i128`.
pub fn rdiv_exec(a: i128, b: i128) -> (r: i128)
    requires
        0 < b <= 0x2000_0000_0000_0000_0000_0000_0000,
        -0x2000_0000_0000_0000_0000_0000_0000 <= a <= 0x2000_0000_0000_0000_0000_0000_0000,
    ensures
        r as int == rdiv(a as int, b as int),
{
    if a >= 0 {
        (2 * a + b) / (2 * b)
    } else {
        -((2 * (-a) + b) / (2 * b))
    }
}

/// Clamps an intermediate value into the accepted coordinate range.
pub open spec fn clampc(x: int) -> int {
    if x < -MAX_COORD {
        -MAX_COORD as int
    } else if x > MAX_COORD {
        MAX_COORD as int
    } else {
        x
    }
}

/// `clampc`, from `i128` into a stored coordinate.
pub fn clampc_exec(x: i128) -> (r: i64)
    ensures
        r as int == clampc(x as int),
        -MAX_COORD <= r <= MAX_COORD,
{
    if x < -(MAX_COORD as i128) {
        -MAX_COORD
    } else if x > MAX_COORD as i128 {
        MAX_COORD
    } else {
        x as i64
    }
}

pub open spec fn is_sqrt(n: int, r: int) -> bool {
    &&& 0 <= r
    &&& r * r <= n
    &&& (r + 1) * (r + 1) > n
}

/// The integer square root (rounded down) of a non-negative integer.
pub open spec fn sqrt_floor(n: int) -> int {
    choose|r: int| is_sqrt(n, r)
}

pub proof fn lemma_sqrt_unique(n: int, r1: int, r2: int)
    requires
        is_sqrt(n, r1),
        is_sqrt(n, r2),
    ensures
        r1 == r2,
{
    assert(r1 == r2) by (nonlinear_arith)
        requires
            0 <= r1,
            0 <= r2,
            r1 * r1 <= n,
            (r1 + 1) * (r1 + 1) > n,
            r2 * r2 <= n,
            (r2 + 1) * (r2 + 1) > n,
    ;
}

/// Integer square root by binary search.
pub fn isqrt(n: u128) -> (r: u128)
    requires
        n < 0x4000_0000_0000_0000_0000_0000_0000_0000,
    ensures
        is_sqrt(n as int, r as int),
        r as int == sqrt_floor(n as int),
{
    let mut lo: u128 = 0;
    let mut hi: u128 = 0x8000_0000_0000_0000;
    assert(hi * hi > n) by (nonlinear_arith)
        requires
            hi == 0x8000_0000_0000_0000u128,
            n < 0x4000_0000_0000_0000_0000_0000_0000_0000,
    ;
    while lo + 1 < hi
        invariant
            0 <= lo < hi <= 0x8000_0000_0000_0000,
            (lo as int) * (lo as int) <= n as int,
            (hi as int) * (hi as int) > n as int,
        decreases hi - lo,
    {
        let mid: u128 = lo + (hi - lo) / 2;
        proof {
            lemma_mul_bound(mid as int, mid as int, 0x8000_0000_0000_0000, 0x8000_0000_0000_0000);
        }
        if mid * mid <= n {
            lo = mid;
        } else {
            hi = mid;
        }
    }
    proof {
        assert(is_sqrt(n as int, lo as int));
        assert(is_sqrt(n as int, sqrt_floor(n as int))) by {
            assert(exists|r: int| is_sqrt(n as int, r)) by {
                assert(is_sqrt(n as int, lo as int));
            }
        }
        lemma_sqrt_unique(n as int, lo as int, sqrt_floor(n as int));
    }
    lo
}

} // verus!
