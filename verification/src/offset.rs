use vstd::prelude::*;
use crate::geom::{
    Pt, pt_ok, ring_ok, rings_ok, area2, cross3, clampc, rdiv, sqrt_floor, orient,
    signed_area2, clampc_exec, rdiv_exec, isqrt, lemma_mul_bound, MAX_COORD,
};
use crate::model::{JoinType, Operation, Paths};
use crate::subdiv::{
    dv, clean_ring, clean_ring_exec, copy_ring_at, sanitize, sanitize_vec_exec, dedup_consec,
    dedup_consec_to,
};
use crate::ops::{boolean_run_fill, boolean_run_fill_exec, to_paths};

verus! {

/// Coordinate headroom for offsetting: input vertices stay within a quarter
/// of the coordinate range and the delta within an eighth, so every displaced
/// or mitered vertex stays within the full range.
pub open spec fn pt_ok4(p: Pt) -> bool {
    &&& -MAX_COORD / 4 <= p.0 <= MAX_COORD / 4
    &&& -MAX_COORD / 4 <= p.1 <= MAX_COORD / 4
}

pub open spec fn rings_ok4(ps: Seq<Seq<Pt>>) -> bool {
    forall|i: int, j: int|
        0 <= i < ps.len() && 0 <= j < ps[i].len() ==> pt_ok4(#[trigger] ps[i][j])
}

/// What `offset` accepts: bounded vertices and delta, and a miter limit that
/// keeps the spike-length check inside the integer width.
pub open spec fn offset_ok(ps: Seq<Seq<Pt>>, jt: JoinType, delta: i64) -> bool {
    &&& rings_ok4(ps)
    &&& -MAX_COORD / 8 <= delta <= MAX_COORD / 8
    &&& (jt matches JoinType::Miter { limit_milli } ==> limit_milli <= 1_000_000)
}

// ---------------------------------------------------------------------------
// Edge displacement.
// ---------------------------------------------------------------------------

/// The displacement of the edge `a -> b` by `delta` along its right-hand
/// normal `(dy, -dx)`, each component rounded to the nearest integer against
/// the rounded-down edge length and clamped into the coordinate range.
pub open spec fn disp_vec(a: Pt, b: Pt, delta: int) -> (int, int) {
    let dx = b.0 - a.0;
    let dy = b.1 - a.1;
    let l = sqrt_floor(dx * dx + dy * dy);
    if l <= 0 {
        (0, 0)
    } else {
        (clampc(rdiv(delta * dy, l)), clampc(rdiv(-(delta * dx), l)))
    }
}

/// `p` moved by `v` and clamped into the coordinate range.
pub open spec fn disp_pt(p: Pt, v: (int, int)) -> Pt {
    (clampc(p.0 + v.0) as i64, clampc(p.1 + v.1) as i64)
}

fn disp_vec_exec(a: Pt, b: Pt, delta: i64) -> (v: (i64, i64))
    requires
        pt_ok4(a),
        pt_ok4(b),
        -MAX_COORD / 8 <= delta <= MAX_COORD / 8,
    ensures
        (v.0 as int, v.1 as int) == disp_vec(a, b, delta as int),
        pt_ok(v),
{
    let dx = b.0 as i128 - a.0 as i128;
    let dy = b.1 as i128 - a.1 as i128;
    proof {
        lemma_mul_bound(dx as int, dx as int, 500_000_000, 500_000_000);
        lemma_mul_bound(dy as int, dy as int, 500_000_000, 500_000_000);
        assert(dx * dx >= 0) by (nonlinear_arith);
        assert(dy * dy >= 0) by (nonlinear_arith);
    }
    let l2: u128 = (dx * dx + dy * dy) as u128;
    let l = isqrt(l2);
    if l == 0 {
        proof {
            assert(sqrt_floor(l2 as int) == 0);
        }
        (0, 0)
    } else {
        proof {
            assert(l as int * l as int <= l2 as int);
            lemma_mul_bound(1, 1, 1, 1);
            assert(l2 <= 0x4000_0000_0000_0000_0000u128);
            assert(l as int <= 0x8000_0000_0000_0000) by (nonlinear_arith)
                requires
                    l as int * l as int <= 0x4000_0000_0000_0000_0000,
                    l as int >= 0,
            ;
            lemma_mul_bound(delta as int, dy as int, 125_000_000, 500_000_000);
            lemma_mul_bound(delta as int, dx as int, 125_000_000, 500_000_000);
        }
        let li = l as i128;
        let vx = clampc_exec(rdiv_exec((delta as i128) * dy, li));
        let vy = clampc_exec(rdiv_exec(-((delta as i128) * dx), li));
        (vx, vy)
    }
}

fn disp_pt_exec(p: Pt, v: (i64, i64)) -> (r: Pt)
    requires
        pt_ok4(p),
        pt_ok(v),
    ensures
        r == disp_pt(p, (v.0 as int, v.1 as int)),
        pt_ok(r),
{
    let x = clampc_exec(p.0 as i128 + v.0 as i128);
    let y = clampc_exec(p.1 as i128 + v.1 as i128);
    (x, y)
}

// ---------------------------------------------------------------------------
// Corner joins.
// ---------------------------------------------------------------------------

/// The miter join at vertex `b`: the intersection of the two displaced edge
/// lines, kept only when it lies within `limit_milli / 1000` times `|delta|`
/// of the vertex; otherwise the corner falls back to the direct connection.
pub open spec fn miter_pt(a: Pt, b: Pt, c: Pt, delta: int, limit_milli: u64) -> Seq<Pt> {
    let v1 = disp_vec(a, b, delta);
    let v2 = disp_vec(b, c, delta);
    let d1x = b.0 - a.0;
    let d1y = b.1 - a.1;
    let d2x = c.0 - b.0;
    let d2y = c.1 - b.1;
    let den0 = d1x * d2y - d1y * d2x;
    let tn0 = (v2.0 - v1.0) * d2y - (v2.1 - v1.1) * d2x;
    let den = if den0 < 0 {
        -den0
    } else {
        den0
    };
    let tn = if den0 < 0 {
        -tn0
    } else {
        tn0
    };
    if den == 0 {
        Seq::empty()
    } else {
        let x = clampc(b.0 + v1.0 + rdiv(tn * d1x, den)) as i64;
        let y = clampc(b.1 + v1.1 + rdiv(tn * d1y, den)) as i64;
        let ex = (x as int) - b.0;
        let ey = (y as int) - b.1;
        let adelta = if delta < 0 {
            -delta
        } else {
            delta
        };
        if 1_000_000 * (ex * ex + ey * ey) <= ((limit_milli * limit_milli) as int) * (adelta
            * adelta) {
            seq![(x, y)]
        } else {
            Seq::empty()
        }
    }
}

/// The round join at vertex `b`, approximated by at most one intermediate arc
/// vertex along the corner bisector: it is emitted only when the direct
/// connection would deviate from the true arc by more than the tolerance.
pub open spec fn round_pt(a: Pt, b: Pt, c: Pt, delta: int, tolerance_milli: u64) -> Seq<Pt> {
    let v1 = disp_vec(a, b, delta);
    let v2 = disp_vec(b, c, delta);
    let ux = v1.0 + v2.0;
    let uy = v1.1 + v2.1;
    let ul = sqrt_floor(ux * ux + uy * uy);
    let adelta = if delta < 0 {
        -delta
    } else {
        delta
    };
    if ul > 0 && 1000 * (2 * adelta - ul) > 2 * (tolerance_milli as int) {
        seq![
            (clampc(b.0 + rdiv(adelta * ux, ul)) as i64, clampc(b.1 + rdiv(adelta * uy, ul)) as i64),
        ]
    } else {
        Seq::empty()
    }
}

/// The join vertices inserted at vertex `b` between the displaced images of
/// the edges `a -> b` and `b -> c`.  Corners where the displaced edges
/// overlap rather than separate get no join; the self-union pass removes the
/// overlap.
pub open spec fn join_pts(a: Pt, b: Pt, c: Pt, jt: JoinType, delta: int) -> Seq<Pt> {
    let turn = cross3(a, b, c);
    let convex = (delta > 0 && turn > 0) || (delta < 0 && turn < 0);
    if !convex {
        Seq::empty()
    } else {
        match jt {
            JoinType::Square => Seq::empty(),
            JoinType::Round { tolerance_milli } => round_pt(a, b, c, delta, tolerance_milli),
            JoinType::Miter { limit_milli } => miter_pt(a, b, c, delta, limit_milli),
        }
    }
}

fn miter_pt_exec(a: Pt, b: Pt, c: Pt, delta: i64, limit_milli: u64) -> (r: Vec<Pt>)
    requires
        pt_ok4(a),
        pt_ok4(b),
        pt_ok4(c),
        -MAX_COORD / 8 <= delta <= MAX_COORD / 8,
        limit_milli <= 1_000_000,
    ensures
        r@ == miter_pt(a, b, c, delta as int, limit_milli),
        ring_ok(r@),
{
    let v1 = disp_vec_exec(a, b, delta);
    let v2 = disp_vec_exec(b, c, delta);
    let d1x = b.0 as i128 - a.0 as i128;
    let d1y = b.1 as i128 - a.1 as i128;
    let d2x = c.0 as i128 - b.0 as i128;
    let d2y = c.1 as i128 - b.1 as i128;
    proof {
        lemma_mul_bound(d1x as int, d2y as int, 500_000_000, 500_000_000);
        lemma_mul_bound(d1y as int, d2x as int, 500_000_000, 500_000_000);
        lemma_mul_bound(v2.0 as int - v1.0 as int, d2y as int, 2_000_000_000, 500_000_000);
        lemma_mul_bound(v2.1 as int - v1.1 as int, d2x as int, 2_000_000_000, 500_000_000);
    }
    let den0: i128 = d1x * d2y - d1y * d2x;
    let tn0: i128 = (v2.0 as i128 - v1.0 as i128) * d2y - (v2.1 as i128 - v1.1 as i128) * d2x;
    let den: i128 = if den0 < 0 { -den0 } else { den0 };
    let tn: i128 = if den0 < 0 { -tn0 } else { tn0 };
    let mut out: Vec<Pt> = Vec::new();
    if den == 0 {
        proof {
            assert(out@ =~= miter_pt(a, b, c, delta as int, limit_milli));
        }
        return out;
    }
    proof {
        lemma_mul_bound(tn as int, d1x as int, 2_000_000_000_000_000_000, 500_000_000);
        lemma_mul_bound(tn as int, d1y as int, 2_000_000_000_000_000_000, 500_000_000);
    }
    let x = clampc_exec(b.0 as i128 + v1.0 as i128 + rdiv_exec(tn * d1x, den));
    let y = clampc_exec(b.1 as i128 + v1.1 as i128 + rdiv_exec(tn * d1y, den));
    let ex: i128 = x as i128 - b.0 as i128;
    let ey: i128 = y as i128 - b.1 as i128;
    let adelta: i128 = if delta < 0 { -(delta as i128) } else { delta as i128 };
    proof {
        lemma_mul_bound(ex as int, ex as int, 2_000_000_000, 2_000_000_000);
        lemma_mul_bound(ey as int, ey as int, 2_000_000_000, 2_000_000_000);
        lemma_mul_bound(limit_milli as int, limit_milli as int, 1_000_000, 1_000_000);
        lemma_mul_bound(adelta as int, adelta as int, 125_000_000, 125_000_000);
        lemma_mul_bound(
            (limit_milli * limit_milli) as int,
            adelta as int * adelta as int,
            1_000_000_000_000,
            15_625_000_000_000_000,
        );
    }
    let lhs: i128 = 1_000_000 * (ex * ex + ey * ey);
    let rhs: i128 = ((limit_milli * limit_milli) as i128) * (adelta * adelta);
    if lhs <= rhs {
        out.push((x, y));
    }
    proof {
        assert(out@ =~= miter_pt(a, b, c, delta as int, limit_milli));
    }
    out
}

fn round_pt_exec(a: Pt, b: Pt, c: Pt, delta: i64, tolerance_milli: u64) -> (r: Vec<Pt>)
    requires
        pt_ok4(a),
        pt_ok4(b),
        pt_ok4(c),
        -MAX_COORD / 8 <= delta <= MAX_COORD / 8,
    ensures
        r@ == round_pt(a, b, c, delta as int, tolerance_milli),
        ring_ok(r@),
{
    let v1 = disp_vec_exec(a, b, delta);
    let v2 = disp_vec_exec(b, c, delta);
    let ux: i128 = v1.0 as i128 + v2.0 as i128;
    let uy: i128 = v1.1 as i128 + v2.1 as i128;
    proof {
        lemma_mul_bound(ux as int, ux as int, 2_000_000_000, 2_000_000_000);
        lemma_mul_bound(uy as int, uy as int, 2_000_000_000, 2_000_000_000);
        assert(ux * ux >= 0) by (nonlinear_arith);
        assert(uy * uy >= 0) by (nonlinear_arith);
    }
    let u2: u128 = (ux * ux + uy * uy) as u128;
    let ul = isqrt(u2);
    let adelta: i128 = if delta < 0 { -(delta as i128) } else { delta as i128 };
    let mut out: Vec<Pt> = Vec::new();
    let tol2: i128 = 2 * (tolerance_milli as i128);
    if ul > 0 {
        proof {
            assert(ul as int * ul as int <= u2 as int);
            assert(ul as int <= 0x8000_0000_0000_0000) by (nonlinear_arith)
                requires
                    ul as int * ul as int <= 0x8000_0000_0000_0000_0000u128 as int,
                    ul as int >= 0,
            ;
        }
        let uli = ul as i128;
        let gap: i128 = 1000 * (2 * adelta - uli);
        if gap > tol2 {
            proof {
                lemma_mul_bound(adelta as int, ux as int, 125_000_000, 2_000_000_000);
                lemma_mul_bound(adelta as int, uy as int, 125_000_000, 2_000_000_000);
            }
            let x = clampc_exec(b.0 as i128 + rdiv_exec(adelta * ux, uli));
            let y = clampc_exec(b.1 as i128 + rdiv_exec(adelta * uy, uli));
            out.push((x, y));
        }
    }
    proof {
        assert(out@ =~= round_pt(a, b, c, delta as int, tolerance_milli));
    }
    out
}

fn join_pts_exec(a: Pt, b: Pt, c: Pt, jt: JoinType, delta: i64) -> (r: Vec<Pt>)
    requires
        pt_ok4(a),
        pt_ok4(b),
        pt_ok4(c),
        -MAX_COORD / 8 <= delta <= MAX_COORD / 8,
        jt matches JoinType::Miter { limit_milli } ==> limit_milli <= 1_000_000,
    ensures
        r@ == join_pts(a, b, c, jt, delta as int),
        ring_ok(r@),
{
    let turn = orient(a, b, c);
    let convex = (delta > 0 && turn > 0) || (delta < 0 && turn < 0);
    if !convex {
        let out: Vec<Pt> = Vec::new();
        proof {
            assert(out@ =~= join_pts(a, b, c, jt, delta as int));
        }
        out
    } else {
        match jt {
            JoinType::Square => {
                let out: Vec<Pt> = Vec::new();
                proof {
                    assert(out@ =~= join_pts(a, b, c, jt, delta as int));
                }
                out
            },
            JoinType::Round { tolerance_milli } => round_pt_exec(a, b, c, delta, tolerance_milli),
            JoinType::Miter { limit_milli } => miter_pt_exec(a, b, c, delta, limit_milli),
        }
    }
}

// ---------------------------------------------------------------------------
// The raw offset boundary of one ring, and of a whole collection.
// ---------------------------------------------------------------------------

/// A ring turned counter-clockwise, so that the right-hand normal of each
/// edge points out of the polygon.
pub open spec fn ring_oriented(r: Seq<Pt>) -> Seq<Pt> {
    if area2(r) < 0 {
        r.reverse()
    } else {
        r
    }
}

/// The raw displaced boundary of the first `n` edges of the oriented ring
/// `o`: for each edge its two displaced endpoints, followed by the join
/// vertices of the corner it forms with the next edge.
pub open spec fn offset_ring_to(o: Seq<Pt>, jt: JoinType, delta: int, n: int) -> Seq<Pt>
    decreases n,
{
    if n <= 0 {
        Seq::empty()
    } else {
        let i = n - 1;
        let a = o[i];
        let b = if i + 1 == o.len() {
            o[0]
        } else {
            o[i + 1]
        };
        let c = if i + 2 == o.len() {
            o[0]
        } else if i + 2 == o.len() + 1 {
            o[1]
        } else {
            o[i + 2]
        };
        let v = disp_vec(a, b, delta);
        offset_ring_to(o, jt, delta, n - 1) + seq![disp_pt(a, v), disp_pt(b, v)] + join_pts(
            a,
            b,
            c,
            jt,
            delta,
        )
    }
}

pub open spec fn offset_ring(o: Seq<Pt>, jt: JoinType, delta: int) -> Seq<Pt> {
    offset_ring_to(o, jt, delta, o.len() as int)
}

/// The raw displaced boundaries of the first `n` input rings: each ring is
/// cleaned, rings with fewer than two distinct vertices are dropped, the rest
/// are oriented counter-clockwise and displaced.
pub open spec fn offset_rings_to(ps: Seq<Seq<Pt>>, jt: JoinType, delta: int, n: int) -> Seq<
    Seq<Pt>,
>
    decreases n,
{
    if n <= 0 {
        Seq::empty()
    } else {
        let acc = offset_rings_to(ps, jt, delta, n - 1);
        let c = clean_ring(ps[n - 1]);
        if c.len() >= 2 {
            acc.push(offset_ring(ring_oriented(c), jt, delta))
        } else {
            acc
        }
    }
}

pub open spec fn offset_rings(ps: Seq<Seq<Pt>>, jt: JoinType, delta: int) -> Seq<Seq<Pt>> {
    offset_rings_to(ps, jt, delta, ps.len() as int)
}

/// The result of `offset`: the raw displaced boundaries, normalized through a
/// self-union under the positive winding rule, which resolves
/// self-intersections, discards the clockwise slivers a displaced boundary
/// folds over itself, and re-derives hole nesting.
pub open spec fn spec_offset(ps: Seq<Seq<Pt>>, jt: JoinType, delta: int) -> Seq<Seq<Pt>> {
    boolean_run_fill(
        sanitize(offset_rings(ps, jt, delta)),
        Seq::empty(),
        Operation::Union,
        true,
    )
}

fn reverse_exec(v: &Vec<Pt>) -> (r: Vec<Pt>)
    ensures
        r@ == v@.reverse(),
{
    let mut out: Vec<Pt> = Vec::new();
    let mut i: usize = v.len();
    while i > 0
        invariant
            0 <= i <= v@.len(),
            out@.len() == v@.len() - i,
            forall|k: int| 0 <= k < out@.len() ==> out@[k] == v@[v@.len() - 1 - k],
        decreases i,
    {
        i = i - 1;
        out.push(v[i]);
    }
    proof {
        assert(out@ =~= v@.reverse());
    }
    out
}

pub open spec fn ring_ok4(s: Seq<Pt>) -> bool {
    forall|j: int| 0 <= j < s.len() ==> pt_ok4(#[trigger] s[j])
}

fn offset_ring_exec(o: &Vec<Pt>, jt: JoinType, delta: i64) -> (r: Vec<Pt>)
    requires
        ring_ok4(o@),
        o@.len() >= 2,
        -MAX_COORD / 8 <= delta <= MAX_COORD / 8,
        jt matches JoinType::Miter { limit_milli } ==> limit_milli <= 1_000_000,
    ensures
        r@ == offset_ring(o@, jt, delta as int),
        ring_ok(r@),
{
    let mut out: Vec<Pt> = Vec::new();
    let mut i: usize = 0;
    while i < o.len()
        invariant
            0 <= i <= o@.len(),
            out@ == offset_ring_to(o@, jt, delta as int, i as int),
            ring_ok(out@),
        decreases o@.len() - i,
    {
        let a = o[i];
        let bi = if i + 1 == o.len() { 0 } else { i + 1 };
        let b = o[bi];
        let ci = if bi + 1 == o.len() { 0 } else { bi + 1 };
        let c = o[ci];
        let v = disp_vec_exec(a, b, delta);
        let p0 = disp_pt_exec(a, v);
        let p1 = disp_pt_exec(b, v);
        let ghost pre = out@;
        out.push(p0);
        out.push(p1);
        let js = join_pts_exec(a, b, c, jt, delta);
        let mut j: usize = 0;
        while j < js.len()
            invariant
                0 <= j <= js@.len(),
                ring_ok(js@),
                out@ == pre + seq![p0, p1] + js@.take(j as int),
                ring_ok(out@),
            decreases js@.len() - j,
        {
            out.push(js[j]);
            proof {
                assert(pre + seq![p0, p1] + js@.take(j + 1) =~= (pre + seq![p0, p1]
                    + js@.take(j as int)).push(js@[j as int]));
            }
            j = j + 1;
        }
        proof {
            assert(js@.take(js@.len() as int) =~= js@);
            assert(out@ =~= offset_ring_to(o@, jt, delta as int, i + 1));
        }
        i = i + 1;
    }
    out
}

fn offset_rings_exec(paths: &Paths, jt: JoinType, delta: i64) -> (r: Vec<Vec<Pt>>)
    requires
        offset_ok(paths@, jt, delta),
    ensures
        dv(r@) == offset_rings(paths@, jt, delta as int),
        rings_ok(dv(r@)),
{
    let mut out: Vec<Vec<Pt>> = Vec::new();
    let mut i: usize = 0;
    while i < paths.len()
        invariant
            0 <= i <= paths@.len(),
            dv(out@) == offset_rings_to(paths@, jt, delta as int, i as int),
            rings_ok(dv(out@)),
        decreases paths@.len() - i,
    {
        let ring = copy_ring_at(paths, i);
        proof {
            assert(ring_ok4(ring@)) by {
                assert(forall|j: int|
                    0 <= j < ring@.len() ==> pt_ok4(#[trigger] paths@[i as int][j]));
            }
            assert(ring_ok(ring@));
            lemma_clean_ring_ok4(ring@);
        }
        let c = clean_ring_exec(&ring);
        if c.len() >= 2 {
            let oriented = if signed_area2(&c) < 0 {
                let rev = reverse_exec(&c);
                proof {
                    assert(ring_ok4(rev@)) by {
                        assert(forall|j: int|
                            0 <= j < rev@.len() ==> rev@[j] == c@[c@.len() - 1 - j]);
                    }
                }
                rev
            } else {
                c
            };
            proof {
                assert(oriented@ == ring_oriented(clean_ring(paths@[i as int])));
            }
            let ghost pre = dv(out@);
            let disp = offset_ring_exec(&oriented, jt, delta);
            out.push(disp);
            proof {
                assert(dv(out@) =~= pre.push(offset_ring(
                    ring_oriented(clean_ring(paths@[i as int])),
                    jt,
                    delta as int,
                )));
            }
        }
        i = i + 1;
    }
    out
}

/// The cleaned prefix of a ring within the offset headroom stays within it.
proof fn lemma_clean_ring_ok4(s: Seq<Pt>)
    requires
        ring_ok4(s),
    ensures
        ring_ok4(clean_ring(s)),
{
    crate::subdiv::lemma_dedup_consec_bounded(s, s.len() as int);
    let d = crate::subdiv::dedup_consec(s);
    assert forall|j: int| 0 <= j < clean_ring(s).len() implies pt_ok4(#[trigger] clean_ring(s)[j])
        by {
        assert(clean_ring(s)[j] == d[j]);
        let k = choose|k: int| 0 <= k < s.len() && d[j] == s[k];
        assert(pt_ok4(s[k]));
    }
}

/// Displaces every input polygon's boundary by `delta` (outward for positive
/// `delta` on the polygon's outer side, inward for negative), synthesizes the
/// selected join at each corner, and normalizes the displaced boundary
/// through a self-union, which resolves self-intersections and re-derives
/// hole nesting.  A path left with fewer than two distinct vertices is
/// dropped.  A delta of zero returns the input geometry normalized through
/// the same self-union.
pub fn offset(paths: &Paths, join_type: JoinType, delta: i64) -> (r: Paths)
    requires
        offset_ok(paths@, join_type, delta),
    ensures
        r@ == spec_offset(paths@, join_type, delta as int),
        rings_ok(r@),
        forall|i: int|
            0 <= i < r@.len() ==> r@[i].len() >= 3 && crate::geom::area2(#[trigger] r@[i]) != 0,
{
    let raw = offset_rings_exec(paths, join_type, delta);
    let sr = sanitize_vec_exec(&raw);
    let empty: Vec<Vec<Pt>> = Vec::new();
    proof {
        assert(dv(empty@) =~= Seq::<Seq<Pt>>::empty());
    }
    let rings = boolean_run_fill_exec(&sr, &empty, Operation::Union, true);
    to_paths(rings)
}

// ---------------------------------------------------------------------------
// The identity offset displaces nothing.
// ---------------------------------------------------------------------------

/// A well-formed open ring: no vertex repeats its neighbour, around the ring.
pub open spec fn ring_clean(s: Seq<Pt>) -> bool {
    &&& forall|i: int| 0 <= i < s.len() - 1 ==> #[trigger] s[i] != s[i + 1]
    &&& (s.len() >= 2 ==> s[0] != s[s.len() - 1])
}

/// De-duplication leaves no consecutive duplicates behind.
proof fn lemma_dedup_no_consec(s: Seq<Pt>, n: int)
    requires
        0 <= n <= s.len(),
    ensures
        forall|i: int|
            0 <= i < dedup_consec_to(s, n).len() - 1 ==> #[trigger] dedup_consec_to(s, n)[i]
                != dedup_consec_to(s, n)[i + 1],
    decreases n,
{
    if n > 0 {
        lemma_dedup_no_consec(s, n - 1);
        let d = dedup_consec_to(s, n - 1);
        let dn = dedup_consec_to(s, n);
        assert forall|i: int| 0 <= i < dn.len() - 1 implies #[trigger] dn[i] != dn[i + 1] by {
            if i + 1 < d.len() {
                assert(dn[i] == d[i] && dn[i + 1] == d[i + 1]);
            } else {
                assert(dn[i] == d.last() && dn[i + 1] == s[n - 1]);
            }
        }
    }
}

/// A cleaned ring is well formed: neighbours differ, around the ring.
pub proof fn lemma_clean_ring_clean(s: Seq<Pt>)
    ensures
        ring_clean(clean_ring(s)),
{
    lemma_dedup_no_consec(s, s.len() as int);
    let d = dedup_consec(s);
    let c = clean_ring(s);
    if d.len() >= 2 && d.last() == d[0] {
        assert(c == d.drop_last());
        assert(forall|i: int| 0 <= i < c.len() - 1 ==> #[trigger] c[i] != c[i + 1]);
        if c.len() >= 2 {
            assert(c[c.len() - 1] == d[d.len() - 2]);
            assert(dedup_consec_to(s, s.len() as int)[d.len() - 2] != dedup_consec_to(
                s,
                s.len() as int,
            )[d.len() - 1]);
        }
    }
}

/// Reversal preserves well-formedness and the coordinate bound.
pub proof fn lemma_reverse_clean(s: Seq<Pt>)
    requires
        ring_clean(s),
        ring_ok(s),
    ensures
        ring_clean(s.reverse()),
        ring_ok(s.reverse()),
{
    let r = s.reverse();
    assert forall|i: int| 0 <= i < r.len() - 1 implies #[trigger] r[i] != r[i + 1] by {
        assert(r[i] == s[s.len() - 1 - i] && r[i + 1] == s[s.len() - 2 - i]);
        assert(s[s.len() - 2 - i] != s[s.len() - 2 - i + 1]);
    }
    assert forall|i: int| 0 <= i < r.len() implies pt_ok(#[trigger] r[i]) by {
        assert(r[i] == s[s.len() - 1 - i]);
    }
}

/// Rounding division of zero gives zero.
proof fn lemma_rdiv_zero(b: int)
    requires
        b >= 1,
    ensures
        rdiv(0, b) == 0,
{
    vstd::arithmetic::div_mod::lemma_basic_div(b, 2 * b);
}

/// A zero delta displaces no edge.
proof fn lemma_disp_vec_zero(a: Pt, b: Pt)
    ensures
        disp_vec(a, b, 0) == (0int, 0int),
{
    let dx = (b.0 as int) - a.0 as int;
    let dy = (b.1 as int) - a.1 as int;
    let l = sqrt_floor(dx * dx + dy * dy);
    if l > 0 {
        lemma_rdiv_zero(l);
    }
}

/// With a zero delta, the raw boundary of the first `k` edges lists the
/// ring's own vertices, two per edge.
proof fn lemma_offset_ring_zero_shape(o: Seq<Pt>, jt: JoinType, k: int)
    requires
        ring_ok(o),
        o.len() >= 2,
        0 <= k <= o.len(),
    ensures
        offset_ring_to(o, jt, 0, k).len() == 2 * k,
        forall|i: int|
            0 <= i < k ==> #[trigger] offset_ring_to(o, jt, 0, k)[2 * i] == o[i]
                && offset_ring_to(o, jt, 0, k)[2 * i + 1] == (if i + 1 == o.len() {
                o[0]
            } else {
                o[i + 1]
            }),
    decreases k,
{
    if k > 0 {
        lemma_offset_ring_zero_shape(o, jt, k - 1);
        let i = k - 1;
        let a = o[i];
        let b = if i + 1 == o.len() {
            o[0]
        } else {
            o[i + 1]
        };
        lemma_disp_vec_zero(a, b);
        assert(disp_pt(a, (0int, 0int)) == a);
        assert(disp_pt(b, (0int, 0int)) == b);
        assert(join_pts(
            a,
            b,
            if i + 2 == o.len() {
                o[0]
            } else if i + 2 == o.len() + 1 {
                o[1]
            } else {
                o[i + 2]
            },
            jt,
            0,
        ) =~= Seq::<Pt>::empty());
        assert(offset_ring_to(o, jt, 0, k) =~= offset_ring_to(o, jt, 0, k - 1) + seq![a, b]);
        assert forall|i2: int| 0 <= i2 < k implies #[trigger] offset_ring_to(o, jt, 0, k)[2 * i2]
            == o[i2] && offset_ring_to(o, jt, 0, k)[2 * i2 + 1] == (if i2 + 1 == o.len() {
            o[0]
        } else {
            o[i2 + 1]
        }) by {
            if i2 < k - 1 {
                assert(offset_ring_to(o, jt, 0, k - 1)[2 * i2] == o[i2]);
                assert(offset_ring_to(o, jt, 0, k)[2 * i2] == offset_ring_to(o, jt, 0, k - 1)[2
                    * i2]);
                assert(offset_ring_to(o, jt, 0, k)[2 * i2 + 1] == offset_ring_to(
                    o,
                    jt,
                    0,
                    k - 1,
                )[2 * i2 + 1]);
            } else {
                assert(offset_ring_to(o, jt, 0, k)[2 * i2] == a);
                assert(offset_ring_to(o, jt, 0, k)[2 * i2 + 1] == b);
            }
        }
    }
}

/// De-duplicating the first `j` raw vertices of the identity offset yields
/// the ring's own prefix (and finally the ring with its first vertex
/// repeated at the end).
proof fn lemma_offset_ring_zero_dedup(o: Seq<Pt>, jt: JoinType, j: int)
    requires
        ring_ok(o),
        ring_clean(o),
        o.len() >= 2,
        0 <= j <= 2 * o.len(),
    ensures
        dedup_consec_to(offset_ring(o, jt, 0), j) == (if j == 0 {
            Seq::<Pt>::empty()
        } else if j < 2 * o.len() {
            o.take(j / 2 + 1)
        } else {
            o.push(o[0])
        }),
    decreases j,
{
    let n = o.len() as int;
    let raw = offset_ring(o, jt, 0);
    lemma_offset_ring_zero_shape(o, jt, n);
    if j > 0 {
        lemma_offset_ring_zero_dedup(o, jt, j - 1);
        let d = dedup_consec_to(raw, j - 1);
        let i = (j - 1) / 2;
        assert(offset_ring_to(o, jt, 0, n)[2 * i] == o[i]);
        assert(raw[j - 1] == (if j - 1 == 2 * i {
            o[i]
        } else if i + 1 == n {
            o[0]
        } else {
            o[i + 1]
        }));
        if j == 1 {
            assert(dedup_consec_to(raw, j) =~= o.take(1));
        } else if j - 1 == 2 * i {
            assert(d == o.take(i + 1));
            assert(d.last() == o[i]);
            assert(raw[j - 1] == o[i]);
            assert(dedup_consec_to(raw, j) == d);
            assert(j / 2 + 1 == i + 1);
        } else {
            assert(d == o.take(i + 1));
            assert(d.last() == o[i]);
            if i + 1 == n {
                assert(raw[j - 1] == o[0]);
                assert(o[i] != o[0]);
                assert(dedup_consec_to(raw, j) == d.push(o[0]));
                assert(o.take(n) =~= o);
                assert(dedup_consec_to(raw, j) =~= o.push(o[0]));
            } else {
                assert(raw[j - 1] == o[i + 1]);
                assert(o[i] != o[i + 1]);
                assert(dedup_consec_to(raw, j) == d.push(o[i + 1]));
                assert(dedup_consec_to(raw, j) =~= o.take(i + 2));
                assert(j / 2 + 1 == i + 2);
            }
        }
    }
}

/// The identity offset displaces nothing: with a zero delta, cleaning the
/// raw displaced boundary of a well-formed ring gives the ring back, so the
/// offset only normalizes its input through the self-union.
pub proof fn lemma_offset_ring_zero_identity(o: Seq<Pt>, jt: JoinType)
    requires
        ring_ok(o),
        ring_clean(o),
        o.len() >= 2,
    ensures
        clean_ring(offset_ring(o, jt, 0)) == o,
{
    let raw = offset_ring(o, jt, 0);
    let n = o.len() as int;
    lemma_offset_ring_zero_shape(o, jt, n);
    assert(raw.len() == 2 * n);
    lemma_offset_ring_zero_dedup(o, jt, 2 * n);
    let d = dedup_consec(raw);
    assert(d == o.push(o[0]));
    assert(d.len() == n + 1 >= 2);
    assert(d.last() == o[0] && d[0] == o[0]);
    assert(clean_ring(raw) == d.drop_last());
    assert(d.drop_last() =~= o);
}

/// What the identity offset hands to the self-union, for each input path
/// with at least two distinct vertices: the cleaned, oriented path itself.
pub proof fn lemma_offset_zero_ring_preserved(p: Seq<Pt>, jt: JoinType)
    requires
        ring_ok(p),
        clean_ring(p).len() >= 2,
    ensures
        clean_ring(offset_ring(ring_oriented(clean_ring(p)), jt, 0)) == ring_oriented(
            clean_ring(p),
        ),
{
    let c = clean_ring(p);
    lemma_clean_ring_clean(p);
    crate::subdiv::lemma_dedup_consec_bounded(p, p.len() as int);
    assert forall|i: int| 0 <= i < c.len() implies pt_ok(#[trigger] c[i]) by {
        let d = crate::subdiv::dedup_consec(p);
        assert(c[i] == d[i]);
        let k = choose|k: int| 0 <= k < p.len() && d[i] == p[k];
        assert(pt_ok(p[k]));
    }
    let o = ring_oriented(c);
    if area2(c) < 0 {
        lemma_reverse_clean(c);
    }
    lemma_offset_ring_zero_identity(o, jt);
}

} // verus!
