use vstd::prelude::*;
use crate::geom::{
    Pt, Seg, pt_ok, ring_ok, rings_ok, seg_ok, segs_ok, area2, cross3, clampc, rdiv,
    orient, signed_area2, clampc_exec, rdiv_exec, lemma_mul_bound, pt_eq,
};
use crate::model::Paths;

verus! {

/// The sequence of vertex sequences held by a vector of rings.
pub open spec fn dv(rings: Seq<Vec<Pt>>) -> Seq<Seq<Pt>> {
    Seq::new(rings.len(), |i: int| rings[i]@)
}

// ---------------------------------------------------------------------------
// Ring cleaning: consecutive duplicates and the duplicated closing vertex go.
// ---------------------------------------------------------------------------

/// The first `n` vertices of `s` with each vertex equal to its predecessor
/// removed.
pub open spec fn dedup_consec_to(s: Seq<Pt>, n: int) -> Seq<Pt>
    decreases n,
{
    if n <= 0 {
        Seq::empty()
    } else {
        let d = dedup_consec_to(s, n - 1);
        if d.len() > 0 && d.last() == s[n - 1] {
            d
        } else {
            d.push(s[n - 1])
        }
    }
}

pub open spec fn dedup_consec(s: Seq<Pt>) -> Seq<Pt> {
    dedup_consec_to(s, s.len() as int)
}

/// A ring with consecutive duplicate vertices removed, and the last vertex
/// dropped when it repeats the first (an explicitly closed input ring).
pub open spec fn clean_ring(s: Seq<Pt>) -> Seq<Pt> {
    let d = dedup_consec(s);
    if d.len() >= 2 && d.last() == d[0] {
        d.drop_last()
    } else {
        d
    }
}

/// Whether a cleaned ring takes part in an operation: at least three
/// vertices and a nonzero signed area.  Anything else contributes nothing.
pub open spec fn ring_live(s: Seq<Pt>) -> bool {
    s.len() >= 3 && area2(s) != 0
}

/// The first `n` input rings, cleaned, with degenerate rings dropped.
pub open spec fn sanitize_to(ps: Seq<Seq<Pt>>, n: int) -> Seq<Seq<Pt>>
    decreases n,
{
    if n <= 0 {
        Seq::empty()
    } else {
        let acc = sanitize_to(ps, n - 1);
        let c = clean_ring(ps[n - 1]);
        if ring_live(c) {
            acc.push(c)
        } else {
            acc
        }
    }
}

/// The rings of `ps` that take part in an operation, in input order.
pub open spec fn sanitize(ps: Seq<Seq<Pt>>) -> Seq<Seq<Pt>> {
    sanitize_to(ps, ps.len() as int)
}

fn dedup_consec_exec(v: &Vec<Pt>) -> (r: Vec<Pt>)
    ensures
        r@ == dedup_consec(v@),
        ring_ok(v@) ==> ring_ok(r@),
{
    let mut out: Vec<Pt> = Vec::new();
    let mut i: usize = 0;
    while i < v.len()
        invariant
            0 <= i <= v.len(),
            out@ == dedup_consec_to(v@, i as int),
            ring_ok(v@) ==> ring_ok(out@),
        decreases v.len() - i,
    {
        if out.len() > 0 && pt_eq(out[out.len() - 1], v[i]) {
        } else {
            out.push(v[i]);
        }
        i = i + 1;
    }
    out
}

pub(crate) fn clean_ring_exec(v: &Vec<Pt>) -> (r: Vec<Pt>)
    ensures
        r@ == clean_ring(v@),
        ring_ok(v@) ==> ring_ok(r@),
{
    let mut d = dedup_consec_exec(v);
    proof {
        lemma_dedup_consec_bounded(v@, v@.len() as int);
    }
    if d.len() >= 2 && pt_eq(d[d.len() - 1], d[0]) {
        let _ = d.pop();
    }
    d
}

/// Every vertex a cleaned prefix keeps came from the input.
pub(crate) proof fn lemma_dedup_consec_bounded(s: Seq<Pt>, n: int)
    requires
        0 <= n <= s.len(),
    ensures
        forall|j: int|
            0 <= j < dedup_consec_to(s, n).len() ==> exists|k: int|
                0 <= k < n && #[trigger] dedup_consec_to(s, n)[j] == s[k],
    decreases n,
{
    if n > 0 {
        lemma_dedup_consec_bounded(s, n - 1);
        let d = dedup_consec_to(s, n - 1);
        let dn = dedup_consec_to(s, n);
        assert forall|j: int| 0 <= j < dn.len() implies exists|k: int|
            0 <= k < n && #[trigger] dn[j] == s[k] by {
            if j < d.len() {
                assert(dn[j] == d[j]);
                let k0 = choose|k: int| 0 <= k < n - 1 && d[j] == s[k];
                assert(0 <= k0 < n && dn[j] == s[k0]);
            } else {
                assert(dn[j] == s[n - 1]);
            }
        }
    }
}

/// The live cleaned rings of a path collection.
pub fn sanitize_exec(paths: &Paths) -> (r: Vec<Vec<Pt>>)
    requires
        rings_ok(paths@),
    ensures
        dv(r@) == sanitize(paths@),
        rings_ok(dv(r@)),
{
    let mut out: Vec<Vec<Pt>> = Vec::new();
    let mut i: usize = 0;
    while i < paths.len()
        invariant
            0 <= i <= paths@.len(),
            dv(out@) == sanitize_to(paths@, i as int),
            rings_ok(dv(out@)),
        decreases paths@.len() - i,
    {
        let ghost pre = dv(out@);
        let ring = copy_ring_at(paths, i);
        let c = clean_ring_exec(&ring);
        let n = c.len();
        if n >= 3 && signed_area2(&c) != 0 {
            out.push(c);
            proof {
                assert(dv(out@) =~= pre.push(clean_ring(paths@[i as int])));
            }
        }
        i = i + 1;
    }
    out
}

/// The live cleaned rings of a ring vector.
pub fn sanitize_vec_exec(rings: &Vec<Vec<Pt>>) -> (r: Vec<Vec<Pt>>)
    requires
        rings_ok(dv(rings@)),
    ensures
        dv(r@) == sanitize(dv(rings@)),
        rings_ok(dv(r@)),
{
    let mut out: Vec<Vec<Pt>> = Vec::new();
    let mut i: usize = 0;
    while i < rings.len()
        invariant
            0 <= i <= rings@.len(),
            dv(out@) == sanitize_to(dv(rings@), i as int),
            rings_ok(dv(out@)),
        decreases rings@.len() - i,
    {
        let ghost pre = dv(out@);
        proof {
            assert(dv(rings@)[i as int] == rings@[i as int]@);
        }
        let c = clean_ring_exec(&rings[i]);
        let n = c.len();
        if n >= 3 && signed_area2(&c) != 0 {
            out.push(c);
            proof {
                assert(dv(out@) =~= pre.push(clean_ring(dv(rings@)[i as int])));
            }
        }
        i = i + 1;
    }
    out
}

/// Copies the vertex sequence of the path at `index`.
pub(crate) fn copy_ring_at(paths: &Paths, index: usize) -> (r: Vec<Pt>)
    requires
        index < paths@.len(),
    ensures
        r@ == paths@[index as int],
{
    let p: &Vec<Pt> = &paths.items[index].pts;
    proof {
        assert(p@ == paths@[index as int]);
    }
    let mut out: Vec<Pt> = Vec::new();
    let mut j: usize = 0;
    while j < p.len()
        invariant
            0 <= j <= p@.len(),
            p@ == paths@[index as int],
            out@ == p@.take(j as int),
        decreases p@.len() - j,
    {
        out.push(p[j]);
        proof {
            assert(p@.take(j + 1) =~= p@.take(j as int).push(p@[j as int]));
        }
        j = j + 1;
    }
    proof {
        assert(p@.take(p@.len() as int) =~= p@);
    }
    out
}

// ---------------------------------------------------------------------------
// Edge extraction: each ring becomes its directed boundary edges.
// ---------------------------------------------------------------------------

/// The first `n` directed boundary edges of the closed ring `r` (the edge
/// leaving the last vertex wraps around to the first).
pub open spec fn ring_edges_to(r: Seq<Pt>, n: int) -> Seq<Seg>
    decreases n,
{
    if n <= 0 {
        Seq::empty()
    } else {
        let b = if n == r.len() { r[0] } else { r[n] };
        ring_edges_to(r, n - 1).push((r[n - 1], b))
    }
}

pub open spec fn ring_edges(r: Seq<Pt>) -> Seq<Seg> {
    ring_edges_to(r, r.len() as int)
}

/// All directed boundary edges of the first `n` rings, in order.
pub open spec fn edges_all_to(ps: Seq<Seq<Pt>>, n: int) -> Seq<Seg>
    decreases n,
{
    if n <= 0 {
        Seq::empty()
    } else {
        edges_all_to(ps, n - 1) + ring_edges(ps[n - 1])
    }
}

pub open spec fn edges_all(ps: Seq<Seq<Pt>>) -> Seq<Seg> {
    edges_all_to(ps, ps.len() as int)
}

pub fn edges_all_exec(rings: &Vec<Vec<Pt>>) -> (r: Vec<Seg>)
    requires
        rings_ok(dv(rings@)),
    ensures
        r@ == edges_all(dv(rings@)),
        segs_ok(r@),
{
    let ghost rs = dv(rings@);
    let mut out: Vec<Seg> = Vec::new();
    let mut k: usize = 0;
    while k < rings.len()
        invariant
            0 <= k <= rings@.len(),
            rs == dv(rings@),
            out@ == edges_all_to(rs, k as int),
            segs_ok(out@),
        decreases rings@.len() - k,
    {
        let ring = &rings[k];
        proof {
            assert(rs[k as int] == ring@);
            assert(ring_ok(ring@));
        }
        let mut i: usize = 0;
        while i < ring.len()
            invariant
                0 <= i <= ring@.len(),
                rs == dv(rings@),
                k < rings@.len(),
                rs[k as int] == ring@,
                ring_ok(ring@),
                out@ == edges_all_to(rs, k as int) + ring_edges_to(ring@, i as int),
                segs_ok(out@),
            decreases ring@.len() - i,
        {
            let b = if i + 1 == ring.len() { ring[0] } else { ring[i + 1] };
            out.push((ring[i], b));
            i = i + 1;
        }
        proof {
            assert(out@ =~= edges_all_to(rs, k + 1));
        }
        k = k + 1;
    }
    out
}

// ---------------------------------------------------------------------------
// Subdivision: every edge is split at every point where another edge meets it,
// so that afterwards edges meet only at sub-edge endpoints.
// ---------------------------------------------------------------------------

/// Whether `p` lies within the axis-aligned bounding box of `e`.
pub open spec fn in_box(e: Seg, p: Pt) -> bool {
    &&& (e.0.0 <= p.0 <= e.1.0 || e.1.0 <= p.0 <= e.0.0)
    &&& (e.0.1 <= p.1 <= e.1.1 || e.1.1 <= p.1 <= e.0.1)
}

/// Whether two segments cross properly: each one's endpoints lie strictly on
/// opposite sides of the other's supporting line.
pub open spec fn proper_cross(e: Seg, f: Seg) -> bool {
    let o1 = cross3(e.0, e.1, f.0);
    let o2 = cross3(e.0, e.1, f.1);
    let o3 = cross3(f.0, f.1, e.0);
    let o4 = cross3(f.0, f.1, e.1);
    ((o1 > 0 && o2 < 0) || (o1 < 0 && o2 > 0)) && ((o3 > 0 && o4 < 0) || (o3 < 0 && o4 > 0))
}

/// The crossing point of two properly crossing segments, each coordinate
/// rounded to the nearest integer (ties away from zero) and clamped into the
/// coordinate range.
pub open spec fn cross_point(e: Seg, f: Seg) -> Pt {
    let d1x = e.1.0 - e.0.0;
    let d1y = e.1.1 - e.0.1;
    let d2x = f.1.0 - f.0.0;
    let d2y = f.1.1 - f.0.1;
    let den0 = d1x * d2y - d1y * d2x;
    let tn0 = (f.0.0 - e.0.0) * d2y - (f.0.1 - e.0.1) * d2x;
    let den = if den0 < 0 { -den0 } else { den0 };
    let tn = if den0 < 0 { -tn0 } else { tn0 };
    (
        clampc(e.0.0 + rdiv(tn * d1x, den)) as i64,
        clampc(e.0.1 + rdiv(tn * d1y, den)) as i64,
    )
}

/// The points at which `f` forces a split of `e`: an endpoint of `f` lying on
/// `e` (which also covers collinear overlap), or a proper crossing.
pub open spec fn split_pts(e: Seg, f: Seg) -> Seq<Pt> {
    let s1: Seq<Pt> = if cross3(e.0, e.1, f.0) == 0 && in_box(e, f.0) {
        seq![f.0]
    } else {
        Seq::empty()
    };
    let s2: Seq<Pt> = if cross3(e.0, e.1, f.1) == 0 && in_box(e, f.1) {
        seq![f.1]
    } else {
        Seq::empty()
    };
    let s3: Seq<Pt> = if proper_cross(e, f) {
        seq![cross_point(e, f)]
    } else {
        Seq::empty()
    };
    s1 + s2 + s3
}

/// The endpoints of `e` together with every split forced by the first `n`
/// edges of `all`.
pub open spec fn splits_to(e: Seg, all: Seq<Seg>, n: int) -> Seq<Pt>
    decreases n,
{
    if n <= 0 {
        seq![e.0, e.1]
    } else {
        splits_to(e, all, n - 1) + split_pts(e, all[n - 1])
    }
}

// ---------------------------------------------------------------------------
// Ordering split points along an edge.
// ---------------------------------------------------------------------------

/// Projection of `u` onto the direction of `e`, used to order split points
/// from `e`'s start towards its end.
pub open spec fn key_along(e: Seg, u: Pt) -> int {
    (u.0 - e.0.0) * (e.1.0 - e.0.0) + (u.1 - e.0.1) * (e.1.1 - e.0.1)
}

pub open spec fn pt_lt(a: Pt, b: Pt) -> bool {
    a.0 < b.0 || (a.0 == b.0 && a.1 < b.1)
}

/// Strict total order of split points along `e`, with coordinate order as a
/// deterministic tie-break.
pub open spec fn less_along(e: Seg, u: Pt, v: Pt) -> bool {
    ||| key_along(e, u) < key_along(e, v)
    ||| (key_along(e, u) == key_along(e, v) && pt_lt(u, v))
}

/// The first index of a minimal element among `s[0..n]`, under `less_along`.
pub open spec fn min_idx_to(e: Seg, s: Seq<Pt>, n: int) -> int
    decreases n,
{
    if n <= 1 {
        0
    } else {
        let m = min_idx_to(e, s, n - 1);
        if less_along(e, s[n - 1], s[m]) {
            n - 1
        } else {
            m
        }
    }
}

pub proof fn lemma_min_idx_range(e: Seg, s: Seq<Pt>, n: int)
    requires
        1 <= n,
    ensures
        0 <= min_idx_to(e, s, n) < n,
    decreases n,
{
    if n > 1 {
        lemma_min_idx_range(e, s, n - 1);
    }
}

/// Selection sort of split points along `e`: repeatedly moves the first
/// minimal remaining point to the output.
pub open spec fn sort_along(e: Seg, s: Seq<Pt>) -> Seq<Pt>
    decreases s.len(),
    via sort_along_decreases
{
    if s.len() == 0 {
        Seq::empty()
    } else {
        let m = min_idx_to(e, s, s.len() as int);
        seq![s[m]] + sort_along(e, s.remove(m))
    }
}

#[via_fn]
proof fn sort_along_decreases(e: Seg, s: Seq<Pt>) {
    if s.len() > 0 {
        lemma_min_idx_range(e, s, s.len() as int);
    }
}

fn less_along_exec(e: Seg, u: Pt, v: Pt) -> (r: bool)
    requires
        seg_ok(e),
        pt_ok(u),
        pt_ok(v),
    ensures
        r == less_along(e, u, v),
{
    let dx = e.1.0 as i128 - e.0.0 as i128;
    let dy = e.1.1 as i128 - e.0.1 as i128;
    proof {
        lemma_mul_bound(u.0 as int - e.0.0 as int, dx as int, 2_000_000_000, 2_000_000_000);
        lemma_mul_bound(u.1 as int - e.0.1 as int, dy as int, 2_000_000_000, 2_000_000_000);
        lemma_mul_bound(v.0 as int - e.0.0 as int, dx as int, 2_000_000_000, 2_000_000_000);
        lemma_mul_bound(v.1 as int - e.0.1 as int, dy as int, 2_000_000_000, 2_000_000_000);
    }
    let ku: i128 = (u.0 as i128 - e.0.0 as i128) * dx + (u.1 as i128 - e.0.1 as i128) * dy;
    let kv: i128 = (v.0 as i128 - e.0.0 as i128) * dx + (v.1 as i128 - e.0.1 as i128) * dy;
    ku < kv || (ku == kv && (u.0 < v.0 || (u.0 == v.0 && u.1 < v.1)))
}

fn min_idx_exec(e: Seg, v: &Vec<Pt>) -> (m: usize)
    requires
        seg_ok(e),
        ring_ok(v@),
        v@.len() >= 1,
    ensures
        m as int == min_idx_to(e, v@, v@.len() as int),
        m < v@.len(),
{
    let mut m: usize = 0;
    let mut j: usize = 1;
    while j < v.len()
        invariant
            1 <= j <= v@.len(),
            m < j,
            m as int == min_idx_to(e, v@, j as int),
        decreases v@.len() - j,
    {
        if less_along_exec(e, v[j], v[m]) {
            m = j;
        }
        j = j + 1;
    }
    proof {
        lemma_min_idx_range(e, v@, v@.len() as int);
    }
    m
}

fn sort_along_exec(e: Seg, v: Vec<Pt>) -> (r: Vec<Pt>)
    requires
        seg_ok(e),
        ring_ok(v@),
    ensures
        r@ == sort_along(e, v@),
        ring_ok(r@),
{
    let ghost orig = v@;
    let mut rest = v;
    let mut out: Vec<Pt> = Vec::new();
    while rest.len() > 0
        invariant
            sort_along(e, orig) == out@ + sort_along(e, rest@),
            ring_ok(rest@),
            ring_ok(out@),
        decreases rest@.len(),
    {
        let ghost pre = rest@;
        let ghost preout = out@;
        let m = min_idx_exec(e, &rest);
        let p = rest[m];
        out.push(p);
        let _ = rest.remove(m);
        proof {
            assert(sort_along(e, pre) == seq![p] + sort_along(e, rest@));
            assert(preout + (seq![p] + sort_along(e, rest@)) =~= out@ + sort_along(e, rest@));
            assert forall|i: int| 0 <= i < rest@.len() implies pt_ok(#[trigger] rest@[i]) by {
                assert(rest@[i] == if i < m { pre[i] } else { pre[i + 1] });
            }
        }
    }
    proof {
        assert(sort_along(e, rest@) =~= Seq::<Pt>::empty());
        assert(out@ + Seq::<Pt>::empty() =~= out@);
    }
    out
}

// ---------------------------------------------------------------------------
// Sub-edges of one original edge.
// ---------------------------------------------------------------------------

/// The directed edges between consecutive distinct points of a chain.
pub open spec fn chain_edges_to(s: Seq<Pt>, n: int) -> Seq<Seg>
    decreases n,
{
    if n <= 1 {
        Seq::empty()
    } else {
        chain_edges_to(s, n - 1) + (if s[n - 1] == s[n - 2] {
            Seq::<Seg>::empty()
        } else {
            seq![(s[n - 2], s[n - 1])]
        })
    }
}

pub open spec fn chain_edges(s: Seq<Pt>) -> Seq<Seg> {
    chain_edges_to(s, s.len() as int)
}

/// The sub-edges `e` is divided into by the edges of `all`: split points are
/// collected, ordered along `e`, de-duplicated, and joined up pairwise.
pub open spec fn split_edge(e: Seg, all: Seq<Seg>) -> Seq<Seg> {
    chain_edges(dedup_consec(sort_along(e, splits_to(e, all, all.len() as int))))
}

/// The sub-edges of the first `n` edges of `es`, each split against `all`.
pub open spec fn split_all_to(es: Seq<Seg>, all: Seq<Seg>, n: int) -> Seq<Seg>
    decreases n,
{
    if n <= 0 {
        Seq::empty()
    } else {
        split_all_to(es, all, n - 1) + split_edge(es[n - 1], all)
    }
}

pub open spec fn split_all(es: Seq<Seg>, all: Seq<Seg>) -> Seq<Seg> {
    split_all_to(es, all, es.len() as int)
}

/// `cross_point`, computed exactly in `i128`.
fn cross_point_exec(e: Seg, f: Seg) -> (r: Pt)
    requires
        seg_ok(e),
        seg_ok(f),
        proper_cross(e, f),
    ensures
        r == cross_point(e, f),
        pt_ok(r),
{
    let d1x = e.1.0 as i128 - e.0.0 as i128;
    let d1y = e.1.1 as i128 - e.0.1 as i128;
    let d2x = f.1.0 as i128 - f.0.0 as i128;
    let d2y = f.1.1 as i128 - f.0.1 as i128;
    proof {
        lemma_mul_bound(d1x as int, d2y as int, 2_000_000_000, 2_000_000_000);
        lemma_mul_bound(d1y as int, d2x as int, 2_000_000_000, 2_000_000_000);
        lemma_mul_bound(f.0.0 as int - e.0.0 as int, d2y as int, 2_000_000_000, 2_000_000_000);
        lemma_mul_bound(f.0.1 as int - e.0.1 as int, d2x as int, 2_000_000_000, 2_000_000_000);
    }
    let den0: i128 = d1x * d2y - d1y * d2x;
    let tn0: i128 = (f.0.0 as i128 - e.0.0 as i128) * d2y - (f.0.1 as i128 - e.0.1 as i128) * d2x;
    proof {
        lemma_cross_sub(e, f);
        assert(den0 != 0);
    }
    let den: i128 = if den0 < 0 { -den0 } else { den0 };
    let tn: i128 = if den0 < 0 { -tn0 } else { tn0 };
    proof {
        lemma_mul_bound(tn as int, d1x as int, 8_000_000_000_000_000_000, 2_000_000_000);
        lemma_mul_bound(tn as int, d1y as int, 8_000_000_000_000_000_000, 2_000_000_000);
    }
    let x = clampc_exec(e.0.0 as i128 + rdiv_exec(tn * d1x, den));
    let y = clampc_exec(e.0.1 as i128 + rdiv_exec(tn * d1y, den));
    proof {
        assert(x as int == cross_point(e, f).0 as int);
        assert(y as int == cross_point(e, f).1 as int);
    }
    (x, y)
}

/// The supporting-line cross products of `f`'s endpoints against `e` differ
/// exactly by the cross product of the two direction vectors.
proof fn lemma_cross_sub(e: Seg, f: Seg)
    ensures
        cross3(e.0, e.1, f.1) - cross3(e.0, e.1, f.0) == (e.1.0 - e.0.0) * (f.1.1 - f.0.1) - (
        e.1.1 - e.0.1) * (f.1.0 - f.0.0),
{
    let px = e.0.0 as int;
    let py = e.0.1 as int;
    let rx = e.1.0 as int;
    let ry = e.1.1 as int;
    let qx = f.0.0 as int;
    let qy = f.0.1 as int;
    let sx = f.1.0 as int;
    let sy = f.1.1 as int;
    assert((rx - px) * (sy - py) - (ry - py) * (sx - px) - ((rx - px) * (qy - py) - (ry - py) * (qx
        - px)) == (rx - px) * (sy - qy) - (ry - py) * (sx - qx)) by (nonlinear_arith);
}

fn in_box_exec(e: Seg, p: Pt) -> (r: bool)
    ensures
        r == in_box(e, p),
{
    (((e.0.0 <= p.0 && p.0 <= e.1.0) || (e.1.0 <= p.0 && p.0 <= e.0.0)) && ((e.0.1 <= p.1 && p.1
        <= e.1.1) || (e.1.1 <= p.1 && p.1 <= e.0.1)))
}

fn split_pts_exec(e: Seg, f: Seg) -> (r: Vec<Pt>)
    requires
        seg_ok(e),
        seg_ok(f),
    ensures
        r@ == split_pts(e, f),
        ring_ok(r@),
{
    let mut out: Vec<Pt> = Vec::new();
    let o1 = orient(e.0, e.1, f.0);
    let o2 = orient(e.0, e.1, f.1);
    let o3 = orient(f.0, f.1, e.0);
    let o4 = orient(f.0, f.1, e.1);
    if o1 == 0 && in_box_exec(e, f.0) {
        out.push(f.0);
    }
    if o2 == 0 && in_box_exec(e, f.1) {
        out.push(f.1);
    }
    if ((o1 > 0 && o2 < 0) || (o1 < 0 && o2 > 0)) && ((o3 > 0 && o4 < 0) || (o3 < 0 && o4 > 0)) {
        out.push(cross_point_exec(e, f));
    }
    proof {
        assert(out@ =~= split_pts(e, f));
    }
    out
}

fn split_edge_exec(e: Seg, all: &Vec<Seg>) -> (r: Vec<Seg>)
    requires
        seg_ok(e),
        segs_ok(all@),
    ensures
        r@ == split_edge(e, all@),
        segs_ok(r@),
{
    let mut sp: Vec<Pt> = Vec::new();
    sp.push(e.0);
    sp.push(e.1);
    proof {
        assert(sp@ =~= splits_to(e, all@, 0));
    }
    let mut k: usize = 0;
    while k < all.len()
        invariant
            0 <= k <= all@.len(),
            sp@ == splits_to(e, all@, k as int),
            ring_ok(sp@),
        decreases all@.len() - k,
    {
        let ghost pre = sp@;
        let piece = split_pts_exec(e, all[k]);
        let mut j: usize = 0;
        while j < piece.len()
            invariant
                0 <= j <= piece@.len(),
                ring_ok(piece@),
                sp@ == pre + piece@.take(j as int),
                ring_ok(sp@),
            decreases piece@.len() - j,
        {
            sp.push(piece[j]);
            proof {
                assert(pre + piece@.take(j + 1) =~= (pre + piece@.take(j as int)).push(
                    piece@[j as int]));
            }
            j = j + 1;
        }
        proof {
            assert(piece@.take(piece@.len() as int) =~= piece@);
            assert(sp@ =~= splits_to(e, all@, k + 1));
        }
        k = k + 1;
    }
    let so = sort_along_exec(e, sp);
    let dd = dedup_consec_exec(&so);
    proof {
        lemma_dedup_consec_bounded(so@, so@.len() as int);
    }
    let mut out: Vec<Seg> = Vec::new();
    let mut i: usize = 1;
    while i < dd.len()
        invariant
            1 <= i,
            dd@.len() > 0 ==> i <= dd@.len(),
            dd@.len() == 0 ==> i == 1,
            ring_ok(dd@),
            out@ == chain_edges_to(dd@, i as int),
            segs_ok(out@),
        decreases dd@.len() - i,
    {
        if !pt_eq(dd[i - 1], dd[i]) {
            out.push((dd[i - 1], dd[i]));
        }
        i = i + 1;
    }
    proof {
        if dd@.len() == 0 {
            assert(chain_edges(dd@) == chain_edges_to(dd@, 0));
            assert(out@ =~= chain_edges(dd@));
        }
    }
    out
}

/// Every edge of `es`, split against all collected edges.
pub fn split_all_exec(es: &Vec<Seg>, all: &Vec<Seg>) -> (r: Vec<Seg>)
    requires
        segs_ok(es@),
        segs_ok(all@),
    ensures
        r@ == split_all(es@, all@),
        segs_ok(r@),
{
    let mut out: Vec<Seg> = Vec::new();
    let mut k: usize = 0;
    while k < es.len()
        invariant
            0 <= k <= es@.len(),
            out@ == split_all_to(es@, all@, k as int),
            segs_ok(out@),
        decreases es@.len() - k,
    {
        let ghost pre = out@;
        let piece = split_edge_exec(es[k], all);
        let mut j: usize = 0;
        while j < piece.len()
            invariant
                0 <= j <= piece@.len(),
                segs_ok(piece@),
                out@ == pre + piece@.take(j as int),
                segs_ok(out@),
            decreases piece@.len() - j,
        {
            out.push(piece[j]);
            proof {
                assert(pre + piece@.take(j + 1) =~= (pre + piece@.take(j as int)).push(
                    piece@[j as int]));
            }
            j = j + 1;
        }
        proof {
            assert(piece@.take(piece@.len() as int) =~= piece@);
            assert(out@ =~= split_all_to(es@, all@, k + 1));
        }
        k = k + 1;
    }
    out
}

} // verus!
