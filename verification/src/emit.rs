use vstd::prelude::*;
use crate::geom::{Pt, Seg, seg_ok, segs_ok, cross_i, lemma_mul_bound, MAX_COORD};
use crate::model::Operation;

verus! {

// ---------------------------------------------------------------------------
// Winding numbers.  A query point is carried in doubled coordinates, so the
// midpoint of a sub-edge is exact; the edges are doubled to match.  The query
// point sits on the boundary, so it is nudged infinitesimally along a chosen
// direction `n` (the left or right normal of the sub-edge under
// classification); all comparisons below resolve that nudge exactly.
// ---------------------------------------------------------------------------

/// Whether the upward edge `(ax, ay) -> (bx, by)` (with `ay < by`) crosses
/// the rightward horizontal ray from the doubled point `m` nudged
/// infinitesimally along `n`.  The vertical window is half-open at the top;
/// a query point exactly on the window boundary or on the edge's supporting
/// line is decided by the nudge direction.
pub open spec fn ray_crossed(ax: int, ay: int, bx: int, by: int, m: (int, int), n: (
    int,
    int,
)) -> bool {
    let in_window = (ay < m.1 && m.1 < by) || (m.1 == ay && n.1 >= 0) || (m.1 == by && n.1 < 0);
    if !in_window {
        false
    } else {
        let c = cross_i(ax, ay, bx, by, m.0, m.1);
        if c > 0 {
            true
        } else if c < 0 {
            false
        } else {
            n.1 * (bx - ax) - n.0 * (by - ay) > 0
        }
    }
}

/// Crossing contribution of one directed edge to the winding number at the
/// doubled query point `m` nudged along `n`: `+1` for an upward edge crossing
/// the rightward ray, `-1` for a downward one; horizontal edges contribute
/// nothing.
pub open spec fn wind_contrib(s: Seg, m: (int, int), n: (int, int)) -> int {
    let px = 2 * (s.0.0 as int);
    let py = 2 * (s.0.1 as int);
    let qx = 2 * (s.1.0 as int);
    let qy = 2 * (s.1.1 as int);
    if py < qy {
        if ray_crossed(px, py, qx, qy, m, n) {
            1
        } else {
            0
        }
    } else if qy < py {
        if ray_crossed(qx, qy, px, py, m, n) {
            -1
        } else {
            0
        }
    } else {
        0
    }
}

/// Winding number of the first `n` edges around the doubled point `m`,
/// nudged along `nudge`.
pub open spec fn wind_to(segs: Seq<Seg>, m: (int, int), nudge: (int, int), n: int) -> int
    decreases n,
{
    if n <= 0 {
        0
    } else {
        wind_to(segs, m, nudge, n - 1) + wind_contrib(segs[n - 1], m, nudge)
    }
}

pub open spec fn wind(segs: Seq<Seg>, m: (int, int), nudge: (int, int)) -> int {
    wind_to(segs, m, nudge, segs.len() as int)
}

fn wind_one(s: Seg, m: (i64, i64), nudge: (i64, i64)) -> (r: i64)
    requires
        seg_ok(s),
        -2 * MAX_COORD <= m.0 <= 2 * MAX_COORD,
        -2 * MAX_COORD <= m.1 <= 2 * MAX_COORD,
        -2 * MAX_COORD <= nudge.0 <= 2 * MAX_COORD,
        -2 * MAX_COORD <= nudge.1 <= 2 * MAX_COORD,
    ensures
        r as int == wind_contrib(s, (m.0 as int, m.1 as int), (nudge.0 as int, nudge.1 as int)),
        -1 <= r <= 1,
{
    let px = 2 * (s.0.0 as i128);
    let py = 2 * (s.0.1 as i128);
    let qx = 2 * (s.1.0 as i128);
    let qy = 2 * (s.1.1 as i128);
    if py < qy {
        if ray_crossed_exec(px, py, qx, qy, m, nudge) {
            1
        } else {
            0
        }
    } else if qy < py {
        if ray_crossed_exec(qx, qy, px, py, m, nudge) {
            -1
        } else {
            0
        }
    } else {
        0
    }
}

fn ray_crossed_exec(ax: i128, ay: i128, bx: i128, by: i128, m: (i64, i64), nudge: (i64, i64)) -> (r:
    bool)
    requires
        -2 * MAX_COORD <= ax <= 2 * MAX_COORD,
        -2 * MAX_COORD <= ay <= 2 * MAX_COORD,
        -2 * MAX_COORD <= bx <= 2 * MAX_COORD,
        -2 * MAX_COORD <= by <= 2 * MAX_COORD,
        -2 * MAX_COORD <= m.0 <= 2 * MAX_COORD,
        -2 * MAX_COORD <= m.1 <= 2 * MAX_COORD,
        -2 * MAX_COORD <= nudge.0 <= 2 * MAX_COORD,
        -2 * MAX_COORD <= nudge.1 <= 2 * MAX_COORD,
    ensures
        r == ray_crossed(
            ax as int,
            ay as int,
            bx as int,
            by as int,
            (m.0 as int, m.1 as int),
            (nudge.0 as int, nudge.1 as int),
        ),
{
    let my = m.1 as i128;
    let ny = nudge.1 as i128;
    let in_window = (ay < my && my < by) || (my == ay && ny >= 0) || (my == by && ny < 0);
    if !in_window {
        false
    } else {
        proof {
            lemma_mul_bound(bx as int - ax as int, m.1 as int - ay as int, 4_000_000_000, 4_000_000_000);
            lemma_mul_bound(by as int - ay as int, m.0 as int - ax as int, 4_000_000_000, 4_000_000_000);
        }
        let c = (bx - ax) * (my - ay) - (by - ay) * (m.0 as i128 - ax);
        if c > 0 {
            true
        } else if c < 0 {
            false
        } else {
            proof {
                lemma_mul_bound(nudge.1 as int, bx as int - ax as int, 2_000_000_000, 4_000_000_000);
                lemma_mul_bound(nudge.0 as int, by as int - ay as int, 2_000_000_000, 4_000_000_000);
            }
            ny * (bx - ax) - (nudge.0 as i128) * (by - ay) > 0
        }
    }
}

fn wind_exec(segs: &Vec<Seg>, m: (i64, i64), nudge: (i64, i64)) -> (w: i128)
    requires
        segs_ok(segs@),
        -2 * MAX_COORD <= m.0 <= 2 * MAX_COORD,
        -2 * MAX_COORD <= m.1 <= 2 * MAX_COORD,
        -2 * MAX_COORD <= nudge.0 <= 2 * MAX_COORD,
        -2 * MAX_COORD <= nudge.1 <= 2 * MAX_COORD,
    ensures
        w as int == wind(segs@, (m.0 as int, m.1 as int), (nudge.0 as int, nudge.1 as int)),
{
    let mut acc: i128 = 0;
    let mut i: usize = 0;
    while i < segs.len()
        invariant
            0 <= i <= segs@.len(),
            acc as int == wind_to(
                segs@,
                (m.0 as int, m.1 as int),
                (nudge.0 as int, nudge.1 as int),
                i as int,
            ),
            -(i as int) <= acc as int <= i as int,
        decreases segs@.len() - i,
    {
        let c = wind_one(segs[i], m, nudge);
        acc = acc + c as i128;
        i = i + 1;
    }
    acc
}

// ---------------------------------------------------------------------------
// Emission: the operation predicate over the two winding numbers decides,
// for each candidate sub-edge, whether the region on its left or right side
// belongs to the result; a boundary edge is emitted with the result's
// interior on its left.
// ---------------------------------------------------------------------------

/// The non-zero winding rule predicate of each operation.
pub open spec fn op_inside(op: Operation, ws: int, wc: int) -> bool {
    match op {
        Operation::Intersection => ws != 0 && wc != 0,
        Operation::Union => ws != 0 || wc != 0,
        Operation::Difference => ws != 0 && wc == 0,
        Operation::Xor => (ws != 0) != (wc != 0),
    }
}

/// The winding predicate actually applied: the operation's non-zero rule, or,
/// for the offset engine's self-union, the positive rule, which discards the
/// clockwise slivers a displaced boundary folds over itself.
pub open spec fn side_inside(op: Operation, positive: bool, ws: int, wc: int) -> bool {
    if positive {
        ws > 0 || wc > 0
    } else {
        op_inside(op, ws, wc)
    }
}

/// The midpoint of a sub-edge, in doubled coordinates (exact).
pub open spec fn mid2(g: Seg) -> (int, int) {
    ((g.0.0 as int) + (g.1.0 as int), (g.0.1 as int) + (g.1.1 as int))
}

/// The left normal direction of a sub-edge.
pub open spec fn left_normal(g: Seg) -> (int, int) {
    (-((g.1.1 as int) - (g.0.1 as int)), (g.1.0 as int) - (g.0.0 as int))
}

/// The right normal direction of a sub-edge.
pub open spec fn right_normal(g: Seg) -> (int, int) {
    ((g.1.1 as int) - (g.0.1 as int), -((g.1.0 as int) - (g.0.0 as int)))
}

/// What one candidate sub-edge contributes to the result boundary: itself if
/// only its left side is inside, its reversal if only its right side is
/// inside, and nothing if both or neither side is inside.
pub open spec fn emit_one(sub: Seq<Seg>, clip: Seq<Seg>, op: Operation, positive: bool, g: Seg) -> Seq<Seg> {
    let m = mid2(g);
    let nl = left_normal(g);
    let nr = right_normal(g);
    let in_l = side_inside(op, positive, wind(sub, m, nl), wind(clip, m, nl));
    let in_r = side_inside(op, positive, wind(sub, m, nr), wind(clip, m, nr));
    if in_l && !in_r {
        seq![g]
    } else if in_r && !in_l {
        seq![(g.1, g.0)]
    } else {
        Seq::empty()
    }
}

pub open spec fn emit_to(
    sub: Seq<Seg>,
    clip: Seq<Seg>,
    op: Operation,
    positive: bool,
    cand: Seq<Seg>,
    n: int,
) -> Seq<Seg>
    decreases n,
{
    if n <= 0 {
        Seq::empty()
    } else {
        emit_to(sub, clip, op, positive, cand, n - 1) + emit_one(sub, clip, op, positive, cand[n - 1])
    }
}

/// The directed boundary edges of the result, over all candidates.
pub open spec fn emit_all(
    sub: Seq<Seg>,
    clip: Seq<Seg>,
    op: Operation,
    positive: bool,
    cand: Seq<Seg>,
) -> Seq<Seg> {
    emit_to(sub, clip, op, positive, cand, cand.len() as int)
}

fn side_inside_exec(op: Operation, positive: bool, ws: i128, wc: i128) -> (r: bool)
    ensures
        r == side_inside(op, positive, ws as int, wc as int),
{
    if positive {
        ws > 0 || wc > 0
    } else {
        match op {
            Operation::Intersection => ws != 0 && wc != 0,
            Operation::Union => ws != 0 || wc != 0,
            Operation::Difference => ws != 0 && wc == 0,
            Operation::Xor => (ws != 0) != (wc != 0),
        }
    }
}

pub fn emit_exec(
    sub: &Vec<Seg>,
    clip: &Vec<Seg>,
    op: Operation,
    positive: bool,
    cand: &Vec<Seg>,
) -> (r: Vec<Seg>)
    requires
        segs_ok(sub@),
        segs_ok(clip@),
        segs_ok(cand@),
    ensures
        r@ == emit_all(sub@, clip@, op, positive, cand@),
        segs_ok(r@),
{
    let mut out: Vec<Seg> = Vec::new();
    let mut i: usize = 0;
    while i < cand.len()
        invariant
            0 <= i <= cand@.len(),
            out@ == emit_to(sub@, clip@, op, positive, cand@, i as int),
            segs_ok(out@),
        decreases cand@.len() - i,
    {
        let g = cand[i];
        let m: (i64, i64) = (g.0.0 + g.1.0, g.0.1 + g.1.1);
        let nl: (i64, i64) = (-(g.1.1 - g.0.1), g.1.0 - g.0.0);
        let nr: (i64, i64) = (g.1.1 - g.0.1, -(g.1.0 - g.0.0));
        let wsl = wind_exec(sub, m, nl);
        let wcl = wind_exec(clip, m, nl);
        let wsr = wind_exec(sub, m, nr);
        let wcr = wind_exec(clip, m, nr);
        let in_l = side_inside_exec(op, positive, wsl, wcl);
        let in_r = side_inside_exec(op, positive, wsr, wcr);
        let ghost pre = out@;
        if in_l && !in_r {
            out.push(g);
        } else if in_r && !in_l {
            out.push((g.1, g.0));
        }
        proof {
            assert((m.0 as int, m.1 as int) == mid2(g));
            assert((nl.0 as int, nl.1 as int) == left_normal(g));
            assert((nr.0 as int, nr.1 as int) == right_normal(g));
            assert(out@ =~= pre + emit_one(sub@, clip@, op, positive, g));
        }
        i = i + 1;
    }
    out
}

// ---------------------------------------------------------------------------
// Candidate de-duplication: coincident same-direction sub-edges (one from
// each input set, say) must bound the result only once.
// ---------------------------------------------------------------------------

/// The first `n` sub-edges with exact directed duplicates removed.
pub open spec fn dedup_segs_to(s: Seq<Seg>, n: int) -> Seq<Seg>
    decreases n,
{
    if n <= 0 {
        Seq::empty()
    } else {
        let d = dedup_segs_to(s, n - 1);
        if d.contains(s[n - 1]) {
            d
        } else {
            d.push(s[n - 1])
        }
    }
}

pub open spec fn dedup_segs(s: Seq<Seg>) -> Seq<Seg> {
    dedup_segs_to(s, s.len() as int)
}

fn seg_eq(a: Seg, b: Seg) -> (r: bool)
    ensures
        r == (a == b),
{
    a.0.0 == b.0.0 && a.0.1 == b.0.1 && a.1.0 == b.1.0 && a.1.1 == b.1.1
}

fn segs_contains(v: &Vec<Seg>, g: Seg) -> (r: bool)
    ensures
        r == v@.contains(g),
{
    let mut i: usize = 0;
    while i < v.len()
        invariant
            0 <= i <= v@.len(),
            forall|k: int| 0 <= k < i ==> v@[k] != g,
        decreases v@.len() - i,
    {
        if seg_eq(v[i], g) {
            return true;
        }
        i = i + 1;
    }
    false
}

pub fn dedup_segs_exec(v: &Vec<Seg>) -> (r: Vec<Seg>)
    ensures
        r@ == dedup_segs(v@),
        segs_ok(v@) ==> segs_ok(r@),
{
    let mut out: Vec<Seg> = Vec::new();
    let mut i: usize = 0;
    while i < v.len()
        invariant
            0 <= i <= v@.len(),
            out@ == dedup_segs_to(v@, i as int),
            segs_ok(v@) ==> segs_ok(out@),
        decreases v@.len() - i,
    {
        if !segs_contains(&out, v[i]) {
            out.push(v[i]);
        }
        i = i + 1;
    }
    out
}

} // verus!
