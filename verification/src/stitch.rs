use vstd::prelude::*;
use crate::geom::{Pt, Seg, ring_ok, rings_ok, segs_ok, cross3, orient, signed_area2, pt_eq};
use crate::subdiv::{dv, ring_live};

verus! {

// ---------------------------------------------------------------------------
// Contour assembly: emitted boundary edges are joined end to end into closed
// rings.  Edges are consumed in order; a chain that cannot be continued is
// dropped (defensively: emitted boundaries of well-formed inputs close).
// ---------------------------------------------------------------------------

/// The first index among `edges[0..n]` of an edge starting at `p`, or `-1`.
pub open spec fn find_from_to(edges: Seq<Seg>, p: Pt, n: int) -> int
    decreases n,
{
    if n <= 0 {
        -1
    } else {
        let f = find_from_to(edges, p, n - 1);
        if f >= 0 {
            f
        } else if edges[n - 1].0 == p {
            n - 1
        } else {
            -1
        }
    }
}

pub open spec fn find_from(edges: Seq<Seg>, p: Pt) -> int {
    find_from_to(edges, p, edges.len() as int)
}

pub proof fn lemma_find_from_range(edges: Seq<Seg>, p: Pt, n: int)
    requires
        0 <= n <= edges.len(),
    ensures
        -1 <= find_from_to(edges, p, n) < n,
        find_from_to(edges, p, n) >= 0 ==> edges[find_from_to(edges, p, n)].0 == p,
    decreases n,
{
    if n > 0 {
        lemma_find_from_range(edges, p, n - 1);
    }
}

/// Once a first match is found, longer prefixes return the same index.
proof fn lemma_find_extend(edges: Seq<Seg>, p: Pt, i: int, n: int)
    requires
        0 <= i < n <= edges.len(),
        find_from_to(edges, p, i) == -1,
        edges[i].0 == p,
    ensures
        find_from_to(edges, p, n) == i,
    decreases n,
{
    if n - 1 > i {
        lemma_find_extend(edges, p, i, n - 1);
    }
}

fn find_from_exec(edges: &Vec<Seg>, p: Pt) -> (r: Option<usize>)
    ensures
        r is None ==> find_from(edges@, p) == -1,
        r matches Some(j) ==> j < edges@.len() && j as int == find_from(edges@, p),
{
    let mut i: usize = 0;
    while i < edges.len()
        invariant
            0 <= i <= edges@.len(),
            find_from_to(edges@, p, i as int) == -1,
        decreases edges@.len() - i,
    {
        if pt_eq(edges[i].0, p) {
            proof {
                lemma_find_extend(edges@, p, i as int, edges@.len() as int);
            }
            return Some(i);
        }
        i = i + 1;
    }
    None
}

/// The closed contours assembled from `edges`, in order of first use.
pub open spec fn stitch_rest(edges: Seq<Seg>) -> Seq<Seq<Pt>>
    decreases edges.len(), 0int,
{
    if edges.len() == 0 {
        Seq::empty()
    } else {
        stitch_open(edges.remove(0), edges[0].0, edges[0].1, seq![edges[0].0, edges[0].1])
    }
}

/// Continues the open chain `chain` (running from `first` to `last`): the
/// first unused edge leaving `last` extends it; reaching `first` closes it
/// into a contour; a dead end discards it.
pub open spec fn stitch_open(edges: Seq<Seg>, first: Pt, last: Pt, chain: Seq<Pt>) -> Seq<Seq<Pt>>
    decreases edges.len(), 1int,
    via stitch_open_decreases
{
    let j = find_from(edges, last);
    if j < 0 {
        stitch_rest(edges)
    } else {
        let g = edges[j];
        let rest = edges.remove(j);
        if g.1 == first {
            seq![chain] + stitch_rest(rest)
        } else {
            stitch_open(rest, first, g.1, chain.push(g.1))
        }
    }
}

#[via_fn]
proof fn stitch_open_decreases(edges: Seq<Seg>, first: Pt, last: Pt, chain: Seq<Pt>) {
    lemma_find_from_range(edges, last, edges.len() as int);
}

pub fn stitch_exec(edges0: Vec<Seg>) -> (r: Vec<Vec<Pt>>)
    requires
        segs_ok(edges0@),
    ensures
        dv(r@) == stitch_rest(edges0@),
        rings_ok(dv(r@)),
{
    let ghost orig = edges0@;
    let mut edges = edges0;
    let mut out: Vec<Vec<Pt>> = Vec::new();
    while edges.len() > 0
        invariant
            stitch_rest(orig) == dv(out@) + stitch_rest(edges@),
            segs_ok(edges@),
            rings_ok(dv(out@)),
        decreases edges@.len(), 2int,
    {
        let ghost outer_pre = edges@;
        let g0 = edges[0];
        let first = g0.0;
        let mut last = g0.1;
        let mut chain: Vec<Pt> = Vec::new();
        chain.push(g0.0);
        chain.push(g0.1);
        let _ = edges.remove(0);
        proof {
            assert(chain@ =~= seq![outer_pre[0].0, outer_pre[0].1]);
            assert(stitch_rest(outer_pre) == stitch_open(edges@, first, last, chain@));
        }
        let mut done = false;
        while !done
            invariant
                !done ==> stitch_rest(orig) == dv(out@) + stitch_open(edges@, first, last, chain@),
                done ==> stitch_rest(orig) == dv(out@) + stitch_rest(edges@),
                segs_ok(edges@),
                rings_ok(dv(out@)),
                ring_ok(chain@),
                edges@.len() < outer_pre.len(),
            decreases edges@.len(), (if done { 0int } else { 1int }),
        {
            proof {
                lemma_find_from_range(edges@, last, edges@.len() as int);
            }
            match find_from_exec(&edges, last) {
                None => {
                    done = true;
                },
                Some(j) => {
                    let g = edges[j];
                    let ghost pre = edges@;
                    let _ = edges.remove(j);
                    if pt_eq(g.1, first) {
                        let ghost preout = dv(out@);
                        let ghost prechain = chain@;
                        out.push(chain);
                        chain = Vec::new();
                        done = true;
                        proof {
                            assert(dv(out@) =~= preout.push(prechain));
                            assert(stitch_open(pre, first, last, prechain) == seq![prechain]
                                + stitch_rest(edges@));
                            assert(preout + (seq![prechain] + stitch_rest(edges@)) =~= dv(out@)
                                + stitch_rest(edges@));
                        }
                    } else {
                        let ghost prechain = chain@;
                        chain.push(g.1);
                        proof {
                            assert(stitch_open(pre, first, last, prechain) == stitch_open(
                                edges@, first, g.1, prechain.push(g.1)));
                        }
                        last = g.1;
                    }
                },
            }
        }
    }
    proof {
        assert(stitch_rest(edges@) =~= Seq::<Seq<Pt>>::empty());
        assert(dv(out@) + Seq::<Seq<Pt>>::empty() =~= dv(out@));
    }
    out
}

// ---------------------------------------------------------------------------
// Output cleanup: collinear vertices are removed (they carry no geometry) and
// contours left degenerate are dropped.
// ---------------------------------------------------------------------------

/// The vertices among `c[0..n]` that are not collinear with their ring
/// neighbours in `c`.
pub open spec fn noncollinear_to(c: Seq<Pt>, n: int) -> Seq<Pt>
    decreases n,
{
    if n <= 0 {
        Seq::empty()
    } else {
        let acc = noncollinear_to(c, n - 1);
        let i = n - 1;
        let prev = if i == 0 {
            c[c.len() - 1]
        } else {
            c[i - 1]
        };
        let next = if i == c.len() - 1 {
            c[0]
        } else {
            c[i + 1]
        };
        if cross3(prev, c[i], next) == 0 {
            acc
        } else {
            acc.push(c[i])
        }
    }
}

pub open spec fn drop_collinear(c: Seq<Pt>) -> Seq<Pt> {
    noncollinear_to(c, c.len() as int)
}

/// Final cleanup of assembled contours: collinear vertices removed, and
/// contours without at least three vertices and a nonzero area dropped.
pub open spec fn cleanup_to(cs: Seq<Seq<Pt>>, n: int) -> Seq<Seq<Pt>>
    decreases n,
{
    if n <= 0 {
        Seq::empty()
    } else {
        let acc = cleanup_to(cs, n - 1);
        let k = drop_collinear(cs[n - 1]);
        if ring_live(k) {
            acc.push(k)
        } else {
            acc
        }
    }
}

pub open spec fn cleanup(cs: Seq<Seq<Pt>>) -> Seq<Seq<Pt>> {
    cleanup_to(cs, cs.len() as int)
}

fn drop_collinear_exec(c: &Vec<Pt>) -> (r: Vec<Pt>)
    requires
        ring_ok(c@),
    ensures
        r@ == drop_collinear(c@),
        ring_ok(r@),
{
    let mut out: Vec<Pt> = Vec::new();
    let mut i: usize = 0;
    while i < c.len()
        invariant
            0 <= i <= c@.len(),
            out@ == noncollinear_to(c@, i as int),
            ring_ok(out@),
        decreases c@.len() - i,
    {
        let prev = if i == 0 { c[c.len() - 1] } else { c[i - 1] };
        let next = if i == c.len() - 1 { c[0] } else { c[i + 1] };
        if orient(prev, c[i], next) != 0 {
            out.push(c[i]);
        }
        i = i + 1;
    }
    out
}

/// Every ring the cleanup keeps is live: at least three vertices and a
/// nonzero signed area.
pub proof fn lemma_cleanup_live(cs: Seq<Seq<Pt>>, n: int)
    requires
        0 <= n <= cs.len(),
    ensures
        forall|i: int|
            0 <= i < cleanup_to(cs, n).len() ==> ring_live(#[trigger] cleanup_to(cs, n)[i]),
    decreases n,
{
    if n > 0 {
        lemma_cleanup_live(cs, n - 1);
        let acc = cleanup_to(cs, n - 1);
        let whole = cleanup_to(cs, n);
        assert forall|i: int| 0 <= i < whole.len() implies ring_live(#[trigger] whole[i]) by {
            if i < acc.len() {
                assert(whole[i] == acc[i]);
            }
        }
    }
}

pub fn cleanup_exec(cs: &Vec<Vec<Pt>>) -> (r: Vec<Vec<Pt>>)
    requires
        rings_ok(dv(cs@)),
    ensures
        dv(r@) == cleanup(dv(cs@)),
        rings_ok(dv(r@)),
        forall|i: int| 0 <= i < r@.len() ==> ring_live(#[trigger] dv(r@)[i]),
{
    let mut out: Vec<Vec<Pt>> = Vec::new();
    let mut i: usize = 0;
    while i < cs.len()
        invariant
            0 <= i <= cs@.len(),
            dv(out@) == cleanup_to(dv(cs@), i as int),
            rings_ok(dv(out@)),
        decreases cs@.len() - i,
    {
        proof {
            assert(dv(cs@)[i as int] == cs@[i as int]@);
        }
        let k = drop_collinear_exec(&cs[i]);
        let n = k.len();
        let ghost pre = dv(out@);
        if n >= 3 && signed_area2(&k) != 0 {
            out.push(k);
            proof {
                assert(dv(out@) =~= pre.push(drop_collinear(dv(cs@)[i as int])));
            }
        }
        i = i + 1;
    }
    proof {
        lemma_cleanup_live(dv(cs@), dv(cs@).len() as int);
    }
    out
}

} // verus!
