use vstd::prelude::*;
use crate::geom::{Pt, Seg, rings_ok, segs_ok, pt_eq};
use crate::model::{Operation, Path, Paths};
use crate::subdiv::{
    dv, pt_lt, sanitize, sanitize_exec, edges_all, edges_all_exec, split_all, split_all_exec,
};
use crate::emit::{dedup_segs, dedup_segs_exec, emit_all, emit_exec};
use crate::stitch::{cleanup, cleanup_exec, stitch_rest, stitch_exec};

verus! {

// ---------------------------------------------------------------------------
// The boolean pipeline over sanitized ring collections: extract edges, split
// every edge where any edge meets it, classify each distinct sub-edge by the
// winding numbers on its two sides, and assemble and clean the result rings.
// ---------------------------------------------------------------------------

/// The result rings of one operation over already-sanitized inputs, under the
/// given winding predicate (the operation's non-zero rule, or the positive
/// rule used by the offset engine's self-union).
pub open spec fn boolean_run_fill(
    ss: Seq<Seq<Pt>>,
    cs: Seq<Seq<Pt>>,
    op: Operation,
    positive: bool,
) -> Seq<Seq<Pt>> {
    let se = edges_all(ss);
    let ce = edges_all(cs);
    let all = se + ce;
    let ssub = split_all(se, all);
    let csub = split_all(ce, all);
    let cand = dedup_segs(ssub + csub);
    cleanup(stitch_rest(emit_all(ssub, csub, op, positive, cand)))
}

/// The result rings of one boolean operation over already-sanitized inputs.
pub open spec fn boolean_run(ss: Seq<Seq<Pt>>, cs: Seq<Seq<Pt>>, op: Operation) -> Seq<Seq<Pt>> {
    boolean_run_fill(ss, cs, op, false)
}

fn concat_segs(a: &Vec<Seg>, b: &Vec<Seg>) -> (r: Vec<Seg>)
    requires
        segs_ok(a@),
        segs_ok(b@),
    ensures
        r@ == a@ + b@,
        segs_ok(r@),
{
    let mut out: Vec<Seg> = Vec::new();
    let mut i: usize = 0;
    while i < a.len()
        invariant
            0 <= i <= a@.len(),
            out@ == a@.take(i as int),
            segs_ok(out@),
        decreases a@.len() - i,
    {
        out.push(a[i]);
        proof {
            assert(a@.take(i + 1) =~= a@.take(i as int).push(a@[i as int]));
        }
        i = i + 1;
    }
    proof {
        assert(a@.take(a@.len() as int) =~= a@);
    }
    let mut j: usize = 0;
    while j < b.len()
        invariant
            0 <= j <= b@.len(),
            out@ == a@ + b@.take(j as int),
            segs_ok(out@),
        decreases b@.len() - j,
    {
        out.push(b[j]);
        proof {
            assert(a@ + b@.take(j + 1) =~= (a@ + b@.take(j as int)).push(b@[j as int]));
        }
        j = j + 1;
    }
    proof {
        assert(a@ + b@.take(b@.len() as int) =~= a@ + b@);
    }
    out
}

pub(crate) fn boolean_run_fill_exec(
    first: &Vec<Vec<Pt>>,
    second: &Vec<Vec<Pt>>,
    op: Operation,
    positive: bool,
) -> (r: Vec<Vec<Pt>>)
    requires
        rings_ok(dv(first@)),
        rings_ok(dv(second@)),
    ensures
        dv(r@) == boolean_run_fill(dv(first@), dv(second@), op, positive),
        rings_ok(dv(r@)),
        forall|i: int|
            0 <= i < r@.len() ==> dv(r@)[i].len() >= 3 && crate::geom::area2(#[trigger] dv(
                r@,
            )[i]) != 0,
{
    let se = edges_all_exec(first);
    let ce = edges_all_exec(second);
    let all = concat_segs(&se, &ce);
    let ssub = split_all_exec(&se, &all);
    let csub = split_all_exec(&ce, &all);
    let cand0 = concat_segs(&ssub, &csub);
    let cand = dedup_segs_exec(&cand0);
    let em = emit_exec(&ssub, &csub, op, positive, &cand);
    let st = stitch_exec(em);
    cleanup_exec(&st)
}

// ---------------------------------------------------------------------------
// A total lexicographic order on ring collections.  The symmetric operations
// take their two operands in this canonical order, which makes commutativity
// hold by construction.
// ---------------------------------------------------------------------------

/// Strict lexicographic order on vertex sequences.
pub open spec fn seq_pt_lt(a: Seq<Pt>, b: Seq<Pt>) -> bool
    decreases a.len(),
{
    if b.len() == 0 {
        false
    } else if a.len() == 0 {
        true
    } else if a[0] == b[0] {
        seq_pt_lt(a.drop_first(), b.drop_first())
    } else {
        pt_lt(a[0], b[0])
    }
}

/// Strict lexicographic order on ring collections.
pub open spec fn rings_lt(a: Seq<Seq<Pt>>, b: Seq<Seq<Pt>>) -> bool
    decreases a.len(),
{
    if b.len() == 0 {
        false
    } else if a.len() == 0 {
        true
    } else if a[0] == b[0] {
        rings_lt(a.drop_first(), b.drop_first())
    } else {
        seq_pt_lt(a[0], b[0])
    }
}

proof fn lemma_seq_pt_lt_asym(a: Seq<Pt>, b: Seq<Pt>)
    requires
        seq_pt_lt(a, b),
    ensures
        !seq_pt_lt(b, a),
    decreases a.len(),
{
    if b.len() == 0 {
    } else if a.len() == 0 {
    } else if a[0] == b[0] {
        lemma_seq_pt_lt_asym(a.drop_first(), b.drop_first());
    }
}

proof fn lemma_seq_pt_lt_conn(a: Seq<Pt>, b: Seq<Pt>)
    requires
        !seq_pt_lt(a, b),
        !seq_pt_lt(b, a),
    ensures
        a == b,
    decreases a.len(),
{
    if b.len() == 0 {
        assert(a.len() == 0);
        assert(a =~= b);
    } else if a.len() == 0 {
    } else if a[0] == b[0] {
        lemma_seq_pt_lt_conn(a.drop_first(), b.drop_first());
        assert(a.drop_first() == b.drop_first());
        assert(a.drop_first().len() == a.len() - 1);
        assert(b.drop_first().len() == b.len() - 1);
        assert(a.len() == b.len());
        assert(forall|i: int|
            1 <= i < a.len() ==> a[i] == a.drop_first()[i - 1] && b[i] == b.drop_first()[i - 1]);
        assert(a =~= b);
    } else {
        assert(!pt_lt(a[0], b[0]) && !pt_lt(b[0], a[0]));
        assert(a[0].0 == b[0].0 && a[0].1 == b[0].1);
        assert(a[0] == b[0]);
    }
}

proof fn lemma_rings_lt_asym(a: Seq<Seq<Pt>>, b: Seq<Seq<Pt>>)
    requires
        rings_lt(a, b),
    ensures
        !rings_lt(b, a),
    decreases a.len(),
{
    if b.len() == 0 {
    } else if a.len() == 0 {
    } else if a[0] == b[0] {
        lemma_rings_lt_asym(a.drop_first(), b.drop_first());
    } else {
        lemma_seq_pt_lt_asym(a[0], b[0]);
    }
}

proof fn lemma_rings_lt_conn(a: Seq<Seq<Pt>>, b: Seq<Seq<Pt>>)
    requires
        !rings_lt(a, b),
        !rings_lt(b, a),
    ensures
        a == b,
    decreases a.len(),
{
    if b.len() == 0 {
        assert(a.len() == 0);
        assert(a =~= b);
    } else if a.len() == 0 {
    } else if a[0] == b[0] {
        lemma_rings_lt_conn(a.drop_first(), b.drop_first());
        assert(a.drop_first() == b.drop_first());
        assert(a.len() == b.len());
        assert(forall|i: int|
            1 <= i < a.len() ==> a[i] == a.drop_first()[i - 1] && b[i] == b.drop_first()[i - 1]);
        assert(a =~= b);
    } else {
        lemma_seq_pt_lt_conn(a[0], b[0]);
    }
}

fn pt_lt_exec(a: Pt, b: Pt) -> (r: bool)
    ensures
        r == pt_lt(a, b),
{
    a.0 < b.0 || (a.0 == b.0 && a.1 < b.1)
}

fn seq_pt_lt_exec(x: &Vec<Pt>, y: &Vec<Pt>) -> (r: bool)
    ensures
        r == seq_pt_lt(x@, y@),
{
    proof {
        assert(x@.skip(0) =~= x@);
        assert(y@.skip(0) =~= y@);
    }
    let mut i: usize = 0;
    while i < x.len() && i < y.len()
        invariant
            0 <= i <= x@.len(),
            0 <= i <= y@.len(),
            seq_pt_lt(x@, y@) == seq_pt_lt(x@.skip(i as int), y@.skip(i as int)),
            seq_pt_lt(y@, x@) == seq_pt_lt(y@.skip(i as int), x@.skip(i as int)),
        decreases x@.len() - i,
    {
        if !pt_eq(x[i], y[i]) {
            proof {
                assert(x@.skip(i as int)[0] == x@[i as int]);
                assert(y@.skip(i as int)[0] == y@[i as int]);
            }
            return pt_lt_exec(x[i], y[i]);
        }
        proof {
            assert(x@.skip(i as int).drop_first() =~= x@.skip(i + 1));
            assert(y@.skip(i as int).drop_first() =~= y@.skip(i + 1));
        }
        i = i + 1;
    }
    proof {
        assert(x@.skip(i as int).len() == x@.len() - i);
        assert(y@.skip(i as int).len() == y@.len() - i);
    }
    i < y.len()
}

fn ring_eq_exec(x: &Vec<Pt>, y: &Vec<Pt>) -> (r: bool)
    ensures
        r == (x@ == y@),
{
    if x.len() != y.len() {
        return false;
    }
    let mut i: usize = 0;
    while i < x.len()
        invariant
            0 <= i <= x@.len(),
            x@.len() == y@.len(),
            forall|k: int| 0 <= k < i ==> x@[k] == y@[k],
        decreases x@.len() - i,
    {
        if !pt_eq(x[i], y[i]) {
            return false;
        }
        i = i + 1;
    }
    proof {
        assert(x@ =~= y@);
    }
    true
}

fn rings_lt_exec(a: &Vec<Vec<Pt>>, b: &Vec<Vec<Pt>>) -> (r: bool)
    ensures
        r == rings_lt(dv(a@), dv(b@)),
{
    let ghost av = dv(a@);
    let ghost bv = dv(b@);
    proof {
        assert(av.skip(0) =~= av);
        assert(bv.skip(0) =~= bv);
    }
    let mut i: usize = 0;
    while i < a.len() && i < b.len()
        invariant
            0 <= i <= av.len(),
            0 <= i <= bv.len(),
            av == dv(a@),
            bv == dv(b@),
            rings_lt(av, bv) == rings_lt(av.skip(i as int), bv.skip(i as int)),
        decreases av.len() - i,
    {
        if !ring_eq_exec(&a[i], &b[i]) {
            proof {
                assert(av.skip(i as int)[0] == av[i as int]);
                assert(bv.skip(i as int)[0] == bv[i as int]);
                assert(av[i as int] == a@[i as int]@);
                assert(bv[i as int] == b@[i as int]@);
            }
            return seq_pt_lt_exec(&a[i], &b[i]);
        }
        proof {
            assert(av.skip(i as int)[0] == av[i as int]);
            assert(bv.skip(i as int)[0] == bv[i as int]);
            assert(av.skip(i as int).drop_first() =~= av.skip(i + 1));
            assert(bv.skip(i as int).drop_first() =~= bv.skip(i + 1));
        }
        i = i + 1;
    }
    proof {
        assert(av.skip(i as int).len() == av.len() - i);
        assert(bv.skip(i as int).len() == bv.len() - i);
    }
    i < b.len()
}

// ---------------------------------------------------------------------------
// The public operations.
// ---------------------------------------------------------------------------

/// Whether the subject and clip roles of an operation are interchangeable.
pub open spec fn op_symmetric(op: Operation) -> bool {
    op != Operation::Difference
}

/// The result of `execute`: both inputs are sanitized, the operands of a
/// symmetric operation are taken in canonical order, and the boolean pipeline
/// runs on the sanitized rings.
pub open spec fn spec_execute(subject: Seq<Seq<Pt>>, clip: Seq<Seq<Pt>>, op: Operation) -> Seq<
    Seq<Pt>,
> {
    let ss = sanitize(subject);
    let cs = sanitize(clip);
    if op_symmetric(op) && rings_lt(cs, ss) {
        boolean_run(cs, ss, op)
    } else {
        boolean_run(ss, cs, op)
    }
}

pub(crate) fn to_paths(rings: Vec<Vec<Pt>>) -> (r: Paths)
    ensures
        r@ == dv(rings@),
{
    let ghost orig = dv(rings@);
    let mut rest = rings;
    let mut items: Vec<Path> = Vec::new();
    while rest.len() > 0
        invariant
            orig == Seq::new(items@.len(), |i: int| items@[i]@) + dv(rest@),
        decreases rest@.len(),
    {
        let ghost preitems = Seq::new(items@.len(), |i: int| items@[i]@);
        let ghost prerest = dv(rest@);
        let ring = rest.remove(0);
        items.push(Path::from(ring));
        proof {
            assert(Seq::new(items@.len(), |i: int| items@[i]@) =~= preitems.push(prerest[0]));
            assert(dv(rest@) =~= prerest.drop_first());
            assert(preitems + prerest =~= preitems.push(prerest[0]) + prerest.drop_first());
        }
    }
    let out = Paths::from(items);
    proof {
        assert(dv(rest@) =~= Seq::<Seq<Pt>>::empty());
        assert(out@ =~= Seq::new(out.items@.len(), |i: int| out.items@[i]@));
        assert(out@ + Seq::<Seq<Pt>>::empty() =~= out@);
    }
    out
}

/// Runs the selected boolean operation on the subject and clip polygon sets
/// and returns the resulting polygon set: the boundary, wound with interior
/// on the left, of the point set selected by the operation's winding-count
/// predicate over the two inputs.
pub fn execute(subject: &Paths, clip: &Paths, operation: Operation) -> (r: Paths)
    requires
        rings_ok(subject@),
        rings_ok(clip@),
    ensures
        r@ == spec_execute(subject@, clip@, operation),
        rings_ok(r@),
        forall|i: int|
            0 <= i < r@.len() ==> r@[i].len() >= 3 && crate::geom::area2(#[trigger] r@[i]) != 0,
{
    let ss = sanitize_exec(subject);
    let cs = sanitize_exec(clip);
    let symmetric = match operation {
        Operation::Difference => false,
        _ => true,
    };
    let rings = if symmetric && rings_lt_exec(&cs, &ss) {
        boolean_run_fill_exec(&cs, &ss, operation, false)
    } else {
        boolean_run_fill_exec(&ss, &cs, operation, false)
    };
    to_paths(rings)
}

/// The points of `subject` inside both polygon sets, per non-zero winding.
pub fn intersection(subject: &Paths, clip: &Paths) -> (r: Paths)
    requires
        rings_ok(subject@),
        rings_ok(clip@),
    ensures
        r@ == spec_execute(subject@, clip@, Operation::Intersection),
        rings_ok(r@),
        forall|i: int|
            0 <= i < r@.len() ==> r@[i].len() >= 3 && crate::geom::area2(#[trigger] r@[i]) != 0,
{
    execute(subject, clip, Operation::Intersection)
}

/// The points inside at least one of the two polygon sets.
pub fn union(subject: &Paths, clip: &Paths) -> (r: Paths)
    requires
        rings_ok(subject@),
        rings_ok(clip@),
    ensures
        r@ == spec_execute(subject@, clip@, Operation::Union),
        rings_ok(r@),
        forall|i: int|
            0 <= i < r@.len() ==> r@[i].len() >= 3 && crate::geom::area2(#[trigger] r@[i]) != 0,
{
    execute(subject, clip, Operation::Union)
}

/// The points inside the subject set but not the clip set.
pub fn difference(subject: &Paths, clip: &Paths) -> (r: Paths)
    requires
        rings_ok(subject@),
        rings_ok(clip@),
    ensures
        r@ == spec_execute(subject@, clip@, Operation::Difference),
        rings_ok(r@),
        forall|i: int|
            0 <= i < r@.len() ==> r@[i].len() >= 3 && crate::geom::area2(#[trigger] r@[i]) != 0,
{
    execute(subject, clip, Operation::Difference)
}

/// The points inside exactly one of the two polygon sets.
pub fn xor(subject: &Paths, clip: &Paths) -> (r: Paths)
    requires
        rings_ok(subject@),
        rings_ok(clip@),
    ensures
        r@ == spec_execute(subject@, clip@, Operation::Xor),
        rings_ok(r@),
        forall|i: int|
            0 <= i < r@.len() ==> r@[i].len() >= 3 && crate::geom::area2(#[trigger] r@[i]) != 0,
{
    execute(subject, clip, Operation::Xor)
}

// ---------------------------------------------------------------------------
// Laws.
// ---------------------------------------------------------------------------

/// Every operation whose winding predicate is symmetric in its two operands
/// commutes: the operands are taken in a canonical order, so the result is
/// the same value either way round.
pub proof fn lemma_execute_commutes(a: Seq<Seq<Pt>>, b: Seq<Seq<Pt>>, op: Operation)
    requires
        op_symmetric(op),
    ensures
        spec_execute(a, b, op) == spec_execute(b, a, op),
{
    let sa = sanitize(a);
    let sb = sanitize(b);
    if rings_lt(sb, sa) {
        lemma_rings_lt_asym(sb, sa);
    } else if rings_lt(sa, sb) {
        lemma_rings_lt_asym(sa, sb);
    } else {
        lemma_rings_lt_conn(sa, sb);
    }
}

/// The union of two polygon sets does not depend on their order.
pub proof fn lemma_union_commutes(a: Seq<Seq<Pt>>, b: Seq<Seq<Pt>>)
    ensures
        spec_execute(a, b, Operation::Union) == spec_execute(b, a, Operation::Union),
{
    lemma_execute_commutes(a, b, Operation::Union);
}

/// The intersection of two polygon sets does not depend on their order.
pub proof fn lemma_intersection_commutes(a: Seq<Seq<Pt>>, b: Seq<Seq<Pt>>)
    ensures
        spec_execute(a, b, Operation::Intersection) == spec_execute(
            b,
            a,
            Operation::Intersection,
        ),
{
    lemma_execute_commutes(a, b, Operation::Intersection);
}

/// Sanitizing reads only the rings themselves, prefix by prefix.
proof fn lemma_sanitize_prefix(s: Seq<Seq<Pt>>, t: Seq<Seq<Pt>>, n: int)
    requires
        0 <= n <= s.len(),
        n <= t.len(),
        forall|k: int| 0 <= k < n ==> s[k] == t[k],
    ensures
        crate::subdiv::sanitize_to(s, n) == crate::subdiv::sanitize_to(t, n),
    decreases n,
{
    if n > 0 {
        lemma_sanitize_prefix(s, t, n - 1);
    }
}

/// A path with fewer than two vertices is dropped by sanitizing, so adding
/// one to either operand of any operation leaves the result unchanged (and,
/// all functions here being verified, it never causes a fault).
pub proof fn lemma_degenerate_path_ignored(
    subject: Seq<Seq<Pt>>,
    clip: Seq<Seq<Pt>>,
    op: Operation,
    p: Seq<Pt>,
)
    requires
        p.len() <= 1,
    ensures
        spec_execute(subject.push(p), clip, op) == spec_execute(subject, clip, op),
        spec_execute(subject, clip.push(p), op) == spec_execute(subject, clip, op),
{
    lemma_sanitize_push_degenerate(subject, p);
    lemma_sanitize_push_degenerate(clip, p);
}

/// `sanitize` ignores a pushed ring with fewer than two vertices.
proof fn lemma_sanitize_push_degenerate(s: Seq<Seq<Pt>>, p: Seq<Pt>)
    requires
        p.len() <= 1,
    ensures
        sanitize(s.push(p)) == sanitize(s),
{
    let t = s.push(p);
    lemma_sanitize_prefix(t, s, s.len() as int);
    assert(t[t.len() - 1] == p);
    assert(crate::subdiv::dedup_consec(p).len() <= 1) by {
        if p.len() == 0 {
        } else {
            assert(crate::subdiv::dedup_consec_to(p, 0).len() == 0);
            assert(crate::subdiv::dedup_consec_to(p, 1).len() == 1);
        }
    }
    assert(!crate::subdiv::ring_live(crate::subdiv::clean_ring(p)));
    assert(sanitize(t) == crate::subdiv::sanitize_to(t, s.len() as int));
}

} // verus!
