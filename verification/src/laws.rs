//! Laws of the interval set that relate several operations: a well-formed
//! set is determined by the points it covers, so insertion is idempotent and
//! the outcome of a batch of insertions does not depend on their order.

use vstd::prelude::*;

use crate::interval::{contains_pt, covers, wf_intervals, Interval};

verus! {

/// A well-formed interval sequence is a canonical form: two well-formed
/// sequences that cover exactly the same points are the same sequence.
pub proof fn lemma_coverage_determines(a: Seq<Interval>, b: Seq<Interval>)
    requires
        wf_intervals(a),
        wf_intervals(b),
        forall|p: int| covers(a, p) <==> covers(b, p),
    ensures
        a =~= b,
    decreases a.len(),
{
    if a.len() == 0 {
        if b.len() > 0 {
            assert(contains_pt(b[0], b[0].beg as int));
            assert(covers(b, b[0].beg as int));
            assert(covers(a, b[0].beg as int));
            assert(false);
        }
    } else if b.len() == 0 {
        assert(contains_pt(a[0], a[0].beg as int));
        assert(covers(a, a[0].beg as int));
        assert(covers(b, a[0].beg as int));
        assert(false);
    } else {
        // the first intervals start together: each sequence's least covered
        // point is the start of its first interval
        assert(contains_pt(a[0], a[0].beg as int));
        assert(contains_pt(b[0], b[0].beg as int));
        if b[0].beg < a[0].beg {
            assert(covers(b, b[0].beg as int));
            assert(covers(a, b[0].beg as int));
            let i = choose|i: int|
                0 <= i < a.len() && #[trigger] contains_pt(a[i], b[0].beg as int);
            if i > 0 {
                assert(a[0].end < a[i].beg);
            }
            assert(false);
        }
        if a[0].beg < b[0].beg {
            assert(covers(a, a[0].beg as int));
            assert(covers(b, a[0].beg as int));
            let i = choose|i: int|
                0 <= i < b.len() && #[trigger] contains_pt(b[i], a[0].beg as int);
            if i > 0 {
                assert(b[0].end < b[i].beg);
            }
            assert(false);
        }
        // and they end together: just past either first interval there is a
        // gap, since stored intervals never touch
        if a[0].end < b[0].end {
            assert(contains_pt(b[0], a[0].end as int));
            assert(covers(b, a[0].end as int));
            assert(covers(a, a[0].end as int));
            let i = choose|i: int|
                0 <= i < a.len() && #[trigger] contains_pt(a[i], a[0].end as int);
            if i > 0 {
                assert(a[0].end < a[i].beg);
            }
            assert(false);
        }
        if b[0].end < a[0].end {
            assert(contains_pt(a[0], b[0].end as int));
            assert(covers(a, b[0].end as int));
            assert(covers(b, b[0].end as int));
            let i = choose|i: int|
                0 <= i < b.len() && #[trigger] contains_pt(b[i], b[0].end as int);
            if i > 0 {
                assert(b[0].end < b[i].beg);
            }
            assert(false);
        }
        assert(a[0] == b[0]);
        // the tails cover the same points, so they are equal by induction
        let a1 = a.drop_first();
        let b1 = b.drop_first();
        assert forall|i: int| 0 <= i < a1.len() implies #[trigger] a1[i] == a[i + 1] by {}
        assert forall|i: int| 0 <= i < b1.len() implies #[trigger] b1[i] == b[i + 1] by {}
        assert(wf_intervals(a1));
        assert(wf_intervals(b1));
        assert forall|p: int| covers(a1, p) <==> covers(b1, p) by {
            if covers(a1, p) {
                let i = choose|i: int| 0 <= i < a1.len() && #[trigger] contains_pt(a1[i], p);
                assert(contains_pt(a[i + 1], p));
                assert(covers(a, p));
                assert(covers(b, p));
                let j = choose|j: int| 0 <= j < b.len() && #[trigger] contains_pt(b[j], p);
                if j == 0 {
                    assert(a[0].end < a[i + 1].beg);
                    assert(false);
                }
                assert(contains_pt(b1[j - 1], p));
                assert(covers(b1, p));
            }
            if covers(b1, p) {
                let i = choose|i: int| 0 <= i < b1.len() && #[trigger] contains_pt(b1[i], p);
                assert(contains_pt(b[i + 1], p));
                assert(covers(b, p));
                assert(covers(a, p));
                let j = choose|j: int| 0 <= j < a.len() && #[trigger] contains_pt(a[j], p);
                if j == 0 {
                    assert(b[0].end < b[i + 1].beg);
                    assert(false);
                }
                assert(contains_pt(a1[j - 1], p));
                assert(covers(a1, p));
            }
        }
        lemma_coverage_determines(a1, b1);
        assert forall|i: int| 0 <= i < a.len() implies a[i] == b[i] by {
            if i > 0 {
                assert(a1[i - 1] == b1[i - 1]);
            }
        }
    }
}

/// Inserting the same interval twice yields the same set as inserting it
/// once: the second insertion adds no coverage, and coverage determines the
/// well-formed set.
pub proof fn lemma_add_idempotent(
    s0: Seq<Interval>,
    once: Seq<Interval>,
    twice: Seq<Interval>,
    iv: Interval,
)
    requires
        wf_intervals(once),
        wf_intervals(twice),
        forall|p: int| covers(once, p) <==> covers(s0, p) || contains_pt(iv, p),
        forall|p: int| covers(twice, p) <==> covers(once, p) || contains_pt(iv, p),
    ensures
        once =~= twice,
{
    assert forall|p: int| covers(once, p) <==> covers(twice, p) by {}
    lemma_coverage_determines(once, twice);
}

/// The final merged set does not depend on the order in which two intervals
/// are inserted, though the intermediate states may differ.
pub proof fn lemma_add_commutative(
    s0: Seq<Interval>,
    s_a: Seq<Interval>,
    s_ab: Seq<Interval>,
    s_b: Seq<Interval>,
    s_ba: Seq<Interval>,
    iv_a: Interval,
    iv_b: Interval,
)
    requires
        wf_intervals(s_ab),
        wf_intervals(s_ba),
        forall|p: int| covers(s_a, p) <==> covers(s0, p) || contains_pt(iv_a, p),
        forall|p: int| covers(s_ab, p) <==> covers(s_a, p) || contains_pt(iv_b, p),
        forall|p: int| covers(s_b, p) <==> covers(s0, p) || contains_pt(iv_b, p),
        forall|p: int| covers(s_ba, p) <==> covers(s_b, p) || contains_pt(iv_a, p),
    ensures
        s_ab =~= s_ba,
{
    assert forall|p: int| covers(s_ab, p) <==> covers(s_ba, p) by {}
    lemma_coverage_determines(s_ab, s_ba);
}

/// The final merged set after inserting a batch of intervals does not depend
/// on the batch's order: two batches holding the same intervals give the same
/// set.
pub proof fn lemma_extend_order_irrelevant(
    s0: Seq<Interval>,
    batch1: Seq<Interval>,
    batch2: Seq<Interval>,
    t1: Seq<Interval>,
    t2: Seq<Interval>,
)
    requires
        wf_intervals(t1),
        wf_intervals(t2),
        forall|x: Interval| batch1.contains(x) <==> batch2.contains(x),
        forall|p: int|
            covers(t1, p) <==> covers(s0, p) || exists|j: int|
                0 <= j < batch1.len() && #[trigger] contains_pt(batch1[j], p),
        forall|p: int|
            covers(t2, p) <==> covers(s0, p) || exists|j: int|
                0 <= j < batch2.len() && #[trigger] contains_pt(batch2[j], p),
    ensures
        t1 =~= t2,
{
    assert forall|p: int| covers(t1, p) <==> covers(t2, p) by {
        if exists|j: int| 0 <= j < batch1.len() && #[trigger] contains_pt(batch1[j], p) {
            let j = choose|j: int| 0 <= j < batch1.len() && #[trigger] contains_pt(batch1[j], p);
            assert(batch1.contains(batch1[j]));
            assert(batch2.contains(batch1[j]));
            let j2 = choose|j2: int| 0 <= j2 < batch2.len() && batch2[j2] == batch1[j];
            assert(contains_pt(batch2[j2], p));
        }
        if exists|j: int| 0 <= j < batch2.len() && #[trigger] contains_pt(batch2[j], p) {
            let j = choose|j: int| 0 <= j < batch2.len() && #[trigger] contains_pt(batch2[j], p);
            assert(batch2.contains(batch2[j]));
            assert(batch1.contains(batch2[j]));
            let j2 = choose|j2: int| 0 <= j2 < batch1.len() && batch1[j2] == batch2[j];
            assert(contains_pt(batch1[j2], p));
        }
    }
    lemma_coverage_determines(t1, t2);
}

} // verus!
