//! The growable interval set: disjoint half-open intervals, each paired with
//! an aggregate summary, kept sorted and maximally merged.

use vstd::prelude::*;

verus! {

/// Half open interval: [beg, end)
#[derive(Clone, Copy, Debug, PartialEq, Eq, Structural)]
pub struct Interval {
    pub beg: usize,
    pub end: usize,
}

/// Does the half-open interval `iv` contain the point `p`?
pub open spec fn contains_pt(iv: Interval, p: int) -> bool {
    iv.beg <= p < iv.end
}

/// Is some interval of `s` covering the point `p`?
pub open spec fn covers(s: Seq<Interval>, p: int) -> bool {
    exists|i: int| 0 <= i < s.len() && #[trigger] contains_pt(s[i], p)
}

/// The shape every interval set keeps: every interval is non-degenerate, and
/// consecutive intervals neither overlap nor touch (the set stores maximal
/// disjoint spans, so between two stored intervals there is always a gap).
pub open spec fn wf_intervals(s: Seq<Interval>) -> bool {
    &&& forall|i: int| 0 <= i < s.len() ==> (#[trigger] s[i]).beg < s[i].end
    &&& forall|i: int, j: int| 0 <= i < j < s.len() ==> (#[trigger] s[i]).end < (#[trigger] s[j]).beg
}

/// Lexicographic order on `(beg, end)`, the order the set is sorted by.
pub open spec fn lex_lt(a: Interval, b: Interval) -> bool {
    a.beg < b.beg || (a.beg == b.beg && a.end < b.end)
}

impl Interval {
    /// Translate both bounds left by `by`.
    pub fn shift_left(&mut self, by: usize)
        requires
            by <= old(self).beg,
            old(self).beg <= old(self).end,
        ensures
            final(self).beg == old(self).beg - by,
            final(self).end == old(self).end - by,
    {
        self.beg -= by;
        self.end -= by;
    }

    /// Translate both bounds right by `by`.
    pub fn shift_right(&mut self, by: usize)
        requires
            old(self).beg <= old(self).end,
            old(self).end + by <= usize::MAX,
        ensures
            final(self).beg == old(self).beg + by,
            final(self).end == old(self).end + by,
    {
        self.beg += by;
        self.end += by;
    }

    /// Split the interval into `[beg, from)` (kept in place) and
    /// `[from, end)` (returned). `from` must lie strictly inside.
    pub fn split_off(&mut self, from: usize) -> (r: Interval)
        requires
            old(self).beg < from < old(self).end,
        ensures
            final(self).beg == old(self).beg,
            final(self).end == from,
            r.beg == from,
            r.end == old(self).end,
    {
        let ret = Interval { beg: from, end: self.end };
        self.end = from;
        ret
    }
}

/// A growth in space of intervals.
///
/// If the interval space is grown by a single `ISpaceAdd`, every interval to
/// the right of, and including, `index` gets shifted right by `size` amount.
/// Everything outside of the added space remains the same, so all metadata
/// about existing intervals remains unchanged.
#[derive(Clone, Copy, Debug, PartialEq, Eq, Structural)]
pub struct ISpaceAdd {
    /// The index at which space is added
    pub index: usize,
    /// The size of the added space
    pub size: usize,
}

/// A batch of growth events: strictly ascending by `index` (expressed in the
/// coordinate space before any of the batch's growth is applied), each of
/// strictly positive size.
pub open spec fn evs_sorted(evs: Seq<ISpaceAdd>) -> bool {
    &&& forall|i: int, j: int|
        0 <= i < j < evs.len() ==> (#[trigger] evs[i]).index < (#[trigger] evs[j]).index
    &&& forall|i: int| 0 <= i < evs.len() ==> (#[trigger] evs[i]).size >= 1
}

/// The total size of the first `t` growth events.
pub open spec fn sum_first(evs: Seq<ISpaceAdd>, t: int) -> int
    decreases t,
{
    if t <= 0 {
        0
    } else {
        sum_first(evs, t - 1) + evs[t - 1].size
    }
}

pub open spec fn shift_before_upto(evs: Seq<ISpaceAdd>, t: int, p: int) -> int
    decreases t,
{
    if t <= 0 {
        0
    } else {
        shift_before_upto(evs, t - 1, p) + (if evs[t - 1].index < p {
            evs[t - 1].size as int
        } else {
            0
        })
    }
}

pub open spec fn shift_at_upto(evs: Seq<ISpaceAdd>, t: int, p: int) -> int
    decreases t,
{
    if t <= 0 {
        0
    } else {
        shift_at_upto(evs, t - 1, p) + (if evs[t - 1].index <= p {
            evs[t - 1].size as int
        } else {
            0
        })
    }
}

/// The total growth strictly to the left of point `p`: how far the point at
/// `p` moves only if nothing is inserted exactly at `p`.
pub open spec fn shift_before(evs: Seq<ISpaceAdd>, p: int) -> int {
    shift_before_upto(evs, evs.len() as int, p)
}

/// The total growth at or to the left of point `p`: how far the point at `p`
/// moves rightward once the whole batch is applied.
pub open spec fn shift_at(evs: Seq<ISpaceAdd>, p: int) -> int {
    shift_at_upto(evs, evs.len() as int, p)
}

/// Does the growth event land on the closed span of `iv`? Such an event
/// grows, shifts or splits the interval rather than merely moving it.
pub open spec fn lands_in(ev: ISpaceAdd, iv: Interval) -> bool {
    iv.beg <= ev.index <= iv.end
}

/// At most one growth event of the batch touches any one stored interval:
/// the reconciliation pass applies at most one event to each interval.
pub open spec fn one_event_each(ivs: Seq<Interval>, evs: Seq<ISpaceAdd>) -> bool {
    forall|i: int, j1: int, j2: int|
        #![trigger lands_in(evs[j1], ivs[i]), lands_in(evs[j2], ivs[i])]
        0 <= i < ivs.len() && 0 <= j1 < j2 < evs.len() ==> !(lands_in(evs[j1], ivs[i]) && lands_in(
            evs[j2],
            ivs[i],
        ))
}

/// The range of coordinates that the growth event `evs[j]` inserts, in the
/// coordinate space after the whole batch is applied.
pub open spec fn grown_range(evs: Seq<ISpaceAdd>, j: int) -> Interval {
    Interval {
        beg: (evs[j].index + shift_before(evs, evs[j].index as int)) as usize,
        end: (evs[j].index + shift_before(evs, evs[j].index as int) + evs[j].size) as usize,
    }
}

pub proof fn lemma_sum_first_mono(evs: Seq<ISpaceAdd>, t1: int, t2: int)
    requires
        0 <= t1 <= t2,
    ensures
        sum_first(evs, t1) <= sum_first(evs, t2),
        0 <= sum_first(evs, t1),
    decreases t2,
{
    if t2 > t1 {
        lemma_sum_first_mono(evs, t1, t2 - 1);
    } else if t1 > 0 {
        lemma_sum_first_mono(evs, t1 - 1, t1 - 1);
    }
}

pub proof fn lemma_shift_upto_bounds(evs: Seq<ISpaceAdd>, t: int, p: int)
    requires
        0 <= t,
    ensures
        0 <= shift_before_upto(evs, t, p) <= shift_at_upto(evs, t, p) <= sum_first(evs, t),
    decreases t,
{
    if t > 0 {
        lemma_shift_upto_bounds(evs, t - 1, p);
    }
}

pub proof fn lemma_shift_upto_mono(evs: Seq<ISpaceAdd>, t: int, p1: int, p2: int)
    requires
        0 <= t,
        p1 <= p2,
    ensures
        shift_before_upto(evs, t, p1) <= shift_before_upto(evs, t, p2),
        shift_at_upto(evs, t, p1) <= shift_at_upto(evs, t, p2),
        p1 < p2 ==> shift_at_upto(evs, t, p1) <= shift_before_upto(evs, t, p2),
        shift_before_upto(evs, t, p1) <= shift_at_upto(evs, t, p1),
    decreases t,
{
    if t > 0 {
        lemma_shift_upto_mono(evs, t - 1, p1, p2);
    }
}

/// No event lands in the window `[b, x]`: the point at `x` moves exactly as
/// far as the growth strictly left of `b`.
proof fn lemma_shift_window_empty(evs: Seq<ISpaceAdd>, t: int, b: int, x: int)
    requires
        0 <= t <= evs.len(),
        b <= x,
        forall|j: int| 0 <= j < evs.len() ==> !(b <= (#[trigger] evs[j]).index <= x),
    ensures
        shift_at_upto(evs, t, x) == shift_before_upto(evs, t, b),
    decreases t,
{
    if t > 0 {
        lemma_shift_window_empty(evs, t - 1, b, x);
        assert(!(b <= evs[t - 1].index <= x));
    }
}

/// Exactly the event `evs[j0]` lands in the window `[b, x]`: the point at `x`
/// moves by the growth strictly left of `b` plus that event's size.
proof fn lemma_shift_window_one(evs: Seq<ISpaceAdd>, t: int, b: int, x: int, j0: int)
    requires
        0 <= t <= evs.len(),
        b <= x,
        0 <= j0 < evs.len(),
        b <= evs[j0].index <= x,
        forall|j: int|
            0 <= j < evs.len() && j != j0 ==> !(b <= (#[trigger] evs[j]).index <= x),
    ensures
        shift_at_upto(evs, t, x) == shift_before_upto(evs, t, b) + if j0 < t {
            evs[j0].size as int
        } else {
            0
        },
    decreases t,
{
    if t > 0 {
        lemma_shift_window_one(evs, t - 1, b, x, j0);
        if t - 1 != j0 {
            assert(!(b <= evs[t - 1].index <= x));
        }
    }
}

/// Events split by position `p`: the first `t0` lie strictly left of `p` and
/// the rest at or right of it, so the growth strictly left of `p` is the sum
/// of the first `t0` sizes.
proof fn lemma_shift_before_prefix(evs: Seq<ISpaceAdd>, t: int, t0: int, p: int)
    requires
        0 <= t0,
        0 <= t <= evs.len(),
        forall|j: int| 0 <= j < t0 && j < evs.len() ==> (#[trigger] evs[j]).index < p,
        forall|j: int| t0 <= j < evs.len() ==> (#[trigger] evs[j]).index >= p,
    ensures
        shift_before_upto(evs, t, p) == sum_first(evs, if t <= t0 {
            t
        } else {
            t0
        }),
    decreases t,
{
    if t > 0 {
        lemma_shift_before_prefix(evs, t - 1, t0, p);
    }
}

/// Growth strictly left of `p` is growth at or left of `p - 1`.
proof fn lemma_before_eq_at_minus(evs: Seq<ISpaceAdd>, t: int, p: int)
    ensures
        shift_before_upto(evs, t, p) == shift_at_upto(evs, t, p - 1),
    decreases t,
{
    if t > 0 {
        lemma_before_eq_at_minus(evs, t - 1, p);
    }
}

/// No event lands on the closed span of `o`: every point of that span moves
/// uniformly by the growth strictly left of the span.
proof fn lemma_window_shifts_empty(evs: Seq<ISpaceAdd>, o: Interval)
    requires
        forall|j: int| 0 <= j < evs.len() ==> !(o.beg <= (#[trigger] evs[j]).index <= o.end),
    ensures
        forall|x: int|
            o.beg <= x <= o.end ==> #[trigger] shift_at(evs, x) == shift_before(
                evs,
                o.beg as int,
            ),
        forall|x: int|
            o.beg <= x <= o.end ==> #[trigger] shift_before(evs, x) == shift_before(
                evs,
                o.beg as int,
            ),
{
    let t = evs.len() as int;
    assert forall|x: int| o.beg <= x <= o.end implies #[trigger] shift_at(evs, x) == shift_before(
        evs,
        o.beg as int,
    ) by {
        lemma_shift_window_empty(evs, t, o.beg as int, x);
    }
    assert forall|x: int| o.beg <= x <= o.end implies #[trigger] shift_before(evs, x)
        == shift_before(evs, o.beg as int) by {
        if x > o.beg {
            lemma_before_eq_at_minus(evs, t, x);
            lemma_shift_window_empty(evs, t, o.beg as int, x - 1);
        }
    }
}

/// Exactly one event lands on the closed span of `o`, at index `k`: points of
/// the span left of `k` move by the growth strictly left of the span, points
/// at or right of `k` additionally by that event's size.
proof fn lemma_window_shifts_one(evs: Seq<ISpaceAdd>, o: Interval, jj: int)
    requires
        0 <= jj < evs.len(),
        o.beg <= evs[jj].index <= o.end,
        forall|j: int|
            0 <= j < evs.len() && j != jj ==> !(o.beg <= (#[trigger] evs[j]).index <= o.end),
    ensures
        forall|x: int|
            o.beg <= x <= o.end ==> #[trigger] shift_at(evs, x) == shift_before(evs, o.beg as int)
                + (if x >= evs[jj].index {
                evs[jj].size as int
            } else {
                0
            }),
        forall|x: int|
            o.beg <= x <= o.end ==> #[trigger] shift_before(evs, x) == shift_before(
                evs,
                o.beg as int,
            ) + (if x > evs[jj].index {
                evs[jj].size as int
            } else {
                0
            }),
{
    let t = evs.len() as int;
    let k = evs[jj].index as int;
    assert forall|x: int| o.beg <= x <= o.end implies #[trigger] shift_at(evs, x)
        == shift_before(evs, o.beg as int) + (if x >= k {
        evs[jj].size as int
    } else {
        0
    }) by {
        if x >= k {
            lemma_shift_window_one(evs, t, o.beg as int, x, jj);
        } else {
            lemma_shift_window_empty(evs, t, o.beg as int, x);
        }
    }
    assert forall|x: int| o.beg <= x <= o.end implies #[trigger] shift_before(evs, x)
        == shift_before(evs, o.beg as int) + (if x > k {
        evs[jj].size as int
    } else {
        0
    }) by {
        if x > o.beg {
            lemma_before_eq_at_minus(evs, t, x);
            if x - 1 >= k {
                lemma_shift_window_one(evs, t, o.beg as int, x - 1, jj);
            } else {
                lemma_shift_window_empty(evs, t, o.beg as int, x - 1);
            }
        }
    }
}

/// After a non-extending growth pass, the kept entries are still
/// well-formed: shifting by cumulative growth preserves gaps.
proof fn lemma_split_pass_wf(old_ivs: Seq<Interval>, evs: Seq<ISpaceAdd>, pass_ivs: Seq<Interval>)
    requires
        wf_intervals(old_ivs),
        pass_ivs.len() == old_ivs.len(),
        forall|j: int|
            0 <= j < old_ivs.len() ==> if interior_landing(evs, #[trigger] old_ivs[j]) {
                split_cut(evs, old_ivs[j], pass_ivs[j])
            } else {
                split_kept(evs, old_ivs[j], pass_ivs[j])
            },
    ensures
        wf_intervals(pass_ivs),
    decreases 0int,
{
    let t = evs.len() as int;
    assert forall|j: int| 0 <= j < pass_ivs.len() implies (#[trigger] pass_ivs[j]).beg
        < pass_ivs[j].end by {
        let o = old_ivs[j];
        if interior_landing(evs, o) {
            let jj = choose|jj: int|
                0 <= jj < evs.len() && o.beg < (#[trigger] evs[jj]).index < o.end && pass_ivs[j].beg
                    == o.beg + shift_at(evs, o.beg as int) && pass_ivs[j].end == evs[jj].index
                    + shift_before(evs, evs[jj].index as int);
            lemma_shift_upto_mono(evs, t, o.beg as int, evs[jj].index as int);
        } else {
            lemma_shift_upto_mono(evs, t, o.beg as int, o.end as int);
        }
    }
    assert forall|j1: int, j2: int| 0 <= j1 < j2 < pass_ivs.len() implies (
    #[trigger] pass_ivs[j1]).end < (#[trigger] pass_ivs[j2]).beg by {
        let o1 = old_ivs[j1];
        let o2 = old_ivs[j2];
        assert(o1.end < o2.beg);
        // the end of entry j1 is at most o1.end + shift_before(o1.end)
        if interior_landing(evs, o1) {
            let jj = choose|jj: int|
                0 <= jj < evs.len() && o1.beg < (#[trigger] evs[jj]).index < o1.end
                    && pass_ivs[j1].beg == o1.beg + shift_at(evs, o1.beg as int)
                    && pass_ivs[j1].end == evs[jj].index + shift_before(
                    evs,
                    evs[jj].index as int,
                );
            lemma_shift_upto_mono(evs, t, evs[jj].index as int, o1.end as int);
        }
        lemma_shift_upto_mono(evs, t, o1.end as int, o2.beg as int);
    }
}

/// After an extending growth pass, entries are still well-formed.
proof fn lemma_extend_pass_wf(old_ivs: Seq<Interval>, evs: Seq<ISpaceAdd>, pass_ivs: Seq<Interval>)
    requires
        wf_intervals(old_ivs),
        pass_ivs.len() == old_ivs.len(),
        forall|j: int|
            0 <= j < old_ivs.len() ==> (#[trigger] pass_ivs[j]).beg == old_ivs[j].beg
                + shift_before(evs, old_ivs[j].beg as int) && pass_ivs[j].end == old_ivs[j].end
                + shift_at(evs, old_ivs[j].end as int),
    ensures
        wf_intervals(pass_ivs),
{
    let t = evs.len() as int;
    assert forall|j: int| 0 <= j < pass_ivs.len() implies (#[trigger] pass_ivs[j]).beg
        < pass_ivs[j].end by {
        lemma_shift_upto_mono(evs, t, old_ivs[j].beg as int, old_ivs[j].end as int);
    }
    assert forall|j1: int, j2: int| 0 <= j1 < j2 < pass_ivs.len() implies (
    #[trigger] pass_ivs[j1]).end < (#[trigger] pass_ivs[j2]).beg by {
        assert(old_ivs[j1].end < old_ivs[j2].beg);
        lemma_shift_upto_mono(evs, t, old_ivs[j1].end as int, old_ivs[j2].beg as int);
    }
}

/// Every queued right piece belongs to an already processed interval with an
/// interior growth point.
pub open spec fn piece_from(
    evs: Seq<ISpaceAdd>,
    old_ivs: Seq<Interval>,
    idx: int,
    piece: Interval,
) -> bool {
    exists|j: int|
        0 <= j < idx && interior_landing(evs, #[trigger] old_ivs[j]) && split_piece_ok(
            evs,
            old_ivs[j],
            piece,
        )
}

/// Has the right piece of the split interval `o` been queued?
pub open spec fn has_piece(evs: Seq<ISpaceAdd>, o: Interval, pieces: Seq<Interval>) -> bool {
    exists|t: int| 0 <= t < pieces.len() && split_piece_ok(evs, o, #[trigger] pieces[t])
}

pub open spec fn pieces_sound(
    evs: Seq<ISpaceAdd>,
    old_ivs: Seq<Interval>,
    idx: int,
    pieces: Seq<Interval>,
) -> bool {
    forall|t: int| 0 <= t < pieces.len() ==> piece_from(evs, old_ivs, idx, #[trigger] pieces[t])
}

/// Every processed interval with an interior growth point has queued its
/// right piece.
pub open spec fn pieces_complete(
    evs: Seq<ISpaceAdd>,
    old_ivs: Seq<Interval>,
    idx: int,
    pieces: Seq<Interval>,
) -> bool {
    forall|j: int|
        0 <= j < idx && interior_landing(evs, #[trigger] old_ivs[j]) ==> has_piece(
            evs,
            old_ivs[j],
            pieces,
        )
}

/// Piece bookkeeping only speaks of processed intervals, so it survives
/// processing one more interval that queues nothing.
proof fn lemma_pieces_mono(
    evs: Seq<ISpaceAdd>,
    old_ivs: Seq<Interval>,
    idx: int,
    pieces: Seq<Interval>,
)
    requires
        pieces_sound(evs, old_ivs, idx, pieces),
        pieces_complete(evs, old_ivs, idx, pieces),
        0 <= idx < old_ivs.len(),
        !interior_landing(evs, old_ivs[idx]),
    ensures
        pieces_sound(evs, old_ivs, idx + 1, pieces),
        pieces_complete(evs, old_ivs, idx + 1, pieces),
{
    assert forall|t: int| 0 <= t < pieces.len() implies piece_from(
        evs,
        old_ivs,
        idx + 1,
        #[trigger] pieces[t],
    ) by {
        assert(piece_from(evs, old_ivs, idx, pieces[t]));
        let j = choose|j: int|
            0 <= j < idx && interior_landing(evs, #[trigger] old_ivs[j]) && split_piece_ok(
                evs,
                old_ivs[j],
                pieces[t],
            );
        assert(interior_landing(evs, old_ivs[j]) && split_piece_ok(evs, old_ivs[j], pieces[t]));
    }
    assert forall|j: int| 0 <= j < idx + 1 && interior_landing(
        evs,
        #[trigger] old_ivs[j],
    ) implies has_piece(evs, old_ivs[j], pieces) by {
        assert(j < idx);
    }
}

/// Pushing the right piece of the interval at `idx` keeps the piece
/// bookkeeping exact: every queued piece belongs to a processed interval with
/// an interior growth point, and every such interval has queued its piece.
#[verifier::spinoff_prover]
#[verifier::rlimit(100)]
proof fn lemma_piece_push(
    evs: Seq<ISpaceAdd>,
    old_ivs: Seq<Interval>,
    idx: int,
    pre_pieces: Seq<Interval>,
    new_pieces: Seq<Interval>,
    piece: Interval,
)
    requires
        0 <= idx < old_ivs.len(),
        new_pieces == pre_pieces.push(piece),
        interior_landing(evs, old_ivs[idx]),
        split_piece_ok(evs, old_ivs[idx], piece),
        pieces_sound(evs, old_ivs, idx, pre_pieces),
        pieces_complete(evs, old_ivs, idx, pre_pieces),
    ensures
        pieces_sound(evs, old_ivs, idx + 1, new_pieces),
        pieces_complete(evs, old_ivs, idx + 1, new_pieces),
{
    assert forall|t: int| 0 <= t < new_pieces.len() implies piece_from(
        evs,
        old_ivs,
        idx + 1,
        #[trigger] new_pieces[t],
    ) by {
        if t < pre_pieces.len() {
            assert(new_pieces[t] == pre_pieces[t]);
            assert(piece_from(evs, old_ivs, idx, pre_pieces[t]));
            let j = choose|j: int|
                0 <= j < idx && interior_landing(evs, #[trigger] old_ivs[j]) && split_piece_ok(
                    evs,
                    old_ivs[j],
                    pre_pieces[t],
                );
            assert(interior_landing(evs, old_ivs[j]) && split_piece_ok(
                evs,
                old_ivs[j],
                new_pieces[t],
            ));
        } else {
            assert(new_pieces[t] == piece);
            assert(interior_landing(evs, old_ivs[idx]) && split_piece_ok(
                evs,
                old_ivs[idx],
                new_pieces[t],
            ));
        }
    }
    assert forall|j: int| 0 <= j < idx + 1 && interior_landing(
        evs,
        #[trigger] old_ivs[j],
    ) implies has_piece(evs, old_ivs[j], new_pieces) by {
        if j < idx {
            assert(has_piece(evs, old_ivs[j], pre_pieces));
            let t = choose|t: int|
                0 <= t < pre_pieces.len() && split_piece_ok(
                    evs,
                    old_ivs[j],
                    #[trigger] pre_pieces[t],
                );
            assert(new_pieces[t] == pre_pieces[t]);
            assert(split_piece_ok(evs, old_ivs[j], new_pieces[t]));
        } else {
            let t = pre_pieces.len() as int;
            assert(new_pieces[t] == piece);
            assert(split_piece_ok(evs, old_ivs[j], new_pieces[t]));
        }
    }
}

/// Assembles the contract of a non-extending growth pass: once the queued
/// pieces are merged back in, coverage is exactly the image of the old
/// coverage, and every entry either is a moved old entry with its summary or
/// carries a freshly computed one.
#[verifier::spinoff_prover]
#[verifier::rlimit(100)]
proof fn lemma_split_final<I: IntervalSpace>(
    old_ivs: Seq<Interval>,
    old_infos: Seq<I::Info>,
    evs: Seq<ISpaceAdd>,
    pass_ivs: Seq<Interval>,
    pass_infos: Seq<I::Info>,
    pieces: Seq<Interval>,
    final_ivs: Seq<Interval>,
    final_infos: Seq<I::Info>,
    new_space: I,
)
    requires
        wf_intervals(old_ivs),
        one_event_each(old_ivs, evs),
        pass_ivs.len() == old_ivs.len(),
        old_infos.len() == old_ivs.len(),
        pass_infos.len() == pass_ivs.len(),
        final_infos.len() == final_ivs.len(),
        forall|j: int|
            0 <= j < old_ivs.len() ==> if interior_landing(evs, #[trigger] old_ivs[j]) {
                split_cut(evs, old_ivs[j], pass_ivs[j]) && pass_infos[j] == new_space.spec_info(
                    pass_ivs[j],
                )
            } else {
                split_kept(evs, old_ivs[j], pass_ivs[j]) && pass_infos[j] == old_infos[j]
            },
        pieces_sound(evs, old_ivs, old_ivs.len() as int, pieces),
        pieces_complete(evs, old_ivs, old_ivs.len() as int, pieces),
        forall|p: int|
            #![trigger covers(final_ivs, p)]
            #![trigger covers(pass_ivs, p)]
            covers(final_ivs, p) <==> covers(pass_ivs, p) || exists|t: int|
                0 <= t < pieces.len() && #[trigger] contains_pt(pieces[t], p),
        forall|j: int|
            0 <= j < final_ivs.len() ==> (exists|i2: int|
                0 <= i2 < pass_ivs.len() && pass_ivs[i2] == #[trigger] final_ivs[j]
                    && pass_infos[i2] == final_infos[j]) || final_infos[j] == new_space.spec_info(
                final_ivs[j],
            ),
    ensures
        forall|p: int|
            covers(old_ivs, p) ==> covers(final_ivs, p + #[trigger] shift_at(evs, p)),
        forall|q: int|
            covers(final_ivs, q) ==> exists|p: int|
                covers(old_ivs, p) && q == p + #[trigger] shift_at(evs, p),
        forall|j: int|
            0 <= j < final_ivs.len() ==> (exists|i: int|
                0 <= i < old_ivs.len() && (#[trigger] final_ivs[j]).beg == old_ivs[i].beg
                    + shift_at(evs, old_ivs[i].beg as int) && final_ivs[j].end == old_ivs[i].end
                    + shift_before(evs, old_ivs[i].end as int) && final_infos[j] == old_infos[i])
                || final_infos[j] == new_space.spec_info(final_ivs[j]),
{
    lemma_split_coverage_fwd(old_ivs, evs, pass_ivs, pieces);
    lemma_split_coverage_bwd(old_ivs, evs, pass_ivs, pieces);
    assert forall|p: int| covers(old_ivs, p) implies covers(
        final_ivs,
        p + #[trigger] shift_at(evs, p),
    ) by {
        let q = p + shift_at(evs, p);
        assert(covers(pass_ivs, q) || covers(pieces, q));
        if covers(pieces, q) {
            let t = choose|t: int| 0 <= t < pieces.len() && #[trigger] contains_pt(pieces[t], q);
            assert(contains_pt(pieces[t], q));
        }
        assert(covers(final_ivs, q));
    }
    assert forall|q: int| covers(final_ivs, q) implies exists|p: int|
        covers(old_ivs, p) && q == p + #[trigger] shift_at(evs, p) by {
        assert(covers(pass_ivs, q) || exists|t: int|
            0 <= t < pieces.len() && #[trigger] contains_pt(pieces[t], q));
        assert(covers(pass_ivs, q) || covers(pieces, q));
    }
    assert forall|j: int| 0 <= j < final_ivs.len() implies (exists|i: int|
        0 <= i < old_ivs.len() && (#[trigger] final_ivs[j]).beg == old_ivs[i].beg + shift_at(
            evs,
            old_ivs[i].beg as int,
        ) && final_ivs[j].end == old_ivs[i].end + shift_before(evs, old_ivs[i].end as int)
            && final_infos[j] == old_infos[i]) || final_infos[j] == new_space.spec_info(
        final_ivs[j],
    ) by {
        if exists|i2: int|
            0 <= i2 < pass_ivs.len() && pass_ivs[i2] == final_ivs[j] && pass_infos[i2]
                == final_infos[j] {
            let i2 = choose|i2: int|
                0 <= i2 < pass_ivs.len() && pass_ivs[i2] == final_ivs[j] && pass_infos[i2]
                    == final_infos[j];
            if interior_landing(evs, old_ivs[i2]) {
                assert(pass_infos[i2] == new_space.spec_info(pass_ivs[i2]));
            } else {
                assert(split_kept(evs, old_ivs[i2], pass_ivs[i2]));
                assert((final_ivs[j]).beg == old_ivs[i2].beg + shift_at(
                    evs,
                    old_ivs[i2].beg as int,
                ) && final_ivs[j].end == old_ivs[i2].end + shift_before(
                    evs,
                    old_ivs[i2].end as int,
                ) && final_infos[j] == old_infos[i2]);
            }
        }
    }
}

/// After a non-extending growth pass, the newly inserted coordinate range of
/// every growth event is uncovered: no stored interval spans across a growth
/// point, because an interval that started exactly at the growth point's
/// anchor was shifted wholly right, and any other was split there.
pub proof fn lemma_growth_gap(
    old_ivs: Seq<Interval>,
    new_ivs: Seq<Interval>,
    evs: Seq<ISpaceAdd>,
    jj: int,
    q: int,
)
    requires
        evs_sorted(evs),
        0 <= jj < evs.len(),
        forall|q2: int|
            covers(new_ivs, q2) ==> exists|p: int|
                covers(old_ivs, p) && q2 == p + #[trigger] shift_at(evs, p),
        contains_pt(grown_range(evs, jj), q),
        evs[jj].index + shift_before(evs, evs[jj].index as int) + evs[jj].size <= usize::MAX,
    ensures
        !covers(new_ivs, q),
{
    let k = evs[jj].index as int;
    if covers(new_ivs, q) {
        let p = choose|p: int| covers(old_ivs, p) && q == p + #[trigger] shift_at(evs, p);
        let o = Interval { beg: evs[jj].index, end: evs[jj].index };
        assert forall|j: int| 0 <= j < evs.len() && j != jj implies !(o.beg <= (
        #[trigger] evs[j]).index <= o.end) by {
            if j < jj {
                assert(evs[j].index < evs[jj].index);
            } else {
                assert(evs[jj].index < evs[j].index);
            }
        }
        lemma_window_shifts_one(evs, o, jj);
        lemma_shift_upto_bounds(evs, evs.len() as int, k);
        assert(shift_at(evs, k) == shift_before(evs, k) + evs[jj].size);
        if p < k {
            lemma_shift_upto_mono(evs, evs.len() as int, p, k);
            assert(shift_at(evs, p) <= shift_before(evs, k));
            assert(q < k + shift_before(evs, k));
            assert(false);
        } else {
            lemma_shift_upto_mono(evs, evs.len() as int, k, p);
            assert(shift_at(evs, p) >= shift_at(evs, k));
            assert(q >= k + shift_before(evs, k) + evs[jj].size);
            assert(false);
        }
    }
}

/// A landing event is the only event on its interval's closed span.
proof fn lemma_unique_lander(ivs: Seq<Interval>, evs: Seq<ISpaceAdd>, i: int, jj: int)
    requires
        one_event_each(ivs, evs),
        0 <= i < ivs.len(),
        0 <= jj < evs.len(),
        lands_in(evs[jj], ivs[i]),
    ensures
        forall|j: int|
            0 <= j < evs.len() && j != jj ==> !(ivs[i].beg <= (#[trigger] evs[j]).index
                <= ivs[i].end),
{
    assert forall|j: int| 0 <= j < evs.len() && j != jj implies !(ivs[i].beg <= (
    #[trigger] evs[j]).index <= ivs[i].end) by {
        if j < jj {
            assert(!(lands_in(evs[j], ivs[i]) && lands_in(evs[jj], ivs[i])));
        } else {
            assert(!(lands_in(evs[jj], ivs[i]) && lands_in(evs[j], ivs[i])));
        }
    }
}

/// After a non-extending growth pass, the image of every covered point is
/// still covered, by a kept entry or by a queued right piece.
#[verifier::spinoff_prover]
#[verifier::rlimit(100)]
proof fn lemma_split_coverage_fwd(
    old_ivs: Seq<Interval>,
    evs: Seq<ISpaceAdd>,
    pass_ivs: Seq<Interval>,
    pieces: Seq<Interval>,
)
    requires
        wf_intervals(old_ivs),
        one_event_each(old_ivs, evs),
        pass_ivs.len() == old_ivs.len(),
        forall|j: int|
            0 <= j < old_ivs.len() ==> if interior_landing(evs, #[trigger] old_ivs[j]) {
                split_cut(evs, old_ivs[j], pass_ivs[j])
            } else {
                split_kept(evs, old_ivs[j], pass_ivs[j])
            },
        pieces_complete(evs, old_ivs, old_ivs.len() as int, pieces),
    ensures
        forall|p: int|
            covers(old_ivs, p) ==> covers(pass_ivs, p + shift_at(evs, p)) || covers(
                pieces,
                p + shift_at(evs, p),
            ),
{
    // the image of every covered point stays covered
    assert forall|p: int| covers(old_ivs, p) implies covers(pass_ivs, p + shift_at(evs, p))
        || covers(pieces, p + shift_at(evs, p)) by {
        let i = choose|i: int| 0 <= i < old_ivs.len() && #[trigger] contains_pt(old_ivs[i], p);
        let o = old_ivs[i];
        let q = p + shift_at(evs, p);
        if has_landing(evs, o) {
            let jj = choose|jj: int| 0 <= jj < evs.len() && #[trigger] lands_in(evs[jj], o);
            lemma_unique_lander(old_ivs, evs, i, jj);
            lemma_window_shifts_one(evs, o, jj);
            let k = evs[jj].index as int;
            if o.beg < k < o.end {
                assert(interior_landing(evs, o));
                assert(split_cut(evs, o, pass_ivs[i]));
                let jc = choose|jc: int|
                    0 <= jc < evs.len() && o.beg < (#[trigger] evs[jc]).index < o.end
                        && pass_ivs[i].beg == o.beg + shift_at(evs, o.beg as int)
                        && pass_ivs[i].end == evs[jc].index + shift_before(
                        evs,
                        evs[jc].index as int,
                    );
                assert(jc == jj);
                if p < k {
                    assert(contains_pt(pass_ivs[i], q));
                    assert(covers(pass_ivs, q));
                } else {
                    let t = choose|t: int|
                        0 <= t < pieces.len() && split_piece_ok(evs, o, #[trigger] pieces[t]);
                    let jp = choose|jp: int|
                        0 <= jp < evs.len() && o.beg < (#[trigger] evs[jp]).index < o.end
                            && pieces[t].beg == evs[jp].index + shift_at(evs, evs[jp].index as int)
                            && pieces[t].end == o.end + shift_before(evs, o.end as int);
                    assert(jp == jj);
                    assert(contains_pt(pieces[t], q));
                    assert(covers(pieces, q));
                }
            } else {
                assert(!interior_landing(evs, o)) by {
                    if interior_landing(evs, o) {
                        let ji = choose|ji: int|
                            0 <= ji < evs.len() && o.beg < (#[trigger] evs[ji]).index < o.end;
                        assert(lands_in(evs[ji], o));
                        assert(ji == jj);
                    }
                }
                assert(split_kept(evs, o, pass_ivs[i]));
                assert(contains_pt(pass_ivs[i], q));
                assert(covers(pass_ivs, q));
            }
        } else {
            assert forall|j: int| 0 <= j < evs.len() implies !(o.beg <= (#[trigger] evs[j]).index
                <= o.end) by {
                assert(!lands_in(evs[j], o));
            }
            lemma_window_shifts_empty(evs, o);
            assert(!interior_landing(evs, o)) by {
                if interior_landing(evs, o) {
                    let ji = choose|ji: int|
                        0 <= ji < evs.len() && o.beg < (#[trigger] evs[ji]).index < o.end;
                    assert(lands_in(evs[ji], o));
                }
            }
            assert(split_kept(evs, o, pass_ivs[i]));
            assert(contains_pt(pass_ivs[i], q));
            assert(covers(pass_ivs, q));
        }
    }
}

/// After a non-extending growth pass, every covered point of the result is
/// the image of a point that was covered before.
#[verifier::spinoff_prover]
#[verifier::rlimit(100)]
proof fn lemma_split_coverage_bwd(
    old_ivs: Seq<Interval>,
    evs: Seq<ISpaceAdd>,
    pass_ivs: Seq<Interval>,
    pieces: Seq<Interval>,
)
    requires
        wf_intervals(old_ivs),
        one_event_each(old_ivs, evs),
        pass_ivs.len() == old_ivs.len(),
        forall|j: int|
            0 <= j < old_ivs.len() ==> if interior_landing(evs, #[trigger] old_ivs[j]) {
                split_cut(evs, old_ivs[j], pass_ivs[j])
            } else {
                split_kept(evs, old_ivs[j], pass_ivs[j])
            },
        pieces_sound(evs, old_ivs, old_ivs.len() as int, pieces),
    ensures
        forall|q: int|
            covers(pass_ivs, q) || covers(pieces, q) ==> exists|p: int|
                covers(old_ivs, p) && q == p + #[trigger] shift_at(evs, p),
{
    assert forall|q: int| covers(pass_ivs, q) || covers(pieces, q) implies exists|p: int|
        covers(old_ivs, p) && q == p + #[trigger] shift_at(evs, p) by {
        if covers(pass_ivs, q) {
            let i = choose|i: int|
                0 <= i < pass_ivs.len() && #[trigger] contains_pt(pass_ivs[i], q);
            let o = old_ivs[i];
            if interior_landing(evs, o) {
                let jj = choose|jj: int|
                    0 <= jj < evs.len() && o.beg < (#[trigger] evs[jj]).index < o.end
                        && pass_ivs[i].beg == o.beg + shift_at(evs, o.beg as int)
                        && pass_ivs[i].end == evs[jj].index + shift_before(
                        evs,
                        evs[jj].index as int,
                    );
                assert(lands_in(evs[jj], o));
                lemma_unique_lander(old_ivs, evs, i, jj);
                lemma_window_shifts_one(evs, o, jj);
                let p = q - shift_before(evs, o.beg as int);
                assert(contains_pt(o, p));
                assert(covers(old_ivs, p)) by {
                    assert(contains_pt(old_ivs[i], p));
                }
                assert(q == p + shift_at(evs, p));
            } else {
                if has_landing(evs, o) {
                    let jj = choose|jj: int|
                        0 <= jj < evs.len() && #[trigger] lands_in(evs[jj], o);
                    lemma_unique_lander(old_ivs, evs, i, jj);
                    lemma_window_shifts_one(evs, o, jj);
                    let k = evs[jj].index as int;
                    assert(k == o.beg || k == o.end) by {
                        if o.beg < k < o.end {
                            assert(interior_landing(evs, o));
                        }
                    }
                    let p = q - shift_at(evs, o.beg as int);
                    assert(contains_pt(o, p));
                    assert(covers(old_ivs, p)) by {
                        assert(contains_pt(old_ivs[i], p));
                    }
                    assert(q == p + shift_at(evs, p));
                } else {
                    assert forall|j: int| 0 <= j < evs.len() implies !(o.beg <= (
                    #[trigger] evs[j]).index <= o.end) by {
                        assert(!lands_in(evs[j], o));
                    }
                    lemma_window_shifts_empty(evs, o);
                    let p = q - shift_before(evs, o.beg as int);
                    assert(contains_pt(o, p));
                    assert(covers(old_ivs, p)) by {
                        assert(contains_pt(old_ivs[i], p));
                    }
                    assert(q == p + shift_at(evs, p));
                }
            }
        } else {
            let t = choose|t: int| 0 <= t < pieces.len() && #[trigger] contains_pt(pieces[t], q);
            let i = choose|i: int|
                0 <= i < old_ivs.len() && interior_landing(evs, #[trigger] old_ivs[i])
                    && split_piece_ok(evs, old_ivs[i], pieces[t]);
            let o = old_ivs[i];
            let jj = choose|jj: int|
                0 <= jj < evs.len() && o.beg < (#[trigger] evs[jj]).index < o.end && pieces[t].beg
                    == evs[jj].index + shift_at(evs, evs[jj].index as int) && pieces[t].end == o.end
                    + shift_before(evs, o.end as int);
            assert(lands_in(evs[jj], o));
            lemma_unique_lander(old_ivs, evs, i, jj);
            lemma_window_shifts_one(evs, o, jj);
            let p = q - shift_at(evs, evs[jj].index as int);
            assert(contains_pt(o, p));
            assert(covers(old_ivs, p)) by {
                assert(contains_pt(old_ivs[i], p));
            }
            assert(q == p + shift_at(evs, p));
        }
    }
}

/// Does some event of the batch land on the closed span of `iv`?
pub open spec fn has_landing(evs: Seq<ISpaceAdd>, iv: Interval) -> bool {
    exists|j: int| 0 <= j < evs.len() && #[trigger] lands_in(evs[j], iv)
}

/// Does some event of the batch fall strictly inside `iv`? Such an event
/// splits the interval when growth is not folded into the mark.
pub open spec fn interior_landing(evs: Seq<ISpaceAdd>, iv: Interval) -> bool {
    exists|j: int| 0 <= j < evs.len() && iv.beg < (#[trigger] evs[j]).index < iv.end
}

/// The whole interval survives a non-extending growth pass, merely moved: its
/// start moves with the growth at or left of it, its end with the growth
/// strictly left of it.
pub open spec fn split_kept(evs: Seq<ISpaceAdd>, o: Interval, niv: Interval) -> bool {
    &&& niv.beg == o.beg + shift_at(evs, o.beg as int)
    &&& niv.end == o.end + shift_before(evs, o.end as int)
}

/// The left piece that remains in place when a growth event splits `o`.
pub open spec fn split_cut(evs: Seq<ISpaceAdd>, o: Interval, niv: Interval) -> bool {
    exists|jj: int|
        0 <= jj < evs.len() && o.beg < (#[trigger] evs[jj]).index < o.end && niv.beg == o.beg
            + shift_at(evs, o.beg as int) && niv.end == evs[jj].index + shift_before(
            evs,
            evs[jj].index as int,
        )
}

/// The right piece that is queued for re-insertion when a growth event
/// splits `o`.
pub open spec fn split_piece_ok(evs: Seq<ISpaceAdd>, o: Interval, piece: Interval) -> bool {
    exists|jj: int|
        0 <= jj < evs.len() && o.beg < (#[trigger] evs[jj]).index < o.end && piece.beg
            == evs[jj].index + shift_at(evs, evs[jj].index as int) && piece.end == o.end
            + shift_before(evs, o.end as int)
}

/// An aggregate summary attached to an interval. Merging two adjacent
/// summaries uses `combine`, which must be associative (a semigroup).
pub trait InfoTy: Sized {
    /// What `combine` returns.
    spec fn spec_combine(self, other: Self) -> Self;

    /// When `combine` may be called (for instance, when a sum cannot
    /// overflow its machine type).
    spec fn combinable(self, other: Self) -> bool;

    /// `combine` is associative, wherever both orders of combining are legal.
    proof fn lemma_combine_assoc(a: Self, b: Self, c: Self)
        requires
            a.combinable(b),
            a.spec_combine(b).combinable(c),
            b.combinable(c),
            a.combinable(b.spec_combine(c)),
        ensures
            a.spec_combine(b).spec_combine(c) == a.spec_combine(b.spec_combine(c)),
    ;

    /// Combine two adjacent summaries into one.
    fn combine(&self, other: &Self) -> (r: Self)
        requires
            (*self).combinable(*other),
        ensures
            r == (*self).spec_combine(*other),
    ;
}

/// A snapshot of the growable coordinate space: given an interval, it
/// computes the aggregate summary of the content the interval covers.
pub trait IntervalSpace: Sized {
    type Info: InfoTy;

    /// What `compute_info` returns.
    spec fn spec_info(self, iv: Interval) -> Self::Info;

    /// Compute the aggregate summary of `iv` against this snapshot.
    fn compute_info(&self, iv: Interval) -> (r: Self::Info)
        ensures
            r == (*self).spec_info(iv),
    ;
}

impl InfoTy for () {
    open spec fn spec_combine(self, other: ()) -> () {
        ()
    }

    open spec fn combinable(self, other: ()) -> bool {
        true
    }

    proof fn lemma_combine_assoc(a: (), b: (), c: ()) {
    }

    fn combine(&self, _other: &()) -> (r: ()) {
        ()
    }
}

impl InfoTy for usize {
    open spec fn spec_combine(self, other: usize) -> usize {
        (self + other) as usize
    }

    open spec fn combinable(self, other: usize) -> bool {
        self + other <= usize::MAX
    }

    proof fn lemma_combine_assoc(a: usize, b: usize, c: usize) {
    }

    fn combine(&self, other: &usize) -> (r: usize) {
        *self + *other
    }
}

/// A space that carries no content: every summary is the unit value.
pub struct NulSpace;

impl IntervalSpace for NulSpace {
    type Info = ();

    open spec fn spec_info(self, iv: Interval) -> () {
        ()
    }

    fn compute_info(&self, _iv: Interval) -> (r: ()) {
        ()
    }
}

/// A space whose summary of an interval is the interval's length.
pub struct LenSpace;

impl IntervalSpace for LenSpace {
    type Info = usize;

    open spec fn spec_info(self, iv: Interval) -> usize {
        if iv.beg <= iv.end {
            (iv.end - iv.beg) as usize
        } else {
            0
        }
    }

    fn compute_info(&self, iv: Interval) -> (r: usize) {
        if iv.beg <= iv.end {
            iv.end - iv.beg
        } else {
            0
        }
    }
}

struct IntervalWrap<T: InfoTy> {
    iv: Interval,
    info: T,
}

impl<T: InfoTy> IntervalWrap<T> {
    fn new<S: IntervalSpace<Info = T>>(iv: Interval, space: &S) -> (r: Self)
        ensures
            r.iv == iv,
            r.info == space.spec_info(iv),
    {
        IntervalWrap { iv, info: space.compute_info(iv) }
    }

    fn shift_right(&mut self, by: usize)
        requires
            old(self).iv.beg <= old(self).iv.end,
            old(self).iv.end + by <= usize::MAX,
        ensures
            final(self).iv.beg == old(self).iv.beg + by,
            final(self).iv.end == old(self).iv.end + by,
            final(self).info == old(self).info,
    {
        self.iv.shift_right(by);
    }

    /// Extend the interval's end by `add.size` and fold the summary of the
    /// newly added sub-range `[add.index, add.index + add.size)` into the
    /// stored summary.
    fn grow<S: IntervalSpace<Info = T>>(&mut self, add: ISpaceAdd, space: &S)
        requires
            old(self).iv.beg <= add.index <= old(self).iv.end,
            old(self).iv.end + add.size <= usize::MAX,
            add.index + add.size <= usize::MAX,
            old(self).info.combinable(
                space.spec_info(
                    Interval { beg: add.index, end: (add.index + add.size) as usize },
                ),
            ),
        ensures
            final(self).iv.beg == old(self).iv.beg,
            final(self).iv.end == old(self).iv.end + add.size,
            final(self).info == old(self).info.spec_combine(
                space.spec_info(
                    Interval { beg: add.index, end: (add.index + add.size) as usize },
                ),
            ),
    {
        self.iv.end = self.iv.end + add.size;
        let added = Interval { beg: add.index, end: add.index + add.size };
        self.info = self.info.combine(&space.compute_info(added));
    }

    /// Split at `from`: keep `[beg, from)` in place with a freshly computed
    /// summary, and return `[from, end)`.
    fn split_off<S: IntervalSpace<Info = T>>(&mut self, from: usize, space: &S) -> (r: Interval)
        requires
            old(self).iv.beg < from < old(self).iv.end,
        ensures
            final(self).iv.beg == old(self).iv.beg,
            final(self).iv.end == from,
            final(self).info == space.spec_info(final(self).iv),
            r.beg == from,
            r.end == old(self).iv.end,
    {
        let ret = self.iv.split_off(from);
        self.info = space.compute_info(self.iv);
        ret
    }
}

/// How many intervals, scanning from `idx`, are absorbed when the interval at
/// `idx` is extended rightward to at least `end`: every interval whose start
/// is at or before `end` (touching included) is taken.
pub open spec fn absorb_count(s: Seq<Interval>, idx: int, end: int) -> int
    decreases s.len() - idx when 0 <= idx <= s.len()
{
    if idx < s.len() && s[idx].beg <= end {
        1 + absorb_count(s, idx + 1, end)
    } else {
        0
    }
}

proof fn lemma_absorb_count_iff(s: Seq<Interval>, idx: int, end: int, m: int)
    requires
        0 <= idx,
        0 <= m,
        idx + m <= s.len(),
        forall|t: int| idx <= t < idx + m ==> (#[trigger] s[t]).beg <= end,
        idx + m == s.len() || s[idx + m].beg > end,
    ensures
        absorb_count(s, idx, end) == m,
    decreases m,
{
    if m == 0 {
    } else {
        assert(s[idx].beg <= end);
        lemma_absorb_count_iff(s, idx + 1, end, m - 1);
    }
}

proof fn lemma_absorb_count_props(s: Seq<Interval>, idx: int, end: int)
    requires
        0 <= idx <= s.len(),
    ensures
        0 <= absorb_count(s, idx, end) <= s.len() - idx,
        forall|t: int| idx <= t < idx + absorb_count(s, idx, end) ==> (#[trigger] s[t]).beg <= end,
        idx + absorb_count(s, idx, end) == s.len()
            || s[idx + absorb_count(s, idx, end)].beg > end,
    decreases s.len() - idx,
{
    if idx < s.len() && s[idx].beg <= end {
        lemma_absorb_count_props(s, idx + 1, end);
    }
}

/// The shape of a merge: a run of `k` absorbed intervals starting at `pos` is
/// replaced by the single interval `new_iv`, which spans the inserted
/// interval `iv`, the absorbed run, and nothing else. The result is
/// well-formed and covers exactly the old points plus the points of `iv`.
#[verifier::spinoff_prover]
proof fn lemma_merge_shape<T>(
    old_ivs: Seq<Interval>,
    old_infos: Seq<T>,
    final_ivs: Seq<Interval>,
    final_infos: Seq<T>,
    pos: int,
    k: int,
    iv: Interval,
    new_iv: Interval,
)
    requires
        wf_intervals(old_ivs),
        old_infos.len() == old_ivs.len(),
        0 <= pos,
        1 <= k,
        pos + k <= old_ivs.len(),
        iv.beg < iv.end,
        forall|t: int| pos <= t < pos + k ==> (#[trigger] old_ivs[t]).beg <= iv.end,
        pos + k == old_ivs.len() || old_ivs[pos + k].beg > iv.end,
        pos == 0 || old_ivs[pos - 1].end < new_iv.beg,
        new_iv.beg <= iv.beg,
        new_iv.beg <= old_ivs[pos].beg,
        new_iv.beg == iv.beg || (new_iv.beg == old_ivs[pos].beg && iv.beg <= old_ivs[pos].end),
        new_iv.end == if old_ivs[pos + k - 1].end > iv.end {
            old_ivs[pos + k - 1].end as int
        } else {
            iv.end as int
        },
        final_ivs =~= old_ivs.subrange(0, pos).push(new_iv) + old_ivs.subrange(
            pos + k,
            old_ivs.len() as int,
        ),
        final_infos =~= old_infos.subrange(0, pos).push(final_infos[pos]) + old_infos.subrange(
            pos + k,
            old_infos.len() as int,
        ),
    ensures
        wf_intervals(final_ivs),
        forall|p: int|
            covers(final_ivs, p) <==> covers(old_ivs, p) || contains_pt(iv, p),
        forall|j: int|
            0 <= j < final_ivs.len() && j != pos ==> exists|i: int|
                0 <= i < old_ivs.len() && old_ivs[i] == #[trigger] final_ivs[j]
                    && old_infos[i] == final_infos[j],
{
    let n = old_ivs.len() as int;
    assert(final_ivs.len() == n - k + 1);
    assert forall|j: int| 0 <= j < final_ivs.len() implies #[trigger] final_ivs[j] == (if j < pos {
        old_ivs[j]
    } else if j == pos {
        new_iv
    } else {
        old_ivs[j + k - 1]
    }) && (j != pos ==> final_infos[j] == (if j < pos {
        old_infos[j]
    } else {
        old_infos[j + k - 1]
    })) by {}

    // begs are strictly increasing across a well-formed sequence
    assert forall|t1: int, t2: int| 0 <= t1 < t2 < n implies (#[trigger] old_ivs[t1]).beg
        < (#[trigger] old_ivs[t2]).beg by {
        assert(old_ivs[t1].end < old_ivs[t2].beg);
    }

    // the merged interval is non-degenerate and bounded
    assert(new_iv.beg < new_iv.end);

    // well-formedness of the result
    assert forall|t1: int, t2: int| 0 <= t1 < t2 < final_ivs.len() implies (
    #[trigger] final_ivs[t1]).end < (#[trigger] final_ivs[t2]).beg by {
        if t1 < pos && t2 == pos {
            assert(old_ivs[t1].end <= old_ivs[pos - 1].end || t1 == pos - 1);
            if t1 < pos - 1 {
                assert(old_ivs[t1].end < old_ivs[pos - 1].beg);
                assert(old_ivs[pos - 1].beg < old_ivs[pos - 1].end);
            }
        } else if t1 == pos {
            let t2o = t2 + k - 1;
            assert(pos + k <= t2o < n);
            assert(old_ivs[pos + k - 1].end < old_ivs[t2o].beg);
            if pos + k < t2o {
                assert(old_ivs[pos + k].beg < old_ivs[t2o].beg);
            }
        } else if t1 < pos && t2 > pos {
            assert(old_ivs[t1].end < old_ivs[t2 + k - 1].beg);
        }
    }

    // coverage: every covered point of the result was covered before or lies in iv
    assert forall|p: int| covers(final_ivs, p) implies covers(old_ivs, p) || contains_pt(iv, p) by {
        let t = choose|t: int| 0 <= t < final_ivs.len() && #[trigger] contains_pt(final_ivs[t], p);
        if t < pos {
            assert(contains_pt(old_ivs[t], p));
        } else if t > pos {
            assert(contains_pt(old_ivs[t + k - 1], p));
        } else {
            // p lies in the merged interval
            if p < iv.beg {
                assert(new_iv.beg == old_ivs[pos].beg && iv.beg <= old_ivs[pos].end);
                assert(contains_pt(old_ivs[pos], p));
            } else if p < iv.end {
                assert(contains_pt(iv, p));
            } else {
                assert(old_ivs[pos + k - 1].end > iv.end);
                assert(old_ivs[pos + k - 1].beg <= iv.end);
                assert(contains_pt(old_ivs[pos + k - 1], p));
            }
        }
    }

    // coverage: every old point and every point of iv is still covered
    assert forall|p: int| covers(old_ivs, p) || contains_pt(iv, p) implies covers(
        final_ivs,
        p,
    ) by {
        if contains_pt(iv, p) {
            assert(contains_pt(new_iv, p));
            assert(contains_pt(final_ivs[pos], p));
        } else {
            let t = choose|t: int| 0 <= t < n && #[trigger] contains_pt(old_ivs[t], p);
            if t < pos {
                assert(contains_pt(final_ivs[t], p));
            } else if t >= pos + k {
                assert(contains_pt(final_ivs[t - k + 1], p));
            } else {
                // an absorbed interval: it lies inside the merged one
                assert(new_iv.beg <= old_ivs[t].beg);
                if t < pos + k - 1 {
                    assert(old_ivs[t].end < old_ivs[t + 1].beg);
                    assert(old_ivs[t + 1].beg <= iv.end);
                }
                assert(old_ivs[t].end <= new_iv.end);
                assert(contains_pt(new_iv, p));
                assert(contains_pt(final_ivs[pos], p));
            }
        }
    }

    // every entry other than the merged one is carried over unchanged
    assert forall|j: int| 0 <= j < final_ivs.len() && j != pos implies exists|i: int|
        0 <= i < old_ivs.len() && old_ivs[i] == #[trigger] final_ivs[j] && old_infos[i]
        == final_infos[j] by {
        if j < pos {
            assert(old_ivs[j] == final_ivs[j] && old_infos[j] == final_infos[j]);
        } else {
            assert(old_ivs[j + k - 1] == final_ivs[j] && old_infos[j + k - 1] == final_infos[j]);
        }
    }
}

/// The shape of a disjoint insertion: `iv` neither overlaps nor touches its
/// neighbours, so it is inserted as it is and every other entry is carried
/// over unchanged.
#[verifier::spinoff_prover]
proof fn lemma_disjoint_shape<T>(
    old_ivs: Seq<Interval>,
    old_infos: Seq<T>,
    final_ivs: Seq<Interval>,
    final_infos: Seq<T>,
    pos: int,
    iv: Interval,
)
    requires
        wf_intervals(old_ivs),
        old_infos.len() == old_ivs.len(),
        0 <= pos <= old_ivs.len(),
        iv.beg < iv.end,
        pos == 0 || old_ivs[pos - 1].end < iv.beg,
        pos == old_ivs.len() || iv.end < old_ivs[pos].beg,
        final_ivs =~= old_ivs.insert(pos, iv),
        final_infos =~= old_infos.insert(pos, final_infos[pos]),
    ensures
        wf_intervals(final_ivs),
        forall|p: int|
            covers(final_ivs, p) <==> covers(old_ivs, p) || contains_pt(iv, p),
        forall|j: int|
            0 <= j < final_ivs.len() && j != pos ==> exists|i: int|
                0 <= i < old_ivs.len() && old_ivs[i] == #[trigger] final_ivs[j]
                    && old_infos[i] == final_infos[j],
{
    let n = old_ivs.len() as int;
    old_ivs.insert_ensures(pos, iv);
    old_infos.insert_ensures(pos, final_infos[pos]);
    assert forall|j: int| 0 <= j < final_ivs.len() implies #[trigger] final_ivs[j] == (if j < pos {
        old_ivs[j]
    } else if j == pos {
        iv
    } else {
        old_ivs[j - 1]
    }) && (j != pos ==> final_infos[j] == (if j < pos {
        old_infos[j]
    } else {
        old_infos[j - 1]
    })) by {}
    assert forall|t1: int, t2: int| 0 <= t1 < t2 < n implies (#[trigger] old_ivs[t1]).beg
        < (#[trigger] old_ivs[t2]).beg by {
        assert(old_ivs[t1].end < old_ivs[t2].beg);
    }
    assert forall|t1: int, t2: int| 0 <= t1 < t2 < final_ivs.len() implies (
    #[trigger] final_ivs[t1]).end < (#[trigger] final_ivs[t2]).beg by {
        if t1 < pos && t2 == pos {
            if t1 < pos - 1 {
                assert(old_ivs[t1].end < old_ivs[pos - 1].beg);
                assert(old_ivs[pos - 1].beg < old_ivs[pos - 1].end);
            }
        } else if t1 == pos && t2 > pos {
            if t2 - 1 > pos {
                assert(old_ivs[pos].end < old_ivs[t2 - 1].beg);
                assert(old_ivs[pos].beg < old_ivs[pos].end);
            }
        }
    }
    assert forall|p: int| covers(final_ivs, p) implies covers(old_ivs, p) || contains_pt(
        iv,
        p,
    ) by {
        let t = choose|t: int| 0 <= t < final_ivs.len() && #[trigger] contains_pt(final_ivs[t], p);
        if t < pos {
            assert(contains_pt(old_ivs[t], p));
        } else if t > pos {
            assert(contains_pt(old_ivs[t - 1], p));
        }
    }
    assert forall|p: int| covers(old_ivs, p) || contains_pt(iv, p) implies covers(
        final_ivs,
        p,
    ) by {
        if contains_pt(iv, p) {
            assert(contains_pt(final_ivs[pos], p));
        } else {
            let t = choose|t: int| 0 <= t < n && #[trigger] contains_pt(old_ivs[t], p);
            if t < pos {
                assert(contains_pt(final_ivs[t], p));
            } else {
                assert(contains_pt(final_ivs[t + 1], p));
            }
        }
    }
    assert forall|j: int| 0 <= j < final_ivs.len() && j != pos implies exists|i: int|
        0 <= i < old_ivs.len() && old_ivs[i] == #[trigger] final_ivs[j] && old_infos[i]
        == final_infos[j] by {
        if j < pos {
            assert(old_ivs[j] == final_ivs[j] && old_infos[j] == final_infos[j]);
        } else {
            assert(old_ivs[j - 1] == final_ivs[j] && old_infos[j - 1] == final_infos[j]);
        }
    }
}

/// A set of non-overlapping intervals of the form [x, y) where x < y, each
/// paired with the aggregate summary of the content it covers.
pub struct IntervalSet<I: IntervalSpace> {
    space: I,
    inner: Vec<IntervalWrap<I::Info>>,
}

spec fn wraps_ivs<T: InfoTy>(s: Seq<IntervalWrap<T>>) -> Seq<Interval> {
    s.map(|_i: int, w: IntervalWrap<T>| w.iv)
}

spec fn wraps_infos<T: InfoTy>(s: Seq<IntervalWrap<T>>) -> Seq<T> {
    s.map(|_i: int, w: IntervalWrap<T>| w.info)
}

proof fn lemma_wraps_insert<T: InfoTy>(pre: Seq<IntervalWrap<T>>, pos: int, w: IntervalWrap<T>)
    requires
        0 <= pos <= pre.len(),
    ensures
        wraps_ivs(pre.insert(pos, w)) =~= wraps_ivs(pre).insert(pos, w.iv),
        wraps_infos(pre.insert(pos, w)) =~= wraps_infos(pre).insert(pos, w.info),
{
    pre.insert_ensures(pos, w);
    wraps_ivs(pre).insert_ensures(pos, w.iv);
    wraps_infos(pre).insert_ensures(pos, w.info);
}

proof fn lemma_wraps_remove<T: InfoTy>(pre: Seq<IntervalWrap<T>>, idx: int)
    requires
        0 <= idx < pre.len(),
    ensures
        wraps_ivs(pre.remove(idx)) =~= wraps_ivs(pre).remove(idx),
        wraps_infos(pre.remove(idx)) =~= wraps_infos(pre).remove(idx),
{
    pre.remove_ensures(idx);
    wraps_ivs(pre).remove_ensures(idx);
    wraps_infos(pre).remove_ensures(idx);
    assert forall|j: int| 0 <= j < pre.len() - 1 implies #[trigger] pre.remove(idx)[j] == (if j
        < idx {
        pre[j]
    } else {
        pre[j + 1]
    }) by {}
}

/// Removing the entry at `idx` and inserting `w` back at `idx` replaces that
/// one entry and leaves everything else alone.
proof fn lemma_wraps_update<T: InfoTy>(pre: Seq<IntervalWrap<T>>, idx: int, w: IntervalWrap<T>)
    requires
        0 <= idx < pre.len(),
    ensures
        wraps_ivs(pre.remove(idx).insert(idx, w)) =~= wraps_ivs(pre).update(idx, w.iv),
        wraps_infos(pre.remove(idx).insert(idx, w)) =~= wraps_infos(pre).update(idx, w.info),
{
    lemma_wraps_remove(pre, idx);
    lemma_wraps_insert(pre.remove(idx), idx, w);
    pre.remove_ensures(idx);
    wraps_ivs(pre).remove_ensures(idx);
    wraps_infos(pre).remove_ensures(idx);
    wraps_ivs(pre).remove(idx).insert_ensures(idx, w.iv);
    wraps_infos(pre).remove(idx).insert_ensures(idx, w.info);
}

impl<I: IntervalSpace> IntervalSet<I> {
    /// The stored intervals, in order.
    pub closed spec fn ivs(&self) -> Seq<Interval> {
        wraps_ivs(self.inner@)
    }

    /// The stored summaries, in the same order as `ivs`.
    pub closed spec fn infos(&self) -> Seq<I::Info> {
        wraps_infos(self.inner@)
    }

    /// The space snapshot the set currently holds.
    pub closed spec fn cur_space(&self) -> I {
        self.space
    }

    /// The set's invariant: sorted, pairwise disjoint, non-touching,
    /// no degenerate intervals.
    pub open spec fn wf(&self) -> bool {
        wf_intervals(self.ivs())
    }

    pub fn new(space: I) -> (r: IntervalSet<I>)
        ensures
            r.wf(),
            r.ivs() =~= Seq::<Interval>::empty(),
            r.infos() =~= Seq::<I::Info>::empty(),
            r.cur_space() == space,
    {
        IntervalSet { space, inner: Vec::new() }
    }

    pub fn get_space(&self) -> (r: &I)
        ensures
            *r == self.cur_space(),
    {
        &self.space
    }

    /// How many intervals the set holds.
    pub fn len(&self) -> (n: usize)
        ensures
            n == self.ivs().len(),
    {
        self.inner.len()
    }

    /// The `i`-th stored interval.
    pub fn get(&self, i: usize) -> (r: Interval)
        requires
            i < self.ivs().len(),
        ensures
            r == self.ivs()[i as int],
    {
        self.inner[i].iv
    }

    /// The summary paired with the `i`-th stored interval.
    pub fn get_info(&self, i: usize) -> (r: &I::Info)
        requires
            i < self.ivs().len(),
        ensures
            *r == self.infos()[i as int],
    {
        &self.inner[i].info
    }

    /// The insertion index for `iv` in the lexicographic order: everything
    /// before it is strictly smaller, everything at or after it is not.
    fn find_idx(&self, iv: Interval) -> (i: usize)
        requires
            self.wf(),
        ensures
            i <= self.ivs().len(),
            forall|j: int| 0 <= j < i ==> lex_lt(#[trigger] self.ivs()[j], iv),
            forall|j: int| i <= j < self.ivs().len() ==> !lex_lt(#[trigger] self.ivs()[j], iv),
    {
        let mut lo: usize = 0;
        let mut hi: usize = self.inner.len();
        while lo < hi
            invariant
                lo <= hi <= self.ivs().len(),
                self.wf(),
                forall|j: int| 0 <= j < lo ==> lex_lt(#[trigger] self.ivs()[j], iv),
                forall|j: int| hi <= j < self.ivs().len() ==> !lex_lt(#[trigger] self.ivs()[j], iv),
            decreases hi - lo,
        {
            let mid = lo + (hi - lo) / 2;
            let e = self.inner[mid].iv;
            if e.beg < iv.beg || (e.beg == iv.beg && e.end < iv.end) {
                assert forall|j: int| 0 <= j < mid + 1 implies lex_lt(#[trigger] self.ivs()[j], iv) by {
                    if j < mid {
                        assert(self.ivs()[j].end < self.ivs()[mid as int].beg);
                    }
                }
                lo = mid + 1;
            } else {
                assert forall|j: int| mid <= j < self.ivs().len() implies !lex_lt(
                    #[trigger] self.ivs()[j],
                    iv,
                ) by {
                    if j > mid {
                        assert(self.ivs()[mid as int].end < self.ivs()[j].beg);
                    }
                }
                hi = mid;
            }
        }
        lo
    }

    /// Remove all intervals starting from index `idx` up to and including the
    /// last interval whose start is at or before `end`, and return the end of
    /// the absorbed run: `end` itself, or the end of the last absorbed
    /// interval if that reaches further.
    fn purge(&mut self, idx: usize, end: usize) -> (r: usize)
        requires
            old(self).wf(),
            idx < old(self).ivs().len(),
            old(self).ivs()[idx as int].beg <= end,
        ensures
            final(self).cur_space() == old(self).cur_space(),
            absorb_count(old(self).ivs(), idx as int, end as int) >= 1,
            final(self).ivs() =~= old(self).ivs().subrange(0, idx as int) + old(self).ivs()
                .subrange(
                idx + absorb_count(old(self).ivs(), idx as int, end as int),
                old(self).ivs().len() as int,
            ),
            final(self).infos() =~= old(self).infos().subrange(0, idx as int) + old(self).infos()
                .subrange(
                idx + absorb_count(old(self).ivs(), idx as int, end as int),
                old(self).infos().len() as int,
            ),
            r == if old(self).ivs()[idx + absorb_count(old(self).ivs(), idx as int, end as int)
                - 1].end > end {
                old(self).ivs()[idx + absorb_count(old(self).ivs(), idx as int, end as int)
                    - 1].end as int
            } else {
                end as int
            },
    {
        let ghost old_ivs = old(self).ivs();
        let ghost old_infos = old(self).infos();
        let ghost old_len = old_ivs.len() as int;
        let n0 = self.inner.len();
        let ghost pre0 = self.inner@;
        let w = self.inner.remove(idx);
        proof {
            assert(w.iv == old_ivs[idx as int] && w.info == old_infos[idx as int]);
            assert(self.ivs() =~= old_ivs.subrange(0, idx as int) + old_ivs.subrange(
                idx + 1,
                old_len,
            ));
            assert(self.infos() =~= old_infos.subrange(0, idx as int) + old_infos.subrange(
                idx + 1,
                old_len,
            ));
        }
        let mut last_end = w.iv.end;
        let mut removed: usize = 1;
        while idx < self.inner.len() && self.inner[idx].iv.beg <= end
            invariant
                1 <= removed,
                idx + removed <= old_len,
                old_len == n0,
                old_ivs.len() == old_len,
                old_infos.len() == old_len,
                self.ivs() =~= old_ivs.subrange(0, idx as int) + old_ivs.subrange(
                    idx + removed,
                    old_len,
                ),
                self.infos() =~= old_infos.subrange(0, idx as int) + old_infos.subrange(
                    idx + removed,
                    old_len,
                ),
                self.cur_space() == old(self).cur_space(),
                forall|t: int| idx <= t < idx + removed ==> (#[trigger] old_ivs[t]).beg <= end,
                last_end == old_ivs[idx + removed - 1].end,
            decreases self.ivs().len() - idx,
        {
            let ghost pre = self.inner@;
            let ghost pre_ivs = self.ivs();
            let ghost pre_infos = self.infos();
            proof {
                assert(pre_ivs[idx as int] == pre[idx as int].iv);
                assert(pre_ivs[idx as int] == old_ivs[idx + removed]);
            }
            let w2 = self.inner.remove(idx);
            proof {
                assert(w2 == pre[idx as int]);
                assert forall|j: int| 0 <= j < self.inner@.len() implies #[trigger] self.inner@[j]
                    == (if j < idx { pre[j] } else { pre[j + 1] }) by {
                    assert(self.inner@[j] == pre.remove(idx as int)[j]);
                }
                assert forall|j: int| 0 <= j < self.inner@.len() implies self.ivs()[j] == (if j
                    < idx {
                    pre_ivs[j]
                } else {
                    pre_ivs[j + 1]
                }) && self.infos()[j] == (if j < idx {
                    pre_infos[j]
                } else {
                    pre_infos[j + 1]
                }) by {
                    assert(self.ivs()[j] == self.inner@[j].iv);
                    assert(self.infos()[j] == self.inner@[j].info);
                    if j < idx {
                        assert(pre_ivs[j] == pre[j].iv && pre_infos[j] == pre[j].info);
                    } else {
                        assert(pre_ivs[j + 1] == pre[j + 1].iv && pre_infos[j + 1] == pre[j
                            + 1].info);
                    }
                }
                assert(self.ivs() =~= old_ivs.subrange(0, idx as int) + old_ivs.subrange(
                    idx + removed + 1,
                    old_len,
                ));
                assert forall|j: int| 0 <= j < self.infos().len() implies self.infos()[j] == (
                old_infos.subrange(0, idx as int) + old_infos.subrange(
                    idx + removed + 1,
                    old_len,
                ))[j] by {
                    if j < idx {
                        assert(pre_infos[j] == old_infos[j]);
                    } else {
                        assert(pre_infos[j + 1] == old_infos[j + 1 + removed]);
                    }
                }
                assert(self.infos() =~= old_infos.subrange(0, idx as int) + old_infos.subrange(
                    idx + removed + 1,
                    old_len,
                ));
            }
            last_end = w2.iv.end;
            removed = removed + 1;
        }
        proof {
            if idx < self.inner@.len() {
                assert(self.ivs()[idx as int] == old_ivs[idx + removed]);
            }
            assert(idx + removed == old_len || old_ivs[idx + removed].beg > end);
            lemma_absorb_count_iff(old_ivs, idx as int, end as int, removed as int);
        }
        if last_end > end {
            last_end
        } else {
            end
        }
    }

    /// Insert an interval, keeping the set sorted, disjoint and maximally
    /// merged. An empty interval is a no-op; an interval already covered is a
    /// no-op; anything that overlaps or touches stored intervals is merged
    /// with them into a single maximal interval whose summary is computed
    /// afresh over the full merged range.
    #[verifier::spinoff_prover]
    #[verifier::rlimit(100)]
    pub fn add(&mut self, iv: Interval)
        requires
            old(self).wf(),
            iv.beg <= iv.end,
        ensures
            final(self).wf(),
            final(self).cur_space() == old(self).cur_space(),
            forall|p: int|
                #![trigger covers(final(self).ivs(), p)]
                #![trigger covers(old(self).ivs(), p)]
                #![trigger contains_pt(iv, p)]
                covers(final(self).ivs(), p) <==> covers(old(self).ivs(), p) || contains_pt(iv, p),
            forall|j: int|
                0 <= j < final(self).ivs().len() ==> (exists|i: int|
                    0 <= i < old(self).ivs().len() && old(self).ivs()[i]
                        == #[trigger] final(self).ivs()[j] && old(self).infos()[i]
                        == final(self).infos()[j]) || final(self).infos()[j]
                    == old(self).cur_space().spec_info(final(self).ivs()[j]),
    {
        let ghost old_ivs = self.ivs();
        let ghost old_infos = self.infos();
        if iv.beg == iv.end {
            proof {
                assert forall|j: int| 0 <= j < self.ivs().len() implies exists|i: int|
                    0 <= i < old_ivs.len() && old_ivs[i] == #[trigger] self.ivs()[j]
                        && old_infos[i] == self.infos()[j] by {
                    assert(old_ivs[j] == self.ivs()[j] && old_infos[j] == self.infos()[j]);
                }
            }
            return ;
        }
        let i = self.find_idx(iv);
        let n = self.inner.len();
        proof {
            assert forall|j: int| 0 <= j < self.ivs().len() implies exists|i2: int|
                0 <= i2 < old_ivs.len() && old_ivs[i2] == #[trigger] self.ivs()[j] && old_infos[i2]
                    == self.infos()[j] by {
                assert(old_ivs[j] == self.ivs()[j] && old_infos[j] == self.infos()[j]);
            }
        }
        if i < n && self.inner[i].iv == iv {
            // the interval is already stored: nothing to do
            proof {
                assert(old_ivs[i as int] == iv);
                assert forall|p: int| contains_pt(iv, p) implies covers(old_ivs, p) by {
                    assert(contains_pt(old_ivs[i as int], p));
                }
            }
            return ;
        }
        let prev_gap = i == 0 || self.inner[i - 1].iv.end < iv.beg;
        let next_gap = i == n || iv.end < self.inner[i].iv.beg;
        if prev_gap && next_gap {
            // disjoint from both neighbours: insert as it is
            let w = IntervalWrap::new(iv, &self.space);
            let ghost pre = self.inner@;
            self.inner.insert(i, w);
            proof {
                lemma_wraps_insert(pre, i as int, w);
                assert(self.ivs() =~= old_ivs.insert(i as int, iv));
                assert(self.infos() =~= old_infos.insert(i as int, w.info));
                assert(self.infos()[i as int] == w.info);
                lemma_disjoint_shape(
                    old_ivs,
                    old_infos,
                    self.ivs(),
                    self.infos(),
                    i as int,
                    iv,
                );
            }
            return ;
        }
        let covered_by_prev = i > 0 && self.inner[i - 1].iv.beg < iv.beg && iv.end <= self.inner[i
            - 1].iv.end;
        if covered_by_prev {
            proof {
                assert forall|p: int| contains_pt(iv, p) implies covers(old_ivs, p) by {
                    assert(contains_pt(old_ivs[i - 1], p));
                }
            }
            return ;
        }
        let covered_by_next = i < n && iv.beg == self.inner[i].iv.beg && iv.end < self.inner[i
            ].iv.end;
        if covered_by_next {
            proof {
                assert forall|p: int| contains_pt(iv, p) implies covers(old_ivs, p) by {
                    assert(contains_pt(old_ivs[i as int], p));
                }
            }
            return ;
        }
        let merge_left = i > 0 && iv.beg <= self.inner[i - 1].iv.end && self.inner[i - 1].iv.end
            < iv.end;
        if merge_left {
            let pbeg = self.inner[i - 1].iv.beg;
            proof {
                assert(lex_lt(old_ivs[i - 1], iv));
            }
            self.merge_at(i - 1, iv, pbeg);
            proof {
                assert forall|p: int| covers(self.ivs(), p) <==> covers(old_ivs, p) || contains_pt(
                    iv,
                    p,
                ) by {
                    assert(old(self).ivs() == old_ivs);
                    assert(covers(self.ivs(), p) <==> covers(old(self).ivs(), p) || contains_pt(
                        iv,
                        p,
                    ));
                }
            }
            return ;
        }
        // merge-right: iv does not overlap anything on its left, and reaches
        // or overlaps the interval at the insertion index
        proof {
            if i > 0 {
                let p = old_ivs[i - 1];
                assert(lex_lt(p, iv));
                if p.end >= iv.beg {
                    assert(false);
                }
            }
            assert(i < n && old_ivs[i as int].beg <= iv.end);
            assert(iv.beg <= old_ivs[i as int].beg);
        }
        self.merge_at(i, iv, iv.beg);
        proof {
            assert forall|p: int| covers(self.ivs(), p) <==> covers(old_ivs, p) || contains_pt(
                iv,
                p,
            ) by {
                assert(old(self).ivs() == old_ivs);
                assert(covers(self.ivs(), p) <==> covers(old(self).ivs(), p) || contains_pt(
                    iv,
                    p,
                ));
            }
        }
    }

    /// Insert every interval of `items` in order, via `add`.
    pub fn extend(&mut self, items: Vec<Interval>)
        requires
            old(self).wf(),
            forall|t: int| 0 <= t < items@.len() ==> (#[trigger] items@[t]).beg <= items@[t].end,
        ensures
            final(self).wf(),
            final(self).cur_space() == old(self).cur_space(),
            forall|p: int|
                #![trigger covers(final(self).ivs(), p)]
                #![trigger covers(old(self).ivs(), p)]
                covers(final(self).ivs(), p) <==> covers(old(self).ivs(), p) || exists|t: int|
                    0 <= t < items@.len() && #[trigger] contains_pt(items@[t], p),
            forall|j: int|
                0 <= j < final(self).ivs().len() ==> (exists|i: int|
                    0 <= i < old(self).ivs().len() && old(self).ivs()[i]
                        == #[trigger] final(self).ivs()[j] && old(self).infos()[i]
                        == final(self).infos()[j]) || final(self).infos()[j]
                    == old(self).cur_space().spec_info(final(self).ivs()[j]),
            items@.len() == 0 ==> *final(self) == *old(self),
    {
        let ghost old_ivs = self.ivs();
        let ghost old_infos = self.infos();
        let mut t: usize = 0;
        while t < items.len()
            invariant
                t <= items@.len(),
                self.wf(),
                self.cur_space() == old(self).cur_space(),
                old_ivs == old(self).ivs(),
                old_infos == old(self).infos(),
                items@.len() == 0 ==> *self == *old(self),
                forall|t2: int| 0 <= t2 < items@.len() ==> (#[trigger] items@[t2]).beg
                    <= items@[t2].end,
                forall|p: int|
                    #![trigger covers(self.ivs(), p)]
                    #![trigger covers(old_ivs, p)]
                    covers(self.ivs(), p) <==> covers(old_ivs, p) || exists|u: int|
                        0 <= u < t && #[trigger] contains_pt(items@[u], p),
                forall|j: int|
                    0 <= j < self.ivs().len() ==> (exists|i: int|
                        0 <= i < old_ivs.len() && old_ivs[i] == #[trigger] self.ivs()[j]
                            && old_infos[i] == self.infos()[j]) || self.infos()[j]
                        == old(self).cur_space().spec_info(self.ivs()[j]),
            decreases items@.len() - t,
        {
            let ghost mid_ivs = self.ivs();
            let ghost mid_infos = self.infos();
            let item = items[t];
            self.add(item);
            proof {
                assert forall|p: int|
                    covers(self.ivs(), p) <==> covers(old_ivs, p) || exists|u: int|
                        0 <= u < t + 1 && #[trigger] contains_pt(items@[u], p) by {
                    assert(covers(self.ivs(), p) <==> covers(mid_ivs, p) || contains_pt(item, p));
                    if covers(self.ivs(), p) {
                        if !covers(old_ivs, p) {
                            if contains_pt(item, p) {
                                assert(contains_pt(items@[t as int], p));
                            } else {
                                assert(covers(mid_ivs, p));
                                let u = choose|u: int|
                                    0 <= u < t && #[trigger] contains_pt(items@[u], p);
                                assert(contains_pt(items@[u], p));
                            }
                        }
                    } else {
                        if covers(old_ivs, p) {
                            assert(covers(mid_ivs, p));
                        }
                        if exists|u: int| 0 <= u < t + 1 && #[trigger] contains_pt(items@[u], p) {
                            let u = choose|u: int|
                                0 <= u < t + 1 && #[trigger] contains_pt(items@[u], p);
                            if u < t {
                                assert(covers(mid_ivs, p));
                            } else {
                                assert(contains_pt(item, p));
                            }
                            assert(covers(self.ivs(), p));
                        }
                    }
                }
                assert forall|j: int| 0 <= j < self.ivs().len() implies (exists|i: int|
                    0 <= i < old_ivs.len() && old_ivs[i] == #[trigger] self.ivs()[j] && old_infos[i]
                        == self.infos()[j]) || self.infos()[j] == old(self).cur_space().spec_info(
                    self.ivs()[j],
                ) by {
                    if exists|i: int|
                        0 <= i < mid_ivs.len() && mid_ivs[i] == self.ivs()[j] && mid_infos[i]
                            == self.infos()[j] {
                        let i = choose|i: int|
                            0 <= i < mid_ivs.len() && mid_ivs[i] == self.ivs()[j] && mid_infos[i]
                                == self.infos()[j];
                        assert((exists|i2: int|
                            0 <= i2 < old_ivs.len() && old_ivs[i2] == mid_ivs[i] && old_infos[i2]
                                == mid_infos[i]) || mid_infos[i]
                            == old(self).cur_space().spec_info(mid_ivs[i]));
                    }
                }
            }
            t = t + 1;
        }
    }

    /// Absorb the run of stored intervals starting at `pos` that `iv` reaches,
    /// and replace it by one interval from `new_beg` to the end of the
    /// absorbed run or of `iv`, whichever reaches further, with a freshly
    /// computed summary.
    #[verifier::spinoff_prover]
    #[verifier::rlimit(60)]
    fn merge_at(&mut self, pos: usize, iv: Interval, new_beg: usize)
        requires
            old(self).wf(),
            iv.beg < iv.end,
            pos < old(self).ivs().len(),
            old(self).ivs()[pos as int].beg <= iv.end,
            pos == 0 || old(self).ivs()[pos - 1].end < new_beg,
            new_beg <= iv.beg,
            new_beg <= old(self).ivs()[pos as int].beg,
            new_beg == iv.beg || (new_beg == old(self).ivs()[pos as int].beg && iv.beg <= old(self).ivs()[pos as int].end),
        ensures
            final(self).wf(),
            final(self).cur_space() == old(self).cur_space(),
            forall|p: int|
                #![trigger covers(final(self).ivs(), p)]
                #![trigger covers(old(self).ivs(), p)]
                #![trigger contains_pt(iv, p)]
                covers(final(self).ivs(), p) <==> covers(old(self).ivs(), p) || contains_pt(iv, p),
            forall|j: int|
                0 <= j < final(self).ivs().len() ==> (exists|i: int|
                    0 <= i < old(self).ivs().len() && old(self).ivs()[i]
                        == #[trigger] final(self).ivs()[j] && old(self).infos()[i]
                        == final(self).infos()[j]) || final(self).infos()[j]
                    == old(self).cur_space().spec_info(final(self).ivs()[j]),
    {
        let ghost old_ivs = self.ivs();
        let ghost old_infos = self.infos();
        proof {
            lemma_absorb_count_props(old_ivs, pos as int, iv.end as int);
        }
        let ghost k = absorb_count(old_ivs, pos as int, iv.end as int);
        let new_end = self.purge(pos, iv.end);
        let new_iv = Interval { beg: new_beg, end: new_end };
        let w = IntervalWrap::new(new_iv, &self.space);
        let ghost pre = self.inner@;
        self.inner.insert(pos, w);
        proof {
            lemma_wraps_insert(pre, pos as int, w);
            wraps_ivs(pre).insert_ensures(pos as int, w.iv);
            wraps_infos(pre).insert_ensures(pos as int, w.info);
            assert(self.ivs() =~= old_ivs.subrange(0, pos as int).push(new_iv) + old_ivs.subrange(
                pos + k,
                old_ivs.len() as int,
            ));
            assert(self.infos() =~= old_infos.subrange(0, pos as int).push(
                self.infos()[pos as int],
            ) + old_infos.subrange(pos + k, old_infos.len() as int));
            lemma_merge_shape(
                old_ivs,
                old_infos,
                self.ivs(),
                self.infos(),
                pos as int,
                k,
                iv,
                new_iv,
            );
            assert(self.infos()[pos as int] == w.info);
        }
    }

    /// Replace the set's space snapshot by `new_space` and reconcile every
    /// stored interval with the batch of growth events `shifts`, consumed in
    /// ascending order of `index`.
    ///
    /// With `add_to_set` true, growth landing on a stored interval is folded
    /// into it: the interval's end grows and its summary is combined with the
    /// summary of just the newly added sub-range. With `add_to_set` false,
    /// growth at an interval's start merely shifts it, and growth strictly
    /// inside splits it at the growth point; the right piece is re-inserted
    /// through `add` once the pass completes. Summaries of intervals that are
    /// only shifted are not recomputed.
    #[verifier::loop_isolation(false)]
    #[verifier::spinoff_prover]
    #[verifier::rlimit(100)]
    /// One reconciliation pass over the stored intervals: shifts, grows or
    /// splits each in place, and returns the queued right pieces of the
    /// split ones, in order.
    #[verifier::loop_isolation(false)]
    #[verifier::spinoff_prover]
    #[verifier::rlimit(100)]
    fn reconcile(&mut self, new_space: &I, shifts: &Vec<ISpaceAdd>, add_to_set: bool) -> (pieces:
        Vec<Interval>)
        requires
            old(self).wf(),
            evs_sorted(shifts@),
            one_event_each(old(self).ivs(), shifts@),
            forall|i: int|
                0 <= i < old(self).ivs().len() ==> (#[trigger] old(self).ivs()[i]).end + sum_first(
                    shifts@,
                    shifts@.len() as int,
                ) <= usize::MAX,
            forall|j: int|
                0 <= j < shifts@.len() ==> (#[trigger] shifts@[j]).index + sum_first(
                    shifts@,
                    shifts@.len() as int,
                ) <= usize::MAX,
            add_to_set ==> forall|i: int, jj: int|
                0 <= i < old(self).ivs().len() && 0 <= jj < shifts@.len() && #[trigger] lands_in(
                    shifts@[jj],
                    old(self).ivs()[i],
                ) ==> old(self).infos()[i].combinable(
                    new_space.spec_info(grown_range(shifts@, jj)),
                ),
        ensures
            final(self).cur_space() == old(self).cur_space(),
            final(self).ivs().len() == old(self).ivs().len(),
            add_to_set ==> pieces@.len() == 0,
            add_to_set ==> forall|i: int|
                0 <= i < old(self).ivs().len() ==> (#[trigger] final(self).ivs()[i]).beg == old(self).ivs()[i].beg + shift_before(shifts@, old(self).ivs()[i].beg as int) && final(self).ivs()[i].end == old(self).ivs()[i].end + shift_at(
                    shifts@,
                    old(self).ivs()[i].end as int,
                ),
            add_to_set ==> forall|i: int, jj: int|
                0 <= i < old(self).ivs().len() && 0 <= jj < shifts@.len() && #[trigger] lands_in(
                    shifts@[jj],
                    old(self).ivs()[i],
                ) ==> final(self).infos()[i] == old(self).infos()[i].spec_combine(
                    new_space.spec_info(grown_range(shifts@, jj)),
                ),
            add_to_set ==> forall|i: int|
                0 <= i < old(self).ivs().len() && !has_landing(shifts@, #[trigger] old(self).ivs()[i]) ==> final(self).infos()[i] == old(self).infos()[i],
            !add_to_set ==> forall|j: int|
                0 <= j < old(self).ivs().len() ==> if interior_landing(
                    shifts@,
                    #[trigger] old(self).ivs()[j],
                ) {
                    split_cut(shifts@, old(self).ivs()[j], final(self).ivs()[j]) && final(self).infos()[j] == new_space.spec_info(final(self).ivs()[j])
                } else {
                    split_kept(shifts@, old(self).ivs()[j], final(self).ivs()[j]) && final(self).infos()[j] == old(self).infos()[j]
                },
            !add_to_set ==> pieces_sound(shifts@, old(self).ivs(), old(self).ivs().len() as int, pieces@),
            !add_to_set ==> pieces_complete(
                shifts@,
                old(self).ivs(),
                old(self).ivs().len() as int,
                pieces@,
            ),
    {
        let ghost evs = shifts@;
        let ghost old_ivs = old(self).ivs();
        let ghost old_infos = old(self).infos();
        let ghost n = old_ivs.len() as int;
        let ghost total = sum_first(evs, evs.len() as int);
        let mut cumulative_shift: usize = 0;
        let mut ev_i: usize = 0;
        let mut split_add: Vec<Interval> = Vec::new();
        let mut idx: usize = 0;
        proof {
            lemma_sum_first_mono(evs, 0, evs.len() as int);
        }
        while idx < self.inner.len()
            invariant
                idx <= n,
                self.inner@.len() == n,
                ev_i <= evs.len(),
                cumulative_shift == sum_first(evs, ev_i as int),
                self.cur_space() == old(self).cur_space(),
                forall|t: int|
                    0 <= t < ev_i && idx < n ==> (#[trigger] evs[t]).index < old_ivs[idx as int].beg,
                forall|j: int|
                    idx <= j < n ==> #[trigger] self.inner@[j] == old(self).inner@[j],
                add_to_set ==> split_add@.len() == 0,
                add_to_set ==> forall|j: int|
                    0 <= j < idx ==> (#[trigger] self.ivs()[j]).beg == old_ivs[j].beg
                        + shift_before(evs, old_ivs[j].beg as int) && self.ivs()[j].end
                        == old_ivs[j].end + shift_at(evs, old_ivs[j].end as int),
                add_to_set ==> forall|j: int, jj: int|
                    0 <= j < idx && 0 <= jj < evs.len() && #[trigger] lands_in(
                        evs[jj],
                        old_ivs[j],
                    ) ==> self.infos()[j] == old_infos[j].spec_combine(
                        new_space.spec_info(grown_range(evs, jj)),
                    ),
                add_to_set ==> forall|j: int|
                    0 <= j < idx && !has_landing(evs, #[trigger] old_ivs[j]) ==> self.infos()[j]
                        == old_infos[j],
                !add_to_set ==> forall|j: int|
                    0 <= j < idx ==> if interior_landing(evs, #[trigger] old_ivs[j]) {
                        split_cut(evs, old_ivs[j], self.ivs()[j]) && self.infos()[j]
                            == new_space.spec_info(self.ivs()[j])
                    } else {
                        split_kept(evs, old_ivs[j], self.ivs()[j]) && self.infos()[j]
                            == old_infos[j]
                    },
                !add_to_set ==> pieces_sound(evs, old_ivs, idx as int, split_add@),
                !add_to_set ==> pieces_complete(evs, old_ivs, idx as int, split_add@),
            decreases n - idx,
        {
            let ghost pre = self.inner@;
            let ghost o = old_ivs[idx as int];
            proof {
                assert(pre[idx as int] == old(self).inner@[idx as int]);
                assert(self.ivs()[idx as int] == o && self.infos()[idx as int] == old_infos[idx as int]);
            }
            let mut w = self.inner.remove(idx);
            proof {
                assert(w == pre[idx as int]);
                assert(w.iv == o);
                assert(o.beg < o.end);
            }
            while ev_i < shifts.len() && w.iv.beg > shifts[ev_i].index
                invariant
                    ev_i <= evs.len(),
                    cumulative_shift == sum_first(evs, ev_i as int),
                    forall|t: int| 0 <= t < ev_i ==> (#[trigger] evs[t]).index < o.beg,
                decreases evs.len() - ev_i,
            {
                proof {
                    lemma_sum_first_mono(evs, ev_i + 1, evs.len() as int);
                    assert(evs[ev_i as int].index + total <= usize::MAX);
                    lemma_shift_upto_bounds(evs, ev_i as int, 0);
                }
                cumulative_shift = cumulative_shift + shifts[ev_i].size;
                ev_i = ev_i + 1;
            }
            proof {
                // the consumed events are exactly those strictly left of this
                // interval's start
                assert forall|j: int| ev_i <= j < evs.len() implies (#[trigger] evs[j]).index
                    >= o.beg by {
                    if j > ev_i {
                        assert(evs[ev_i as int].index < evs[j].index);
                    }
                }
                lemma_shift_before_prefix(evs, evs.len() as int, ev_i as int, o.beg as int);
                assert(cumulative_shift == shift_before(evs, o.beg as int));
                lemma_sum_first_mono(evs, ev_i as int, evs.len() as int);
                assert(o.end + total <= usize::MAX);
            }
            let has_ev = ev_i < shifts.len();
            if has_ev {
                let sh = shifts[ev_i];
                w.shift_right(cumulative_shift);
                let shifted_index = sh.index + cumulative_shift;
                let ghost k = sh.index as int;
                proof {
                    if k <= o.end {
                        assert(lands_in(evs[ev_i as int], o));
                        lemma_unique_lander(old_ivs, evs, idx as int, ev_i as int);
                        lemma_window_shifts_one(evs, o, ev_i as int);
                        // the growth lands at `k`, whose pre-growth shift
                        // equals the cumulative shift
                        assert forall|j: int| ev_i < j < evs.len() implies (#[trigger] evs[j]).index
                            >= k by {
                            assert(evs[ev_i as int].index < evs[j].index);
                        }
                        lemma_shift_before_prefix(evs, evs.len() as int, ev_i as int, k);
                        assert(shift_before(evs, k) == cumulative_shift);
                    } else {
                        assert forall|j: int| 0 <= j < evs.len() implies !(o.beg <= (
                        #[trigger] evs[j]).index <= o.end) by {
                            if j >= ev_i {
                                if j > ev_i {
                                    assert(evs[ev_i as int].index < evs[j].index);
                                }
                            }
                        }
                        lemma_window_shifts_empty(evs, o);
                    }
                }
                if add_to_set {
                    if shifted_index <= w.iv.end {
                        proof {
                            lemma_sum_first_mono(evs, ev_i + 1, evs.len() as int);
                            assert(cumulative_shift + sh.size == sum_first(evs, ev_i + 1));
                        }
                        w.grow(ISpaceAdd { index: shifted_index, size: sh.size }, new_space);
                        proof {
                            assert(Interval {
                                beg: shifted_index,
                                end: (shifted_index + sh.size) as usize,
                            } == grown_range(evs, ev_i as int));
                            assert(w.iv.end == o.end + shift_at(evs, o.end as int));
                        }
                    } else {
                        proof {
                            assert(w.iv.end == o.end + shift_at(evs, o.end as int));
                        }
                    }
                } else {
                    if w.iv.beg == shifted_index {
                        proof {
                            lemma_sum_first_mono(evs, ev_i + 1, evs.len() as int);
                            assert(cumulative_shift + sh.size == sum_first(evs, ev_i + 1));
                        }
                        w.shift_right(sh.size);
                        proof {
                            assert(k == o.beg);
                            assert(!interior_landing(evs, o)) by {
                                if interior_landing(evs, o) {
                                    let ji = choose|ji: int|
                                        0 <= ji < evs.len() && o.beg < (#[trigger] evs[ji]).index
                                            < o.end;
                                    assert(ji == ev_i);
                                }
                            }
                            assert(w.iv.beg == o.beg + shift_at(evs, o.beg as int));
                            assert(w.iv.end == o.end + shift_before(evs, o.end as int));
                            lemma_pieces_mono(evs, old_ivs, idx as int, split_add@);
                        }
                    } else if shifted_index < w.iv.end {
                        let mut piece = w.split_off(shifted_index, new_space);
                        proof {
                            lemma_sum_first_mono(evs, ev_i + 1, evs.len() as int);
                            assert(cumulative_shift + sh.size == sum_first(evs, ev_i + 1));
                        }
                        piece.shift_right(sh.size);
                        proof {
                            assert(o.beg < k < o.end);
                            assert(interior_landing(evs, o)) by {
                                assert(o.beg < evs[ev_i as int].index < o.end);
                            }
                            assert(w.iv.beg == o.beg + shift_at(evs, o.beg as int));
                            assert(w.iv.end == k + shift_before(evs, k));
                            assert(piece.beg == k + shift_at(evs, k));
                            assert(piece.end == o.end + shift_before(evs, o.end as int));
                        }
                        let ghost pre_pieces = split_add@;
                        split_add.push(piece);
                        proof {
                            assert(split_piece_ok(evs, o, piece)) by {
                                assert(o.beg < evs[ev_i as int].index < o.end);
                            }
                            lemma_piece_push(
                                evs,
                                old_ivs,
                                idx as int,
                                pre_pieces,
                                split_add@,
                                piece,
                            );
                        }
                    } else {
                        proof {
                            assert(!interior_landing(evs, o)) by {
                                if interior_landing(evs, o) {
                                    let ji = choose|ji: int|
                                        0 <= ji < evs.len() && o.beg < (#[trigger] evs[ji]).index
                                            < o.end;
                                    if k <= o.end {
                                        assert(ji == ev_i);
                                    } else {
                                        assert(!(o.beg <= evs[ji].index <= o.end));
                                    }
                                }
                            }
                            assert(w.iv.beg == o.beg + shift_at(evs, o.beg as int));
                            assert(w.iv.end == o.end + shift_before(evs, o.end as int));
                            lemma_pieces_mono(evs, old_ivs, idx as int, split_add@);
                        }
                    }
                }
            } else {
                proof {
                    assert forall|j: int| 0 <= j < evs.len() implies !(o.beg <= (
                    #[trigger] evs[j]).index <= o.end) by {}
                    lemma_window_shifts_empty(evs, o);
                }
                w.shift_right(cumulative_shift);
                proof {
                    assert(!interior_landing(evs, o)) by {
                        if interior_landing(evs, o) {
                            let ji = choose|ji: int|
                                0 <= ji < evs.len() && o.beg < (#[trigger] evs[ji]).index < o.end;
                            assert(!(o.beg <= evs[ji].index <= o.end));
                        }
                    }
                    assert(w.iv.beg == o.beg + shift_at(evs, o.beg as int));
                    assert(w.iv.end == o.end + shift_before(evs, o.end as int));
                    if add_to_set {
                        assert(w.iv.end == o.end + shift_at(evs, o.end as int));
                    } else {
                        lemma_pieces_mono(evs, old_ivs, idx as int, split_add@);
                    }
                }
            }
            self.inner.insert(idx, w);
            proof {
                assert(self.inner@ == pre.remove(idx as int).insert(idx as int, w));
                lemma_wraps_update(pre, idx as int, w);
                assert(self.ivs() =~= wraps_ivs(pre).update(idx as int, w.iv));
                assert(self.infos() =~= wraps_infos(pre).update(idx as int, w.info));
                assert forall|j: int| 0 <= j < n && j != idx implies self.ivs()[j]
                    == wraps_ivs(pre)[j] && self.infos()[j] == wraps_infos(pre)[j] by {}
                assert(self.ivs()[idx as int] == w.iv && self.infos()[idx as int] == w.info);
            }
            idx = idx + 1;
        }
        split_add
    }

    /// Replace the set's space snapshot by `new_space` and reconcile every
    /// stored interval with the batch of growth events `shifts`, consumed in
    /// ascending order of `index`.
    ///
    /// With `add_to_set` true, growth landing on a stored interval is folded
    /// into it: the interval's end grows and its summary is combined with the
    /// summary of just the newly added sub-range. With `add_to_set` false,
    /// growth at an interval's start merely shifts it, and growth strictly
    /// inside splits it at the growth point; the right piece is re-inserted
    /// through `add` once the pass completes. Summaries of intervals that are
    /// only shifted are not recomputed.
    #[verifier::spinoff_prover]
    #[verifier::rlimit(100)]
    pub fn update_space(&mut self, new_space: I, shifts: Vec<ISpaceAdd>, add_to_set: bool)
        requires
            old(self).wf(),
            evs_sorted(shifts@),
            one_event_each(old(self).ivs(), shifts@),
            forall|i: int|
                0 <= i < old(self).ivs().len() ==> (#[trigger] old(self).ivs()[i]).end + sum_first(
                    shifts@,
                    shifts@.len() as int,
                ) <= usize::MAX,
            forall|j: int|
                0 <= j < shifts@.len() ==> (#[trigger] shifts@[j]).index + sum_first(
                    shifts@,
                    shifts@.len() as int,
                ) <= usize::MAX,
            add_to_set ==> forall|i: int, jj: int|
                0 <= i < old(self).ivs().len() && 0 <= jj < shifts@.len() && #[trigger] lands_in(
                    shifts@[jj],
                    old(self).ivs()[i],
                ) ==> old(self).infos()[i].combinable(
                    new_space.spec_info(grown_range(shifts@, jj)),
                ),
        ensures
            final(self).wf(),
            final(self).cur_space() == new_space,
            add_to_set ==> final(self).ivs().len() == old(self).ivs().len(),
            add_to_set ==> forall|i: int|
                0 <= i < old(self).ivs().len() ==> (#[trigger] final(self).ivs()[i]).beg == old(self).ivs()[i].beg + shift_before(shifts@, old(self).ivs()[i].beg as int) && final(self).ivs()[i].end == old(self).ivs()[i].end + shift_at(
                    shifts@,
                    old(self).ivs()[i].end as int,
                ),
            add_to_set ==> forall|i: int, jj: int|
                0 <= i < old(self).ivs().len() && 0 <= jj < shifts@.len() && #[trigger] lands_in(
                    shifts@[jj],
                    old(self).ivs()[i],
                ) ==> final(self).infos()[i] == old(self).infos()[i].spec_combine(
                    new_space.spec_info(grown_range(shifts@, jj)),
                ),
            add_to_set ==> forall|i: int|
                0 <= i < old(self).ivs().len() && !has_landing(shifts@, #[trigger] old(self).ivs()[i]) ==> final(self).infos()[i] == old(self).infos()[i],
            !add_to_set ==> forall|p: int|
                covers(old(self).ivs(), p) ==> covers(
                    final(self).ivs(),
                    p + #[trigger] shift_at(shifts@, p),
                ),
            !add_to_set ==> forall|q: int|
                covers(final(self).ivs(), q) ==> exists|p: int|
                    covers(old(self).ivs(), p) && q == p + #[trigger] shift_at(shifts@, p),
            !add_to_set ==> forall|j: int|
                0 <= j < final(self).ivs().len() ==> (exists|i: int|
                    0 <= i < old(self).ivs().len() && (#[trigger] final(self).ivs()[j]).beg == old(self).ivs()[i].beg + shift_at(shifts@, old(self).ivs()[i].beg as int) && final(self).ivs()[j].end == old(self).ivs()[i].end + shift_before(
                        shifts@,
                        old(self).ivs()[i].end as int,
                    ) && final(self).infos()[j] == old(self).infos()[i]) || final(self).infos()[j]
                    == new_space.spec_info(final(self).ivs()[j]),
    {
        let ghost evs = shifts@;
        let ghost old_ivs = old(self).ivs();
        let ghost old_infos = old(self).infos();
        let ghost n = old_ivs.len() as int;
        let split_add = self.reconcile(&new_space, &shifts, add_to_set);
        let ghost pass_ivs = self.ivs();
        let ghost pass_infos = self.infos();
        let ghost pieces = split_add@;
        self.space = new_space;
        proof {
            assert(self.ivs() == pass_ivs);
            assert(self.infos() == pass_infos);
            if add_to_set {
                lemma_extend_pass_wf(old_ivs, evs, pass_ivs);
            } else {
                lemma_split_pass_wf(old_ivs, evs, pass_ivs);
                assert forall|t: int| 0 <= t < split_add@.len() implies (
                #[trigger] split_add@[t]).beg <= split_add@[t].end by {
                    let j = choose|j: int|
                        0 <= j < n && interior_landing(evs, #[trigger] old_ivs[j]) && split_piece_ok(
                            evs,
                            old_ivs[j],
                            split_add@[t],
                        );
                    let o = old_ivs[j];
                    let jj = choose|jj: int|
                        0 <= jj < evs.len() && o.beg < (#[trigger] evs[jj]).index < o.end
                            && split_add@[t].beg == evs[jj].index + shift_at(
                            evs,
                            evs[jj].index as int,
                        ) && split_add@[t].end == o.end + shift_before(evs, o.end as int);
                    lemma_before_eq_at_minus(evs, evs.len() as int, o.end as int);
                    lemma_shift_upto_mono(evs, evs.len() as int, evs[jj].index as int, o.end - 1);
                }
            }
        }
        self.extend(split_add);
        proof {
            if !add_to_set {
                lemma_split_final::<I>(
                    old_ivs,
                    old_infos,
                    evs,
                    pass_ivs,
                    pass_infos,
                    pieces,
                    self.ivs(),
                    self.infos(),
                    new_space,
                );
            }
        }
    }
}

} // verus!
