use vstd::prelude::*;
use std::ops::Range;
use crate::events::LoopEvent;

verus! {

/// Ways in which an edit of a timeline can be refused.
#[derive(Debug, Clone, Copy, PartialEq, Eq, Structural)]
pub enum TimelineError {
    /// A release came on a row that holds no open event.
    NoOpenEvent,
    /// A query over a range whose end does not come after its start.
    EmptyRange,
    /// A window that starts before the sequence it belongs to.
    BeforeStart,
    /// A reference that starts at or past its phrase's end, or is longer than one pass.
    OutsideLoop,
    /// A loop length of zero ticks.
    ZeroLength,
}

/// `o` keeps its row and payload, with the closed range `[start, stop)`.
pub open spec fn with_range<P>(o: LoopEvent<P>, start: u32, stop: u32) -> LoopEvent<P> {
    LoopEvent { start, stop: Some(stop), row: o.row, payload: o.payload }
}

/// `o` is a closed event on the row of `e`: the events that `e` can collide with.
pub open spec fn competes<P>(o: LoopEvent<P>, e: LoopEvent<P>) -> bool {
    o.row == e.row && o.stop.is_some()
}

/// The ranges of `a` and `b` share no tick (an open event takes no tick yet, nor does a
/// closed one that does not end after it starts).
pub open spec fn disjoint<P>(a: LoopEvent<P>, b: LoopEvent<P>) -> bool {
    a.stop.is_none() || b.stop.is_none() || a.stop.unwrap() <= a.start || b.stop.unwrap()
        <= b.start || a.stop.unwrap() <= b.start || b.stop.unwrap() <= a.start
}

/// Every closed event ends after it starts.
pub open spec fn well_formed<P>(s: Seq<LoopEvent<P>>) -> bool {
    forall|i: int| 0 <= i < s.len() && s[i].stop.is_some() ==> s[i].start < s[i].stop.unwrap()
}

/// No two events on one row share a tick.
pub open spec fn no_overlap<P>(s: Seq<LoopEvent<P>>) -> bool {
    forall|i: int, j: int|
        0 <= i < s.len() && 0 <= j < s.len() && i != j && s[i].row == s[j].row ==> disjoint(
            s[i],
            s[j],
        )
}

/// `p` is a piece of `o`: same row, payload and state, and, when it takes any tick,
/// no tick outside `o`.
pub open spec fn within<P>(p: LoopEvent<P>, o: LoopEvent<P>) -> bool {
    &&& p.row == o.row
    &&& p.payload == o.payload
    &&& p.stop.is_some() == o.stop.is_some()
    &&& p.stop.is_some() && p.start < p.stop.unwrap() ==> o.start <= p.start && p.stop.unwrap()
        <= o.stop.unwrap()
}

/// What stays in the place of `o` when the complete event `e` is inserted: `o` itself
/// when they do not collide, nothing when `e` contains it, else the part before `e`
/// or, when `o` starts inside `e`, the part after it.
pub open spec fn kept_part<P>(o: LoopEvent<P>, e: LoopEvent<P>) -> Seq<LoopEvent<P>> {
    if !competes(o, e) || disjoint(o, e) {
        seq![o]
    } else if e.start <= o.start && o.stop.unwrap() <= e.stop.unwrap() {
        seq![]
    } else if o.start < e.start {
        seq![with_range(o, o.start, e.start)]
    } else {
        seq![with_range(o, e.stop.unwrap(), o.stop.unwrap())]
    }
}

/// The trailing piece of `o` when `e` falls strictly inside it and splits it in two.
pub open spec fn split_part<P>(o: LoopEvent<P>, e: LoopEvent<P>) -> Seq<LoopEvent<P>> {
    if competes(o, e) && o.start < e.start && e.stop.unwrap() < o.stop.unwrap() {
        seq![with_range(o, e.stop.unwrap(), o.stop.unwrap())]
    } else {
        seq![]
    }
}

pub open spec fn kept_all<P>(s: Seq<LoopEvent<P>>, e: LoopEvent<P>) -> Seq<LoopEvent<P>>
    decreases s.len(),
{
    if s.len() == 0 {
        seq![]
    } else {
        kept_all(s.drop_last(), e) + kept_part(s.last(), e)
    }
}

pub open spec fn split_all<P>(s: Seq<LoopEvent<P>>, e: LoopEvent<P>) -> Seq<LoopEvent<P>>
    decreases s.len(),
{
    if s.len() == 0 {
        seq![]
    } else {
        split_all(s.drop_last(), e) + split_part(s.last(), e)
    }
}

/// The timeline `s` with the range of `w` cleared on its row: what is left of the
/// events in their order, then the trailing pieces of split events.
pub open spec fn cleared<P>(s: Seq<LoopEvent<P>>, w: LoopEvent<P>) -> Seq<LoopEvent<P>> {
    kept_all(s, w) + split_all(s, w)
}

/// The timeline `s` once the complete event `e` is inserted: `s` cleared over the
/// range of `e`, then `e`.
pub open spec fn inserted_complete<P>(s: Seq<LoopEvent<P>>, e: LoopEvent<P>) -> Seq<
    LoopEvent<P>,
> {
    cleared(s, e) + seq![e]
}

/// The row holds an open event.
pub open spec fn has_open<P>(s: Seq<LoopEvent<P>>, row: u8) -> bool {
    exists|i: int| 0 <= i < s.len() && s[i].row == row && s[i].stop.is_none()
}

/// `s` without the events on `row` that start in `range`, in their order.
pub open spec fn without_starting_in<P>(s: Seq<LoopEvent<P>>, range: Range<u32>, row: u8) -> Seq<
    LoopEvent<P>,
>
    decreases s.len(),
{
    if s.len() == 0 {
        seq![]
    } else if starts_in(s.last(), range, row) {
        without_starting_in(s.drop_last(), range, row)
    } else {
        without_starting_in(s.drop_last(), range, row).push(s.last())
    }
}

/// The event on `row` and starts in `range`.
pub open spec fn starts_in<P>(e: LoopEvent<P>, range: Range<u32>, row: u8) -> bool {
    e.row == row && range.start <= e.start < range.end
}

proof fn lemma_kept_origin<P>(s: Seq<LoopEvent<P>>, e: LoopEvent<P>, k: int) -> (j: int)
    requires
        0 <= k < kept_all(s, e).len(),
    ensures
        0 <= j < s.len(),
        kept_part(s[j], e).len() == 1,
        kept_part(s[j], e)[0] == kept_all(s, e)[k],
    decreases s.len(),
{
    let t = s.drop_last();
    if k < kept_all(t, e).len() {
        let j = lemma_kept_origin(t, e, k);
        j
    } else {
        s.len() - 1
    }
}

proof fn lemma_split_origin<P>(s: Seq<LoopEvent<P>>, e: LoopEvent<P>, k: int) -> (j: int)
    requires
        0 <= k < split_all(s, e).len(),
    ensures
        0 <= j < s.len(),
        split_part(s[j], e).len() == 1,
        split_part(s[j], e)[0] == split_all(s, e)[k],
    decreases s.len(),
{
    let t = s.drop_last();
    if k < split_all(t, e).len() {
        let j = lemma_split_origin(t, e, k);
        j
    } else {
        s.len() - 1
    }
}

proof fn lemma_kept_no_overlap<P>(s: Seq<LoopEvent<P>>, e: LoopEvent<P>)
    requires
        well_formed(s),
        no_overlap(s),
        e.stop.is_some(),
        e.start < e.stop.unwrap(),
    ensures
        no_overlap(kept_all(s, e)),
    decreases s.len(),
{
    if s.len() > 0 {
        let t = s.drop_last();
        assert(forall|i: int| 0 <= i < t.len() ==> t[i] == s[i]);
        lemma_kept_no_overlap(t, e);
        let k = kept_all(s, e);
        let kt = kept_all(t, e);
        assert forall|a: int, b: int|
            0 <= a < k.len() && 0 <= b < k.len() && a != b && k[a].row == k[b].row implies disjoint(
            k[a],
            k[b],
        ) by {
            if a >= kt.len() || b >= kt.len() {
                let (x, y) = if a >= kt.len() {
                    (b, a)
                } else {
                    (a, b)
                };
                let j = lemma_kept_origin(t, e, x);
                assert(within(k[x], s[j]));
                assert(within(k[y], s[s.len() - 1]));
                assert(disjoint(s[j], s[s.len() - 1]));
            }
        }
    }
}

proof fn lemma_split_no_overlap<P>(s: Seq<LoopEvent<P>>, e: LoopEvent<P>)
    requires
        well_formed(s),
        no_overlap(s),
        e.stop.is_some(),
        e.start < e.stop.unwrap(),
    ensures
        no_overlap(split_all(s, e)),
    decreases s.len(),
{
    if s.len() > 0 {
        let t = s.drop_last();
        assert(forall|i: int| 0 <= i < t.len() ==> t[i] == s[i]);
        lemma_split_no_overlap(t, e);
        let k = split_all(s, e);
        let kt = split_all(t, e);
        assert forall|a: int, b: int|
            0 <= a < k.len() && 0 <= b < k.len() && a != b && k[a].row == k[b].row implies disjoint(
            k[a],
            k[b],
        ) by {
            if a >= kt.len() || b >= kt.len() {
                let (x, y) = if a >= kt.len() {
                    (b, a)
                } else {
                    (a, b)
                };
                let j = lemma_split_origin(t, e, x);
                assert(within(k[x], s[j]));
                assert(within(k[y], s[s.len() - 1]));
                assert(disjoint(s[j], s[s.len() - 1]));
            }
        }
    }
}

/// Inserting a complete event keeps every closed event well formed, and leaves no two
/// events on one row sharing a tick when none did before.
pub proof fn lemma_insert_complete_no_overlap<P>(s: Seq<LoopEvent<P>>, e: LoopEvent<P>)
    requires
        well_formed(s),
        e.stop.is_some(),
        e.start < e.stop.unwrap(),
    ensures
        well_formed(inserted_complete(s, e)),
        no_overlap(s) ==> no_overlap(inserted_complete(s, e)),
{
    let k = kept_all(s, e);
    let sp = split_all(s, e);
    let r = inserted_complete(s, e);
    assert forall|i: int| 0 <= i < r.len() && r[i].stop.is_some() implies r[i].start
        < r[i].stop.unwrap() by {
        if i < k.len() {
            let j = lemma_kept_origin(s, e, i);
            assert(within(r[i], s[j]));
        } else if i < k.len() + sp.len() {
            let j = lemma_split_origin(s, e, i - k.len());
            assert(within(r[i], s[j]));
        }
    }
    if no_overlap(s) {
        lemma_kept_no_overlap(s, e);
        lemma_split_no_overlap(s, e);
        assert forall|a: int, b: int|
            0 <= a < r.len() && 0 <= b < r.len() && a != b && r[a].row == r[b].row implies disjoint(
            r[a],
            r[b],
        ) by {
            let n = k.len() + sp.len();
            if a < k.len() && b < k.len() {
                assert(r[a] == k[a] && r[b] == k[b]);
            } else if k.len() <= a < n && k.len() <= b < n {
                assert(r[a] == sp[a - k.len()] && r[b] == sp[b - k.len()]);
            } else if a == n || b == n {
                let x = if a == n {
                    b
                } else {
                    a
                };
                if x < k.len() {
                    let j = lemma_kept_origin(s, e, x);
                    assert(r[x] == kept_part(s[j], e)[0]);
                } else {
                    let j = lemma_split_origin(s, e, x - k.len());
                    assert(r[x] == split_part(s[j], e)[0]);
                }
            } else {
                let (x, y) = if a < k.len() {
                    (a, b)
                } else {
                    (b, a)
                };
                let j = lemma_kept_origin(s, e, x);
                let j2 = lemma_split_origin(s, e, y - k.len());
                assert(r[x] == kept_part(s[j], e)[0]);
                assert(r[y] == split_part(s[j2], e)[0]);
                assert(within(r[x], s[j]));
                assert(within(r[y], s[j2]));
                if j != j2 {
                    assert(disjoint(s[j], s[j2]));
                }
            }
        }
    }
}

/// Clears the range of `event` on its row: events there that it contains go, and those
/// it overlaps are cut back to what lies outside it (a split leaves a second, trailing
/// piece, added after the others).
pub fn clear_range<P: Copy>(events: &mut Vec<LoopEvent<P>>, event: LoopEvent<P>)
    requires
        event.stop.is_some(),
        event.start < event.stop.unwrap(),
    ensures
        final(events)@ == cleared(old(events)@, event),
{
    let stop = match event.stop {
        Some(stop) => stop,
        None => event.start,
    };
    let mut kept: Vec<LoopEvent<P>> = Vec::new();
    let mut splits: Vec<LoopEvent<P>> = Vec::new();
    let mut i: usize = 0;
    while i < events.len()
        invariant
            0 <= i <= events.len(),
            events@ == old(events)@,
            event.stop == Some(stop),
            event.start < stop,
            kept@ == kept_all(events@.take(i as int), event),
            splits@ == split_all(events@.take(i as int), event),
        decreases events.len() - i,
    {
        let o = events[i];
        proof {
            assert(events@.take(i as int + 1).drop_last() == events@.take(i as int));
        }
        let ghost ks = kept@;
        let ghost ss = splits@;
        match o.stop {
            None => kept.push(o),
            Some(o_stop) => {
                if o.row != event.row || o_stop <= o.start || o_stop <= event.start || stop <= o.start {
                    kept.push(o);
                } else if event.start <= o.start && o_stop <= stop {
                } else if o.start < event.start {
                    kept.push(
                        LoopEvent { start: o.start, stop: Some(event.start), row: o.row, payload: o.payload },
                    );
                    if stop < o_stop {
                        splits.push(
                            LoopEvent { start: stop, stop: Some(o_stop), row: o.row, payload: o.payload },
                        );
                    }
                } else {
                    kept.push(LoopEvent { start: stop, stop: Some(o_stop), row: o.row, payload: o.payload });
                }
            },
        }
        proof {
            let t = events@.take(i as int + 1);
            assert(kept@ =~= ks + kept_part(o, event));
            assert(splits@ =~= ss + split_part(o, event));
            assert(split_all(t, event) =~= split_all(t.drop_last(), event) + split_part(o, event));
            assert(kept_all(t, event) =~= kept_all(t.drop_last(), event) + kept_part(o, event));
        }
        i += 1;
    }
    proof {
        assert(events@.take(events@.len() as int) == events@);
    }
    kept.append(&mut splits);
    *events = kept;
}

/// Inserts the complete event `event`: events on its row that it contains go, those it
/// overlaps are cut back to what lies outside it (a split leaves a second, trailing
/// piece), and `event` is added last.
pub fn add_complete_event<P: Copy>(events: &mut Vec<LoopEvent<P>>, event: LoopEvent<P>)
    requires
        event.stop.is_some(),
        event.start < event.stop.unwrap(),
    ensures
        final(events)@ == inserted_complete(old(events)@, event),
        well_formed(old(events)@) ==> well_formed(final(events)@),
        well_formed(old(events)@) && no_overlap(old(events)@) ==> no_overlap(final(events)@),
        no_overlap_on(old(events)@, event.row) ==> no_overlap_on(final(events)@, event.row),
{
    clear_range(events, event);
    events.push(event);
    proof {
        let before = old(events)@;
        let after = inserted_complete(before, event);
        assert(events@ =~= after);
        assert(well_formed(before) ==> well_formed(after) && (no_overlap(before) ==> no_overlap(
            after,
        ))) by {
            if well_formed(before) {
                lemma_insert_complete_no_overlap(before, event);
            }
        }
        assert(no_overlap_on(before, event.row) ==> no_overlap_on(after, event.row)) by {
            if no_overlap_on(before, event.row) {
                lemma_insert_complete_no_overlap_on(before, event);
            }
        }
    }
}


/// Events `a` and `b` share no tick on a loop of `len` ticks, where each covers its range
/// taken modulo `len` (exact for ranges inside `[0, 2 * len)`).
pub open spec fn loop_disjoint<P>(a: LoopEvent<P>, b: LoopEvent<P>, len: int) -> bool {
    &&& disjoint(a, b)
    &&& a.stop.is_none() || b.stop.is_none() || a.stop.unwrap() + len <= b.start
        || b.stop.unwrap() <= a.start + len
    &&& a.stop.is_none() || b.stop.is_none() || a.stop.unwrap() <= b.start + len
        || b.stop.unwrap() + len <= a.start
}

/// No two events on one row share a tick on a loop of `len` ticks.
pub open spec fn loop_no_overlap<P>(s: Seq<LoopEvent<P>>, len: int) -> bool {
    forall|i: int, j: int|
        0 <= i < s.len() && 0 <= j < s.len() && i != j && s[i].row == s[j].row
            ==> loop_disjoint(s[i], s[j], len)
}

/// Every closed event of `s` is at most `len` long and ends by `2 * len`.
pub open spec fn in_loop<P>(s: Seq<LoopEvent<P>>, len: int) -> bool {
    forall|i: int|
        0 <= i < s.len() && (#[trigger] s[i]).stop.is_some() ==> s[i].start < s[i].stop.unwrap()
            <= s[i].start + len && s[i].stop.unwrap() <= 2 * len
}

proof fn lemma_kept_loop<P>(s: Seq<LoopEvent<P>>, w: LoopEvent<P>, len: int)
    requires
        in_loop(s, len),
        loop_no_overlap(s, len),
        w.stop.is_some(),
        w.start < w.stop.unwrap(),
    ensures
        loop_no_overlap(kept_all(s, w), len),
    decreases s.len(),
{
    if s.len() > 0 {
        let t = s.drop_last();
        assert(forall|i: int| 0 <= i < t.len() ==> t[i] == s[i]);
        assert(in_loop(t, len));
        lemma_kept_loop(t, w, len);
        let k = kept_all(s, w);
        let kt = kept_all(t, w);
        assert forall|a: int, b: int|
            0 <= a < k.len() && 0 <= b < k.len() && a != b && k[a].row == k[b].row implies loop_disjoint(
            k[a],
            k[b],
            len,
        ) by {
            if a >= kt.len() || b >= kt.len() {
                let (x, y) = if a >= kt.len() {
                    (b, a)
                } else {
                    (a, b)
                };
                let j = lemma_kept_origin(t, w, x);
                assert(t[j] == s[j]);
                assert(s[s.len() - 1] == s.last());
                assert(within(k[x], s[j]));
                assert(within(k[y], s[s.len() - 1]));
                assert(loop_disjoint(s[j], s[s.len() - 1], len));
            }
        }
    }
}

proof fn lemma_split_loop<P>(s: Seq<LoopEvent<P>>, w: LoopEvent<P>, len: int)
    requires
        in_loop(s, len),
        loop_no_overlap(s, len),
        w.stop.is_some(),
        w.start < w.stop.unwrap(),
    ensures
        loop_no_overlap(split_all(s, w), len),
    decreases s.len(),
{
    if s.len() > 0 {
        let t = s.drop_last();
        assert(forall|i: int| 0 <= i < t.len() ==> t[i] == s[i]);
        assert(in_loop(t, len));
        lemma_split_loop(t, w, len);
        let k = split_all(s, w);
        let kt = split_all(t, w);
        assert forall|a: int, b: int|
            0 <= a < k.len() && 0 <= b < k.len() && a != b && k[a].row == k[b].row implies loop_disjoint(
            k[a],
            k[b],
            len,
        ) by {
            if a >= kt.len() || b >= kt.len() {
                let (x, y) = if a >= kt.len() {
                    (b, a)
                } else {
                    (a, b)
                };
                let j = lemma_split_origin(t, w, x);
                assert(t[j] == s[j]);
                assert(s[s.len() - 1] == s.last());
                assert(within(k[x], s[j]));
                assert(within(k[y], s[s.len() - 1]));
                assert(loop_disjoint(s[j], s[s.len() - 1], len));
            }
        }
    }
}

/// Clearing a range keeps the events on a loop of `len` ticks apart: each piece left
/// lies inside the event it came from, and none meets the cleared range.
pub proof fn lemma_cleared_loop<P>(s: Seq<LoopEvent<P>>, w: LoopEvent<P>, len: int)
    requires
        in_loop(s, len),
        w.stop.is_some(),
        w.start < w.stop.unwrap(),
    ensures
        in_loop(cleared(s, w), len),
        loop_no_overlap(s, len) ==> loop_no_overlap(cleared(s, w), len),
        forall|k: int|
            0 <= k < cleared(s, w).len() && competes(#[trigger] cleared(s, w)[k], w) ==> disjoint(
                cleared(s, w)[k],
                w,
            ),
{
    let k = kept_all(s, w);
    let sp = split_all(s, w);
    let r = cleared(s, w);
    assert forall|i: int| 0 <= i < r.len() implies (r[i].stop.is_some() ==> r[i].start
        < r[i].stop.unwrap() <= r[i].start + len && r[i].stop.unwrap() <= 2 * len) && (competes(
        #[trigger] r[i],
        w,
    ) ==> disjoint(r[i], w)) by {
        if i < k.len() {
            let j = lemma_kept_origin(s, w, i);
            assert(r[i] == k[i]);
            assert(within(r[i], s[j]));
            assert(s[j].stop.is_some() ==> s[j].start < s[j].stop.unwrap());
        } else {
            let j = lemma_split_origin(s, w, i - k.len());
            assert(r[i] == sp[i - k.len()]);
            assert(within(r[i], s[j]));
            assert(s[j].stop.is_some() ==> s[j].start < s[j].stop.unwrap());
        }
    }
    if loop_no_overlap(s, len) {
        lemma_kept_loop(s, w, len);
        lemma_split_loop(s, w, len);
        assert forall|a: int, b: int|
            0 <= a < r.len() && 0 <= b < r.len() && a != b && r[a].row == r[b].row implies loop_disjoint(
            r[a],
            r[b],
            len,
        ) by {
            if a < k.len() && b < k.len() {
                assert(r[a] == k[a] && r[b] == k[b]);
            } else if a >= k.len() && b >= k.len() {
                assert(r[a] == sp[a - k.len()] && r[b] == sp[b - k.len()]);
            } else {
                let (x, y) = if a < k.len() {
                    (a, b)
                } else {
                    (b, a)
                };
                let j = lemma_kept_origin(s, w, x);
                let j2 = lemma_split_origin(s, w, y - k.len());
                assert(r[x] == k[x]);
                assert(r[y] == sp[y - k.len()]);
                assert(within(r[x], s[j]));
                assert(within(r[y], s[j2]));
                if j != j2 {
                    assert(loop_disjoint(s[j], s[j2], len));
                }
            }
        }
    }
}

/// Clearing a range keeps every event clear of another range `x` that none met before.
pub proof fn lemma_cleared_keeps_clear<P>(s: Seq<LoopEvent<P>>, w: LoopEvent<P>, x: LoopEvent<P>)
    requires
        well_formed(s),
        w.stop.is_some(),
        w.start < w.stop.unwrap(),
        forall|j: int| 0 <= j < s.len() && competes(#[trigger] s[j], x) ==> disjoint(s[j], x),
    ensures
        forall|k: int|
            0 <= k < cleared(s, w).len() && competes(#[trigger] cleared(s, w)[k], x) ==> disjoint(
                cleared(s, w)[k],
                x,
            ),
{
    let k = kept_all(s, w);
    let sp = split_all(s, w);
    let r = cleared(s, w);
    assert forall|i: int| 0 <= i < r.len() && competes(#[trigger] r[i], x) implies disjoint(r[i], x) by {
        if i < k.len() {
            let j = lemma_kept_origin(s, w, i);
            assert(r[i] == k[i]);
            assert(within(r[i], s[j]));
        } else {
            let j = lemma_split_origin(s, w, i - k.len());
            assert(r[i] == sp[i - k.len()]);
            assert(within(r[i], s[j]));
        }
    }
}

/// No two events on `row` share a tick.
pub open spec fn no_overlap_on<P>(s: Seq<LoopEvent<P>>, row: u8) -> bool {
    forall|i: int, j: int|
        0 <= i < s.len() && 0 <= j < s.len() && i != j && s[i].row == row && s[j].row == row
            ==> disjoint(s[i], s[j])
}

proof fn lemma_kept_no_overlap_on<P>(s: Seq<LoopEvent<P>>, e: LoopEvent<P>)
    requires
        no_overlap_on(s, e.row),
        e.stop.is_some(),
        e.start < e.stop.unwrap(),
    ensures
        no_overlap_on(kept_all(s, e), e.row),
    decreases s.len(),
{
    if s.len() > 0 {
        let t = s.drop_last();
        assert(forall|i: int| 0 <= i < t.len() ==> t[i] == s[i]);
        lemma_kept_no_overlap_on(t, e);
        let k = kept_all(s, e);
        let kt = kept_all(t, e);
        assert forall|a: int, b: int|
            0 <= a < k.len() && 0 <= b < k.len() && a != b && k[a].row == e.row && k[b].row
                == e.row implies disjoint(k[a], k[b]) by {
            if a >= kt.len() || b >= kt.len() {
                let (x, y) = if a >= kt.len() {
                    (b, a)
                } else {
                    (a, b)
                };
                let j = lemma_kept_origin(t, e, x);
                assert(within(k[x], s[j]));
                assert(within(k[y], s[s.len() - 1]));
                assert(disjoint(s[j], s[s.len() - 1]));
            }
        }
    }
}

proof fn lemma_split_no_overlap_on<P>(s: Seq<LoopEvent<P>>, e: LoopEvent<P>)
    requires
        no_overlap_on(s, e.row),
        e.stop.is_some(),
        e.start < e.stop.unwrap(),
    ensures
        no_overlap_on(split_all(s, e), e.row),
    decreases s.len(),
{
    if s.len() > 0 {
        let t = s.drop_last();
        assert(forall|i: int| 0 <= i < t.len() ==> t[i] == s[i]);
        lemma_split_no_overlap_on(t, e);
        let k = split_all(s, e);
        let kt = split_all(t, e);
        assert forall|a: int, b: int|
            0 <= a < k.len() && 0 <= b < k.len() && a != b && k[a].row == e.row && k[b].row
                == e.row implies disjoint(k[a], k[b]) by {
            if a >= kt.len() || b >= kt.len() {
                let (x, y) = if a >= kt.len() {
                    (b, a)
                } else {
                    (a, b)
                };
                let j = lemma_split_origin(t, e, x);
                assert(within(k[x], s[j]));
                assert(within(k[y], s[s.len() - 1]));
                assert(disjoint(s[j], s[s.len() - 1]));
            }
        }
    }
}

/// Inserting a complete event leaves no two events on its row sharing a tick, when none
/// on that row did before, whatever the other rows hold.
pub proof fn lemma_insert_complete_no_overlap_on<P>(s: Seq<LoopEvent<P>>, e: LoopEvent<P>)
    requires
        no_overlap_on(s, e.row),
        e.stop.is_some(),
        e.start < e.stop.unwrap(),
    ensures
        no_overlap_on(inserted_complete(s, e), e.row),
{
    let k = kept_all(s, e);
    let sp = split_all(s, e);
    let r = inserted_complete(s, e);
    lemma_kept_no_overlap_on(s, e);
    lemma_split_no_overlap_on(s, e);
    assert forall|a: int, b: int|
        0 <= a < r.len() && 0 <= b < r.len() && a != b && r[a].row == e.row && r[b].row == e.row implies disjoint(
        r[a],
        r[b],
    ) by {
        let n = k.len() + sp.len();
        if a < k.len() && b < k.len() {
            assert(r[a] == k[a] && r[b] == k[b]);
        } else if k.len() <= a < n && k.len() <= b < n {
            assert(r[a] == sp[a - k.len()] && r[b] == sp[b - k.len()]);
        } else if a == n || b == n {
            let x = if a == n {
                b
            } else {
                a
            };
            if x < k.len() {
                let j = lemma_kept_origin(s, e, x);
                assert(r[x] == kept_part(s[j], e)[0]);
            } else {
                let j = lemma_split_origin(s, e, x - k.len());
                assert(r[x] == split_part(s[j], e)[0]);
            }
        } else {
            let (x, y) = if a < k.len() {
                (a, b)
            } else {
                (b, a)
            };
            let j = lemma_kept_origin(s, e, x);
            let j2 = lemma_split_origin(s, e, y - k.len());
            assert(r[x] == kept_part(s[j], e)[0]);
            assert(r[y] == split_part(s[j2], e)[0]);
            assert(within(r[x], s[j]));
            assert(within(r[y], s[j2]));
            if j != j2 {
                assert(disjoint(s[j], s[j2]));
            }
        }
    }
}

proof fn lemma_untouched<P>(s: Seq<LoopEvent<P>>, e: LoopEvent<P>)
    requires
        forall|i: int| 0 <= i < s.len() ==> s[i].row != e.row,
    ensures
        kept_all(s, e) == s,
        split_all(s, e) == Seq::<LoopEvent<P>>::empty(),
    decreases s.len(),
{
    if s.len() > 0 {
        let t = s.drop_last();
        lemma_untouched(t, e);
        assert(kept_all(s, e) =~= s);
        assert(split_all(s, e) =~= Seq::<LoopEvent<P>>::empty());
    }
}

/// On a row that holds no event, inserting a complete event adds exactly that event,
/// and inserting it a second time changes nothing.
pub proof fn lemma_insert_complete_idempotent<P>(s: Seq<LoopEvent<P>>, e: LoopEvent<P>)
    requires
        forall|i: int| 0 <= i < s.len() ==> s[i].row != e.row,
        e.stop.is_some(),
        e.start < e.stop.unwrap(),
    ensures
        inserted_complete(s, e) == s.push(e),
        inserted_complete(inserted_complete(s, e), e) == inserted_complete(s, e),
{
    lemma_untouched(s, e);
    assert(inserted_complete(s, e) =~= s.push(e));
    let s1 = s.push(e);
    assert(s1.drop_last() == s);
    assert(kept_all(s1, e) =~= s);
    assert(split_all(s1, e) =~= Seq::<LoopEvent<P>>::empty());
    assert(inserted_complete(s1, e) =~= s1);
}

/// Each row holds at most one open event.
pub open spec fn open_unique<P>(s: Seq<LoopEvent<P>>) -> bool {
    forall|i: int, j: int|
        0 <= i < s.len() && 0 <= j < s.len() && i != j && s[i].row == s[j].row && s[i].stop.is_none()
            ==> s[j].stop.is_some()
}

/// The timeline `s` after the complete events `es` are inserted one after another.
pub open spec fn inserted_all<P>(s: Seq<LoopEvent<P>>, es: Seq<LoopEvent<P>>) -> Seq<LoopEvent<P>>
    decreases es.len(),
{
    if es.len() == 0 {
        s
    } else {
        inserted_complete(inserted_all(s, es.drop_last()), es.last())
    }
}

/// However many complete events are inserted one after another into an empty timeline,
/// no two events on one row ever share a tick.
pub proof fn lemma_inserts_never_overlap<P>(es: Seq<LoopEvent<P>>)
    requires
        forall|i: int|
            0 <= i < es.len() ==> (#[trigger] es[i]).stop.is_some() && es[i].start
                < es[i].stop.unwrap(),
    ensures
        well_formed(inserted_all(Seq::<LoopEvent<P>>::empty(), es)),
        no_overlap(inserted_all(Seq::<LoopEvent<P>>::empty(), es)),
    decreases es.len(),
{
    if es.len() > 0 {
        let rest = es.drop_last();
        assert forall|i: int| 0 <= i < rest.len() implies (#[trigger] rest[i]).stop.is_some()
            && rest[i].start < rest[i].stop.unwrap() by {
            assert(rest[i] == es[i]);
        }
        lemma_inserts_never_overlap(rest);
        assert(es[es.len() - 1] == es.last());
        lemma_insert_complete_no_overlap(inserted_all(Seq::<LoopEvent<P>>::empty(), rest), es.last());
    }
}

/// Appends the open event `event`, unless its row already holds an open event (a
/// repeated press), in which case nothing changes.
pub fn try_add_starting_event<P: Copy>(events: &mut Vec<LoopEvent<P>>, event: LoopEvent<P>)
    ensures
        has_open(old(events)@, event.row) ==> final(events)@ == old(events)@,
        !has_open(old(events)@, event.row) ==> final(events)@ == old(events)@.push(event),
        open_unique(old(events)@) ==> open_unique(final(events)@),
{
    let mut i: usize = 0;
    while i < events.len()
        invariant
            0 <= i <= events.len(),
            forall|j: int| 0 <= j < i ==> !(events@[j].row == event.row && events@[j].stop.is_none()),
        decreases events.len() - i,
    {
        if events[i].row == event.row && events[i].stop.is_none() {
            return;
        }
        i += 1;
    }
    proof {
        assert(!has_open(events@, event.row));
    }
    events.push(event);
}

/// Removes and returns the most recent open event on `row`; fails, changing nothing,
/// when the row holds none.
pub fn get_last_event_on_row<P: Copy>(events: &mut Vec<LoopEvent<P>>, row: u8) -> (r: Result<
    LoopEvent<P>,
    TimelineError,
>)
    ensures
        !has_open(old(events)@, row) <==> r == Err::<LoopEvent<P>, TimelineError>(
            TimelineError::NoOpenEvent,
        ),
        r is Err ==> final(events)@ == old(events)@,
        has_open(old(events)@, row) ==> r is Ok,
        open_unique(old(events)@) ==> open_unique(final(events)@),
        r is Ok ==> exists|i: int|
            0 <= i < old(events)@.len() && old(events)@[i] == r->Ok_0 && r->Ok_0.row == row
                && r->Ok_0.stop.is_none() && final(events)@ == old(events)@.remove(i) && forall|
                j: int,
            |
                i < j < old(events)@.len() ==> !(old(events)@[j].row == row
                    && old(events)@[j].stop.is_none()),
{
    let mut i: usize = events.len();
    while i > 0
        invariant
            0 <= i <= events.len(),
            events@ == old(events)@,
            forall|j: int|
                i <= j < events.len() ==> !(events@[j].row == row && events@[j].stop.is_none()),
        decreases i,
    {
        if events[i - 1].row == row && events[i - 1].stop.is_none() {
            let ghost before = events@;
            let e = events.remove(i - 1);
            proof {
                let k = i - 1;
                assert forall|x: int| 0 <= x < events@.len() implies events@[x] == before[if x < k {
                    x
                } else {
                    x + 1
                }] by {}
            }
            return Ok(e);
        }
        i -= 1;
    }
    Err(TimelineError::NoOpenEvent)
}

/// Some event on `row` starts in `range`.
pub fn contains_events_starting_in<P: Copy>(events: &Vec<LoopEvent<P>>, range: Range<u32>, row: u8) -> (r: bool)
    ensures
        r == exists|i: int| 0 <= i < events@.len() && starts_in(events@[i], range, row),
{
    let mut i: usize = 0;
    while i < events.len()
        invariant
            0 <= i <= events.len(),
            forall|j: int| 0 <= j < i ==> !starts_in(events@[j], range, row),
        decreases events.len() - i,
    {
        let e = events[i];
        if e.row == row && range.start <= e.start && e.start < range.end {
            return true;
        }
        i += 1;
    }
    false
}

/// Removes the events on `row` that start in `range`, keeping the others in order.
pub fn remove_events_starting_in<P: Copy>(events: &mut Vec<LoopEvent<P>>, range: Range<u32>, row: u8)
    ensures
        final(events)@ == without_starting_in(old(events)@, range, row),
{
    let mut kept: Vec<LoopEvent<P>> = Vec::new();
    let mut i: usize = 0;
    while i < events.len()
        invariant
            0 <= i <= events.len(),
            events@ == old(events)@,
            kept@ == without_starting_in(events@.take(i as int), range, row),
        decreases events.len() - i,
    {
        let e = events[i];
        proof {
            assert(events@.take(i as int + 1).drop_last() == events@.take(i as int));
        }
        if !(e.row == row && range.start <= e.start && e.start < range.end) {
            kept.push(e);
        }
        i += 1;
    }
    proof {
        assert(events@.take(events@.len() as int) == events@);
    }
    *events = kept;
}

} // verus!
