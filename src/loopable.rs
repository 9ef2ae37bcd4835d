use vstd::prelude::*;
use std::ops::Range;
use crate::events::{LoopEvent, NoteVelocity};
use crate::timeline;
use crate::timeline::{
    TimelineError,
    competes,
    disjoint,
    in_loop,
    lemma_cleared_keeps_clear,
    lemma_cleared_loop,
    loop_disjoint,
    loop_no_overlap,
    no_overlap_on,
    cleared,
    inserted_complete,
    has_open,
    open_unique,
    starts_in,
    without_starting_in,
};
use crate::{TICKS_PER_BEAT, BEATS_PER_BAR};

verus! {

/// Shortest pattern: one bar.
pub const MINIMUM_PATTERN_LENGTH: u64 = 7680;

/// Length of a new phrase: four bars.
pub const DEFAULT_PHRASE_LENGTH: u32 = 30720;

/// The last tick that an event of `s` touches: its start, or its stop once closed.
pub open spec fn max_tick<P>(s: Seq<LoopEvent<P>>) -> int
    decreases s.len(),
{
    if s.len() == 0 {
        0
    } else {
        let e = s.last();
        let rest = max_tick(s.drop_last());
        let own = if e.stop.is_some() && e.stop.unwrap() > e.start {
            e.stop.unwrap() as int
        } else {
            e.start as int
        };
        if own > rest {
            own
        } else {
            rest
        }
    }
}

/// `length` doubled until it exceeds `tick`.
pub open spec fn grown_length(length: int, tick: int) -> int
    decreases (if length <= tick { tick - length + 1 } else { 0 }),
    when length > 0
{
    if length > tick {
        length
    } else {
        grown_length(length * 2, tick)
    }
}

/// `n` is the shortest pattern length doubled some number of times.
pub open spec fn is_doubled_minimum(n: int) -> bool
    decreases n,
{
    if n <= MINIMUM_PATTERN_LENGTH {
        n == MINIMUM_PATTERN_LENGTH
    } else {
        n % 2 == 0 && is_doubled_minimum(n / 2)
    }
}

/// A timeline of note events; a note's row is its key. Its length grows with the
/// notes it holds and never shrinks by itself.
#[derive(Clone, Debug)]
pub struct Pattern {
    pub note_events: Vec<LoopEvent<NoteVelocity>>,
    /// The longest the pattern has been made so far.
    pub length: u64,
}

/// The shortest length, of one bar doubled some number of times, that exceeds every tick
/// the notes of `p` touch.
pub open spec fn fitted_length(p: Pattern) -> int {
    grown_length(MINIMUM_PATTERN_LENGTH as int, max_tick(p.note_events@))
}

/// Length of pattern `p`: what its notes need, and no less than it has been.
pub open spec fn pattern_length(p: Pattern) -> int {
    if fitted_length(p) > p.length {
        fitted_length(p)
    } else {
        p.length as int
    }
}

impl Pattern {
    pub open spec fn wf(&self) -> bool {
        &&& self.length >= MINIMUM_PATTERN_LENGTH
        &&& is_doubled_minimum(self.length as int)
    }

    pub fn new() -> (r: Self)
        ensures
            r.wf(),
            r.note_events@ == Seq::<LoopEvent<NoteVelocity>>::empty(),
            r.length == MINIMUM_PATTERN_LENGTH,
    {
        proof {
            assert(is_doubled_minimum(MINIMUM_PATTERN_LENGTH as int));
        }
        Pattern { note_events: Vec::new(), length: MINIMUM_PATTERN_LENGTH }
    }

    /// The pattern's length: the shortest length, of one bar doubled some number of
    /// times, that exceeds every tick the notes touch, unless it has been longer.
    pub fn length(&self) -> (r: u64)
        requires
            self.wf(),
        ensures
            r == pattern_length(*self),
            r >= self.length,
            r > max_tick(self.note_events@),
            is_doubled_minimum(r as int),
            r == self.length || r == MINIMUM_PATTERN_LENGTH || r / 2 <= max_tick(self.note_events@),
    {
        let fitted = self.fitted_length();
        if fitted > self.length {
            fitted
        } else {
            self.length
        }
    }

    /// Stores the current length, so that it stays through the edit that follows.
    fn keep_length(&mut self)
        requires
            old(self).wf(),
        ensures
            final(self).wf(),
            final(self).note_events == old(self).note_events,
            final(self).length == pattern_length(*old(self)),
            pattern_length(*final(self)) == pattern_length(*old(self)),
    {
        self.length = self.length();
    }

    /// One bar of ticks.
    pub fn minimum_length() -> (r: u64)
        ensures
            r == MINIMUM_PATTERN_LENGTH,
            r == BEATS_PER_BAR * TICKS_PER_BEAT,
    {
        BEATS_PER_BAR as u64 * TICKS_PER_BEAT as u64
    }

    /// The shortest length, of one bar doubled some number of times, that exceeds
    /// every tick the notes touch.
    fn fitted_length(&self) -> (r: u64)
        ensures
            r == fitted_length(*self),
            r == grown_length(MINIMUM_PATTERN_LENGTH as int, max_tick(self.note_events@)),
            r > max_tick(self.note_events@),
            is_doubled_minimum(r as int),
            r == MINIMUM_PATTERN_LENGTH || r / 2 <= max_tick(self.note_events@),
    {
        let mut tick: u32 = 0;
        let mut i: usize = 0;
        while i < self.note_events.len()
            invariant
                0 <= i <= self.note_events.len(),
                tick == max_tick(self.note_events@.take(i as int)),
            decreases self.note_events.len() - i,
        {
            let e = self.note_events[i];
            proof {
                assert(self.note_events@.take(i as int + 1).drop_last() == self.note_events@.take(
                    i as int,
                ));
            }
            let own = match e.stop {
                Some(stop) => if stop > e.start {
                    stop
                } else {
                    e.start
                },
                None => e.start,
            };
            if own > tick {
                tick = own;
            }
            i += 1;
        }
        proof {
            assert(self.note_events@.take(self.note_events@.len() as int) == self.note_events@);
            assert(is_doubled_minimum(MINIMUM_PATTERN_LENGTH as int));
        }
        let mut length: u64 = Self::minimum_length();
        while length <= tick as u64
            invariant
                MINIMUM_PATTERN_LENGTH <= length <= 2 * (u32::MAX as int) + 2,
                is_doubled_minimum(length as int),
                length == MINIMUM_PATTERN_LENGTH || length / 2 <= tick,
                grown_length(length as int, tick as int) == grown_length(
                    MINIMUM_PATTERN_LENGTH as int,
                    tick as int,
                ),
            decreases 2 * (u32::MAX as int) + 2 - length,
        {
            assert((length * 2) / 2 == length as int);
            length = length * 2;
        }
        length
    }

    /// A pattern with the same notes.
    pub fn copy_of(&self) -> (r: Pattern)
        ensures
            r.note_events@ == self.note_events@,
            r.length == self.length,
    {
        let mut note_events: Vec<LoopEvent<NoteVelocity>> = Vec::new();
        let mut i: usize = 0;
        while i < self.note_events.len()
            invariant
                0 <= i <= self.note_events.len(),
                note_events@ == self.note_events@.take(i as int),
            decreases self.note_events.len() - i,
        {
            note_events.push(self.note_events[i]);
            proof {
                assert(note_events@ =~= self.note_events@.take(i as int + 1));
            }
            i += 1;
        }
        proof {
            assert(self.note_events@.take(self.note_events@.len() as int) == self.note_events@);
        }
        Pattern { note_events, length: self.length }
    }

    pub fn clear_events(&mut self)
        requires
            old(self).wf(),
        ensures
            final(self).wf(),
            pattern_length(*final(self)) >= pattern_length(*old(self)),
            final(self).note_events@ == Seq::<LoopEvent<NoteVelocity>>::empty(),
    {
        self.keep_length();
        self.note_events.clear();
        self.keep_length();
    }

    /// Starts a note; a second press on a key that is still held changes nothing.
    pub fn try_add_starting_event(&mut self, event: LoopEvent<NoteVelocity>)
        requires
            old(self).wf(),
        ensures
            final(self).wf(),
            pattern_length(*final(self)) >= pattern_length(*old(self)),
            has_open(old(self).note_events@, event.row) ==> final(self).note_events@ == old(
                self,
            ).note_events@,
            !has_open(old(self).note_events@, event.row) ==> final(self).note_events@ == old(
                self,
            ).note_events@.push(event),
            open_unique(old(self).note_events@) ==> open_unique(final(self).note_events@),
    {
        self.keep_length();
        timeline::try_add_starting_event(&mut self.note_events, event);
        self.keep_length();
    }

    /// Takes out the note still held on `key`, to be closed by the caller.
    pub fn get_last_event_on_row(&mut self, key: u8) -> (r: Result<
        LoopEvent<NoteVelocity>,
        TimelineError,
    >)
        requires
            old(self).wf(),
        ensures
            final(self).wf(),
            pattern_length(*final(self)) >= pattern_length(*old(self)),
            !has_open(old(self).note_events@, key) <==> r == Err::<
                LoopEvent<NoteVelocity>,
                TimelineError,
            >(TimelineError::NoOpenEvent),
            r is Err ==> final(self).note_events@ == old(self).note_events@,
            has_open(old(self).note_events@, key) ==> r is Ok,
            open_unique(old(self).note_events@) ==> open_unique(final(self).note_events@),
            r is Ok ==> exists|i: int|
                0 <= i < old(self).note_events@.len() && old(self).note_events@[i] == r->Ok_0
                    && r->Ok_0.row == key && r->Ok_0.stop.is_none()
                    && final(self).note_events@ == old(self).note_events@.remove(i) && forall|j: int|
                    i < j < old(self).note_events@.len() ==> !(old(self).note_events@[j].row == key
                        && old(self).note_events@[j].stop.is_none()),
    {
        self.keep_length();
        let r = timeline::get_last_event_on_row(&mut self.note_events, key);
        self.keep_length();
        r
    }

    pub fn add_complete_event(&mut self, event: LoopEvent<NoteVelocity>)
        requires
            old(self).wf(),
            event.stop.is_some(),
            event.start < event.stop.unwrap(),
        ensures
            final(self).wf(),
            pattern_length(*final(self)) >= pattern_length(*old(self)),
            final(self).note_events@ == inserted_complete(old(self).note_events@, event),
            no_overlap_on(old(self).note_events@, event.row) ==> no_overlap_on(
                final(self).note_events@,
                event.row,
            ),
    {
        self.keep_length();
        timeline::add_complete_event(&mut self.note_events, event);
        self.keep_length();
    }

    pub fn contains_events_starting_in(&self, range: Range<u32>, key: u8) -> (r: bool)
        ensures
            r == exists|i: int|
                0 <= i < self.note_events@.len() && starts_in(self.note_events@[i], range, key),
    {
        timeline::contains_events_starting_in(&self.note_events, range, key)
    }

    pub fn remove_events_starting_in(&mut self, range: Range<u32>, key: u8)
        requires
            old(self).wf(),
        ensures
            final(self).wf(),
            pattern_length(*final(self)) >= pattern_length(*old(self)),
            final(self).note_events@ == without_starting_in(old(self).note_events@, range, key),
    {
        self.keep_length();
        timeline::remove_events_starting_in(&mut self.note_events, range, key);
        self.keep_length();
    }
}

/// A pattern reference that playback follows: it starts inside the phrase and is at
/// most one phrase long. One whose stop lies past the phrase's end loops: it goes on
/// from tick 0 of the next pass.
pub open spec fn valid_ref(r: LoopEvent<()>, length: u32) -> bool {
    &&& r.stop.is_some()
    &&& r.start < length
    &&& r.start < r.stop.unwrap()
    &&& r.stop.unwrap() <= r.start + length
}

/// The part of the query `[a, b)` that falls in the phrase ticks `[lo, hi)` of a
/// reference, as pattern ticks (a phrase tick `x` there is pattern tick `x - lo + off`).
pub open spec fn segment_range(r: LoopEvent<()>, a: int, b: int, lo: int, hi: int, off: int) -> Seq<
    (u8, u32, Range<u32>),
> {
    let from = if a > lo {
        a
    } else {
        lo
    };
    let to = if b < hi {
        b
    } else {
        hi
    };
    if from < to {
        seq![
            (
                r.row,
                (r.stop.unwrap() - r.start) as u32,
                Range { start: (from - lo + off) as u32, end: (to - lo + off) as u32 },
            ),
        ]
    } else {
        seq![]
    }
}

/// The pattern ranges that the query `[a, b)` of phrase ticks reads through `r`: the
/// segment from its start to the phrase's end (or its stop), and for a looping
/// reference also the segment from tick 0 to where it stops in the next pass.
pub open spec fn ref_ranges(r: LoopEvent<()>, length: u32, a: int, b: int) -> Seq<
    (u8, u32, Range<u32>),
> {
    if !valid_ref(r, length) {
        seq![]
    } else {
        let stop = r.stop.unwrap() as int;
        let trailing = segment_range(
            r,
            a,
            b,
            r.start as int,
            if stop < length {
                stop
            } else {
                length as int
            },
            0,
        );
        if stop > length {
            trailing + segment_range(r, a, b, 0, stop - length, length - r.start)
        } else {
            trailing
        }
    }
}

pub open spec fn pattern_ranges(s: Seq<LoopEvent<()>>, length: u32, a: int, b: int) -> Seq<
    (u8, u32, Range<u32>),
>
    decreases s.len(),
{
    if s.len() == 0 {
        seq![]
    } else {
        pattern_ranges(s.drop_last(), length, a, b) + ref_ranges(s.last(), length, a, b)
    }
}

/// A timeline of pattern references; a reference's row is the pattern it plays.
#[derive(Clone, Debug)]
pub struct Phrase {
    pub length: u32,
    pub pattern_events: Vec<LoopEvent<()>>,
}

impl Phrase {
    pub open spec fn spec_length(&self) -> u32 {
        self.length
    }

    pub open spec fn wf(&self) -> bool {
        self.spec_length() > 0
    }

    pub fn new() -> (r: Self)
        ensures
            r.wf(),
            r.spec_length() == DEFAULT_PHRASE_LENGTH,
            r.pattern_events@ == Seq::<LoopEvent<()>>::empty(),
    {
        Phrase { length: Self::default_length(), pattern_events: Vec::new() }
    }

    /// Four bars of ticks.
    pub fn default_length() -> (r: u32)
        ensures
            r == DEFAULT_PHRASE_LENGTH,
            r == TICKS_PER_BEAT * BEATS_PER_BAR * 4,
    {
        TICKS_PER_BEAT * BEATS_PER_BAR * 4
    }

    pub fn length(&self) -> (r: u32)
        ensures
            r == self.spec_length(),
    {
        self.length
    }

    /// Sets the loop length; a zero length is refused. References that start at or past
    /// the new end, or that end before they start, are dropped; the others stay, in
    /// order, each at most one new pass long: a looping one keeps how far it runs into
    /// the next pass (cut to one pass at most), and any other that runs past the new end
    /// is cut at it.
    pub fn set_length(&mut self, length: u32) -> (r: Result<(), TimelineError>)
        ensures
            length == 0 <==> r is Err,
            r is Err ==> *final(self) == *old(self) && r == Err::<(), TimelineError>(
                TimelineError::ZeroLength,
            ),
            r is Ok ==> final(self).spec_length() == length && final(self).pattern_events@
                == resized_all(old(self).pattern_events@, old(self).spec_length(), length)
                && loop_refs(final(self).pattern_events@, length),
    {
        if length == 0 {
            return Err(TimelineError::ZeroLength);
        }
        let old_length = self.length;
        let mut kept: Vec<LoopEvent<()>> = Vec::new();
        let mut i: usize = 0;
        while i < self.pattern_events.len()
            invariant
                0 <= i <= self.pattern_events.len(),
                old_length == self.length,
                length > 0,
                kept@ == resized_all(self.pattern_events@.take(i as int), old_length, length),
                loop_refs(kept@, length),
            decreases self.pattern_events.len() - i,
        {
            let e = self.pattern_events[i];
            proof {
                assert(self.pattern_events@.take(i as int + 1).drop_last()
                    == self.pattern_events@.take(i as int));
            }
            let well_placed = e.start < length && match e.stop {
                Some(stop) => e.start < stop,
                None => true,
            };
            if well_placed {
                let next = match e.stop {
                    Some(stop) => if stop > old_length {
                        let wrapped: u64 = length as u64 + (stop - old_length) as u64;
                        let one_pass: u64 = e.start as u64 + length as u64;
                        let mut new_stop: u64 = if wrapped < one_pass {
                            wrapped
                        } else {
                            one_pass
                        };
                        if new_stop > u32::MAX as u64 {
                            new_stop = u32::MAX as u64;
                        }
                        LoopEvent { start: e.start, stop: Some(new_stop as u32), row: e.row, payload: () }
                    } else if stop > length {
                        LoopEvent { start: e.start, stop: Some(length), row: e.row, payload: () }
                    } else {
                        e
                    },
                    None => e,
                };
                let ghost before = kept@;
                kept.push(next);
                proof {
                    assert(next == resized(e, old_length, length));
                    assert forall|k: int| 0 <= k < kept@.len() && (#[trigger] kept@[k]).stop.is_some()
                        implies kept@[k].start < length && kept@[k].start < kept@[k].stop.unwrap()
                        <= kept@[k].start + length by {
                        if k < before.len() {
                            assert(kept@[k] == before[k]);
                        }
                    }
                }
            }
            i += 1;
        }
        proof {
            assert(self.pattern_events@.take(self.pattern_events@.len() as int)
                == self.pattern_events@);
        }
        self.length = length;
        self.pattern_events = kept;
        Ok(())
    }

    /// For the phrase ticks `[range.start, range.end)`, each pattern that a reference
    /// plays there, the reference's length, and the pattern ticks to read.
    pub fn get_pattern_ranges(&self, range: Range<u32>) -> (r: Result<
        Vec<(u8, u32, Range<u32>)>,
        TimelineError,
    >)
        ensures
            range.end <= range.start <==> r is Err,
            r is Err ==> r == Err::<Vec<(u8, u32, Range<u32>)>, TimelineError>(
                TimelineError::EmptyRange,
            ),
            r is Ok ==> r->Ok_0@ == pattern_ranges(
                self.pattern_events@,
                self.spec_length(),
                range.start as int,
                range.end as int,
            ),
    {
        if range.end <= range.start {
            return Err(TimelineError::EmptyRange);
        }
        let length = self.length;
        let mut out: Vec<(u8, u32, Range<u32>)> = Vec::new();
        let mut i: usize = 0;
        while i < self.pattern_events.len()
            invariant
                0 <= i <= self.pattern_events.len(),
                length == self.spec_length(),
                out@ == pattern_ranges(
                    self.pattern_events@.take(i as int),
                    length,
                    range.start as int,
                    range.end as int,
                ),
            decreases self.pattern_events.len() - i,
        {
            let r = self.pattern_events[i];
            proof {
                assert(self.pattern_events@.take(i as int + 1).drop_last()
                    == self.pattern_events@.take(i as int));
            }
            let ghost before = out@;
            if let Some(stop) = r.stop {
                if r.start < length && r.start < stop && stop as u64 <= r.start as u64 + length as u64 {
                    let hi = if stop < length {
                        stop
                    } else {
                        length
                    };
                    let from = if range.start > r.start {
                        range.start
                    } else {
                        r.start
                    };
                    let to = if range.end < hi {
                        range.end
                    } else {
                        hi
                    };
                    if from < to {
                        out.push((r.row, stop - r.start, Range { start: from - r.start, end: to - r.start }));
                    }
                    if stop > length {
                        let lead = stop - length;
                        let off = length - r.start;
                        let to = if range.end < lead {
                            range.end
                        } else {
                            lead
                        };
                        if range.start < to {
                            out.push(
                                (
                                    r.row,
                                    stop - r.start,
                                    Range { start: range.start + off, end: to + off },
                                ),
                            );
                        }
                    }
                }
            }
            proof {
                let t = self.pattern_events@.take(i as int + 1);
                assert(out@ =~= before + ref_ranges(r, length, range.start as int, range.end as int));
                assert(pattern_ranges(t, length, range.start as int, range.end as int) =~= before
                    + ref_ranges(r, length, range.start as int, range.end as int));
            }
            i += 1;
        }
        proof {
            assert(self.pattern_events@.take(self.pattern_events@.len() as int)
                == self.pattern_events@);
        }
        Ok(out)
    }

    /// A phrase of the same length with the same references.
    pub fn copy_of(&self) -> (r: Phrase)
        ensures
            r.length == self.length,
            r.pattern_events@ == self.pattern_events@,
    {
        let mut pattern_events: Vec<LoopEvent<()>> = Vec::new();
        let mut i: usize = 0;
        while i < self.pattern_events.len()
            invariant
                0 <= i <= self.pattern_events.len(),
                pattern_events@ == self.pattern_events@.take(i as int),
            decreases self.pattern_events.len() - i,
        {
            pattern_events.push(self.pattern_events[i]);
            proof {
                assert(pattern_events@ =~= self.pattern_events@.take(i as int + 1));
            }
            i += 1;
        }
        proof {
            assert(self.pattern_events@.take(self.pattern_events@.len() as int)
                == self.pattern_events@);
        }
        Phrase { length: self.length, pattern_events }
    }

    pub fn clear_events(&mut self)
        ensures
            final(self).pattern_events@ == Seq::<LoopEvent<()>>::empty(),
            final(self).spec_length() == old(self).spec_length(),
    {
        self.pattern_events.clear();
    }

    /// Starts a reference; a second press on a pattern still held changes nothing.
    pub fn try_add_starting_event(&mut self, event: LoopEvent<()>)
        ensures
            final(self).spec_length() == old(self).spec_length(),
            has_open(old(self).pattern_events@, event.row) ==> final(self).pattern_events@
                == old(self).pattern_events@,
            !has_open(old(self).pattern_events@, event.row) ==> final(self).pattern_events@
                == old(self).pattern_events@.push(event),
            open_unique(old(self).pattern_events@) ==> open_unique(final(self).pattern_events@),
    {
        timeline::try_add_starting_event(&mut self.pattern_events, event);
    }

    /// Takes out the reference still held on `pattern`, to be closed by the caller.
    pub fn get_last_event_on_row(&mut self, pattern: u8) -> (r: Result<
        LoopEvent<()>,
        TimelineError,
    >)
        ensures
            final(self).spec_length() == old(self).spec_length(),
            !has_open(old(self).pattern_events@, pattern) <==> r == Err::<
                LoopEvent<()>,
                TimelineError,
            >(TimelineError::NoOpenEvent),
            r is Err ==> final(self).pattern_events@ == old(self).pattern_events@,
            has_open(old(self).pattern_events@, pattern) ==> r is Ok,
            open_unique(old(self).pattern_events@) ==> open_unique(final(self).pattern_events@),
            r is Ok ==> exists|i: int|
                0 <= i < old(self).pattern_events@.len() && old(self).pattern_events@[i]
                    == r->Ok_0 && r->Ok_0.row == pattern && r->Ok_0.stop.is_none()
                    && final(self).pattern_events@ == old(self).pattern_events@.remove(i) && forall|j: int|
                    i < j < old(self).pattern_events@.len() ==> !(old(self).pattern_events@[j].row == pattern
                        && old(self).pattern_events@[j].stop.is_none()),
    {
        timeline::get_last_event_on_row(&mut self.pattern_events, pattern)
    }

    /// Inserts a complete reference, resolving overlaps around the loop: the part of a
    /// looping reference that goes on at the phrase's start clears what it meets there,
    /// and a looping reference that runs on into the new one is cut where it meets it.
    /// A piece left starting past the phrase's end is moved back by one phrase length.
    /// References on a row then still share no tick around the loop. A reference that
    /// starts at or past the phrase's end, or is longer than one pass, is refused and
    /// nothing changes.
    pub fn add_complete_event(&mut self, event: LoopEvent<()>) -> (r: Result<(), TimelineError>)
        requires
            event.stop.is_some(),
            event.start < event.stop.unwrap(),
        ensures
            final(self).spec_length() == old(self).spec_length(),
            r is Err <==> (event.start >= old(self).spec_length() || event.stop.unwrap()
                > event.start + old(self).spec_length()),
            r is Err ==> *final(self) == *old(self) && r == Err::<(), TimelineError>(
                TimelineError::OutsideLoop,
            ),
            r is Ok ==> final(self).pattern_events@ == loop_inserted(
                old(self).pattern_events@,
                event,
                old(self).spec_length(),
            ),
            r is Ok && 4 * old(self).spec_length() <= u32::MAX && loop_refs(
                old(self).pattern_events@,
                old(self).spec_length(),
            ) && loop_no_overlap(old(self).pattern_events@, old(self).spec_length() as int)
                ==> loop_refs(final(self).pattern_events@, final(self).spec_length())
                && loop_no_overlap(final(self).pattern_events@, final(self).spec_length() as int),
    {
        let length = self.length;
        let stop = match event.stop {
            Some(stop) => stop,
            None => event.start,
        };
        if event.start >= length || stop as u64 > event.start as u64 + length as u64 {
            return Err(TimelineError::OutsideLoop);
        }
        if stop > length {
            timeline::clear_range(
                &mut self.pattern_events,
                LoopEvent { start: 0, stop: Some(stop - length), row: event.row, payload: () },
            );
        }
        if (event.start as u64) + (length as u64) < u32::MAX as u64 {
            let image_stop: u32 = if (stop as u64) + (length as u64) < u32::MAX as u64 {
                stop + length
            } else {
                u32::MAX
            };
            timeline::clear_range(
                &mut self.pattern_events,
                LoopEvent { start: event.start + length, stop: Some(image_stop), row: event.row, payload: () },
            );
        }
        timeline::add_complete_event(&mut self.pattern_events, event);
        let mut shifted: Vec<LoopEvent<()>> = Vec::new();
        let mut i: usize = 0;
        while i < self.pattern_events.len()
            invariant
                0 <= i <= self.pattern_events.len(),
                length == self.length,
                shifted@ == shifted_back(self.pattern_events@.take(i as int), length),
            decreases self.pattern_events.len() - i,
        {
            let e = self.pattern_events[i];
            proof {
                assert(self.pattern_events@.take(i as int + 1).drop_last()
                    == self.pattern_events@.take(i as int));
            }
            match e.stop {
                Some(e_stop) => if e.start >= length && e_stop >= length {
                    shifted.push(
                        LoopEvent { start: e.start - length, stop: Some(e_stop - length), row: e.row, payload: () },
                    );
                } else {
                    shifted.push(e);
                },
                None => shifted.push(e),
            }
            i += 1;
        }
        proof {
            assert(self.pattern_events@.take(self.pattern_events@.len() as int)
                == self.pattern_events@);
        }
        self.pattern_events = shifted;
        proof {
            let length = old(self).spec_length();
            if 4 * length <= u32::MAX && loop_refs(old(self).pattern_events@, length)
                && loop_no_overlap(old(self).pattern_events@, length as int) {
                lemma_loop_insert_no_overlap(old(self).pattern_events@, event, length);
            }
        }
        Ok(())
    }

    pub fn contains_events_starting_in(&self, range: Range<u32>, pattern: u8) -> (r: bool)
        ensures
            r == exists|i: int|
                0 <= i < self.pattern_events@.len() && starts_in(
                    self.pattern_events@[i],
                    range,
                    pattern,
                ),
    {
        timeline::contains_events_starting_in(&self.pattern_events, range, pattern)
    }

    pub fn remove_events_starting_in(&mut self, range: Range<u32>, pattern: u8)
        ensures
            final(self).spec_length() == old(self).spec_length(),
            final(self).pattern_events@ == without_starting_in(
                old(self).pattern_events@,
                range,
                pattern,
            ),
    {
        timeline::remove_events_starting_in(&mut self.pattern_events, range, pattern);
    }
}

/// `s` with each closed event that starts at or past `length` moved back by `length`.
pub open spec fn shifted_back(s: Seq<LoopEvent<()>>, length: u32) -> Seq<LoopEvent<()>>
    decreases s.len(),
{
    if s.len() == 0 {
        seq![]
    } else {
        let e = s.last();
        let rest = shifted_back(s.drop_last(), length);
        if e.stop.is_some() && e.start >= length && e.stop.unwrap() >= length {
            rest.push(
                LoopEvent {
                    start: (e.start - length) as u32,
                    stop: Some((e.stop.unwrap() - length) as u32),
                    row: e.row,
                    payload: (),
                },
            )
        } else {
            rest.push(e)
        }
    }
}

/// The references `s` of a phrase `length` long once the complete reference `e` is
/// inserted: the range where `e` goes on at the phrase's start (when it loops) is
/// cleared, so is its range one phrase later (where references that loop go on), `e`
/// is inserted, and pieces past the end are moved back by one phrase.
pub open spec fn loop_inserted(s: Seq<LoopEvent<()>>, e: LoopEvent<()>, length: u32) -> Seq<
    LoopEvent<()>,
> {
    let stop = e.stop.unwrap();
    let s1 = if stop > length {
        cleared(s, LoopEvent { start: 0, stop: Some((stop - length) as u32), row: e.row, payload: () })
    } else {
        s
    };
    let s2 = if e.start + length < u32::MAX {
        cleared(
            s1,
            LoopEvent {
                start: (e.start + length) as u32,
                stop: Some(
                    if stop + length < u32::MAX {
                        (stop + length) as u32
                    } else {
                        u32::MAX
                    },
                ),
                row: e.row,
                payload: (),
            },
        )
    } else {
        s1
    };
    shifted_back(inserted_complete(s2, e), length)
}

/// Reference `e` stays when a phrase becomes `to` ticks long: it starts inside the new
/// length and, when closed, ends after it starts.
pub open spec fn stays(e: LoopEvent<()>, to: u32) -> bool {
    e.start < to && (e.stop.is_none() || e.start < e.stop.unwrap())
}

/// Reference `e` of a phrase `from` ticks long once the phrase is `to` ticks long: a
/// looping one runs as far into the next pass as before, but no more than one pass
/// long; any other that runs past the new end stops at it.
pub open spec fn resized(e: LoopEvent<()>, from: u32, to: u32) -> LoopEvent<()> {
    match e.stop {
        Some(stop) => if stop > from {
            let wrapped = to + (stop - from);
            let one_pass = e.start + to;
            let capped = if wrapped < one_pass {
                wrapped
            } else {
                one_pass
            };
            LoopEvent {
                start: e.start,
                stop: Some(
                    if capped > u32::MAX {
                        u32::MAX
                    } else {
                        capped as u32
                    },
                ),
                row: e.row,
                payload: (),
            }
        } else if stop > to {
            LoopEvent { start: e.start, stop: Some(to), row: e.row, payload: () }
        } else {
            e
        },
        None => e,
    }
}

/// The references of `s` that stay, in order, resized from a phrase `from` ticks long to
/// one `to` ticks long.
pub open spec fn resized_all(s: Seq<LoopEvent<()>>, from: u32, to: u32) -> Seq<LoopEvent<()>>
    decreases s.len(),
{
    if s.len() == 0 {
        seq![]
    } else if stays(s.last(), to) {
        resized_all(s.drop_last(), from, to).push(resized(s.last(), from, to))
    } else {
        resized_all(s.drop_last(), from, to)
    }
}

/// Every closed reference of `s` starts inside a phrase of `length` ticks and is at most
/// one phrase long.
pub open spec fn loop_refs(s: Seq<LoopEvent<()>>, length: u32) -> bool {
    forall|i: int|
        0 <= i < s.len() && (#[trigger] s[i]).stop.is_some() ==> s[i].start < length && s[i].start
            < s[i].stop.unwrap() <= s[i].start + length
}

/// Reference `e` moved back by `length` when it is closed and starts at or past it.
pub open spec fn shifted_one(e: LoopEvent<()>, length: u32) -> LoopEvent<()> {
    if e.stop.is_some() && e.start >= length && e.stop.unwrap() >= length {
        LoopEvent {
            start: (e.start - length) as u32,
            stop: Some((e.stop.unwrap() - length) as u32),
            row: e.row,
            payload: (),
        }
    } else {
        e
    }
}

proof fn lemma_shifted_back(s: Seq<LoopEvent<()>>, length: u32)
    ensures
        shifted_back(s, length).len() == s.len(),
        forall|k: int|
            0 <= k < s.len() ==> (#[trigger] shifted_back(s, length)[k]) == shifted_one(s[k], length),
    decreases s.len(),
{
    if s.len() > 0 {
        lemma_shifted_back(s.drop_last(), length);
        assert forall|k: int| 0 <= k < s.len() implies (#[trigger] shifted_back(s, length)[k])
            == shifted_one(s[k], length) by {
            if k < s.len() - 1 {
                assert(s.drop_last()[k] == s[k]);
            }
        }
    }
}

/// Inserting a complete reference into a phrase leaves no two references on one row
/// sharing a tick around the loop, when none did before: every reference starts inside
/// the phrase and is at most one phrase long, the wrapped part of a looping one included.
pub proof fn lemma_loop_insert_no_overlap(s: Seq<LoopEvent<()>>, e: LoopEvent<()>, length: u32)
    requires
        length > 0,
        4 * length <= u32::MAX,
        loop_refs(s, length),
        loop_no_overlap(s, length as int),
        e.stop.is_some(),
        e.start < length,
        e.start < e.stop.unwrap() <= e.start + length,
    ensures
        loop_refs(loop_inserted(s, e, length), length),
        loop_no_overlap(loop_inserted(s, e, length), length as int),
{
    let len = length as int;
    let stop = e.stop.unwrap();
    assert(in_loop(s, len));
    let w1 = LoopEvent { start: 0u32, stop: Some((stop - length) as u32), row: e.row, payload: () };
    let s1 = if stop > length {
        cleared(s, w1)
    } else {
        s
    };
    if stop > length {
        lemma_cleared_loop(s, w1, len);
    }
    let w2 = LoopEvent {
        start: (e.start + length) as u32,
        stop: Some((stop + length) as u32),
        row: e.row,
        payload: (),
    };
    let s2 = cleared(s1, w2);
    lemma_cleared_loop(s1, w2, len);
    if stop > length {
        lemma_cleared_keeps_clear(s1, w2, w1);
    }
    let s3 = cleared(s2, e);
    lemma_cleared_loop(s2, e, len);
    lemma_cleared_keeps_clear(s2, e, w2);
    if stop > length {
        lemma_cleared_keeps_clear(s2, e, w1);
    }
    let r0 = inserted_complete(s2, e);
    assert(r0 == s3 + seq![e]);
    assert(loop_inserted(s, e, length) == shifted_back(r0, length));
    assert forall|i: int| 0 <= i < r0.len() && (#[trigger] r0[i]).stop.is_some() implies r0[i].start
        < r0[i].stop.unwrap() <= r0[i].start + len && r0[i].stop.unwrap() <= 2 * len by {
        if i < s3.len() {
            assert(r0[i] == s3[i]);
        }
    }
    assert forall|a: int, b: int|
        0 <= a < r0.len() && 0 <= b < r0.len() && a != b && r0[a].row == r0[b].row implies loop_disjoint(
        r0[a],
        r0[b],
        len,
    ) by {
        if a < s3.len() && b < s3.len() {
            assert(r0[a] == s3[a] && r0[b] == s3[b]);
        } else {
            let x = if a < s3.len() {
                a
            } else {
                b
            };
            assert(x < s3.len());
            assert(r0[x] == s3[x]);
            let p = s3[x];
            if p.stop.is_some() {
                assert(competes(p, e));
                assert(disjoint(p, e));
                assert(competes(p, w2));
                assert(disjoint(p, w2));
                if stop > length {
                    assert(competes(p, w1));
                    assert(disjoint(p, w1));
                }
            }
        }
    }
    let r = shifted_back(r0, length);
    lemma_shifted_back(r0, length);
    assert forall|i: int| 0 <= i < r.len() && (#[trigger] r[i]).stop.is_some() implies r[i].start
        < length && r[i].start < r[i].stop.unwrap() <= r[i].start + length by {
        assert(r[i] == shifted_one(r0[i], length));
        assert(r0[i].stop.is_some());
    }
    assert forall|a: int, b: int|
        0 <= a < r.len() && 0 <= b < r.len() && a != b && r[a].row == r[b].row implies loop_disjoint(
        r[a],
        r[b],
        len,
    ) by {
        assert(r[a] == shifted_one(r0[a], length));
        assert(r[b] == shifted_one(r0[b], length));
        assert(loop_disjoint(r0[a], r0[b], len));
        if r0[a].stop.is_some() {
            assert(r0[a].stop.unwrap() <= 2 * len);
        }
        if r0[b].stop.is_some() {
            assert(r0[b].stop.unwrap() <= 2 * len);
        }
    }
}


} // verus!
