use vstd::prelude::*;
use std::ops::Range;
use crate::events::{LoopEvent, NoteVelocity};
use crate::loopable::{Pattern, Phrase, valid_ref};
use crate::timeline::TimelineError;
use crate::cycle::{ProcessCycle, frame_of};
use vstd::seq_lib::{lemma_multiset_commutative, to_multiset_build, to_multiset_insert};

verus! {

/// Patterns and phrases that each instrument holds.
pub const SLOTS: usize = 5;

/// Highest tick at which a window may end, so that a note's stop still fits.
pub const MAX_WINDOW_TICK: u64 = 0xFFFF_FFFF_0000_0000;

/// A note occurrence resolved to absolute ticks.
#[derive(Debug, Clone, Copy, PartialEq, Eq, Structural)]
pub struct PlayingNoteEvent {
    pub start: u64,
    pub stop: u64,
    pub key: u8,
    pub start_velocity: u8,
    pub stop_velocity: u8,
}

/// A three-byte MIDI message at a frame offset in the buffer.
#[derive(Debug, Clone, Copy, PartialEq, Eq, Structural)]
pub struct TimedMessage {
    pub frame: u32,
    pub status: u8,
    pub data1: u8,
    pub data2: u8,
}

pub open spec fn note_off(channel: u8, p: PlayingNoteEvent, frame: int) -> TimedMessage {
    TimedMessage { frame: frame as u32, status: (0x80 + channel) as u8, data1: p.key, data2: p.stop_velocity }
}

pub open spec fn note_on(channel: u8, p: PlayingNoteEvent, frame: int) -> TimedMessage {
    TimedMessage { frame: frame as u32, status: (0x90 + channel) as u8, data1: p.key, data2: p.start_velocity }
}

/// Order of messages in a buffer: by frame, and a note-off before a note-on on one frame.
pub open spec fn message_rank(m: TimedMessage) -> int {
    2 * m.frame + if m.status >= 0x90 {
        1int
    } else {
        0int
    }
}

pub open spec fn in_frame_order(s: Seq<TimedMessage>) -> bool {
    forall|i: int, j: int| 0 <= i < j < s.len() ==> message_rank(s[i]) <= message_rank(s[j])
}

/// The note's stop falls in the cycle's ticks.
pub open spec fn stops_in(p: PlayingNoteEvent, c: ProcessCycle) -> bool {
    c.tick_range.start <= p.stop < c.tick_range.end
}

/// A note starting in the cycle that also stops in it on the frame it starts at: it
/// would sound for no frame at all.
pub open spec fn degenerate(p: PlayingNoteEvent, c: ProcessCycle) -> bool {
    p.stop < c.tick_range.end && frame_of(c, p.stop as int) == frame_of(c, p.start as int)
}

/// The starting notes of `s` that sound for at least one frame, in their order.
pub open spec fn live(s: Seq<PlayingNoteEvent>, c: ProcessCycle) -> Seq<PlayingNoteEvent>
    decreases s.len(),
{
    if s.len() == 0 {
        seq![]
    } else if degenerate(s.last(), c) {
        live(s.drop_last(), c)
    } else {
        live(s.drop_last(), c).push(s.last())
    }
}

/// The sounding notes that go on past the cycle, in their order.
pub open spec fn still_sounding(s: Seq<PlayingNoteEvent>, c: ProcessCycle) -> Seq<PlayingNoteEvent>
    decreases s.len(),
{
    if s.len() == 0 {
        seq![]
    } else if stops_in(s.last(), c) {
        still_sounding(s.drop_last(), c)
    } else {
        still_sounding(s.drop_last(), c).push(s.last())
    }
}

/// A note-off, at its frame, for each note of `s` that stops in the cycle.
pub open spec fn note_offs(s: Seq<PlayingNoteEvent>, c: ProcessCycle, channel: u8) -> Seq<
    TimedMessage,
>
    decreases s.len(),
{
    if s.len() == 0 {
        seq![]
    } else if stops_in(s.last(), c) {
        note_offs(s.drop_last(), c, channel).push(
            note_off(channel, s.last(), frame_of(c, s.last().stop as int)),
        )
    } else {
        note_offs(s.drop_last(), c, channel)
    }
}

/// A note-on, at its frame, for each starting note.
pub open spec fn note_ons(s: Seq<PlayingNoteEvent>, c: ProcessCycle, channel: u8) -> Seq<
    TimedMessage,
>
    decreases s.len(),
{
    if s.len() == 0 {
        seq![]
    } else {
        note_ons(s.drop_last(), c, channel).push(
            note_on(channel, s.last(), frame_of(c, s.last().start as int)),
        )
    }
}

/// After a flush nothing sounds, so the next cycle stops no note a second time and
/// keeps no note sounding.
pub proof fn lemma_nothing_after_flush(c: ProcessCycle, channel: u8)
    ensures
        note_offs(Seq::<PlayingNoteEvent>::empty(), c, channel) == Seq::<TimedMessage>::empty(),
        still_sounding(Seq::<PlayingNoteEvent>::empty(), c) == Seq::<PlayingNoteEvent>::empty(),
{
}

/// The notes of `v` hold `p`.
fn contains_note(v: &Vec<PlayingNoteEvent>, p: PlayingNoteEvent) -> (r: bool)
    ensures
        r == v@.contains(p),
{
    let mut i: usize = 0;
    while i < v.len()
        invariant
            0 <= i <= v.len(),
            forall|k: int| 0 <= k < i ==> v@[k] != p,
        decreases v.len() - i,
    {
        if v[i] == p {
            proof {
                assert(v@[i as int] == p);
            }
            return true;
        }
        i += 1;
    }
    false
}

/// Inserts `m` after every message that goes before it or with it.
pub(crate) fn insert_in_frame_order(messages: &mut Vec<TimedMessage>, m: TimedMessage)
    requires
        in_frame_order(old(messages)@),
    ensures
        in_frame_order(final(messages)@),
        final(messages)@.to_multiset() == old(messages)@.to_multiset().insert(m),
{
    let rank: u64 = 2 * m.frame as u64 + if m.status >= 0x90 {
        1
    } else {
        0
    };
    let mut i: usize = 0;
    let mut found = false;
    while !found && i < messages.len()
        invariant
            0 <= i <= messages.len(),
            messages@ == old(messages)@,
            rank == message_rank(m),
            forall|k: int| 0 <= k < i ==> message_rank(messages@[k]) <= rank,
            found ==> i < messages.len() && message_rank(messages@[i as int]) > rank,
        decreases messages.len() - i + if found {
            0int
        } else {
            1int
        },
    {
        let other = messages[i];
        let other_rank: u64 = 2 * other.frame as u64 + if other.status >= 0x90 {
            1
        } else {
            0
        };
        if other_rank > rank {
            found = true;
        } else {
            i += 1;
        }
    }
    proof {
        to_multiset_insert(messages@, i as int, m);
    }
    let ghost before = messages@;
    messages.insert(i, m);
    proof {
        assert forall|x: int, y: int|
            0 <= x < y < messages@.len() implies message_rank(messages@[x]) <= message_rank(
            messages@[y],
        ) by {
            if y < i {
            } else if y == i {
            } else if x < i {
                assert(messages@[y] == before[y - 1]);
            } else if x == i {
                assert(messages@[y] == before[y - 1]);
                if y - 1 > i {
                    assert(message_rank(before[i as int]) <= message_rank(before[y - 1]));
                }
            } else {
                assert(messages@[x] == before[x - 1]);
                assert(messages@[y] == before[y - 1]);
            }
        }
    }
}

/// Note `n` sounds when reference `r` plays its pattern: `r` is one that playback
/// follows, `n` is closed and not empty, and it starts before `r` stops.
pub open spec fn plays(r: LoopEvent<()>, n: LoopEvent<NoteVelocity>, length: u32) -> bool {
    &&& valid_ref(r, length)
    &&& n.stop.is_some()
    &&& n.start < n.stop.unwrap()
    &&& r.start + n.start < r.stop.unwrap()
}

/// Absolute start of note `n` of reference `r` in pass `k` of a phrase of `length`
/// ticks that began at `seq_start`: the reference plays its pattern from its own start,
/// and what runs past the phrase's end sounds at the start of the following pass.
pub open spec fn occurrence_start(
    r: LoopEvent<()>,
    n: LoopEvent<NoteVelocity>,
    length: u32,
    seq_start: int,
    k: int,
) -> int {
    seq_start + k * length + r.start + n.start
}

pub open spec fn occurrence(
    r: LoopEvent<()>,
    n: LoopEvent<NoteVelocity>,
    length: u32,
    seq_start: int,
    k: int,
) -> PlayingNoteEvent {
    let start = occurrence_start(r, n, length, seq_start, k);
    PlayingNoteEvent {
        start: start as u64,
        stop: (start + n.stop.unwrap() - n.start) as u64,
        key: n.row,
        start_velocity: n.payload.start,
        stop_velocity: n.payload.stop,
    }
}

/// Reference `i` of `phrase` plays note `j` of its pattern in pass `k`, starting in
/// the window `[a, b)`.
pub open spec fn starts_at(
    patterns: Seq<Pattern>,
    phrase: Phrase,
    seq_start: int,
    a: int,
    b: int,
    i: int,
    j: int,
    k: int,
) -> bool {
    &&& 0 <= i < phrase.pattern_events@.len()
    &&& phrase.pattern_events@[i].row < patterns.len()
    &&& 0 <= j < patterns[phrase.pattern_events@[i].row as int].note_events@.len()
    &&& plays(
        phrase.pattern_events@[i],
        patterns[phrase.pattern_events@[i].row as int].note_events@[j],
        phrase.length,
    )
    &&& a <= occurrence_start(
        phrase.pattern_events@[i],
        patterns[phrase.pattern_events@[i].row as int].note_events@[j],
        phrase.length,
        seq_start,
        k,
    ) < b
}

pub open spec fn note_of(
    patterns: Seq<Pattern>,
    phrase: Phrase,
    seq_start: int,
    i: int,
    j: int,
    k: int,
) -> PlayingNoteEvent {
    occurrence(
        phrase.pattern_events@[i],
        patterns[phrase.pattern_events@[i].row as int].note_events@[j],
        phrase.length,
        seq_start,
        k,
    )
}

/// `p` is a note that starts in the window `[a, b)` when `phrase` loops from `seq_start`.
pub open spec fn is_starting_note(
    patterns: Seq<Pattern>,
    phrase: Phrase,
    seq_start: int,
    a: int,
    b: int,
    p: PlayingNoteEvent,
) -> bool {
    exists|i: int, j: int, k: int|
        starts_at(patterns, phrase, seq_start, a, b, i, j, k) && p == #[trigger] note_of(
            patterns,
            phrase,
            seq_start,
            i,
            j,
            k,
        )
}

/// Owns a fixed set of patterns and phrases, and the notes it has started and not yet
/// stopped.
pub struct Instrument {
    pub patterns: Vec<Pattern>,
    pub phrases: Vec<Phrase>,
    pub playing_notes: Vec<PlayingNoteEvent>,
    pub channel: u8,
    /// The notes handed to the last buffer's output to start.
    pub started: Ghost<Seq<PlayingNoteEvent>>,
}

proof fn lemma_one_step(k: int, k0: int, length: int)
    requires
        length > 0,
        -length < (k - k0) * length < length,
    ensures
        k == k0,
{
    if k > k0 {
        assert((k - k0) * length >= length) by (nonlinear_arith)
            requires
                k - k0 >= 1,
                length > 0,
        ;
    } else if k < k0 {
        assert((k - k0) * length <= -length) by (nonlinear_arith)
            requires
                k - k0 <= -1,
                length > 0,
        ;
    }
}

impl Instrument {
    /// An instrument on MIDI channel `channel`, with empty patterns and phrases and
    /// nothing sounding.
    pub fn new(channel: u8) -> (r: Self)
        requires
            channel < 16,
        ensures
            r.wf(),
            r.channel == channel,
            r.playing_notes@ == Seq::<PlayingNoteEvent>::empty(),
            forall|i: int| 0 <= i < SLOTS ==> r.patterns@[i].note_events@.len() == 0 && r.patterns@[i].wf(),
            forall|i: int|
                0 <= i < SLOTS ==> r.phrases@[i].pattern_events@.len() == 0 && r.phrases@[i].length
                    == crate::loopable::DEFAULT_PHRASE_LENGTH,
    {
        let mut patterns: Vec<Pattern> = Vec::new();
        let mut phrases: Vec<Phrase> = Vec::new();
        let mut i: usize = 0;
        while i < SLOTS
            invariant
                0 <= i <= SLOTS,
                patterns@.len() == i,
                phrases@.len() == i,
                forall|k: int| 0 <= k < i ==> patterns@[k].note_events@.len() == 0 && patterns@[k].wf(),
                forall|k: int|
                    0 <= k < i ==> phrases@[k].pattern_events@.len() == 0 && phrases@[k].length
                        == crate::loopable::DEFAULT_PHRASE_LENGTH,
            decreases SLOTS - i,
        {
            patterns.push(Pattern::new());
            phrases.push(Phrase::new());
            i += 1;
        }
        Instrument {
            patterns,
            phrases,
            playing_notes: Vec::new(),
            channel,
            started: Ghost(Seq::empty()),
        }
    }

    /// Pattern `index`, to be edited in place.
    pub fn get_pattern(&mut self, index: u8) -> (r: &mut Pattern)
        requires
            old(self).wf(),
            index < SLOTS,
        ensures
            final(self).wf(),
            *r == old(self).patterns@[index as int],
            final(self).patterns@ == old(self).patterns@.update(index as int, *final(r)),
            final(self).phrases == old(self).phrases,
            final(self).playing_notes == old(self).playing_notes,
            final(self).channel == old(self).channel,
    {
        &mut self.patterns[index as usize]
    }

    /// Phrase `index`, to be edited in place.
    pub fn phrase_mut(&mut self, index: u8) -> (r: &mut Phrase)
        requires
            old(self).wf(),
            index < SLOTS,
        ensures
            final(self).wf(),
            *r == old(self).phrases@[index as int],
            final(self).phrases@ == old(self).phrases@.update(index as int, *final(r)),
            final(self).patterns == old(self).patterns,
            final(self).playing_notes == old(self).playing_notes,
            final(self).channel == old(self).channel,
    {
        &mut self.phrases[index as usize]
    }

    pub fn pattern(&self, index: u8) -> (r: &Pattern)
        requires
            self.wf(),
            index < SLOTS,
        ensures
            *r == self.patterns@[index as int],
    {
        &self.patterns[index as usize]
    }

    pub fn phrase(&self, index: u8) -> (r: &Phrase)
        requires
            self.wf(),
            index < SLOTS,
        ensures
            *r == self.phrases@[index as int],
    {
        &self.phrases[index as usize]
    }

    /// Overwrites pattern `to` with a copy of pattern `from`.
    pub fn clone_pattern(&mut self, from: u8, to: u8)
        requires
            old(self).wf(),
            from < SLOTS,
            to < SLOTS,
        ensures
            final(self).wf(),
            final(self).patterns@[to as int].note_events@ == old(self).patterns@[from as int].note_events@,
            final(self).patterns@[to as int].length == old(self).patterns@[from as int].length,
            forall|k: int| 0 <= k < SLOTS && k != to ==> final(self).patterns@[k] == old(self).patterns@[k],
            final(self).phrases == old(self).phrases,
            final(self).playing_notes == old(self).playing_notes,
            final(self).channel == old(self).channel,
    {
        let copy = self.patterns[from as usize].copy_of();
        self.patterns[to as usize] = copy;
    }

    /// Overwrites phrase `to` with a copy of phrase `from`.
    pub fn clone_phrase(&mut self, from: u8, to: u8)
        requires
            old(self).wf(),
            from < SLOTS,
            to < SLOTS,
        ensures
            final(self).wf(),
            final(self).phrases@[to as int].length == old(self).phrases@[from as int].length,
            final(self).phrases@[to as int].pattern_events@ == old(self).phrases@[from as int].pattern_events@,
            forall|k: int| 0 <= k < SLOTS && k != to ==> final(self).phrases@[k] == old(self).phrases@[k],
            final(self).patterns == old(self).patterns,
            final(self).playing_notes == old(self).playing_notes,
            final(self).channel == old(self).channel,
    {
        let copy = self.phrases[from as usize].copy_of();
        self.phrases[to as usize] = copy;
    }

    /// Stops every sounding note now, at the buffer's first frame: on a transport stop
    /// or reposition, so that no note hangs.
    pub fn flush(&mut self) -> (r: Vec<TimedMessage>)
        requires
            old(self).wf(),
        ensures
            final(self).wf(),
            final(self).playing_notes@ == Seq::<PlayingNoteEvent>::empty(),
            final(self).patterns == old(self).patterns,
            final(self).phrases == old(self).phrases,
            final(self).channel == old(self).channel,
            r@.len() == old(self).playing_notes@.len(),
            forall|i: int|
                0 <= i < r@.len() ==> r@[i] == note_off(
                    old(self).channel,
                    old(self).playing_notes@[i],
                    0,
                ),
    {
        let mut out: Vec<TimedMessage> = Vec::new();
        let mut i: usize = 0;
        while i < self.playing_notes.len()
            invariant
                0 <= i <= self.playing_notes.len(),
                self.channel < 16,
                out@.len() == i,
                forall|k: int|
                    0 <= k < i ==> out@[k] == note_off(self.channel, self.playing_notes@[k], 0),
            decreases self.playing_notes.len() - i,
        {
            let p = self.playing_notes[i];
            out.push(TimedMessage { frame: 0, status: 0x80 + self.channel, data1: p.key, data2: p.stop_velocity });
            i += 1;
        }
        self.playing_notes.clear();
        out
    }

    /// One buffer's MIDI. A note-off for each sounding note whose stop falls in the
    /// cycle, which then no longer sounds. While the transport rolls, a note-on for each
    /// starting note, which then sounds; one that also stops in the cycle gets its
    /// note-off here too and does not stay sounding, and one that would stop on the very
    /// frame it starts is left out. Messages come in frame order, note-offs first on a
    /// frame.
    pub fn output_midi(&mut self, cycle: &ProcessCycle, starting_notes: Vec<PlayingNoteEvent>) -> (r:
        Vec<TimedMessage>)
        requires
            old(self).wf(),
            cycle.wf(),
            forall|k: int|
                0 <= k < starting_notes@.len() ==> cycle.tick_range.start <= #[trigger] starting_notes@[k].start
                    < cycle.tick_range.end && starting_notes@[k].start < starting_notes@[k].stop,
        ensures
            final(self).wf(),
            final(self).patterns == old(self).patterns,
            final(self).phrases == old(self).phrases,
            final(self).channel == old(self).channel,
            final(self).started@ == if cycle.is_rolling {
                starting_notes@
            } else {
                Seq::<PlayingNoteEvent>::empty()
            },
            final(self).playing_notes@ == still_sounding(old(self).playing_notes@, *cycle)
                + still_sounding(live(final(self).started@, *cycle), *cycle),
            in_frame_order(r@),
            r@.to_multiset() == (note_offs(old(self).playing_notes@, *cycle, old(self).channel)
                + note_ons(live(final(self).started@, *cycle), *cycle, old(self).channel)
                + note_offs(live(final(self).started@, *cycle), *cycle, old(self).channel)).to_multiset(),
    {
        broadcast use vstd::multiset::group_multiset_axioms;

        let channel = self.channel;
        let mut messages: Vec<TimedMessage> = Vec::new();
        let mut kept: Vec<PlayingNoteEvent> = Vec::new();
        proof {
            vstd::seq_lib::to_multiset_len(messages@);
            vstd::multiset::lemma_multiset_empty_len(messages@.to_multiset());
        }
        let mut i: usize = 0;
        while i < self.playing_notes.len()
            invariant
                0 <= i <= self.playing_notes.len(),
                channel == self.channel < 16,
                cycle.wf(),
                in_frame_order(messages@),
                messages@.to_multiset() == note_offs(self.playing_notes@.take(i as int), *cycle, channel).to_multiset(),
                kept@ == still_sounding(self.playing_notes@.take(i as int), *cycle),
            decreases self.playing_notes.len() - i,
        {
            let p = self.playing_notes[i];
            proof {
                assert(self.playing_notes@.take(i as int + 1).drop_last() == self.playing_notes@.take(i as int));
            }
            if cycle.tick_range.start <= p.stop && p.stop < cycle.tick_range.end {
                let frame = cycle.tick_to_frame(p.stop);
                let m = TimedMessage { frame, status: 0x80 + channel, data1: p.key, data2: p.stop_velocity };
                proof {
                    to_multiset_build(note_offs(self.playing_notes@.take(i as int), *cycle, channel), m);
                }
                insert_in_frame_order(&mut messages, m);
            } else {
                kept.push(p);
            }
            i += 1;
        }
        proof {
            assert(self.playing_notes@.take(self.playing_notes@.len() as int) == self.playing_notes@);
        }
        let ghost offs = note_offs(self.playing_notes@, *cycle, channel);
        let ghost sounding = kept@;
        let ghost started = if cycle.is_rolling {
            starting_notes@
        } else {
            Seq::<PlayingNoteEvent>::empty()
        };
        if cycle.is_rolling {
            let mut j: usize = 0;
            proof {
                assert(starting_notes@.take(0) =~= Seq::<PlayingNoteEvent>::empty());
                assert(sounding + Seq::<PlayingNoteEvent>::empty() =~= sounding);
                assert(offs.to_multiset().add(Seq::<TimedMessage>::empty().to_multiset()).add(
                    Seq::<TimedMessage>::empty().to_multiset()) =~= offs.to_multiset()) by {
                    vstd::seq_lib::to_multiset_len(Seq::<TimedMessage>::empty());
                    vstd::multiset::lemma_multiset_empty_len(Seq::<TimedMessage>::empty().to_multiset());
                }
            }
            while j < starting_notes.len()
                invariant
                    0 <= j <= starting_notes.len(),
                    channel < 16,
                    cycle.wf(),
                    forall|k: int|
                        0 <= k < starting_notes@.len() ==> cycle.tick_range.start
                            <= #[trigger] starting_notes@[k].start < cycle.tick_range.end
                            && starting_notes@[k].start < starting_notes@[k].stop,
                    in_frame_order(messages@),
                    messages@.to_multiset() == offs.to_multiset().add(
                        note_ons(live(starting_notes@.take(j as int), *cycle), *cycle, channel).to_multiset(),
                    ).add(note_offs(live(starting_notes@.take(j as int), *cycle), *cycle, channel).to_multiset()),
                    kept@ == sounding + still_sounding(live(starting_notes@.take(j as int), *cycle), *cycle),
                decreases starting_notes.len() - j,
            {
                let p = starting_notes[j];
                let ghost l0 = live(starting_notes@.take(j as int), *cycle);
                proof {
                    assert(starting_notes@.take(j as int + 1).drop_last() == starting_notes@.take(j as int));
                    assert(starting_notes@.take(j as int + 1).last() == p);
                }
                let start_frame = cycle.tick_to_frame(p.start);
                let on = TimedMessage { frame: start_frame, status: 0x90 + channel, data1: p.key, data2: p.start_velocity };
                if p.stop < cycle.tick_range.end {
                    let stop_frame = cycle.tick_to_frame(p.stop);
                    if stop_frame != start_frame {
                        let off = TimedMessage { frame: stop_frame, status: 0x80 + channel, data1: p.key, data2: p.stop_velocity };
                        proof {
                            let l1 = live(starting_notes@.take(j as int + 1), *cycle);
                            assert(l1 == l0.push(p));
                            assert(l1.drop_last() == l0);
                            assert(note_ons(l1, *cycle, channel) == note_ons(l0, *cycle, channel).push(on));
                            assert(note_offs(l1, *cycle, channel) == note_offs(l0, *cycle, channel).push(off));
                            assert(still_sounding(l1, *cycle) == still_sounding(l0, *cycle));
                            to_multiset_build(note_ons(l0, *cycle, channel), on);
                            to_multiset_build(note_offs(l0, *cycle, channel), off);
                            assert(offs.to_multiset().add(note_ons(l1, *cycle, channel).to_multiset()).add(
                                note_offs(l1, *cycle, channel).to_multiset()) =~= offs.to_multiset().add(
                                note_ons(l0, *cycle, channel).to_multiset()).add(
                                note_offs(l0, *cycle, channel).to_multiset()).insert(on).insert(off));
                        }
                        insert_in_frame_order(&mut messages, on);
                        insert_in_frame_order(&mut messages, off);
                    } else {
                        proof {
                            let l1 = live(starting_notes@.take(j as int + 1), *cycle);
                            assert(l1 == l0);
                        }
                    }
                } else {
                    proof {
                        let l1 = live(starting_notes@.take(j as int + 1), *cycle);
                        assert(l1 == l0.push(p));
                        assert(l1.drop_last() == l0);
                        assert(note_ons(l1, *cycle, channel) == note_ons(l0, *cycle, channel).push(on));
                        assert(note_offs(l1, *cycle, channel) == note_offs(l0, *cycle, channel));
                        assert(still_sounding(l1, *cycle) == still_sounding(l0, *cycle).push(p));
                        to_multiset_build(note_ons(l0, *cycle, channel), on);
                        assert(offs.to_multiset().add(note_ons(l1, *cycle, channel).to_multiset()).add(
                            note_offs(l1, *cycle, channel).to_multiset()) =~= offs.to_multiset().add(
                            note_ons(l0, *cycle, channel).to_multiset()).add(
                            note_offs(l0, *cycle, channel).to_multiset()).insert(on));
                        assert(sounding + still_sounding(l1, *cycle) =~= (sounding + still_sounding(l0, *cycle)).push(p));
                    }
                    insert_in_frame_order(&mut messages, on);
                    kept.push(p);
                }
                j += 1;
            }
            proof {
                assert(starting_notes@.take(starting_notes@.len() as int) == starting_notes@);
            }
        } else {
            proof {
                assert(live(Seq::<PlayingNoteEvent>::empty(), *cycle) =~= Seq::<PlayingNoteEvent>::empty());
                assert(sounding + still_sounding(Seq::<PlayingNoteEvent>::empty(), *cycle) =~= sounding);
                vstd::seq_lib::to_multiset_len(Seq::<TimedMessage>::empty());
                vstd::multiset::lemma_multiset_empty_len(Seq::<TimedMessage>::empty().to_multiset());
                assert(offs.to_multiset().add(Seq::<TimedMessage>::empty().to_multiset()).add(
                    Seq::<TimedMessage>::empty().to_multiset()) =~= offs.to_multiset());
            }
        }
        proof {
            let l = live(started, *cycle);
            lemma_multiset_commutative(offs, note_ons(l, *cycle, channel));
            lemma_multiset_commutative(offs + note_ons(l, *cycle, channel), note_offs(l, *cycle, channel));
        }
        self.playing_notes = kept;
        self.started = Ghost(started);
        messages
    }

    /// Pushes each pass's occurrence of note `j` of reference `i` that starts in the
    /// window, from the first at or after its start, one phrase length apart.
    fn push_occurrences(
        &self,
        out: &mut Vec<PlayingNoteEvent>,
        i: usize,
        j: usize,
        r: LoopEvent<()>,
        n: LoopEvent<NoteVelocity>,
        n_stop: u32,
        d: u64,
        range: Range<u64>,
        sequence_start: u64,
        phrase_index: u8,
    )
        requires
            self.wf(),
            phrase_index < SLOTS,
            self.phrases@[phrase_index as int].length > 0,
            sequence_start <= range.start < range.end <= MAX_WINDOW_TICK,
            d == range.start - sequence_start,
            0 <= i < self.phrases@[phrase_index as int].pattern_events@.len(),
            r == self.phrases@[phrase_index as int].pattern_events@[i as int],
            r.row < SLOTS,
            0 <= j < self.patterns@[r.row as int].note_events@.len(),
            n == self.patterns@[r.row as int].note_events@[j as int],
            plays(r, n, self.phrases@[phrase_index as int].length),
            n_stop == n.stop.unwrap(),
            old(out)@.no_duplicates(),
            forall|q: int|
                0 <= q < old(out)@.len() ==> is_starting_note(
                    self.patterns@,
                    self.phrases@[phrase_index as int],
                    sequence_start as int,
                    range.start as int,
                    range.end as int,
                    old(out)@[q],
                ),
        ensures
            final(out)@.no_duplicates(),
            forall|q: int|
                0 <= q < final(out)@.len() ==> is_starting_note(
                    self.patterns@,
                    self.phrases@[phrase_index as int],
                    sequence_start as int,
                    range.start as int,
                    range.end as int,
                    final(out)@[q],
                ),
            forall|x: PlayingNoteEvent| old(out)@.contains(x) ==> final(out)@.contains(x),
            forall|k2: int|
                starts_at(
                    self.patterns@,
                    self.phrases@[phrase_index as int],
                    sequence_start as int,
                    range.start as int,
                    range.end as int,
                    i as int,
                    j as int,
                    k2,
                ) ==> final(out)@.contains(
                    #[trigger] note_of(
                        self.patterns@,
                        self.phrases@[phrase_index as int],
                        sequence_start as int,
                        i as int,
                        j as int,
                        k2,
                    ),
                ),
    {
        let ghost phrase = self.phrases@[phrase_index as int];
        let ghost pats = self.patterns@;
        let ghost s = sequence_start as int;
        let ghost a = range.start as int;
        let ghost b = range.end as int;
        let length: u64 = self.phrases[phrase_index as usize].length as u64;
        let x0: u64 = r.start as u64 + n.start as u64;
        let ghost k0: int;
        let mut t: u64;
        if x0 >= d {
            let q: u64 = (x0 - d) / length;
            proof {
                vstd::arithmetic::div_mod::lemma_fundamental_div_mod((x0 - d) as int, length as int);
                vstd::arithmetic::div_mod::lemma_mod_pos_bound((x0 - d) as int, length as int);
                assert(q * length <= x0 - d) by (nonlinear_arith)
                    requires
                        x0 - d == length * q + (x0 - d) % (length as int),
                        (x0 - d) % (length as int) >= 0,
                ;
            }
            proof {
                assert(x0 - d - q * length < length) by (nonlinear_arith)
                    requires
                        x0 - d == length * q + (x0 - d) % (length as int),
                        (x0 - d) % (length as int) < length,
                ;
            }
            t = x0 - q * length;
            proof {
                k0 = -q;
                assert(t == x0 + k0 * length) by (nonlinear_arith)
                    requires
                        t == x0 - q * length,
                        k0 == -q,
                ;
                assert(d <= t < d + length);
            }
        } else {
            let q: u64 = (d - x0 + length - 1) / length;
            proof {
                vstd::arithmetic::div_mod::lemma_fundamental_div_mod(
                    (d - x0 + length - 1) as int,
                    length as int,
                );
                vstd::arithmetic::div_mod::lemma_mod_pos_bound(
                    (d - x0 + length - 1) as int,
                    length as int,
                );
                assert(q * length <= d - x0 + length - 1) by (nonlinear_arith)
                    requires
                        d - x0 + length - 1 == length * q + (d - x0 + length - 1) % (length as int),
                        (d - x0 + length - 1) % (length as int) >= 0,
                ;
                assert(q * length >= d - x0) by (nonlinear_arith)
                    requires
                        d - x0 + length - 1 == length * q + (d - x0 + length - 1) % (length as int),
                        (d - x0 + length - 1) % (length as int) < length,
                ;
            }
            t = x0 + q * length;
            proof {
                k0 = q as int;
                assert(d <= t < d + length);
            }
        }
        let ghost mut k: int = k0;
        proof {
            assert(d <= t < d + length);
            assert(a == s + d);
            assert forall|k2: int|
                a <= #[trigger] occurrence_start(r, n, phrase.length, s, k2) < s + t implies false by {
                let v = occurrence_start(r, n, phrase.length, s, k2);
                assert(v == s + k2 * length + x0);
                assert(v - s - t == (k2 - k0) * length) by (nonlinear_arith)
                    requires
                        v == s + k2 * length + x0,
                        t == x0 + k0 * length,
                ;
                assert(-length < (k2 - k0) * length < 0);
                lemma_one_step(k2, k0, length as int);
            }
        }
        let dur: u64 = (n_stop - n.start) as u64;
        while t < range.end - sequence_start
            invariant
                self.wf(),
                phrase == self.phrases@[phrase_index as int],
                pats == self.patterns@,
                s == sequence_start,
                a == range.start,
                b == range.end,
                phrase_index < SLOTS,
                length == phrase.length > 0,
                sequence_start <= range.start < range.end <= MAX_WINDOW_TICK,
                d == range.start - sequence_start,
                0 <= i < phrase.pattern_events@.len(),
                r == phrase.pattern_events@[i as int],
                r.row < SLOTS,
                0 <= j < pats[r.row as int].note_events@.len(),
                n == pats[r.row as int].note_events@[j as int],
                plays(r, n, phrase.length),
                dur == n_stop - n.start,
                n_stop == n.stop.unwrap(),
                x0 == r.start + n.start,
                t == x0 + k * length,
                d <= t,
                out@.no_duplicates(),
                forall|q: int|
                    0 <= q < out@.len() ==> is_starting_note(pats, phrase, s, a, b, out@[q]),
                forall|x: PlayingNoteEvent| old(out)@.contains(x) ==> out@.contains(x),
                forall|k2: int|
                    starts_at(pats, phrase, s, a, b, i as int, j as int, k2)
                        && occurrence_start(r, n, phrase.length, s, k2) < s + t ==> out@.contains(
                        #[trigger] note_of(pats, phrase, s, i as int, j as int, k2),
                    ),
            decreases range.end - sequence_start + length - t,
        {
            let start: u64 = sequence_start + t;
            let p = PlayingNoteEvent {
                start,
                stop: start + dur,
                key: n.row,
                start_velocity: n.payload.start,
                stop_velocity: n.payload.stop,
            };
            let ghost before = out@;
            proof {
                assert(occurrence_start(r, n, phrase.length, s, k) == s + t);
                assert(p == note_of(pats, phrase, s, i as int, j as int, k));
                assert(starts_at(pats, phrase, s, a, b, i as int, j as int, k));
            }
            let already = contains_note(out, p);
            if !already {
                out.push(p);
                proof {
                    assert(out@[out@.len() - 1] == p);
                    assert forall|x: int, y: int| 0 <= x < y < out@.len() implies out@[x] != out@[y] by {
                        if y == out@.len() - 1 {
                            assert(out@[x] == before[x]);
                        } else {
                            assert(out@[x] == before[x] && out@[y] == before[y]);
                        }
                    }
                }
            }
            proof {
                assert(out@.contains(p)) by {
                    if !already {
                        assert(out@[out@.len() - 1] == p);
                    }
                }
                assert forall|x: PlayingNoteEvent| before.contains(x) implies out@.contains(x) by {
                    let w = choose|w: int| 0 <= w < before.len() && before[w] == x;
                    assert(out@[w] == x);
                }
                assert forall|k2: int|
                    starts_at(pats, phrase, s, a, b, i as int, j as int, k2) && occurrence_start(
                        r,
                        n,
                        phrase.length,
                        s,
                        k2,
                    ) < s + t + length implies out@.contains(
                    #[trigger] note_of(pats, phrase, s, i as int, j as int, k2),
                ) by {
                    if occurrence_start(r, n, phrase.length, s, k2) >= s + t {
                        assert(occurrence_start(r, n, phrase.length, s, k2) - s - t == (k2 - k)
                            * length) by (nonlinear_arith)
                            requires
                                occurrence_start(r, n, phrase.length, s, k2) == s + k2 * length
                                    + x0,
                                t == x0 + k * length,
                        ;
                        lemma_one_step(k2, k, length as int);
                        assert(p == note_of(pats, phrase, s, i as int, j as int, k2));
                    } else {
                        assert(before.contains(note_of(pats, phrase, s, i as int, j as int, k2)));
                    }
                }
            }
            t = t + length;
            proof {
                k = k + 1;
                assert(t == x0 + k * length) by (nonlinear_arith)
                    requires
                        t == x0 + (k - 1) * length + length,
                ;
            }
        }
    }
    pub open spec fn wf(&self) -> bool {
        &&& self.patterns@.len() == SLOTS
        &&& self.phrases@.len() == SLOTS
        &&& self.channel < 16
    }

    /// The notes that start in the window `range` of absolute ticks when phrase
    /// `phrase_index` loops from `sequence_start`: each note's occurrence in every pass
    /// of the phrase that starts in the window, and nothing else.
    pub fn starting_notes(&self, range: Range<u64>, sequence_start: u64, phrase_index: u8) -> (r:
        Result<Vec<PlayingNoteEvent>, TimelineError>)
        requires
            self.wf(),
            phrase_index < SLOTS,
            range.end <= MAX_WINDOW_TICK,
        ensures
            r is Err <==> (range.end <= range.start || range.start < sequence_start
                || self.phrases@[phrase_index as int].length == 0),
            range.end <= range.start ==> r == Err::<Vec<PlayingNoteEvent>, TimelineError>(
                TimelineError::EmptyRange,
            ),
            r is Ok ==> r->Ok_0@.no_duplicates(),
            r is Ok ==> forall|p: PlayingNoteEvent|
                r->Ok_0@.contains(p) <==> is_starting_note(
                    self.patterns@,
                    self.phrases@[phrase_index as int],
                    sequence_start as int,
                    range.start as int,
                    range.end as int,
                    p,
                ),
    {
        if range.end <= range.start {
            return Err(TimelineError::EmptyRange);
        }
        if range.start < sequence_start {
            return Err(TimelineError::BeforeStart);
        }
        let phrase = &self.phrases[phrase_index as usize];
        let length = phrase.length;
        if length == 0 {
            return Err(TimelineError::ZeroLength);
        }
        let ghost pats = self.patterns@;
        let ghost s = sequence_start as int;
        let ghost a = range.start as int;
        let ghost b = range.end as int;
        let d: u64 = range.start - sequence_start;
        let mut out: Vec<PlayingNoteEvent> = Vec::new();
        let mut i: usize = 0;
        while i < phrase.pattern_events.len()
            invariant
                self.wf(),
                phrase_index < SLOTS,
                *phrase == self.phrases@[phrase_index as int],
                pats == self.patterns@,
                length == phrase.length > 0,
                sequence_start <= range.start < range.end <= MAX_WINDOW_TICK,
                d == range.start - sequence_start,
                s == sequence_start,
                a == range.start,
                b == range.end,
                0 <= i <= phrase.pattern_events.len(),
                out@.no_duplicates(),
                forall|q: int|
                    0 <= q < out@.len() ==> is_starting_note(pats, *phrase, s, a, b, out@[q]),
                forall|i2: int, j2: int, k2: int|
                    i2 < i && starts_at(pats, *phrase, s, a, b, i2, j2, k2) ==> out@.contains(
                        #[trigger] note_of(pats, *phrase, s, i2, j2, k2),
                    ),
            decreases phrase.pattern_events.len() - i,
        {
            let r = phrase.pattern_events[i];
            let mut valid = false;
            let mut stop: u32 = 0;
            if let Some(t) = r.stop {
                stop = t;
                valid = (r.row as usize) < self.patterns.len() && r.start < length && r.start < t
                    && t as u64 <= r.start as u64 + length as u64;
            }
            if valid {
                let pattern = &self.patterns[r.row as usize];
                let mut j: usize = 0;
                while j < pattern.note_events.len()
                    invariant
                        self.wf(),
                        phrase_index < SLOTS,
                        *phrase == self.phrases@[phrase_index as int],
                        pats == self.patterns@,
                        length == phrase.length > 0,
                        sequence_start <= range.start < range.end <= MAX_WINDOW_TICK,
                        d == range.start - sequence_start,
                        s == sequence_start,
                        a == range.start,
                        b == range.end,
                        0 <= i < phrase.pattern_events.len(),
                        r == phrase.pattern_events@[i as int],
                        r.row < pats.len(),
                        *pattern == pats[r.row as int],
                        valid_ref(r, length),
                        stop == r.stop.unwrap(),
                        0 <= j <= pattern.note_events.len(),
                        out@.no_duplicates(),
                        forall|q: int|
                            0 <= q < out@.len() ==> is_starting_note(
                                pats,
                                *phrase,
                                s,
                                a,
                                b,
                                out@[q],
                            ),
                        forall|i2: int, j2: int, k2: int|
                            (i2 < i || (i2 == i && j2 < j)) && starts_at(
                                pats,
                                *phrase,
                                s,
                                a,
                                b,
                                i2,
                                j2,
                                k2,
                            ) ==> out@.contains(#[trigger] note_of(pats, *phrase, s, i2, j2, k2)),
                    decreases pattern.note_events.len() - j,
                {
                    let n = pattern.note_events[j];
                    let mut n_stop: u32 = 0;
                    let mut sounds = false;
                    if let Some(t) = n.stop {
                        n_stop = t;
                        sounds = n.start < t && (r.start as u64 + n.start as u64) < stop as u64;
                    }
                    if sounds {
                        self.push_occurrences(
                            &mut out,
                            i,
                            j,
                            r,
                            n,
                            n_stop,
                            d,
                            Range { start: range.start, end: range.end },
                            sequence_start,
                            phrase_index,
                        );
                    } else {
                        proof {
                            assert forall|k2: int|
                                !starts_at(pats, *phrase, s, a, b, i as int, j as int, k2) by {}
                        }
                    }
                    j += 1;
                }
            } else {
                proof {
                    assert forall|j2: int, k2: int|
                        !starts_at(pats, *phrase, s, a, b, i as int, j2, k2) by {}
                }
            }
            i += 1;
        }
        Ok(out)
    }
}

} // verus!
