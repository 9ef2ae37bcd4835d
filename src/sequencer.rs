use vstd::prelude::*;
use std::ops::Range;
use crate::cycle::ProcessCycle;
use crate::instrument::{
    Instrument,
    live,
    note_off,
    note_offs,
    note_ons,
    PlayingNoteEvent,
    TimedMessage,
    MAX_WINDOW_TICK,
    in_frame_order,
    insert_in_frame_order,
    SLOTS,
    is_starting_note,
    still_sounding,
};
use crate::sequence::{Sequence, INSTRUMENTS, first_two_play, longest, phrase_pairs, plays_nothing};
use vstd::seq_lib::to_multiset_build;
use vstd::multiset::Multiset;

verus! {

/// Sequences a sequencer holds.
pub const SEQUENCES: usize = 4;

/// The phrase that instrument `i` plays in `s`, if it plays one and is on.
pub open spec fn phrase_in(s: Sequence, i: int) -> Option<usize> {
    if s.active@[i] && s.phrases@[i] is Some {
        s.phrases@[i]
    } else {
        None
    }
}

/// `p` starts in `[a, b)` for instrument `i` when sequence `s` plays from `start`.
pub open spec fn sequenced_note(
    instruments: Seq<Instrument>,
    s: Sequence,
    i: int,
    start: int,
    a: int,
    b: int,
    p: PlayingNoteEvent,
) -> bool {
    match phrase_in(s, i) {
        Some(ph) => start <= a < b && instruments[i].phrases@[ph as int].length > 0
            && is_starting_note(
            instruments[i].patterns@,
            instruments[i].phrases@[ph as int],
            start,
            a,
            b,
            p,
        ),
        None => false,
    }
}

/// `p` is a note that instrument `i` starts in cycle `c` of sequencer `q`: while the
/// transport rolls, one of the playing sequence up to the switch tick, and one of the
/// queued sequence from there, which starts its pass at that tick.
pub open spec fn cycle_note(q: Sequencer, c: ProcessCycle, i: int, p: PlayingNoteEvent) -> bool {
    let a = c.tick_range.start as int;
    let b = c.tick_range.end as int;
    c.is_rolling && match q.switch_tick(a, b) {
        None => sequenced_note(
            q.instruments@,
            q.sequences@[q.sequence_playing as int],
            i,
            q.sequence_start as int,
            a,
            b,
            p,
        ),
        Some(x) => sequenced_note(
            q.instruments@,
            q.sequences@[q.sequence_playing as int],
            i,
            q.sequence_start as int,
            a,
            x,
            p,
        ) || sequenced_note(
            q.instruments@,
            q.sequences@[q.sequence_queued.unwrap() as int],
            i,
            x,
            x,
            b,
            p,
        ),
    }
}

/// Instrument `i` of sequencer `q` has become `now` after cycle `c`: the notes it
/// started are exactly those of the cycle, and it sounds those of before that go on past
/// the cycle, in their order, then those started that do.
pub open spec fn advanced(now: Instrument, q: Sequencer, c: ProcessCycle, i: int) -> bool {
    &&& now.playing_notes@ == still_sounding(q.instruments@[i].playing_notes@, c)
        + still_sounding(live(now.started@, c), c)
    &&& forall|p: PlayingNoteEvent| now.started@.contains(p) <==> cycle_note(q, c, i, p)
}

/// What instrument `was` sends in cycle `c` to become `now`: note-offs for the notes
/// whose stop falls in the cycle, note-ons for the notes it started, and note-offs for
/// those of them that stop in the cycle too.
pub open spec fn instrument_messages(was: Instrument, now: Instrument, c: ProcessCycle) -> Seq<
    TimedMessage,
> {
    note_offs(was.playing_notes@, c, was.channel) + note_ons(live(now.started@, c), c, was.channel)
        + note_offs(live(now.started@, c), c, was.channel)
}

/// The messages of the first `n` instruments, as a multiset.
pub open spec fn all_messages(was: Seq<Instrument>, now: Seq<Instrument>, c: ProcessCycle, n: int) -> Multiset<
    TimedMessage,
>
    decreases n,
{
    if n <= 0 {
        Multiset::empty()
    } else {
        all_messages(was, now, c, n - 1).add(
            instrument_messages(was[n - 1], now[n - 1], c).to_multiset(),
        )
    }
}

proof fn lemma_all_messages_prefix(
    was: Seq<Instrument>,
    now1: Seq<Instrument>,
    now2: Seq<Instrument>,
    c: ProcessCycle,
    n: int,
)
    requires
        0 <= n <= now1.len(),
        n <= now2.len(),
        forall|k: int| 0 <= k < n ==> now1[k] == now2[k],
    ensures
        all_messages(was, now1, c, n) == all_messages(was, now2, c, n),
    decreases n,
{
    if n > 0 {
        lemma_all_messages_prefix(was, now1, now2, c, n - 1);
        assert(now1[n - 1] == now2[n - 1]);
    }
}

proof fn lemma_same_instrument(
    s1: Seq<Instrument>,
    s2: Seq<Instrument>,
    sq: Sequence,
    i: int,
    st: int,
    x: int,
    y: int,
    p: PlayingNoteEvent,
)
    requires
        0 <= i < s1.len(),
        0 <= i < s2.len(),
        s1[i] == s2[i],
    ensures
        sequenced_note(s1, sq, i, st, x, y, p) == sequenced_note(s2, sq, i, st, x, y, p),
{
}

/// The instruments and sequences, which sequence plays (from which tick) and which one
/// is queued to take over when its pass ends.
pub struct Sequencer {
    pub instruments: Vec<Instrument>,
    pub sequences: Vec<Sequence>,
    pub sequence_playing: usize,
    pub sequence_queued: Option<usize>,
    pub sequence_start: u64,
    /// Whether the transport rolled in the last cycle.
    pub was_rolling: bool,
    /// The tick at which the last cycle ended, where the next one should start.
    pub next_tick: u64,
}

/// The note-off that stops each note sounding on instrument `x`, at the first frame, in
/// the order the notes sound.
pub open spec fn stop_all(x: Instrument) -> Seq<TimedMessage> {
    x.playing_notes@.map_values(|p: PlayingNoteEvent| note_off(x.channel, p, 0))
}

/// The note-offs that stop every sounding note of the instruments `s`, instrument by
/// instrument.
pub open spec fn flush_messages(s: Seq<Instrument>) -> Seq<TimedMessage>
    decreases s.len(),
{
    if s.len() == 0 {
        seq![]
    } else {
        flush_messages(s.drop_last()) + stop_all(s.last())
    }
}

impl Sequencer {
    pub open spec fn wf(&self) -> bool {
        &&& self.instruments@.len() == INSTRUMENTS
        &&& forall|i: int| 0 <= i < INSTRUMENTS ==> (#[trigger] self.instruments@[i]).wf()
        &&& self.sequences@.len() == SEQUENCES
        &&& forall|i: int| 0 <= i < SEQUENCES ==> (#[trigger] self.sequences@[i]).wf()
        &&& self.sequence_playing < SEQUENCES
        &&& self.sequence_queued is Some ==> self.sequence_queued.unwrap() < SEQUENCES
    }

    /// Length of the pass of the playing sequence, if it plays anything.
    pub open spec fn pass_length(&self) -> Option<u32> {
        longest(
            self.instruments@,
            phrase_pairs(
                self.sequences@[self.sequence_playing as int].phrases@,
                self.sequences@[self.sequence_playing as int].active@,
                false,
                INSTRUMENTS as int,
            ),
        )
    }

    /// Where in the window `[a, b)` the queued sequence takes over: at the end of the
    /// playing sequence's pass, or at once when the playing sequence plays nothing.
    pub open spec fn switch_tick(&self, a: int, b: int) -> Option<int> {
        match self.sequence_queued {
            None => None,
            Some(_) => match self.pass_length() {
                None => if a < b {
                    Some(a)
                } else {
                    None
                },
                Some(t) => if t == 0 || a < self.sequence_start {
                    None
                } else {
                    let boundary = self.sequence_start + ((a - self.sequence_start) / (t as int)
                        + 1) * t;
                    if boundary < b {
                        Some(boundary)
                    } else {
                        None
                    }
                },
            },
        }
    }

    /// Sixteen instruments, one per MIDI channel, with nothing sounding; four sequences,
    /// the first two playing the first and second phrases of the first two instruments,
    /// the last two nothing; the first one playing from tick 0 and queued again.
    pub fn new() -> (r: Self)
        ensures
            r.wf(),
            r.sequence_playing == 0,
            r.sequence_queued == Some(0usize),
            first_two_play(r.sequences@[0], 0),
            first_two_play(r.sequences@[1], 1),
            plays_nothing(r.sequences@[2]),
            plays_nothing(r.sequences@[3]),
            forall|i: int|
                0 <= i < INSTRUMENTS ==> (#[trigger] r.instruments@[i]).playing_notes@.len() == 0,
            r.sequence_start == 0,
            !r.was_rolling,
            r.next_tick == 0,
            forall|i: int| 0 <= i < INSTRUMENTS ==> (#[trigger] r.instruments@[i]).channel == i,
    {
        let mut instruments: Vec<Instrument> = Vec::new();
        let mut i: u8 = 0;
        while i < 16
            invariant
                0 <= i <= 16,
                instruments@.len() == i,
                forall|k: int|
                    0 <= k < i ==> (#[trigger] instruments@[k]).wf() && instruments@[k].channel == k
                        && instruments@[k].playing_notes@.len() == 0,
            decreases 16 - i,
        {
            instruments.push(Instrument::new(i));
            i += 1;
        }
        let mut sequences: Vec<Sequence> = Vec::new();
        sequences.push(Sequence::default());
        sequences.push(Sequence::alternate_default());
        sequences.push(Sequence::new());
        sequences.push(Sequence::new());
        Sequencer {
            instruments,
            sequences,
            sequence_playing: 0,
            sequence_queued: Some(0),
            sequence_start: 0,
            was_rolling: false,
            next_tick: 0,
        }
    }

    /// Sounding notes must be stopped before this cycle: the transport stopped, or it
    /// does not go on from where the last cycle ended (a reposition).
    pub fn needs_flush(&self, cycle: &ProcessCycle) -> (r: bool)
        ensures
            r == ((self.was_rolling && !cycle.is_rolling) || cycle.tick_range.start
                != self.next_tick),
    {
        (self.was_rolling && !cycle.is_rolling) || cycle.tick_range.start != self.next_tick
    }

    /// Stops every sounding note of every instrument at the buffer's first frame.
    pub fn flush(&mut self) -> (r: Vec<TimedMessage>)
        requires
            old(self).wf(),
        ensures
            final(self).wf(),
            in_frame_order(r@),
            r@ == flush_messages(old(self).instruments@),
            forall|k: int| 0 <= k < r@.len() ==> (#[trigger] r@[k]).frame == 0 && r@[k].status < 0x90,
            forall|i: int|
                0 <= i < INSTRUMENTS ==> (#[trigger] final(self).instruments@[i]).playing_notes@
                    == Seq::<PlayingNoteEvent>::empty() && final(self).instruments@[i].patterns
                    == old(self).instruments@[i].patterns && final(self).instruments@[i].phrases
                    == old(self).instruments@[i].phrases && final(self).instruments@[i].channel
                    == old(self).instruments@[i].channel,
            final(self).sequences == old(self).sequences,
            final(self).sequence_playing == old(self).sequence_playing,
            final(self).sequence_queued == old(self).sequence_queued,
            final(self).sequence_start == old(self).sequence_start,
            final(self).was_rolling == old(self).was_rolling,
            final(self).next_tick == old(self).next_tick,
    {
        let ghost before = *old(self);
        let mut messages: Vec<TimedMessage> = Vec::new();
        proof {
            assert(before.instruments@.take(0) =~= Seq::<Instrument>::empty());
        }
        let mut i: usize = 0;
        while i < INSTRUMENTS
            invariant
                0 <= i <= INSTRUMENTS,
                before == *old(self),
                before.wf(),
                self.wf(),
                self.sequences == before.sequences,
                self.sequence_playing == before.sequence_playing,
                self.sequence_queued == before.sequence_queued,
                self.sequence_start == before.sequence_start,
                self.was_rolling == before.was_rolling,
                self.next_tick == before.next_tick,
                messages@ == flush_messages(before.instruments@.take(i as int)),
                forall|k: int|
                    0 <= k < messages@.len() ==> (#[trigger] messages@[k]).frame == 0
                        && messages@[k].status < 0x90,
                forall|k: int|
                    i <= k < INSTRUMENTS ==> (#[trigger] self.instruments@[k]) == before.instruments@[k],
                forall|k: int|
                    0 <= k < i ==> (#[trigger] self.instruments@[k]).playing_notes@
                        == Seq::<PlayingNoteEvent>::empty(),
                forall|k: int|
                    0 <= k < INSTRUMENTS ==> (#[trigger] self.instruments@[k]).patterns
                        == before.instruments@[k].patterns && self.instruments@[k].phrases
                        == before.instruments@[k].phrases && self.instruments@[k].channel
                        == before.instruments@[k].channel,
            decreases INSTRUMENTS - i,
        {
            proof {
                assert(self.instruments@[i as int].wf());
                assert(before.instruments@.take(i as int + 1).drop_last() == before.instruments@.take(
                    i as int,
                ));
            }
            let ghost others = self.instruments@;
            let out = self.instruments[i].flush();
            proof {
                assert forall|k: int| 0 <= k < INSTRUMENTS && k != i implies self.instruments@[k]
                    == others[k] by {}
            }
            proof {
                assert(out@ =~= stop_all(before.instruments@[i as int]));
                assert(before.instruments@.take(i as int + 1).last() == before.instruments@[i as int]);
            }
            let mut j: usize = 0;
            let ghost start = messages@;
            proof {
                assert(start + out@.take(0) =~= start);
            }
            while j < out.len()
                invariant
                    0 <= j <= out.len(),
                    messages@ == start + out@.take(j as int),
                    forall|k: int| 0 <= k < out@.len() ==> (#[trigger] out@[k]).frame == 0 && out@[k].status < 0x90,
                    forall|k: int|
                        0 <= k < messages@.len() ==> (#[trigger] messages@[k]).frame == 0
                            && messages@[k].status < 0x90,
                decreases out.len() - j,
            {
                messages.push(out[j]);
                proof {
                    assert(start + out@.take(j as int + 1) =~= (start + out@.take(j as int)).push(out@[j as int]));
                }
                j += 1;
            }
            proof {
                assert(out@.take(out@.len() as int) =~= out@);
            }
            i += 1;
        }
        proof {
            assert(before.instruments@.take(INSTRUMENTS as int) == before.instruments@);
        }
        messages
    }

    /// Queues sequence `index` to take over when the playing one's pass ends.
    pub fn queue_sequence(&mut self, index: usize)
        requires
            old(self).wf(),
            index < SEQUENCES,
        ensures
            final(self).wf(),
            final(self).sequence_queued == Some(index),
            final(self).sequence_playing == old(self).sequence_playing,
            final(self).sequence_start == old(self).sequence_start,
            final(self).instruments == old(self).instruments,
            final(self).sequences == old(self).sequences,
    {
        self.sequence_queued = Some(index);
    }

    fn pass_ticks(&self) -> (r: Option<u32>)
        requires
            self.wf(),
        ensures
            r == self.pass_length(),
    {
        self.sequences[self.sequence_playing].ticks(&self.instruments)
    }

    /// The tick in `range` at which the queued sequence takes over, if it does in it.
    pub fn switch_point(&self, range: Range<u64>) -> (r: Option<u64>)
        requires
            self.wf(),
            range.start <= range.end,
        ensures
            r is Some <==> self.switch_tick(range.start as int, range.end as int) is Some,
            r is Some ==> range.start <= r->Some_0 < range.end && self.sequence_queued is Some,
            r is Some ==> r->Some_0 == self.switch_tick(range.start as int, range.end as int)->Some_0,
    {
        if self.sequence_queued.is_none() {
            return None;
        }
        match self.pass_ticks() {
            None => if range.start < range.end {
                Some(range.start)
            } else {
                None
            },
            Some(t) => {
                if t == 0 || range.start < self.sequence_start {
                    return None;
                }
                let passes: u64 = (range.start - self.sequence_start) / t as u64;
                proof {
                    assert(passes * t <= range.start - self.sequence_start) by (nonlinear_arith)
                        requires
                            passes == (range.start - self.sequence_start) / (t as int),
                            t > 0,
                    ;
                }
                let end_of_pass: u64 = passes * t as u64;
                if (range.end - self.sequence_start) - end_of_pass > t as u64 {
                    proof {
                        assert((passes + 1) * t == passes * t + t) by (nonlinear_arith);
                        vstd::arithmetic::div_mod::lemma_fundamental_div_mod(
                            (range.start - self.sequence_start) as int,
                            t as int,
                        );
                        vstd::arithmetic::div_mod::lemma_mod_pos_bound(
                            (range.start - self.sequence_start) as int,
                            t as int,
                        );
                        assert(range.start < self.sequence_start + end_of_pass + t) by (nonlinear_arith)
                            requires
                                (range.start - self.sequence_start) == t * passes + (range.start
                                    - self.sequence_start) % (t as int),
                                (range.start - self.sequence_start) % (t as int) < t,
                                end_of_pass == passes * t,
                        ;
                    }
                    Some(self.sequence_start + end_of_pass + t as u64)
                } else {
                    proof {
                        assert((passes + 1) * t == passes * t + t) by (nonlinear_arith);
                    }
                    None
                }
            },
        }
    }

    /// One buffer's MIDI for every instrument, in frame order: each instrument
    /// stops its notes that end in the cycle and starts the notes that its phrase in the
    /// playing sequence starts there. When the queued sequence takes over inside the
    /// cycle, the notes from that tick on are the queued sequence's, and it then plays.
    pub fn output(&mut self, cycle: &ProcessCycle) -> (r: Vec<TimedMessage>)
        requires
            old(self).wf(),
            cycle.wf(),
            cycle.tick_range.end <= MAX_WINDOW_TICK,
        ensures
            final(self).wf(),
            in_frame_order(r@),
            r@.to_multiset() == all_messages(
                old(self).instruments@,
                final(self).instruments@,
                *cycle,
                INSTRUMENTS as int,
            ),
            final(self).was_rolling == cycle.is_rolling,
            final(self).next_tick == cycle.tick_range.end,
            final(self).sequences == old(self).sequences,
            old(self).switch_tick(cycle.tick_range.start as int, cycle.tick_range.end as int) is None
                ==> final(self).sequence_playing == old(self).sequence_playing
                && final(self).sequence_queued == old(self).sequence_queued
                && final(self).sequence_start == old(self).sequence_start,
            old(self).switch_tick(cycle.tick_range.start as int, cycle.tick_range.end as int) is Some
                ==> final(self).sequence_playing == old(self).sequence_queued.unwrap()
                && final(self).sequence_queued is None && final(self).sequence_start == old(
                self,
            ).switch_tick(cycle.tick_range.start as int, cycle.tick_range.end as int)->Some_0,
            forall|i: int|
                0 <= i < INSTRUMENTS ==> (#[trigger] final(self).instruments@[i]).patterns == old(
                    self,
                ).instruments@[i].patterns && final(self).instruments@[i].phrases == old(
                    self,
                ).instruments@[i].phrases && final(self).instruments@[i].channel == old(
                    self,
                ).instruments@[i].channel,
            forall|i: int|
                0 <= i < INSTRUMENTS ==> advanced(
                    #[trigger] final(self).instruments@[i],
                    *old(self),
                    *cycle,
                    i,
                ),
    {
        let a = cycle.tick_range.start;
        let b = cycle.tick_range.end;
        let switch = self.switch_point(Range { start: a, end: b });
        let playing = self.sequence_playing;
        let queued = match self.sequence_queued {
            Some(q) => q,
            None => playing,
        };
        let start = self.sequence_start;
        let ghost before = *self;
        let mut messages: Vec<TimedMessage> = Vec::new();
        proof {
            vstd::seq_lib::to_multiset_len(messages@);
            vstd::multiset::lemma_multiset_empty_len(messages@.to_multiset());
        }
        let mut i: usize = 0;
        while i < INSTRUMENTS
            invariant
                0 <= i <= INSTRUMENTS,
                before == *old(self),
                before.wf(),
                in_frame_order(messages@),
                messages@.to_multiset() == all_messages(
                    before.instruments@,
                    self.instruments@,
                    *cycle,
                    i as int,
                ),
                cycle.wf(),
                cycle.tick_range.start == a,
                cycle.tick_range.end == b,
                b <= MAX_WINDOW_TICK,
                switch is Some <==> before.switch_tick(a as int, b as int) is Some,
                switch is Some ==> switch->Some_0 == before.switch_tick(a as int, b as int)->Some_0,
                switch is Some ==> a <= switch->Some_0 < b && before.sequence_queued == Some(queued),
                playing == before.sequence_playing,
                start == before.sequence_start,
                queued < SEQUENCES,
                self.sequences == before.sequences,
                self.sequence_playing == before.sequence_playing,
                self.sequence_queued == before.sequence_queued,
                self.sequence_start == before.sequence_start,
                self.wf(),
                forall|k: int|
                    i <= k < INSTRUMENTS ==> (#[trigger] self.instruments@[k]) == before.instruments@[k],
                forall|k: int|
                    0 <= k < INSTRUMENTS ==> (#[trigger] self.instruments@[k]).patterns == before.instruments@[k].patterns
                        && self.instruments@[k].phrases == before.instruments@[k].phrases
                        && self.instruments@[k].channel == before.instruments@[k].channel,
                forall|k: int|
                    0 <= k < i ==> advanced(
                        #[trigger] self.instruments@[k],
                        before,
                        *cycle,
                        k,
                    ),
            decreases INSTRUMENTS - i,
        {
            proof {
                assert(self.instruments@[i as int] == before.instruments@[i as int]);
                assert(self.sequences@ == before.sequences@);
            }
            let notes = if cycle.is_rolling {
                match switch {
                    None => {
                        let n = self.instrument_notes(i, playing, Range { start: a, end: b }, start);
                        proof {
                            assert forall|p: PlayingNoteEvent|
                                n@.contains(p) <==> cycle_note(before, *cycle, i as int, p) by {
                                lemma_same_instrument(
                                    self.instruments@,
                                    before.instruments@,
                                    before.sequences@[playing as int],
                                    i as int,
                                    start as int,
                                    a as int,
                                    b as int,
                                    p,
                                );
                            }
                        }
                        n
                    },
                    Some(x) => {
                        let mut first = self.instrument_notes(i, playing, Range { start: a, end: x }, start);
                        let mut second = self.instrument_notes(i, queued, Range { start: x, end: b }, x);
                        let ghost f = first@;
                        let ghost g = second@;
                        first.append(&mut second);
                        proof {
                            assert forall|p: PlayingNoteEvent|
                                first@.contains(p) <==> cycle_note(before, *cycle, i as int, p) by {
                                lemma_same_instrument(
                                    self.instruments@,
                                    before.instruments@,
                                    before.sequences@[playing as int],
                                    i as int,
                                    start as int,
                                    a as int,
                                    x as int,
                                    p,
                                );
                                lemma_same_instrument(
                                    self.instruments@,
                                    before.instruments@,
                                    before.sequences@[queued as int],
                                    i as int,
                                    x as int,
                                    x as int,
                                    b as int,
                                    p,
                                );
                                if first@.contains(p) {
                                    let w = choose|w: int| 0 <= w < first@.len() && first@[w] == p;
                                    if w >= f.len() {
                                        assert(g[w - f.len()] == p);
                                        assert(g.contains(p));
                                    } else {
                                        assert(f[w] == p);
                                        assert(f.contains(p));
                                    }
                                }
                                if f.contains(p) {
                                    let w = choose|w: int| 0 <= w < f.len() && f[w] == p;
                                    assert(first@[w] == p);
                                }
                                if g.contains(p) {
                                    let w = choose|w: int| 0 <= w < g.len() && g[w] == p;
                                    assert(first@[w + f.len()] == p);
                                }
                            }
                            assert forall|k: int| 0 <= k < first@.len() implies a <= (
                            #[trigger] first@[k]).start < b && first@[k].start < first@[k].stop by {
                                if k >= f.len() {
                                    assert(first@[k] == g[k - f.len()]);
                                } else {
                                    assert(first@[k] == f[k]);
                                }
                            }
                        }
                        first
                    },
                }
            } else {
                Vec::new()
            };
            proof {
                assert(self.instruments@[i as int].wf());
            }
            let ghost others = self.instruments@;
            let out = self.instruments[i].output_midi(cycle, notes);
            proof {
                assert forall|k: int| 0 <= k < INSTRUMENTS && k != i implies self.instruments@[k] == others[k] by {}
                assert(advanced(self.instruments@[i as int], before, *cycle, i as int));
                assert forall|k: int|
                    0 <= k < i + 1 implies advanced(
                        #[trigger] self.instruments@[k],
                        before,
                        *cycle,
                        k,
                    ) by {
                    if k != i {
                        assert(self.instruments@[k] == others[k]);
                    }
                }
            }
            proof {
                lemma_all_messages_prefix(before.instruments@, others, self.instruments@, *cycle, i as int);
                assert(out@.to_multiset() == instrument_messages(
                    before.instruments@[i as int],
                    self.instruments@[i as int],
                    *cycle,
                ).to_multiset());
            }
            let ghost base = messages@.to_multiset();
            proof {
                broadcast use vstd::multiset::group_multiset_axioms;

                vstd::seq_lib::to_multiset_len(out@.take(0));
                vstd::multiset::lemma_multiset_empty_len(out@.take(0).to_multiset());
                assert(base.add(out@.take(0).to_multiset()) =~= base);
            }
            let mut j: usize = 0;
            while j < out.len()
                invariant
                    0 <= j <= out.len(),
                    in_frame_order(messages@),
                    messages@.to_multiset() == base.add(out@.take(j as int).to_multiset()),
                decreases out.len() - j,
            {
                proof {
                    broadcast use vstd::multiset::group_multiset_axioms;

                    assert(out@.take(j as int + 1) =~= out@.take(j as int).push(out@[j as int]));
                    to_multiset_build(out@.take(j as int), out@[j as int]);
                    assert(base.add(out@.take(j as int).to_multiset()).insert(out@[j as int])
                        =~= base.add(out@.take(j as int + 1).to_multiset()));
                }
                insert_in_frame_order(&mut messages, out[j]);
                j += 1;
            }
            proof {
                assert(out@.take(out@.len() as int) =~= out@);
                lemma_all_messages_prefix(before.instruments@, others, self.instruments@, *cycle, i as int);
            }
            i += 1;
        }
        if let Some(x) = switch {
            self.sequence_playing = queued;
            self.sequence_queued = None;
            self.sequence_start = x;
        }
        self.was_rolling = cycle.is_rolling;
        self.next_tick = b;
        messages
    }

    /// The notes that instrument `i` starts in `range` when sequence `index` plays from
    /// `start`; none where the instrument plays no phrase there.
    fn instrument_notes(&self, i: usize, index: usize, range: Range<u64>, start: u64) -> (r: Vec<
        PlayingNoteEvent,
    >)
        requires
            self.wf(),
            i < INSTRUMENTS,
            index < SEQUENCES,
            range.end <= MAX_WINDOW_TICK,
        ensures
            forall|p: PlayingNoteEvent|
                r@.contains(p) <==> sequenced_note(
                    self.instruments@,
                    self.sequences@[index as int],
                    i as int,
                    start as int,
                    range.start as int,
                    range.end as int,
                    p,
                ),
            forall|k: int|
                0 <= k < r@.len() ==> range.start <= (#[trigger] r@[k]).start < range.end
                    && r@[k].start < r@[k].stop,
    {
        let sequence = &self.sequences[index];
        let phrase = if sequence.active[i] {
            sequence.phrases[i]
        } else {
            None
        };
        match phrase {
            Some(ph) => {
                let instrument = &self.instruments[i];
                proof {
                    assert(self.sequences@[index as int].wf());
                    assert(self.instruments@[i as int].wf());
                }
                match instrument.starting_notes(
                    Range { start: range.start, end: range.end },
                    start,
                    ph as u8,
                ) {
                    Ok(notes) => {
                        proof {
                            assert forall|k: int| 0 <= k < notes@.len() implies range.start
                                <= (#[trigger] notes@[k]).start < range.end && notes@[k].start
                                < notes@[k].stop by {
                                assert(notes@.contains(notes@[k]));
                            }
                        }
                        notes
                    },
                    Err(_) => Vec::new(),
                }
            },
            None => Vec::new(),
        }
    }
}

} // verus!
