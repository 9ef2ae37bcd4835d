use vstd::prelude::*;
use crate::instrument::{Instrument, SLOTS};

verus! {

/// Instruments that a sequence can play.
pub const INSTRUMENTS: usize = 16;

/// Which phrase each instrument plays in a sequence, and which instruments are on.
#[derive(Debug)]
pub struct Sequence {
    pub phrases: [Option<usize>; 16],
    pub active: [bool; 16],
}

/// The pairs (instrument, phrase) of the first `n` instruments that play a phrase, and
/// are on where `only_active` asks for it.
pub open spec fn phrase_pairs(
    phrases: Seq<Option<usize>>,
    active: Seq<bool>,
    only_active: bool,
    n: int,
) -> Seq<(usize, usize)>
    decreases n,
{
    if n <= 0 {
        seq![]
    } else {
        let rest = phrase_pairs(phrases, active, only_active, n - 1);
        if phrases[n - 1] is Some && (!only_active || active[n - 1]) {
            rest.push(((n - 1) as usize, phrases[n - 1].unwrap()))
        } else {
            rest
        }
    }
}

/// The longest of the phrases that `pairs` name, if any.
pub open spec fn longest(instruments: Seq<Instrument>, pairs: Seq<(usize, usize)>) -> Option<u32>
    decreases pairs.len(),
{
    if pairs.len() == 0 {
        None
    } else {
        let (i, p) = pairs.last();
        let own = instruments[i as int].phrases@[p as int].length;
        match longest(instruments, pairs.drop_last()) {
            None => Some(own),
            Some(m) => Some(
                if own > m {
                    own
                } else {
                    m
                },
            ),
        }
    }
}

/// In `s` the first two instruments play `phrase`, the others nothing, and all are on.
pub open spec fn first_two_play(s: Sequence, phrase: usize) -> bool {
    &&& s.phrases@[0] == Some(phrase)
    &&& s.phrases@[1] == Some(phrase)
    &&& forall|i: int| 2 <= i < INSTRUMENTS ==> (#[trigger] s.phrases@[i]) is None
    &&& forall|i: int| 0 <= i < INSTRUMENTS ==> #[trigger] s.active@[i]
}

/// In `s` no instrument plays a phrase, and all are on.
pub open spec fn plays_nothing(s: Sequence) -> bool {
    &&& forall|i: int| 0 <= i < INSTRUMENTS ==> (#[trigger] s.phrases@[i]) is None
    &&& forall|i: int| 0 <= i < INSTRUMENTS ==> #[trigger] s.active@[i]
}

impl Sequence {
    pub open spec fn wf(&self) -> bool {
        forall|i: int| 0 <= i < INSTRUMENTS && (#[trigger] self.phrases@[i]) is Some ==> self.phrases@[i].unwrap() < SLOTS
    }

    fn create(phrases: [Option<usize>; 16]) -> (r: Self)
        ensures
            r.phrases == phrases,
            forall|i: int| 0 <= i < INSTRUMENTS ==> r.active@[i],
    {
        Sequence { phrases, active: [true; 16] }
    }

    /// A sequence that plays nothing.
    pub fn new() -> (r: Self)
        ensures
            r.wf(),
            forall|i: int| 0 <= i < INSTRUMENTS ==> r.phrases@[i] is None && r.active@[i],
            plays_nothing(r),
    {
        Sequence::create([None; 16])
    }

    /// A sequence in which the first two instruments play their first phrase.
    pub fn default() -> (r: Self)
        ensures
            r.wf(),
            first_two_play(r, 0),
            r.phrases@[0] == Some(0usize),
            r.phrases@[1] == Some(0usize),
            forall|i: int| 2 <= i < INSTRUMENTS ==> r.phrases@[i] is None,
            forall|i: int| 0 <= i < INSTRUMENTS ==> r.active@[i],
    {
        let mut phrases: [Option<usize>; 16] = [None; 16];
        phrases[0] = Some(0);
        phrases[1] = Some(0);
        Sequence::create(phrases)
    }

    /// A sequence in which the first two instruments play their second phrase.
    pub fn alternate_default() -> (r: Self)
        ensures
            r.wf(),
            first_two_play(r, 1),
            r.phrases@[0] == Some(1usize),
            r.phrases@[1] == Some(1usize),
            forall|i: int| 2 <= i < INSTRUMENTS ==> r.phrases@[i] is None,
            forall|i: int| 0 <= i < INSTRUMENTS ==> r.active@[i],
    {
        let mut phrases: [Option<usize>; 16] = [None; 16];
        phrases[0] = Some(1);
        phrases[1] = Some(1);
        Sequence::create(phrases)
    }

    fn pairs(&self, only_active: bool) -> (r: Vec<(usize, usize)>)
        ensures
            r@ == phrase_pairs(self.phrases@, self.active@, only_active, INSTRUMENTS as int),
    {
        let mut out: Vec<(usize, usize)> = Vec::new();
        let mut i: usize = 0;
        while i < INSTRUMENTS
            invariant
                0 <= i <= INSTRUMENTS,
                out@ == phrase_pairs(self.phrases@, self.active@, only_active, i as int),
            decreases INSTRUMENTS - i,
        {
            if let Some(phrase) = self.phrases[i] {
                if !only_active || self.active[i] {
                    out.push((i, phrase));
                }
            }
            i += 1;
        }
        out
    }

    /// Each instrument that plays a phrase, with that phrase, by instrument.
    pub fn active_phrases(&self) -> (r: Vec<(usize, usize)>)
        ensures
            r@ == phrase_pairs(self.phrases@, self.active@, false, INSTRUMENTS as int),
    {
        self.pairs(false)
    }

    /// Like `active_phrases`, for the instruments that are on.
    pub fn playing_phrases(&self) -> (r: Vec<(usize, usize)>)
        ensures
            r@ == phrase_pairs(self.phrases@, self.active@, true, INSTRUMENTS as int),
    {
        self.pairs(true)
    }

    /// Length of the sequence: that of the longest phrase it plays, if it plays any.
    pub fn ticks(&self, instruments: &Vec<Instrument>) -> (r: Option<u32>)
        requires
            self.wf(),
            instruments@.len() == INSTRUMENTS,
            forall|i: int| 0 <= i < INSTRUMENTS ==> (#[trigger] instruments@[i]).wf(),
        ensures
            r == longest(
                instruments@,
                phrase_pairs(self.phrases@, self.active@, false, INSTRUMENTS as int),
            ),
    {
        let pairs = self.active_phrases();
        let mut best: Option<u32> = None;
        let mut k: usize = 0;
        proof {
            lemma_pairs_in_range(self.phrases@, self.active@, false, INSTRUMENTS as int);
        }
        while k < pairs.len()
            invariant
                0 <= k <= pairs.len(),
                pairs@ == phrase_pairs(self.phrases@, self.active@, false, INSTRUMENTS as int),
                instruments@.len() == INSTRUMENTS,
                forall|i: int| 0 <= i < INSTRUMENTS ==> (#[trigger] instruments@[i]).wf(),
                forall|q: int|
                    0 <= q < pairs@.len() ==> (#[trigger] pairs@[q]).0 < INSTRUMENTS && pairs@[q].1
                        < SLOTS,
                best == longest(instruments@, pairs@.take(k as int)),
            decreases pairs.len() - k,
        {
            let (i, p) = pairs[k];
            proof {
                assert(pairs@.take(k as int + 1).drop_last() == pairs@.take(k as int));
            }
            let own = instruments[i].phrases[p].length;
            best = match best {
                None => Some(own),
                Some(m) => Some(
                    if own > m {
                        own
                    } else {
                        m
                    },
                ),
            };
            k += 1;
        }
        proof {
            assert(pairs@.take(pairs@.len() as int) == pairs@);
        }
        best
    }

    /// Picks `phrase` for the instrument, or, when it already plays that phrase, stops it.
    pub fn toggle_phrase(&mut self, instrument: u8, phrase: u8)
        requires
            old(self).wf(),
            instrument < INSTRUMENTS,
            phrase < SLOTS,
        ensures
            final(self).wf(),
            final(self).active == old(self).active,
            final(self).phrases@ == old(self).phrases@.update(
                instrument as int,
                if old(self).phrases@[instrument as int] == Some(phrase as usize) {
                    None
                } else {
                    Some(phrase as usize)
                },
            ),
    {
        let next = match self.phrases[instrument as usize] {
            Some(old_phrase) => if old_phrase == phrase as usize {
                None
            } else {
                Some(phrase as usize)
            },
            None => Some(phrase as usize),
        };
        self.phrases[instrument as usize] = next;
    }

    /// Switches the instrument on or off in this sequence.
    pub fn toggle_active(&mut self, instrument: u8)
        requires
            instrument < INSTRUMENTS,
        ensures
            final(self).phrases == old(self).phrases,
            final(self).active@ == old(self).active@.update(
                instrument as int,
                !old(self).active@[instrument as int],
            ),
    {
        let flipped = !self.active[instrument as usize];
        self.active[instrument as usize] = flipped;
    }
}

proof fn lemma_pairs_in_range(phrases: Seq<Option<usize>>, active: Seq<bool>, only_active: bool, n: int)
    requires
        0 <= n <= INSTRUMENTS,
        phrases.len() == INSTRUMENTS,
        forall|i: int| 0 <= i < INSTRUMENTS && (#[trigger] phrases[i]) is Some ==> phrases[i].unwrap() < SLOTS,
    ensures
        forall|q: int|
            0 <= q < phrase_pairs(phrases, active, only_active, n).len() ==> (
            #[trigger] phrase_pairs(phrases, active, only_active, n)[q]).0 < INSTRUMENTS
                && phrase_pairs(phrases, active, only_active, n)[q].1 < SLOTS,
    decreases n,
{
    if n > 0 {
        lemma_pairs_in_range(phrases, active, only_active, n - 1);
        let rest = phrase_pairs(phrases, active, only_active, n - 1);
        let all = phrase_pairs(phrases, active, only_active, n);
        assert(phrases[n - 1] is Some ==> phrases[n - 1].unwrap() < SLOTS);
        assert forall|q: int| 0 <= q < rest.len() implies all[q] == rest[q] by {}
    }
}

} // verus!
