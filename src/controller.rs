use vstd::prelude::*;
use crate::TICKS_PER_BEAT;

pub mod input;

verus! {

/// Two presses of one button closer than this many ticks make a double press.
pub const DOUBLE_PRESS_TICKS: u32 = TICKS_PER_BEAT / 2;

/// A button press: when it went down, when it came up if it has, and which button.
#[derive(Debug, Clone, Copy, PartialEq, Eq, Structural)]
pub struct PressedButton {
    pub start: u32,
    pub end: Option<u32>,
    pub channel: u8,
    pub note: u8,
}

impl PressedButton {
    pub fn new(start: u32, channel: u8, note: u8) -> (r: Self)
        ensures
            r == (PressedButton { start, end: None::<u32>, channel, note }),
    {
        Self { start, end: None, channel, note }
    }
}

/// A press is still recent at tick `now`: held, or released less than a double press
/// ago.
pub open spec fn is_recent(p: PressedButton, now: u32) -> bool {
    p.end is None || now < p.end.unwrap() + DOUBLE_PRESS_TICKS
}

/// The presses of `s` still recent at `now`, in their order.
pub open spec fn recent(s: Seq<PressedButton>, now: u32) -> Seq<PressedButton>
    decreases s.len(),
{
    if s.len() == 0 {
        s
    } else if is_recent(s.last(), now) {
        recent(s.drop_last(), now).push(s.last())
    } else {
        recent(s.drop_last(), now)
    }
}

/// The recent presses, to tell a double press from a single one.
pub struct Buttons {
    pub pressed: Vec<PressedButton>,
}

impl Buttons {
    pub fn new() -> (r: Self)
        ensures
            r.pressed@ == Seq::<PressedButton>::empty(),
    {
        Self { pressed: Vec::new() }
    }

    /// Records a press of (`channel`, `note`) at `start`, forgetting presses no longer
    /// recent; it is a double press when a recent press of the same button remains.
    pub fn press(&mut self, start: u32, channel: u8, note: u8) -> (r: bool)
        ensures
            final(self).pressed@ == recent(old(self).pressed@, start).push(
                PressedButton::new_spec(start, channel, note),
            ),
            r == exists|i: int|
                0 <= i < recent(old(self).pressed@, start).len() && (#[trigger] recent(
                    old(self).pressed@,
                    start,
                )[i]).channel == channel && recent(old(self).pressed@, start)[i].note == note,
    {
        let mut kept: Vec<PressedButton> = Vec::new();
        let mut double = false;
        let mut i: usize = 0;
        while i < self.pressed.len()
            invariant
                0 <= i <= self.pressed.len(),
                self.pressed@ == old(self).pressed@,
                kept@ == recent(self.pressed@.take(i as int), start),
                double == exists|k: int|
                    0 <= k < kept@.len() && (#[trigger] kept@[k]).channel == channel
                        && kept@[k].note == note,
            decreases self.pressed.len() - i,
        {
            let previous = self.pressed[i];
            proof {
                assert(self.pressed@.take(i as int + 1).drop_last() == self.pressed@.take(i as int));
            }
            let recent_press = match previous.end {
                None => true,
                Some(end) => (start as u64) < end as u64 + DOUBLE_PRESS_TICKS as u64,
            };
            if recent_press {
                let ghost before = kept@;
                kept.push(previous);
                proof {
                    assert forall|k: int| 0 <= k < before.len() implies kept@[k] == before[k] by {}
                }
                if previous.channel == channel && previous.note == note {
                    double = true;
                    proof {
                        let last = kept@.len() - 1;
                        assert(kept@[last].channel == channel && kept@[last].note == note);
                    }
                } else {
                    proof {
                        if exists|k: int|
                            0 <= k < kept@.len() && (#[trigger] kept@[k]).channel == channel
                                && kept@[k].note == note {
                            let k = choose|k: int|
                                0 <= k < kept@.len() && (#[trigger] kept@[k]).channel == channel
                                    && kept@[k].note == note;
                            assert(k < before.len());
                            assert(before[k] == kept@[k]);
                        }
                        if double {
                            let k = choose|k: int|
                                0 <= k < before.len() && (#[trigger] before[k]).channel == channel
                                    && before[k].note == note;
                            assert(kept@[k] == before[k]);
                        }
                    }
                }
            }
            i += 1;
        }
        proof {
            assert(self.pressed@.take(self.pressed@.len() as int) == self.pressed@);
        }
        kept.push(PressedButton::new(start, channel, note));
        self.pressed = kept;
        double
    }

    /// Marks the latest press of the button released at `end`; a press comes on status
    /// 0x90 + n and its release on 0x80 + n, sixteen below. Returns whether one was found.
    pub fn release(&mut self, end: u32, channel: u8, note: u8) -> (r: bool)
        ensures
            r == exists|i: int|
                0 <= i < old(self).pressed@.len() && (#[trigger] old(self).pressed@[i]).channel
                    == channel + 16 && old(self).pressed@[i].note == note,
            !r ==> final(self).pressed@ == old(self).pressed@,
            r ==> exists|i: int|
                0 <= i < old(self).pressed@.len() && (#[trigger] old(self).pressed@[i]).channel
                    == channel + 16 && old(self).pressed@[i].note == note && (forall|k: int|
                    i < k < old(self).pressed@.len() ==> !(old(self).pressed@[k].channel
                        == channel + 16 && old(self).pressed@[k].note == note))
                    && final(self).pressed@ == old(self).pressed@.update(
                    i,
                    PressedButton {
                        start: old(self).pressed@[i].start,
                        end: Some(end),
                        channel: old(self).pressed@[i].channel,
                        note,
                    },
                ),
    {
        let mut i: usize = self.pressed.len();
        while i > 0
            invariant
                0 <= i <= self.pressed.len(),
                self.pressed@ == old(self).pressed@,
                forall|k: int|
                    i <= k < self.pressed@.len() ==> !((#[trigger] self.pressed@[k]).channel
                        == channel + 16 && self.pressed@[k].note == note),
            decreases i,
        {
            let p = self.pressed[i - 1];
            if p.channel as u16 == channel as u16 + 16 && p.note == note {
                let released = PressedButton { start: p.start, end: Some(end), channel: p.channel, note };
                self.pressed.set(i - 1, released);
                return true;
            }
            i -= 1;
        }
        false
    }
}

impl PressedButton {
    pub open spec fn new_spec(start: u32, channel: u8, note: u8) -> PressedButton {
        PressedButton { start, end: None, channel, note }
    }
}

} // verus!
