use vstd::prelude::*;
use crate::{TICKS_PER_BEAT, BEATS_PER_BAR};

verus! {

/// Ticks in the longest count of bars a byte can hold.
pub const MAX_BARS_TICKS: u32 = 1958400;

/// How a pattern or phrase is shown on the grid: its length, its shortest length, and
/// which part of it the grid shows (one `zoom`th of it, the `offset`th such part).
#[derive(Debug)]
pub struct Playable {
    pub minimum_ticks: u32,
    pub ticks: u32,
    pub zoom: u32,
    pub offset: u32,
}

pub open spec fn ticks_of_bars(bars: int) -> int {
    bars * BEATS_PER_BAR * TICKS_PER_BEAT
}

fn bars_to_ticks(bars: u8) -> (r: u32)
    ensures
        r == ticks_of_bars(bars as int),
        r <= MAX_BARS_TICKS,
{
    bars as u32 * BEATS_PER_BAR * TICKS_PER_BEAT
}

impl Playable {
    pub open spec fn wf(&self) -> bool {
        &&& self.minimum_ticks <= MAX_BARS_TICKS
        &&& self.ticks <= 8 * MAX_BARS_TICKS
        &&& 1 <= self.zoom <= 8
        &&& self.offset < self.zoom
    }

    pub fn new(bars: u8, minimum_bars: u8) -> (r: Self)
        ensures
            r.wf(),
            r.minimum_ticks == ticks_of_bars(minimum_bars as int),
            r.ticks == ticks_of_bars(bars as int),
            r.zoom == 1,
            r.offset == 0,
    {
        Playable {
            minimum_ticks: bars_to_ticks(minimum_bars),
            ticks: bars_to_ticks(bars),
            zoom: 1,
            offset: 0,
        }
    }

    /// Ticks that one of `leds` LEDs stands for.
    pub fn ticks_per_led(&self, leds: u32) -> (r: u32)
        requires
            self.wf(),
            leds > 0,
        ensures
            r == self.ticks / self.zoom / leds,
    {
        self.ticks / self.zoom / leds
    }

    /// First tick of the part shown.
    pub fn ticks_offset(&self, leds: u32) -> (r: u32)
        requires
            self.wf(),
            leds > 0,
        ensures
            r == leds * self.offset * (self.ticks / self.zoom / leds),
    {
        let per_led = self.ticks_per_led(leds);
        proof {
            let shown: int = self.ticks as int / self.zoom as int;
            vstd::arithmetic::div_mod::lemma_fundamental_div_mod(shown as int, leds as int);
            vstd::arithmetic::div_mod::lemma_mod_pos_bound(shown as int, leds as int);
            vstd::arithmetic::div_mod::lemma_fundamental_div_mod(self.ticks as int, self.zoom as int);
            vstd::arithmetic::div_mod::lemma_mod_pos_bound(self.ticks as int, self.zoom as int);
            assert(leds * per_led <= shown) by (nonlinear_arith)
                requires
                    shown == leds * per_led + shown % (leds as int),
                    shown % (leds as int) >= 0,
            ;
            assert(leds * self.offset * per_led <= self.ticks) by (nonlinear_arith)
                requires
                    leds * per_led <= shown,
                    self.ticks == self.zoom * shown + (self.ticks as int) % (self.zoom as int),
                    (self.ticks as int) % (self.zoom as int) >= 0,
                    self.offset < self.zoom,
                    per_led >= 0,
                    leds > 0,
            ;
            assert(self.offset * per_led <= leds * self.offset * per_led) by (nonlinear_arith)
                requires
                    leds >= 1,
                    per_led >= 0,
            ;
            assert(self.offset * per_led * leds == leds * self.offset * per_led) by (nonlinear_arith);
        }
        self.offset * per_led * leds
    }

    pub fn beats(&self) -> (r: u32)
        ensures
            r == self.ticks / TICKS_PER_BEAT,
    {
        self.ticks / TICKS_PER_BEAT
    }

    pub fn bars(&self) -> (r: u32)
        ensures
            r == self.ticks / TICKS_PER_BEAT / BEATS_PER_BAR,
    {
        self.beats() / BEATS_PER_BAR
    }

    fn length_modifier(&self) -> (r: u32)
        requires
            self.wf(),
            self.minimum_ticks > 0,
        ensures
            r == self.ticks / self.minimum_ticks,
    {
        self.ticks / self.minimum_ticks
    }

    /// Picks the part of the grid shown from the zoom button pressed: 1, 2, 4 or 8 show
    /// the whole, a half, a quarter or an eighth from the start; 3, 5, 6 and 7 a later part.
    pub fn change_zoom(&mut self, button: u32)
        requires
            old(self).wf(),
        ensures
            final(self).wf(),
            final(self).ticks == old(self).ticks,
            final(self).minimum_ticks == old(self).minimum_ticks,
            (button == 1 || button == 2 || button == 4 || button == 8) ==> final(self).zoom == 8u32
                / button && final(self).offset == 0,
            button == 5 ==> final(self).zoom == 2 && final(self).offset == 1,
            button == 7 ==> final(self).zoom == 4 && final(self).offset == 3,
            (button == 3 || button == 6) ==> final(self).zoom == 8 && final(self).offset == button
                - 1,
            (button == 0 || button > 8) ==> final(self).zoom == old(self).zoom
                && final(self).offset == old(self).offset,
    {
        match button {
            1 | 2 | 4 | 8 => {
                self.zoom = 8 / button;
                self.offset = 0
            },
            5 => {
                self.zoom = 2;
                self.offset = 1
            },
            7 => {
                self.zoom = 4;
                self.offset = 3
            },
            3 | 6 => {
                self.zoom = 8;
                self.offset = button - 1
            },
            _ => (),
        }
    }

    /// Moves the part shown by `delta` parts, if that stays inside the whole.
    pub fn change_offset(&mut self, delta: i32) -> (r: bool)
        requires
            old(self).wf(),
        ensures
            final(self).wf(),
            final(self).ticks == old(self).ticks,
            final(self).minimum_ticks == old(self).minimum_ticks,
            final(self).zoom == old(self).zoom,
            r == (0 <= old(self).offset + delta < old(self).zoom),
            r ==> final(self).offset == old(self).offset + delta,
            !r ==> final(self).offset == old(self).offset,
    {
        let offset: i64 = self.offset as i64 + delta as i64;
        if offset >= 0 && offset <= self.zoom as i64 - 1 {
            self.offset = offset as u32;
            true
        } else {
            false
        }
    }

    /// Sets the length to 1, 2, 4 or 8 times the shortest, keeping what the grid shows
    /// per LED where the zoom allows it (back at the first part when the part shown no
    /// longer exists); any other factor is refused.
    pub fn change_length(&mut self, length_modifier: u8) -> (r: bool)
        requires
            old(self).wf(),
            old(self).minimum_ticks > 0,
            old(self).ticks >= old(self).minimum_ticks,
        ensures
            final(self).wf(),
            final(self).ticks >= final(self).minimum_ticks,
            final(self).minimum_ticks == old(self).minimum_ticks,
            r == (length_modifier == 1 || length_modifier == 2 || length_modifier == 4
                || length_modifier == 8),
            !r ==> final(self).ticks == old(self).ticks && final(self).zoom == old(self).zoom
                && final(self).offset == old(self).offset,
            r ==> final(self).ticks == length_modifier * old(self).minimum_ticks,
            r ==> {
                let zoom = (old(self).zoom * length_modifier) as int / (old(self).ticks
                    / old(self).minimum_ticks) as int;
                if 0 < zoom <= 8 {
                    final(self).zoom == zoom && final(self).offset == if old(self).offset < zoom {
                        old(self).offset
                    } else {
                        0
                    }
                } else {
                    final(self).zoom == old(self).zoom && final(self).offset == old(self).offset
                }
            },
    {
        match length_modifier {
            1 | 2 | 4 | 8 => {
                let current = self.length_modifier();
                proof {
                    vstd::arithmetic::div_mod::lemma_div_is_ordered(
                        self.minimum_ticks as int,
                        self.ticks as int,
                        self.minimum_ticks as int,
                    );
                    vstd::arithmetic::div_mod::lemma_div_basics(self.minimum_ticks as int);
                }
                let zoom = self.zoom * length_modifier as u32 / current;
                self.ticks = length_modifier as u32 * self.minimum_ticks;
                if zoom > 0 && zoom <= 8 {
                    self.zoom = zoom;
                    if self.offset >= zoom {
                        self.offset = 0;
                    }
                }
                true
            },
            _ => false,
        }
    }
}

} // verus!
