use vstd::prelude::*;
use std::ops::Range;
use vstd::arithmetic::div_mod::{
    lemma_div_is_ordered,
    lemma_fundamental_div_mod,
    lemma_mod_pos_bound,
    lemma_multiply_divide_le,
    lemma_multiply_divide_lt,
};
use crate::TICKS_PER_BEAT;

verus! {

/// Where the host transport stands: its frame, its frame rate and its tempo in
/// hundredths of a beat per minute.
#[derive(Debug, Clone, Copy, PartialEq, Eq, Structural)]
pub struct TransportPosition {
    pub frame: u32,
    pub frame_rate: u32,
    pub centi_beats_per_minute: u32,
}

/// The tick at transport frame `frame`, truncated toward zero.
pub open spec fn tick_at(pos: TransportPosition, frame: int) -> int {
    frame * pos.centi_beats_per_minute * TICKS_PER_BEAT / (6000 * pos.frame_rate)
}

/// One audio buffer: the ticks and the microseconds it spans, its length in frames,
/// and whether the transport rolls.
#[derive(Debug)]
pub struct ProcessCycle {
    pub tick_range: Range<u64>,
    pub time_range: Range<u64>,
    pub frames: u32,
    pub is_rolling: bool,
}

/// Frame offset in the buffer of a tick inside it, by proportion, truncated.
pub open spec fn frame_of(c: ProcessCycle, tick: int) -> int {
    (tick - c.tick_range.start) * c.frames / (c.tick_range.end - c.tick_range.start)
}

/// Tick at a frame offset in the buffer, by proportion, truncated.
pub open spec fn tick_of(c: ProcessCycle, frame: int) -> int {
    c.tick_range.start + frame * (c.tick_range.end - c.tick_range.start) / (c.frames as int)
}

impl ProcessCycle {
    pub open spec fn wf(&self) -> bool {
        &&& self.tick_range.start <= self.tick_range.end
        &&& self.time_range.start <= self.time_range.end
        &&& self.frames > 0
    }

    /// The tick at a transport frame.
    pub fn frame_to_tick(pos: TransportPosition, frame: u64) -> (r: u64)
        requires
            pos.frame_rate > 0,
            frame <= 2 * (u32::MAX as u64),
        ensures
            r == tick_at(pos, frame as int),
    {
        proof {
            assert(frame * pos.centi_beats_per_minute <= 2 * (u32::MAX as int) * (u32::MAX as int))
                by (nonlinear_arith)
                requires
                    frame <= 2 * (u32::MAX as int),
                    pos.centi_beats_per_minute <= u32::MAX,
            ;
            assert(frame * pos.centi_beats_per_minute * 1920 <= 2 * (u32::MAX as int) * (
            u32::MAX as int) * 1920) by (nonlinear_arith)
                requires
                    frame * pos.centi_beats_per_minute <= 2 * (u32::MAX as int) * (u32::MAX as int),
            ;
        }
        let product: u128 = frame as u128 * pos.centi_beats_per_minute as u128 * TICKS_PER_BEAT as u128;
        proof {
            assert(product <= 2 * (u32::MAX as int) * (u32::MAX as int) * 1920) by (nonlinear_arith)
                requires
                    product == frame * pos.centi_beats_per_minute * 1920,
                    frame * pos.centi_beats_per_minute <= 2 * (u32::MAX as int) * (u32::MAX as int),
            ;
            vstd::arithmetic::div_mod::lemma_div_is_ordered_by_denominator(
                product as int,
                6000,
                6000 * pos.frame_rate,
            );
            vstd::arithmetic::div_mod::lemma_div_is_ordered(
                product as int,
                2 * (u32::MAX as int) * (u32::MAX as int) * 1920,
                6000,
            );
        }
        (product / (6000 * pos.frame_rate as u128)) as u64
    }

    /// The cycle of the buffer of `frames` frames that starts at the transport's frame:
    /// its ticks run from the tick at that frame to the tick `frames` later.
    pub fn new(pos: TransportPosition, frames: u32, time_range: Range<u64>, is_rolling: bool) -> (r:
        Self)
        requires
            pos.frame_rate > 0,
            frames > 0,
            time_range.start <= time_range.end,
        ensures
            r.wf(),
            r.tick_range.start == tick_at(pos, pos.frame as int),
            r.tick_range.end == tick_at(pos, pos.frame + frames),
            r.time_range == time_range,
            r.frames == frames,
            r.is_rolling == is_rolling,
    {
        let tick_start = Self::frame_to_tick(pos, pos.frame as u64);
        let tick_stop = Self::frame_to_tick(pos, pos.frame as u64 + frames as u64);
        proof {
            assert(pos.frame * pos.centi_beats_per_minute * TICKS_PER_BEAT <= (pos.frame + frames)
                * pos.centi_beats_per_minute * TICKS_PER_BEAT) by (nonlinear_arith)
                requires
                    pos.frame <= pos.frame + frames,
                    pos.centi_beats_per_minute >= 0,
            ;
            lemma_div_is_ordered(
                pos.frame * pos.centi_beats_per_minute * TICKS_PER_BEAT,
                (pos.frame + frames) * pos.centi_beats_per_minute * TICKS_PER_BEAT,
                6000 * pos.frame_rate,
            );
        }
        ProcessCycle { tick_range: Range { start: tick_start, end: tick_stop }, time_range, frames, is_rolling }
    }

    pub fn usecs(&self) -> (r: u64)
        requires
            self.wf(),
        ensures
            r == self.time_range.end - self.time_range.start,
    {
        self.time_range.end - self.time_range.start
    }

    pub fn ticks(&self) -> (r: u64)
        requires
            self.wf(),
        ensures
            r == self.tick_range.end - self.tick_range.start,
    {
        self.tick_range.end - self.tick_range.start
    }

    /// Wall-clock microseconds at a frame offset in the buffer, by proportion.
    pub fn time_at_frame(&self, frame: u32) -> (r: u64)
        requires
            self.wf(),
            frame <= self.frames,
        ensures
            r == self.time_range.start + frame * (self.time_range.end - self.time_range.start)
                / (self.frames as int),
            self.time_range.start <= r <= self.time_range.end,
    {
        let usecs = self.usecs();
        proof {
            assert(frame * usecs <= self.frames * usecs) by (nonlinear_arith)
                requires
                    frame <= self.frames,
            ;
            lemma_multiply_divide_le(frame * usecs, self.frames as int, usecs as int);
            assert(frame * usecs <= (u32::MAX as int) * (u64::MAX as int)) by (nonlinear_arith)
                requires
                    frame <= u32::MAX,
                    0 <= usecs <= u64::MAX,
            ;
        }
        let part = (frame as u128 * usecs as u128 / self.frames as u128) as u64;
        self.time_range.start + part
    }

    /// Frame offset in the buffer at which a tick inside it falls.
    pub fn tick_to_frame(&self, tick: u64) -> (r: u32)
        requires
            self.wf(),
            self.tick_range.start <= tick < self.tick_range.end,
        ensures
            r == frame_of(*self, tick as int),
            r < self.frames,
    {
        let ticks = self.ticks();
        let offset = tick - self.tick_range.start;
        proof {
            assert(offset * self.frames < ticks * self.frames) by (nonlinear_arith)
                requires
                    offset < ticks,
                    self.frames > 0,
            ;
            assert(ticks * self.frames == self.frames * ticks) by (nonlinear_arith);
            lemma_multiply_divide_lt(offset * self.frames, ticks as int, self.frames as int);
            assert(offset * self.frames <= (u32::MAX as int) * (u64::MAX as int)) by (nonlinear_arith)
                requires
                    self.frames <= u32::MAX,
                    0 <= offset <= u64::MAX,
            ;
        }
        (offset as u128 * self.frames as u128 / ticks as u128) as u32
    }

    /// Tick at a frame offset in the buffer: the inverse of `tick_to_frame`.
    pub fn frame_to_cycle_tick(&self, frame: u32) -> (r: u64)
        requires
            self.wf(),
            frame <= self.frames,
        ensures
            r == tick_of(*self, frame as int),
            self.tick_range.start <= r <= self.tick_range.end,
    {
        let ticks = self.ticks();
        proof {
            assert(frame * ticks <= self.frames * ticks) by (nonlinear_arith)
                requires
                    frame <= self.frames,
            ;
            lemma_multiply_divide_le(frame * ticks, self.frames as int, ticks as int);
            assert(frame * ticks <= (u32::MAX as int) * (u64::MAX as int)) by (nonlinear_arith)
                requires
                    frame <= u32::MAX,
                    0 <= ticks <= u64::MAX,
            ;
        }
        let part = (frame as u128 * ticks as u128 / self.frames as u128) as u64;
        self.tick_range.start + part
    }
}

/// A frame taken to its tick and back comes out at most one frame early, wherever the
/// buffer spans at least as many ticks as frames.
pub proof fn lemma_cycle_round_trip(c: ProcessCycle, f: int)
    requires
        c.wf(),
        0 <= f < c.frames,
        c.frames <= c.tick_range.end - c.tick_range.start,
    ensures
        c.tick_range.start <= tick_of(c, f) < c.tick_range.end,
        f - 1 <= frame_of(c, tick_of(c, f)) <= f,
{
    let t = c.tick_range.end - c.tick_range.start;
    let n = c.frames as int;
    let q = f * t / n;
    lemma_fundamental_div_mod(f * t, n);
    lemma_mod_pos_bound(f * t, n);
    assert(f * t < n * t) by (nonlinear_arith)
        requires
            f < n,
            t > 0,
    ;
    lemma_multiply_divide_lt(f * t, n, t);
    assert(tick_of(c, f) - c.tick_range.start == q);
    assert(q * n <= t * f) by (nonlinear_arith)
        requires
            f * t == n * q + (f * t) % n,
            (f * t) % n >= 0,
    ;
    lemma_multiply_divide_le(q * n, t, f);
    let res = q * n / t;
    lemma_fundamental_div_mod(q * n, t);
    lemma_mod_pos_bound(q * n, t);
    assert(q * n >= 0) by (nonlinear_arith)
        requires
            q >= 0,
            n > 0,
    ;
    assert(res >= f - 1) by (nonlinear_arith)
        requires
            f * t == n * q + (f * t) % n,
            (f * t) % n < n,
            n <= t,
            q * n == t * res + (q * n) % t,
            (q * n) % t < t,
            t > 0,
    ;
    assert(frame_of(c, tick_of(c, f)) == res);
}

} // verus!
