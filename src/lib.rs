use vstd::prelude::*;

/// Timeline events and their payloads.
pub mod events;
/// Row-addressed timelines: open and complete inserts, and overlap resolution.
pub mod timeline;
/// Patterns of notes and phrases of pattern references.
pub mod loopable;
/// Which notes start in a window, and the MIDI of one buffer.
pub mod instrument;
/// Ticks, frames and wall-clock time of one audio buffer.
pub mod cycle;
/// Controller messages and button presses.
pub mod controller;
/// What the controller grid shows, and the buttons held.
pub mod surface;
/// Which phrase each instrument plays.
pub mod sequence;
/// How a pattern or phrase is laid over the grid.
pub mod playable;
/// A single note and its message bytes.
pub mod note;
/// LED states of the controller's button groups.
pub mod grid;
/// All instruments and sequences, one buffer at a time.
pub mod sequencer;

verus! {

/// Smallest musical time units in one beat.
pub const TICKS_PER_BEAT: u32 = 1920;

/// Beats in one bar.
pub const BEATS_PER_BAR: u32 = 4;

} // verus!
