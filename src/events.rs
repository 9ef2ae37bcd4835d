use vstd::prelude::*;

verus! {

/// An event on a row of a timeline: `[start, stop)` in ticks, or open (`stop == None`)
/// while its end is not known yet.
#[derive(Debug, Clone, Copy, PartialEq, Eq, Structural)]
pub struct LoopEvent<P> {
    pub start: u32,
    pub stop: Option<u32>,
    pub row: u8,
    pub payload: P,
}

impl<P: Copy> LoopEvent<P> {
    /// A new open event.
    pub fn new(start: u32, row: u8, payload: P) -> (r: Self)
        ensures
            r == (LoopEvent { start, stop: None::<u32>, row, payload }),
    {
        LoopEvent { start, stop: None, row, payload }
    }
}

/// Velocities of a note's press and release.
#[derive(Debug, Clone, Copy, PartialEq, Eq, Structural)]
pub struct NoteVelocity {
    pub start: u8,
    pub stop: u8,
}

} // verus!
