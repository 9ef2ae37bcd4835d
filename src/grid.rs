use vstd::prelude::*;

verus! {

/// LED states of the main grid: what is lit now, and what should be lit next.
pub struct MainGrid {
    pub width: u8,
    pub current: [u8; 40],
    pub next: [u8; 40],
}

impl MainGrid {
    pub fn new() -> (r: Self)
        ensures
            r.width == 8,
            forall|i: int| 0 <= i < 40 ==> r.current@[i] == 0 && r.next@[i] == 0,
    {
        MainGrid { width: 8, current: [0; 40], next: [0; 40] }
    }
}

/// LED states of a row of eight buttons.
pub struct RowGrid {
    pub width: u8,
    pub current: [u8; 8],
    pub next: [u8; 8],
}

impl RowGrid {
    pub fn new() -> (r: Self)
        ensures
            r.width == 8,
            forall|i: int| 0 <= i < 8 ==> r.current@[i] == 0 && r.next@[i] == 0,
    {
        RowGrid { width: 8, current: [0; 8], next: [0; 8] }
    }
}

/// LED states of the column of four sequence buttons.
pub struct SequenceGrid {
    pub width: u8,
    pub current: [u8; 4],
    pub next: [u8; 4],
}

impl SequenceGrid {
    pub fn new() -> (r: Self)
        ensures
            r.width == 1,
            forall|i: int| 0 <= i < 4 ==> r.current@[i] == 0 && r.next@[i] == 0,
    {
        SequenceGrid { width: 1, current: [0; 4], next: [0; 4] }
    }
}

/// LED state of a single button.
pub struct SingleGrid {
    pub width: u8,
    pub current: [u8; 1],
    pub next: [u8; 1],
}

impl SingleGrid {
    pub fn new() -> (r: Self)
        ensures
            r.width == 1,
            r.current@[0] == 0 && r.next@[0] == 0,
    {
        SingleGrid { width: 1, current: [0; 1], next: [0; 1] }
    }
}

/// LED states of the column of five pattern or phrase buttons.
pub struct PlayableGrid {
    pub width: u8,
    pub current: [u8; 5],
    pub next: [u8; 5],
}

impl PlayableGrid {
    pub fn new() -> (r: Self)
        ensures
            r.width == 1,
            forall|i: int| 0 <= i < 5 ==> r.current@[i] == 0 && r.next@[i] == 0,
    {
        PlayableGrid { width: 1, current: [0; 5], next: [0; 5] }
    }
}

} // verus!
