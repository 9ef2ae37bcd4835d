use vstd::prelude::*;
use crate::controller::input::ButtonType;

verus! {

/// What the grid shows.
#[derive(Debug, Clone, Copy, PartialEq, Eq, Structural)]
pub enum SurfaceView {
    Instrument,
    Sequence,
}

pub open spec fn other_view(v: SurfaceView) -> SurfaceView {
    match v {
        SurfaceView::Instrument => SurfaceView::Sequence,
        SurfaceView::Sequence => SurfaceView::Instrument,
    }
}

/// A button held down on a controller.
#[derive(Debug, Clone, Copy, PartialEq, Eq, Structural)]
pub struct ButtonPress {
    pub controller_id: u8,
    pub button_type: ButtonType,
}

/// The buttons held down, oldest first, so that one can modify another.
pub struct Memory {
    pub pressed_buttons: Vec<ButtonPress>,
}

/// Index of the first press in `s` that is not of `button_type`, and on `controller`
/// when one is given.
pub open spec fn is_first_other(
    s: Seq<ButtonPress>,
    controller: Option<u8>,
    button_type: ButtonType,
    i: int,
) -> bool {
    &&& 0 <= i < s.len()
    &&& is_other(s[i], controller, button_type)
    &&& forall|k: int| 0 <= k < i ==> !is_other(s[k], controller, button_type)
}

pub open spec fn is_other(p: ButtonPress, controller: Option<u8>, button_type: ButtonType) -> bool {
    p.button_type != button_type && (controller.is_none() || p.controller_id
        == controller.unwrap())
}

pub open spec fn press_of(controller_id: u8, button_type: ButtonType) -> ButtonPress {
    ButtonPress { controller_id, button_type }
}

/// `s` without its last element equal to `x`, or `s` itself when none is.
pub open spec fn without_last(s: Seq<ButtonPress>, x: ButtonPress) -> Seq<ButtonPress>
    decreases s.len(),
{
    if s.len() == 0 {
        s
    } else if s.last() == x {
        s.drop_last()
    } else {
        without_last(s.drop_last(), x).push(s.last())
    }
}

impl Memory {
    pub fn new() -> (r: Self)
        ensures
            r.pressed_buttons@ == Seq::<ButtonPress>::empty(),
    {
        Memory { pressed_buttons: Vec::new() }
    }

    /// Remembers a button going down.
    pub fn press(&mut self, controller_id: u8, button_type: ButtonType)
        ensures
            final(self).pressed_buttons@ == old(self).pressed_buttons@.push(
                ButtonPress { controller_id, button_type },
            ),
    {
        self.pressed_buttons.push(ButtonPress { controller_id, button_type });
    }

    /// Forgets the latest press of the button on that controller; a release with no
    /// press changes nothing.
    pub fn release(&mut self, controller_id: u8, _end: u64, button_type: ButtonType)
        ensures
            final(self).pressed_buttons@ == without_last(
                old(self).pressed_buttons@,
                press_of(controller_id, button_type),
            ),
    {
        let target = ButtonPress { controller_id, button_type };
        let mut i: usize = self.pressed_buttons.len();
        proof {
            let s = self.pressed_buttons@;
            assert(s.take(s.len() as int) =~= s);
            assert(s.take(s.len() as int).add(s.skip(s.len() as int)) =~= s);
        }
        while i > 0
            invariant
                0 <= i <= self.pressed_buttons.len(),
                self.pressed_buttons@ == old(self).pressed_buttons@,
                target == press_of(controller_id, button_type),
                without_last(self.pressed_buttons@, target) == without_last(
                    self.pressed_buttons@.take(i as int),
                    target,
                ).add(self.pressed_buttons@.skip(i as int)),
            decreases i,
        {
            let p = self.pressed_buttons[i - 1];
            proof {
                let s = self.pressed_buttons@;
                assert(s.take(i as int).drop_last() == s.take(i as int - 1));
                assert(s.take(i as int).last() == p);
                assert(s.skip(i as int - 1) == seq![p].add(s.skip(i as int)));
            }
            if p == target {
                proof {
                    let s = self.pressed_buttons@;
                    assert(s.remove(i as int - 1) =~= s.take(i as int - 1).add(s.skip(i as int)));
                    assert(without_last(s.take(i as int), target) == s.take(i as int).drop_last());
                }
                self.pressed_buttons.remove(i - 1);
                return;
            }
            proof {
                let s = self.pressed_buttons@;
                assert(without_last(s.take(i as int), target) =~= without_last(s.take(i as int - 1), target).push(p));
                assert(without_last(s.take(i as int), target).add(s.skip(i as int)) =~= without_last(
                    s.take(i as int - 1),
                    target,
                ).add(s.skip(i as int - 1)));
            }
            i -= 1;
        }
        proof {
            assert(self.pressed_buttons@.skip(0) == self.pressed_buttons@);
        }
    }

    fn first_other(&self, controller: Option<u8>, button_type: ButtonType) -> (r: Option<ButtonType>)
        ensures
            r is None <==> forall|i: int|
                0 <= i < self.pressed_buttons@.len() ==> !is_other(
                    self.pressed_buttons@[i],
                    controller,
                    button_type,
                ),
            r is Some ==> exists|i: int|
                is_first_other(self.pressed_buttons@, controller, button_type, i)
                    && self.pressed_buttons@[i].button_type == r->Some_0,
    {
        let mut i: usize = 0;
        while i < self.pressed_buttons.len()
            invariant
                0 <= i <= self.pressed_buttons.len(),
                forall|k: int|
                    0 <= k < i ==> !is_other(self.pressed_buttons@[k], controller, button_type),
            decreases self.pressed_buttons.len() - i,
        {
            let p = self.pressed_buttons[i];
            let on_controller = match controller {
                Some(id) => p.controller_id == id,
                None => true,
            };
            if p.button_type != button_type && on_controller {
                proof {
                    assert(is_first_other(self.pressed_buttons@, controller, button_type, i as int));
                }
                return Some(p.button_type);
            }
            i += 1;
        }
        None
    }

    /// The earliest button held on the controller other than `button_type`.
    pub fn modifier(&self, controller_id: u8, button_type: ButtonType) -> (r: Option<ButtonType>)
        ensures
            r is None <==> forall|i: int|
                0 <= i < self.pressed_buttons@.len() ==> !is_other(
                    self.pressed_buttons@[i],
                    Some(controller_id),
                    button_type,
                ),
            r is Some ==> exists|i: int|
                is_first_other(self.pressed_buttons@, Some(controller_id), button_type, i)
                    && self.pressed_buttons@[i].button_type == r->Some_0,
    {
        self.first_other(Some(controller_id), button_type)
    }

    /// The earliest button held on any controller other than `button_type`.
    pub fn global_modifier(&self, button_type: ButtonType) -> (r: Option<ButtonType>)
        ensures
            r is None <==> forall|i: int|
                0 <= i < self.pressed_buttons@.len() ==> !is_other(
                    self.pressed_buttons@[i],
                    None,
                    button_type,
                ),
            r is Some ==> exists|i: int|
                is_first_other(self.pressed_buttons@, None, button_type, i)
                    && self.pressed_buttons@[i].button_type == r->Some_0,
    {
        self.first_other(None, button_type)
    }
}

/// What the controllers' grids show, and the held buttons.
pub struct Surface {
    pub view: SurfaceView,
    pub memory: Memory,
    pub instrument_shown: u8,
    pub sequence_shown: u8,
}

impl Surface {
    pub fn new() -> (r: Self)
        ensures
            r.view == SurfaceView::Instrument,
            r.memory.pressed_buttons@ == Seq::<ButtonPress>::empty(),
            r.instrument_shown == 0,
            r.sequence_shown == 0,
    {
        Surface { view: SurfaceView::Instrument, memory: Memory::new(), instrument_shown: 0, sequence_shown: 0 }
    }

    pub fn switch_view(&mut self)
        ensures
            final(self).view == other_view(old(self).view),
            final(self).memory == old(self).memory,
            final(self).instrument_shown == old(self).instrument_shown,
            final(self).sequence_shown == old(self).sequence_shown,
    {
        self.view = match self.view {
            SurfaceView::Instrument => SurfaceView::Sequence,
            SurfaceView::Sequence => SurfaceView::Instrument,
        }
    }

    pub fn show_instrument(&mut self, index: u8)
        ensures
            final(self).instrument_shown == index,
            final(self).view == old(self).view,
            final(self).memory == old(self).memory,
            final(self).sequence_shown == old(self).sequence_shown,
    {
        self.instrument_shown = index;
    }

    pub fn instrument_shown(&self) -> (r: usize)
        ensures
            r == self.instrument_shown,
    {
        self.instrument_shown as usize
    }

    pub fn show_sequence(&mut self, index: u8)
        ensures
            final(self).sequence_shown == index,
            final(self).view == old(self).view,
            final(self).memory == old(self).memory,
            final(self).instrument_shown == old(self).instrument_shown,
    {
        self.sequence_shown = index;
    }

    pub fn sequence_shown(&self) -> (r: usize)
        ensures
            r == self.sequence_shown,
    {
        self.sequence_shown as usize
    }

    /// Pressing the instrument already shown flips the view, to peek at the sequence;
    /// another instrument is shown, in the instrument view.
    pub fn toggle_instrument(&mut self, index: u8)
        ensures
            final(self).memory == old(self).memory,
            final(self).sequence_shown == old(self).sequence_shown,
            old(self).instrument_shown == index ==> final(self).view == other_view(old(self).view)
                && final(self).instrument_shown == index,
            old(self).instrument_shown != index ==> final(self).view == SurfaceView::Instrument
                && final(self).instrument_shown == index,
    {
        if self.instrument_shown() == index as usize {
            self.switch_view();
        } else {
            self.show_instrument(index);
            if let SurfaceView::Sequence = self.view {
                self.switch_view()
            }
        }
    }

    /// Pressing the sequence already shown flips the view, to peek at the instrument;
    /// another sequence is shown, in the sequence view.
    pub fn toggle_sequence(&mut self, index: u8)
        ensures
            final(self).memory == old(self).memory,
            final(self).instrument_shown == old(self).instrument_shown,
            old(self).sequence_shown == index ==> final(self).view == other_view(old(self).view)
                && final(self).sequence_shown == index,
            old(self).sequence_shown != index ==> final(self).view == SurfaceView::Sequence
                && final(self).sequence_shown == index,
    {
        if self.sequence_shown() == index as usize {
            self.switch_view();
        } else {
            self.show_sequence(index);
            if let SurfaceView::Instrument = self.view {
                self.switch_view()
            }
        }
    }
}

} // verus!
