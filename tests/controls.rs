use octothorpe::controller::Buttons;
use octothorpe::controller::input::{ButtonType, ControllerInput, FaderType, InputEvent, InputEventType, KnobType};
use octothorpe::grid::{MainGrid, PlayableGrid, RowGrid, SequenceGrid, SingleGrid};
use octothorpe::note::Note;
use octothorpe::playable::Playable;
use octothorpe::sequence::Sequence;
use octothorpe::surface::{Memory, Surface, SurfaceView};
use octothorpe::instrument::Instrument;

#[test]
fn decodes_buttons() {
    let apc = ControllerInput::APC40;
    let e = apc.message_to_input_event(7, &[0x92, 0x35, 0x7F], 0, 0);
    assert_eq!(e.time, 7);
    assert_eq!(e.event_type, InputEventType::ButtonPressed(ButtonType::Grid(2, 4)));
    let e = apc.message_to_input_event(0, &[0x83, 0x39, 0x00], 8, 0);
    assert_eq!(e.event_type, InputEventType::ButtonReleased(ButtonType::Grid(11, 0)));
    let e = apc.message_to_input_event(0, &[0x90, 0x52, 0x7F], 0, 0);
    assert_eq!(e.event_type, InputEventType::ButtonPressed(ButtonType::Side(4)));
    let e = ControllerInput::APC20.message_to_input_event(0, &[0x90, 0x50, 0x7F], 0, 0);
    assert_eq!(e.event_type, InputEventType::ButtonPressed(ButtonType::Master(0)));
    let e = apc.message_to_input_event(0, &[0x90, 0x50, 0x7F], 0, 0);
    assert_eq!(e.event_type, InputEventType::ButtonPressed(ButtonType::Master(1)));
    let e = apc.message_to_input_event(0, &[0x90, 0x11, 0x7F], 0, 0);
    assert_eq!(e.event_type, InputEventType::ButtonPressed(ButtonType::Unknown));
    assert!(InputEvent::is_grid_button(&InputEventType::ButtonPressed(ButtonType::Grid(0, 0))));
    assert!(!InputEvent::is_grid_button(&InputEventType::ButtonReleased(ButtonType::Grid(0, 0))));
    assert!(InputEvent::is_track_button(&InputEventType::ButtonPressed(ButtonType::Track(3))));
    assert!(InputEvent::is_solo_button(&InputEventType::ButtonPressed(ButtonType::Solo(3))));
    assert!(InputEvent::is_activator_button(&InputEventType::ButtonPressed(ButtonType::Activator(1))));
    assert!(InputEvent::is_right_button(&InputEventType::ButtonPressed(ButtonType::Right)));
    assert!(InputEvent::is_left_button(&InputEventType::ButtonPressed(ButtonType::Left)));
    assert!(!InputEvent::is_left_button(&InputEventType::ButtonPressed(ButtonType::Right)));
}

#[test]
fn decodes_controls() {
    let apc = ControllerInput::APC40;
    let e = apc.message_to_input_event(0, &[0xB0, 0x31, 0x40], 0, 0);
    assert_eq!(e.event_type, InputEventType::KnobTurned { value: 0x40, knob_type: KnobType::Effect(1) });
    let e = apc.message_to_input_event(0, &[0xB0, 0x12, 0x05], 0, 0);
    assert_eq!(e.event_type, InputEventType::KnobTurned { value: 5, knob_type: KnobType::Effect(10) });
    let e = apc.message_to_input_event(0, &[0xB3, 0x07, 0x10], 8, 0);
    assert_eq!(e.event_type, InputEventType::FaderMoved { value: 0x10, fader_type: FaderType::Track(11) });
    let e = ControllerInput::APC20.message_to_input_event(0, &[0xB0, 0x0E, 1], 0, 0);
    assert_eq!(e.event_type, InputEventType::FaderMoved { value: 1, fader_type: FaderType::Velocity });
    let e = apc.message_to_input_event(0, &[0xB0, 0x0F, 2], 0, 0);
    assert!(InputEvent::is_crossfader(&e.event_type));
    for (raw, delta) in [(1u8, 1i8), (63, 63), (64, -64), (127, -1), (128, 0), (129, 1), (191, 63), (192, -63), (255, 0)] {
        let expected = ((raw as i8).rotate_left(1)) / 2;
        assert_eq!(expected, delta);
        let e = apc.message_to_input_event(0, &[0xB0, 0x2F, raw], 0, 0);
        assert_eq!(e.event_type, InputEventType::DeltaKnobTurned { delta, knob_type: KnobType::Move(1) });
    }
}

#[test]
fn decodes_inquiry_and_short_messages() {
    let apc = ControllerInput::APC40;
    let mut sysex = vec![0xF0, 0x7E, 0x00, 0x06, 0x02, 0x47, 0x73, 0, 0, 0, 0, 0, 0, 0x05, 0xF7];
    let e = apc.message_to_input_event(0, &sysex, 0, 0);
    assert_eq!(e.event_type, InputEventType::InquiryResponse(0x05, 0x73));
    sysex[5] = 0x48;
    assert_eq!(apc.message_to_input_event(0, &sysex, 0, 0).event_type, InputEventType::Unknown);
    assert_eq!(apc.message_to_input_event(0, &[0xF0, 0x7E, 0x00, 0x06], 0, 0).event_type, InputEventType::Unknown);
    assert_eq!(apc.message_to_input_event(0, &[0x90, 0x35], 0, 0).event_type, InputEventType::Unknown);
}

#[test]
fn surface_toggles_views() {
    let mut surface = Surface::new();
    assert_eq!(surface.view, SurfaceView::Instrument);
    surface.toggle_instrument(0);
    assert_eq!(surface.view, SurfaceView::Sequence);
    surface.toggle_instrument(3);
    assert_eq!(surface.view, SurfaceView::Instrument);
    assert_eq!(surface.instrument_shown(), 3);
    surface.toggle_sequence(2);
    assert_eq!(surface.view, SurfaceView::Sequence);
    assert_eq!(surface.sequence_shown(), 2);
    surface.toggle_sequence(2);
    assert_eq!(surface.view, SurfaceView::Instrument);
    surface.switch_view();
    assert_eq!(surface.view, SurfaceView::Sequence);
    surface.show_instrument(5);
    surface.show_sequence(1);
    assert_eq!((surface.instrument_shown(), surface.sequence_shown()), (5, 1));
}

#[test]
fn memory_tracks_modifiers() {
    let mut memory = Memory::new();
    assert_eq!(memory.global_modifier(ButtonType::Shift), None);
    memory.press(0, ButtonType::Shift);
    memory.press(1, ButtonType::Grid(1, 2));
    memory.press(0, ButtonType::Shift);
    assert_eq!(memory.modifier(0, ButtonType::Grid(0, 0)), Some(ButtonType::Shift));
    assert_eq!(memory.modifier(0, ButtonType::Shift), None);
    assert_eq!(memory.modifier(1, ButtonType::Shift), Some(ButtonType::Grid(1, 2)));
    assert_eq!(memory.global_modifier(ButtonType::Shift), Some(ButtonType::Grid(1, 2)));
    memory.release(0, 10, ButtonType::Shift);
    assert_eq!(memory.pressed_buttons.len(), 2);
    assert_eq!(memory.pressed_buttons[1].button_type, ButtonType::Grid(1, 2));
    memory.release(0, 11, ButtonType::Play);
    assert_eq!(memory.pressed_buttons.len(), 2);
}

#[test]
fn sequences_pick_phrases() {
    let mut sequence = Sequence::default();
    assert_eq!(sequence.active_phrases(), vec![(0, 0), (1, 0)]);
    assert_eq!(Sequence::alternate_default().active_phrases(), vec![(0, 1), (1, 1)]);
    assert!(Sequence::new().active_phrases().is_empty());
    sequence.toggle_phrase(1, 0);
    sequence.toggle_phrase(5, 2);
    assert_eq!(sequence.active_phrases(), vec![(0, 0), (5, 2)]);
    sequence.toggle_phrase(0, 3);
    assert_eq!(sequence.active_phrases(), vec![(0, 3), (5, 2)]);
    sequence.toggle_active(0);
    assert_eq!(sequence.playing_phrases(), vec![(5, 2)]);
    let mut instruments: Vec<Instrument> = (0..16).map(|i| Instrument::new(i)).collect();
    instruments[5].phrases[2].set_length(50000).unwrap();
    assert_eq!(sequence.ticks(&instruments), Some(50000));
    assert_eq!(Sequence::new().ticks(&instruments), None);
}

#[test]
fn playable_zoom_offset_length() {
    let mut playable = Playable::new(2, 1);
    assert_eq!(playable.ticks, 15360);
    assert_eq!(playable.beats(), 8);
    assert_eq!(playable.bars(), 2);
    assert_eq!(playable.ticks_per_led(8), 1920);
    playable.change_zoom(2);
    assert_eq!((playable.zoom, playable.offset), (4, 0));
    assert!(playable.change_offset(3));
    assert!(!playable.change_offset(1));
    assert_eq!(playable.offset, 3);
    assert_eq!(playable.ticks_offset(8), 8 * 3 * 480);
    playable.change_zoom(7);
    assert_eq!((playable.zoom, playable.offset), (4, 3));
    playable.change_zoom(3);
    assert_eq!((playable.zoom, playable.offset), (8, 2));
    assert!(!playable.change_offset(-3));
    assert!(playable.change_length(4));
    assert_eq!(playable.ticks, 4 * 7680);
    assert!(!playable.change_length(3));
    assert_eq!(playable.ticks, 4 * 7680);
}

#[test]
fn shorter_length_zooms_out_and_resets_offset() {
    let mut playable = Playable::new(2, 1);
    playable.change_zoom(3);
    assert!(playable.change_offset(3));
    assert_eq!((playable.zoom, playable.offset), (8, 5));
    assert!(playable.change_length(1));
    assert_eq!((playable.zoom, playable.offset, playable.ticks), (4, 0, 7680));
}

#[test]
fn note_message_bytes() {
    let n = Note::new(2, 0, 10, 60, 100);
    assert_eq!(n.message(0x90, None, None), [0x92, 60, 100]);
    assert_eq!(n.message(0x80, Some(61), Some(0)), [0x82, 61, 0]);
}

#[test]
fn grids_start_dark() {
    assert_eq!(MainGrid::new().next, [0; 40]);
    assert_eq!(RowGrid::new().width, 8);
    assert_eq!(SequenceGrid::new().current, [0; 4]);
    assert_eq!(SingleGrid::new().width, 1);
    assert_eq!(PlayableGrid::new().next, [0; 5]);
}

#[test]
fn double_press_within_half_a_beat() {
    let mut buttons = Buttons::new();
    assert!(!buttons.press(100, 0x90, 0x52));
    assert!(buttons.release(150, 0x80, 0x52));
    assert_eq!(buttons.pressed[0].end, Some(150));
    assert!(buttons.press(1000, 0x90, 0x52));
    assert!(buttons.release(1010, 0x80, 0x52));
    assert!(!buttons.press(1000 + 1010, 0x90, 0x52));
    assert_eq!(buttons.pressed.len(), 1);
    assert!(!buttons.press(2100, 0x91, 0x52));
    assert!(!buttons.release(2200, 0x85, 0x52));
}
