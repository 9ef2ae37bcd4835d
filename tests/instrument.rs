use octothorpe::cycle::{ProcessCycle, TransportPosition};
use octothorpe::events::{LoopEvent, NoteVelocity};
use octothorpe::instrument::{Instrument, PlayingNoteEvent, TimedMessage};
use octothorpe::timeline::TimelineError;

fn note(start: u32, stop: u32, key: u8) -> LoopEvent<NoteVelocity> {
    LoopEvent { start, stop: Some(stop), row: key, payload: NoteVelocity { start: 100, stop: 64 } }
}

fn reference(start: u32, stop: u32, pattern: u8) -> LoopEvent<()> {
    LoopEvent { start, stop: Some(stop), row: pattern, payload: () }
}

fn starts(notes: &[PlayingNoteEvent]) -> Vec<u64> {
    let mut s: Vec<u64> = notes.iter().map(|n| n.start).collect();
    s.sort();
    s
}

fn cycle(start: u64, stop: u64, frames: u32, rolling: bool) -> ProcessCycle {
    ProcessCycle { tick_range: start..stop, time_range: 0..1000, frames, is_rolling: rolling }
}

/// Phrase 0 of 1000 ticks holds a reference to pattern 0 that runs from 900 past the
/// end to 50 of the next pass; pattern 0 has a note at 70 (phrase tick 970) and one
/// at 120 (tick 20 of the next pass).
fn looping_instrument() -> Instrument {
    let mut instrument = Instrument::new(0);
    instrument.phrases[0].set_length(1000).unwrap();
    instrument.phrases[0].add_complete_event(reference(900, 1050, 0)).unwrap();
    instrument.patterns[0].add_complete_event(note(70, 80, 60));
    instrument.patterns[0].add_complete_event(note(120, 130, 62));
    instrument
}

#[test]
fn wraparound_playback() {
    let instrument = looping_instrument();
    let notes = instrument.starting_notes(950..1020, 0, 0).unwrap();
    assert_eq!(
        notes,
        vec![PlayingNoteEvent { start: 970, stop: 980, key: 60, start_velocity: 100, stop_velocity: 64 }]
    );
    let notes = instrument.starting_notes(1020..1040, 0, 0).unwrap();
    assert_eq!(
        notes,
        vec![PlayingNoteEvent { start: 1020, stop: 1030, key: 62, start_velocity: 100, stop_velocity: 64 }]
    );
}

#[test]
fn leading_segment_plays_in_first_pass() {
    let instrument = looping_instrument();
    let notes = instrument.starting_notes(0..100, 0, 0).unwrap();
    assert_eq!(starts(&notes), vec![20]);
    // a long window takes every pass
    let notes = instrument.starting_notes(0..3000, 0, 0).unwrap();
    assert_eq!(starts(&notes), vec![20, 970, 1020, 1970, 2020, 2970]);
}

#[test]
fn sequence_start_shifts_playback() {
    let instrument = looping_instrument();
    let notes = instrument.starting_notes(5000..6000, 5000, 0).unwrap();
    assert_eq!(starts(&notes), vec![5020, 5970]);
    assert_eq!(instrument.starting_notes(100..200, 150, 0), Err(TimelineError::BeforeStart));
    assert_eq!(instrument.starting_notes(100..100, 0, 0), Err(TimelineError::EmptyRange));
}

#[test]
fn open_and_empty_notes_never_start() {
    let mut instrument = looping_instrument();
    instrument.patterns[0].try_add_starting_event(LoopEvent::new(80, 70, NoteVelocity { start: 1, stop: 0 }));
    instrument.patterns[0].note_events.push(LoopEvent { start: 90, stop: Some(90), row: 71, payload: NoteVelocity { start: 1, stop: 1 } });
    let notes = instrument.starting_notes(900..1000, 0, 0).unwrap();
    assert_eq!(starts(&notes), vec![970]);
}

#[test]
fn zero_length_phrase_is_refused() {
    let mut instrument = looping_instrument();
    instrument.phrases[1].length = 0;
    assert_eq!(instrument.starting_notes(0..10, 0, 1), Err(TimelineError::ZeroLength));
}

#[test]
fn output_orders_note_off_before_note_on() {
    let mut instrument = Instrument::new(2);
    let first = PlayingNoteEvent { start: 0, stop: 150, key: 60, start_velocity: 100, stop_velocity: 10 };
    let messages = instrument.output_midi(&cycle(0, 100, 100, true), vec![first]);
    assert_eq!(messages, vec![TimedMessage { frame: 0, status: 0x92, data1: 60, data2: 100 }]);
    assert_eq!(instrument.playing_notes, vec![first]);

    let again = PlayingNoteEvent { start: 150, stop: 250, key: 60, start_velocity: 110, stop_velocity: 20 };
    let short = PlayingNoteEvent { start: 110, stop: 130, key: 64, start_velocity: 90, stop_velocity: 30 };
    let messages = instrument.output_midi(&cycle(100, 200, 200, true), vec![again, short]);
    assert_eq!(
        messages,
        vec![
            TimedMessage { frame: 20, status: 0x92, data1: 64, data2: 90 },
            TimedMessage { frame: 60, status: 0x82, data1: 64, data2: 30 },
            TimedMessage { frame: 100, status: 0x82, data1: 60, data2: 10 },
            TimedMessage { frame: 100, status: 0x92, data1: 60, data2: 110 },
        ]
    );
    assert_eq!(instrument.playing_notes, vec![again]);
}

#[test]
fn stopped_transport_starts_nothing() {
    let mut instrument = Instrument::new(0);
    let n = PlayingNoteEvent { start: 10, stop: 20, key: 60, start_velocity: 100, stop_velocity: 0 };
    let messages = instrument.output_midi(&cycle(0, 100, 100, false), vec![n]);
    assert!(messages.is_empty());
    assert!(instrument.playing_notes.is_empty());
}

#[test]
fn flush_stops_each_sounding_note_once() {
    let mut instrument = Instrument::new(1);
    let a = PlayingNoteEvent { start: 0, stop: 500, key: 60, start_velocity: 100, stop_velocity: 5 };
    let b = PlayingNoteEvent { start: 10, stop: 600, key: 64, start_velocity: 100, stop_velocity: 6 };
    instrument.output_midi(&cycle(0, 100, 100, true), vec![a, b]);
    let offs = instrument.flush();
    assert_eq!(
        offs,
        vec![
            TimedMessage { frame: 0, status: 0x81, data1: 60, data2: 5 },
            TimedMessage { frame: 0, status: 0x81, data1: 64, data2: 6 },
        ]
    );
    assert!(instrument.playing_notes.is_empty());
    let next = instrument.output_midi(&cycle(400, 700, 100, false), vec![]);
    assert!(next.is_empty());
    assert!(instrument.flush().is_empty());
}

#[test]
fn clone_pattern_and_phrase() {
    let mut instrument = looping_instrument();
    instrument.clone_pattern(0, 3);
    assert_eq!(instrument.patterns[3].note_events, instrument.patterns[0].note_events);
    instrument.clone_phrase(0, 4);
    assert_eq!(instrument.phrase(4).length(), 1000);
    assert_eq!(instrument.phrase(4).pattern_events, instrument.phrase(0).pattern_events);
    assert_eq!(instrument.pattern(3).note_events.len(), 2);
}

#[test]
fn cycle_from_transport() {
    let pos = TransportPosition { frame: 48000, frame_rate: 48000, centi_beats_per_minute: 12000 };
    assert_eq!(ProcessCycle::frame_to_tick(pos, 48000), 3840);
    let c = ProcessCycle::new(pos, 480, 1_000_000..1_010_000, true);
    assert_eq!(c.tick_range, 3840..3878);
    assert_eq!(c.ticks(), 38);
    assert_eq!(c.usecs(), 10_000);
    assert_eq!(c.time_at_frame(240), 1_005_000);
    assert_eq!(c.tick_to_frame(3859), 240);
    assert_eq!(c.frame_to_cycle_tick(240), 3859);
    assert!(c.is_rolling);
    let slow = TransportPosition { frame: 48000, frame_rate: 48000, centi_beats_per_minute: 12050 };
    assert_eq!(ProcessCycle::frame_to_tick(slow, 48000), 3856);
}

#[test]
fn cycle_round_trip_within_a_frame() {
    let c = cycle(1000, 1777, 256, true);
    for f in 0..256u32 {
        let back = c.tick_to_frame(c.frame_to_cycle_tick(f));
        assert!(back <= f && f - back <= 1);
    }
}

#[test]
fn short_note_stops_in_its_buffer() {
    let mut instrument = Instrument::new(0);
    let short = PlayingNoteEvent { start: 10, stop: 20, key: 60, start_velocity: 100, stop_velocity: 7 };
    let messages = instrument.output_midi(&cycle(0, 100, 100, true), vec![short]);
    assert_eq!(
        messages,
        vec![
            TimedMessage { frame: 10, status: 0x90, data1: 60, data2: 100 },
            TimedMessage { frame: 20, status: 0x80, data1: 60, data2: 7 },
        ]
    );
    assert!(instrument.playing_notes.is_empty());
    // a note that would stop on the frame it starts at is left out
    let messages = instrument.output_midi(&cycle(0, 1000, 10, true), vec![short]);
    assert!(messages.is_empty());
    assert!(instrument.playing_notes.is_empty());
}

#[test]
fn only_stops_inside_the_cycle_retire() {
    let mut instrument = Instrument::new(0);
    let long = PlayingNoteEvent { start: 10, stop: 120, key: 60, start_velocity: 100, stop_velocity: 7 };
    instrument.output_midi(&cycle(0, 100, 100, true), vec![long]);
    // after a jump past its stop the note is not retired by the cycle rule
    let messages = instrument.output_midi(&cycle(500, 600, 100, true), vec![]);
    assert!(messages.is_empty());
    assert_eq!(instrument.playing_notes, vec![long]);
    assert_eq!(instrument.flush(), vec![TimedMessage { frame: 0, status: 0x80, data1: 60, data2: 7 }]);
}

#[test]
fn edit_slots_in_place() {
    let mut instrument = Instrument::new(0);
    instrument.get_pattern(2).add_complete_event(note(0, 10, 60));
    instrument.phrase_mut(3).set_length(500).unwrap();
    assert_eq!(instrument.pattern(2).note_events.len(), 1);
    assert_eq!(instrument.phrase(3).length(), 500);
    assert_eq!(instrument.phrase(0).length(), 30720);
}

#[test]
fn starting_notes_holds_each_note_once() {
    let mut instrument = looping_instrument();
    instrument.patterns[0].note_events.push(note(70, 80, 60));
    let notes = instrument.starting_notes(900..1000, 0, 0).unwrap();
    assert_eq!(starts(&notes), vec![970]);
}
