use octothorpe::cycle::ProcessCycle;
use octothorpe::events::{LoopEvent, NoteVelocity};
use octothorpe::instrument::TimedMessage;
use octothorpe::sequencer::Sequencer;

fn cycle(start: u64, stop: u64, frames: u32) -> ProcessCycle {
    ProcessCycle { tick_range: start..stop, time_range: 0..1000, frames, is_rolling: true }
}

fn note(start: u32, stop: u32, key: u8) -> LoopEvent<NoteVelocity> {
    LoopEvent { start, stop: Some(stop), row: key, payload: NoteVelocity { start: 100, stop: 0 } }
}

fn reference(start: u32, stop: u32, pattern: u8) -> LoopEvent<()> {
    LoopEvent { start, stop: Some(stop), row: pattern, payload: () }
}

/// Instrument 0 plays phrase 0 (1000 ticks, pattern 0 from 0) in sequence 0 and
/// phrase 1 (1000 ticks, pattern 1 from 0) in sequence 1.
fn sequencer() -> Sequencer {
    let mut s = Sequencer::new();
    for i in 0..16 {
        s.instruments[i].phrases[0].set_length(1000).unwrap();
        s.instruments[i].phrases[1].set_length(1000).unwrap();
    }
    let instrument = &mut s.instruments[0];
    instrument.phrases[0].add_complete_event(reference(0, 1000, 0)).unwrap();
    instrument.phrases[1].add_complete_event(reference(0, 1000, 1)).unwrap();
    instrument.patterns[0].add_complete_event(note(10, 20, 60));
    instrument.patterns[1].add_complete_event(note(10, 20, 72));
    s
}

#[test]
fn sequencer_starts_in_first_sequence() {
    let s = Sequencer::new();
    assert_eq!(s.sequence_playing, 0);
    assert_eq!(s.sequence_queued, Some(0));
    assert_eq!(s.instruments.len(), 16);
    assert!(s.sequences[2].active_phrases().is_empty());
    assert_eq!(s.sequences[1].active_phrases(), vec![(0, 1), (1, 1)]);
    assert_eq!(s.instruments[9].channel, 9);
    assert_eq!(s.sequences[0].active_phrases(), vec![(0, 0), (1, 0)]);
}

#[test]
fn sequencer_plays_each_pass() {
    let mut s = sequencer();
    let messages = s.output(&cycle(0, 100, 100));
    assert_eq!(
        messages,
        vec![
            TimedMessage { frame: 10, status: 0x90, data1: 60, data2: 100 },
            TimedMessage { frame: 20, status: 0x80, data1: 60, data2: 0 },
        ]
    );
    let messages = s.output(&cycle(100, 1015, 915));
    assert_eq!(messages, vec![TimedMessage { frame: 910, status: 0x90, data1: 60, data2: 100 }]);
    assert_eq!(s.instruments[0].playing_notes.len(), 1);
}

#[test]
fn queued_sequence_takes_over_at_pass_end() {
    let mut s = sequencer();
    s.queue_sequence(1);
    assert_eq!(s.switch_point(0..100), None);
    assert_eq!(s.switch_point(900..1015), Some(1000));
    s.output(&cycle(900, 1015, 115));
    assert_eq!(s.sequence_playing, 1);
    assert_eq!(s.sequence_queued, None);
    assert_eq!(s.sequence_start, 1000);
    let keys: Vec<u8> = s.instruments[0].playing_notes.iter().map(|n| n.key).collect();
    assert_eq!(keys, vec![72]);
    assert_eq!(s.instruments[0].playing_notes[0].start, 1010);
}

#[test]
fn stop_flushes_once() {
    let mut s = sequencer();
    s.instruments[0].patterns[0].add_complete_event(note(30, 900, 64));
    s.instruments[0].patterns[0].add_complete_event(note(40, 800, 65));
    s.output(&cycle(0, 100, 100));
    assert_eq!(s.instruments[0].playing_notes.len(), 2);
    let stopped = ProcessCycle { tick_range: 100..200, time_range: 0..1000, frames: 100, is_rolling: false };
    assert!(s.needs_flush(&stopped));
    let offs = s.flush();
    assert_eq!(offs.len(), 2);
    assert!(offs.iter().all(|m| m.frame == 0 && m.status == 0x80));
    let next = s.output(&stopped);
    assert!(next.is_empty());
    let again = ProcessCycle { tick_range: 200..300, time_range: 0..1000, frames: 100, is_rolling: false };
    assert!(!s.needs_flush(&again));
    assert!(s.flush().is_empty());
}

#[test]
fn reposition_needs_flush() {
    let mut s = sequencer();
    s.output(&cycle(0, 100, 100));
    assert!(!s.needs_flush(&cycle(100, 200, 100)));
    assert!(s.needs_flush(&cycle(5000, 5100, 100)));
}
