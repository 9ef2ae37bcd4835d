use octothorpe::events::{LoopEvent, NoteVelocity};
use octothorpe::loopable::{Pattern, Phrase};
use octothorpe::timeline::TimelineError;

fn note(start: u32, stop: u32, key: u8) -> LoopEvent<NoteVelocity> {
    LoopEvent { start, stop: Some(stop), row: key, payload: NoteVelocity { start: 100, stop: 64 } }
}

fn ranges(p: &Pattern) -> Vec<(u32, Option<u32>, u8)> {
    p.note_events.iter().map(|e| (e.start, e.stop, e.row)).collect()
}

#[test]
fn length() {
    let mut pattern = Pattern::new();

    let length = Pattern::minimum_length();
    let half_length = length as u32 / 2;

    let mut event = LoopEvent::new(half_length, 1, NoteVelocity { start: 1, stop: 0 });
    event.stop = Some(half_length + 10);

    pattern.add_complete_event(event);
    assert_eq!(pattern.length(), length);

    let mut event = LoopEvent::new(length as u32, 1, NoteVelocity { start: 1, stop: 0 });
    event.stop = Some(length as u32 + 10);

    pattern.add_complete_event(event);
    assert_eq!(pattern.length(), length * 2);
}

#[test]
fn pattern_length_grows_past_stop() {
    let mut pattern = Pattern::new();
    assert_eq!(Pattern::minimum_length(), 7680);
    assert_eq!(pattern.length(), 7680);
    pattern.add_complete_event(note(100, 8000, 60));
    assert_eq!(pattern.length(), 15360);
}

#[test]
fn pattern_length_boundary_tick() {
    let mut pattern = Pattern::new();
    pattern.add_complete_event(note(0, 7679, 60));
    assert_eq!(pattern.length(), 7680);
    pattern.add_complete_event(note(7000, 7680, 61));
    assert_eq!(pattern.length(), 15360);
    pattern.add_complete_event(note(30000, 30721, 62));
    assert_eq!(pattern.length(), 61440);
}

#[test]
fn insert_twice_keeps_one_event() {
    let mut pattern = Pattern::new();
    let e = note(10, 20, 60);
    pattern.add_complete_event(e);
    pattern.add_complete_event(e);
    assert_eq!(pattern.note_events, vec![e]);
}

#[test]
fn inserts_never_overlap_on_a_row() {
    let mut pattern = Pattern::new();
    let inserts = [(0, 100), (40, 60), (50, 150), (10, 20), (90, 300), (0, 5), (250, 260)];
    for (start, stop) in inserts {
        pattern.add_complete_event(note(start, stop, 60));
        let events = &pattern.note_events;
        for i in 0..events.len() {
            for j in 0..events.len() {
                if i != j {
                    let (a, b) = (events[i], events[j]);
                    assert!(a.stop.unwrap() <= b.start || b.stop.unwrap() <= a.start);
                }
            }
        }
    }
}

#[test]
fn insert_splits_event() {
    let mut pattern = Pattern::new();
    pattern.add_complete_event(note(0, 100, 0));
    pattern.add_complete_event(note(40, 60, 0));
    assert_eq!(
        ranges(&pattern),
        vec![(0, Some(40), 0), (60, Some(100), 0), (40, Some(60), 0)]
    );
}

#[test]
fn insert_removes_contained_events() {
    let mut pattern = Pattern::new();
    pattern.add_complete_event(note(10, 20, 0));
    pattern.add_complete_event(note(150, 160, 0));
    pattern.add_complete_event(note(0, 200, 0));
    assert_eq!(ranges(&pattern), vec![(0, Some(200), 0)]);
}

#[test]
fn insert_truncates_and_leaves_other_rows() {
    let mut pattern = Pattern::new();
    pattern.add_complete_event(note(0, 50, 1));
    pattern.add_complete_event(note(80, 120, 1));
    pattern.add_complete_event(note(0, 500, 2));
    pattern.add_complete_event(note(40, 100, 1));
    assert_eq!(
        ranges(&pattern),
        vec![(0, Some(40), 1), (100, Some(120), 1), (0, Some(500), 2), (40, Some(100), 1)]
    );
}

#[test]
fn open_event_press_release() {
    let mut pattern = Pattern::new();
    let v = NoteVelocity { start: 90, stop: 0 };
    pattern.try_add_starting_event(LoopEvent::new(10, 60, v));
    // a spurious second press on a held key is ignored
    pattern.try_add_starting_event(LoopEvent::new(12, 60, v));
    pattern.try_add_starting_event(LoopEvent::new(15, 61, v));
    assert_eq!(pattern.note_events.len(), 2);

    let mut open = pattern.get_last_event_on_row(60).unwrap();
    assert_eq!(open.start, 10);
    assert_eq!(open.stop, None);
    assert_eq!(pattern.note_events.len(), 1);
    open.stop = Some(40);
    pattern.add_complete_event(open);
    assert_eq!(ranges(&pattern), vec![(15, None, 61), (10, Some(40), 60)]);

    assert_eq!(pattern.get_last_event_on_row(60), Err(TimelineError::NoOpenEvent));
    assert_eq!(pattern.note_events.len(), 2);
}

#[test]
fn events_starting_in_range() {
    let mut pattern = Pattern::new();
    pattern.add_complete_event(note(0, 10, 5));
    pattern.add_complete_event(note(20, 30, 5));
    pattern.add_complete_event(note(25, 35, 6));
    assert!(pattern.contains_events_starting_in(20..26, 5));
    assert!(!pattern.contains_events_starting_in(21..26, 5));
    assert!(pattern.contains_events_starting_in(21..26, 6));
    pattern.remove_events_starting_in(0..21, 5);
    assert_eq!(ranges(&pattern), vec![(25, Some(35), 6)]);
    pattern.clear_events();
    assert!(pattern.note_events.is_empty());
}

fn reference(start: u32, stop: u32, pattern: u8) -> LoopEvent<()> {
    LoopEvent { start, stop: Some(stop), row: pattern, payload: () }
}

#[test]
fn phrase_defaults_and_length() {
    let mut phrase = Phrase::new();
    assert_eq!(Phrase::default_length(), 30720);
    assert_eq!(phrase.length(), 30720);
    phrase.add_complete_event(reference(0, 1000, 0)).unwrap();
    phrase.add_complete_event(reference(1500, 3000, 1)).unwrap();
    phrase.add_complete_event(reference(2500, 2600, 2)).unwrap();
    assert_eq!(phrase.set_length(0), Err(TimelineError::ZeroLength));
    assert_eq!(phrase.length(), 30720);
    assert_eq!(phrase.set_length(2000), Ok(()));
    assert_eq!(phrase.length(), 2000);
    let kept: Vec<(u32, Option<u32>, u8)> =
        phrase.pattern_events.iter().map(|e| (e.start, e.stop, e.row)).collect();
    // a reference that starts past the new end goes; one that runs past it is cut
    assert_eq!(kept, vec![(0, Some(1000), 0), (1500, Some(2000), 1)]);
}

#[test]
fn phrase_refuses_reference_outside_loop() {
    let mut phrase = Phrase::new();
    phrase.set_length(1000).unwrap();
    phrase.add_complete_event(reference(100, 200, 0)).unwrap();
    assert_eq!(phrase.add_complete_event(reference(1000, 1100, 0)), Err(TimelineError::OutsideLoop));
    assert_eq!(phrase.add_complete_event(reference(900, 1901, 0)), Err(TimelineError::OutsideLoop));
    assert_eq!(refs(&phrase), vec![(100, 200, 0)]);
    assert_eq!(phrase.add_complete_event(reference(900, 1900, 1)), Ok(()));
}

#[test]
fn pattern_length_never_shrinks() {
    let mut pattern = Pattern::new();
    pattern.add_complete_event(note(100, 8000, 60));
    assert_eq!(pattern.length(), 15360);
    pattern.remove_events_starting_in(0..200, 60);
    assert!(pattern.note_events.is_empty());
    assert_eq!(pattern.length(), 15360);
    pattern.clear_events();
    assert_eq!(pattern.length(), 15360);
    pattern.add_complete_event(note(0, 10, 61));
    assert_eq!(pattern.length(), 15360);
}

#[test]
fn set_length_keeps_looping_reference_looping() {
    let mut phrase = Phrase::new();
    phrase.set_length(1000).unwrap();
    phrase.add_complete_event(reference(900, 1050, 0)).unwrap();
    phrase.add_complete_event(reference(100, 300, 1)).unwrap();
    phrase.set_length(1000).unwrap();
    assert_eq!(refs(&phrase), vec![(900, 1050, 0), (100, 300, 1)]);
    phrase.set_length(1200).unwrap();
    assert_eq!(refs(&phrase), vec![(900, 1250, 0), (100, 300, 1)]);
    phrase.set_length(200).unwrap();
    assert_eq!(refs(&phrase), vec![(100, 200, 1)]);
}

#[test]
fn set_length_keeps_each_reference_within_one_pass() {
    let mut phrase = Phrase::new();
    phrase.set_length(1000).unwrap();
    phrase.add_complete_event(reference(300, 1250, 0)).unwrap();
    phrase.set_length(400).unwrap();
    // the wrap of 250 stays: [300, 650) loops into the next 400-tick pass
    assert_eq!(refs(&phrase), vec![(300, 650, 0)]);
    phrase.set_length(1000).unwrap();
    // it still runs 250 ticks into the next pass
    assert_eq!(refs(&phrase), vec![(300, 1250, 0)]);
    for e in &phrase.pattern_events {
        let stop = e.stop.unwrap();
        assert!(e.start < 1000 && e.start < stop && stop <= e.start + 1000);
    }
}

#[test]
fn phrase_pattern_ranges_wrap() {
    let mut phrase = Phrase::new();
    phrase.set_length(1000).unwrap();
    phrase.add_complete_event(reference(900, 1050, 3)).unwrap();
    phrase.add_complete_event(reference(100, 300, 1)).unwrap();
    // the trailing segment: phrase ticks 950..1000 are pattern ticks 50..100
    assert_eq!(phrase.get_pattern_ranges(950..1000), Ok(vec![(3, 150, 50..100)]));
    // the leading segment: phrase ticks 0..50 are pattern ticks 100..150
    assert_eq!(
        phrase.get_pattern_ranges(0..200),
        Ok(vec![(3, 150, 100..150), (1, 200, 0..100)])
    );
    assert_eq!(phrase.get_pattern_ranges(400..800), Ok(vec![]));
    assert_eq!(phrase.get_pattern_ranges(10..10), Err(TimelineError::EmptyRange));
}

fn refs(p: &Phrase) -> Vec<(u32, u32, u8)> {
    p.pattern_events.iter().map(|e| (e.start, e.stop.unwrap(), e.row)).collect()
}

#[test]
fn looping_reference_clears_phrase_start() {
    let mut phrase = Phrase::new();
    phrase.set_length(1000).unwrap();
    phrase.add_complete_event(reference(0, 40, 0)).unwrap();
    phrase.add_complete_event(reference(30, 100, 0)).unwrap();
    assert_eq!(refs(&phrase), vec![(0, 30, 0), (30, 100, 0)]);
    phrase.add_complete_event(reference(900, 1050, 0)).unwrap();
    assert_eq!(refs(&phrase), vec![(50, 100, 0), (900, 1050, 0)]);
}

#[test]
fn reference_cuts_wrapped_part_of_looping_one() {
    let mut phrase = Phrase::new();
    phrase.set_length(1000).unwrap();
    phrase.add_complete_event(reference(900, 1050, 1)).unwrap();
    phrase.add_complete_event(reference(20, 30, 1)).unwrap();
    assert_eq!(refs(&phrase), vec![(900, 1020, 1), (30, 50, 1), (20, 30, 1)]);
}

#[test]
fn looping_references_meet() {
    let mut phrase = Phrase::new();
    phrase.set_length(1000).unwrap();
    phrase.add_complete_event(reference(900, 1100, 2)).unwrap();
    phrase.add_complete_event(reference(800, 1050, 2)).unwrap();
    assert_eq!(refs(&phrase), vec![(50, 100, 2), (800, 1050, 2)]);
    // inserting the same looping reference again changes nothing
    phrase.add_complete_event(reference(800, 1050, 2)).unwrap();
    assert_eq!(refs(&phrase), vec![(50, 100, 2), (800, 1050, 2)]);
}
