use chord_midi::MidiEvent;
use chord_midi::Pitch;
use chord_midi::into_note_numbers;
use chord_midi::into_notes;
use chord_midi::midi_events;
use chord_midi::parse;

#[test]
fn test_note_numbers_for_triad() {
    let notes = into_notes(&parse(b"C\n").unwrap(), None).unwrap();
    let chord = notes[0].chord.as_ref().unwrap();
    // octave 4, root C: registers 48, 52, 55, shifted up one octave for
    // the sink
    assert_eq!(into_note_numbers(chord).unwrap(), vec![60, 64, 67]);
}

#[test]
fn test_note_numbers_relative_refused() {
    let chord = chord_midi::Chord::new(4, 0, chord_midi::Key::Relative(0));
    assert!(into_note_numbers(&chord).is_err());
}

#[test]
fn test_event_stream() {
    let notes = into_notes(&parse(b"_ C\n", ).unwrap(), None).unwrap();
    let evs = midi_events(&notes).unwrap();
    // one rest of 8 subunits, then a triad: three ons (the first after the
    // rest's ticks), three offs (the first after the chord's ticks)
    assert_eq!(evs.len(), 6);
    assert_eq!(evs[0], MidiEvent { delta: 8 * 256, on: true, note: 60 });
    assert_eq!(evs[1], MidiEvent { delta: 0, on: true, note: 64 });
    assert_eq!(evs[2], MidiEvent { delta: 0, on: true, note: 67 });
    assert_eq!(evs[3], MidiEvent { delta: 8 * 256, on: false, note: 60 });
    assert_eq!(evs[4], MidiEvent { delta: 0, on: false, note: 64 });
    assert_eq!(evs[5], MidiEvent { delta: 0, on: false, note: 67 });
}

#[test]
fn test_event_stream_two_chords() {
    let notes = into_notes(&parse(b"C G\n").unwrap(), None).unwrap();
    let evs = midi_events(&notes).unwrap();
    assert_eq!(evs.len(), 12);
    assert_eq!(evs[0].delta, 0);
    assert!(evs[0].on);
    assert_eq!(evs[3].delta, 8 * 256);
    assert!(!evs[3].on);
}

#[test]
fn test_bass_note_added() {
    let notes = into_notes(&parse(b"C/E\n").unwrap(), None).unwrap();
    let chord = notes[0].chord.as_ref().unwrap();
    let nn = into_note_numbers(chord).unwrap();
    // the bass lands an octave below the root's register
    assert_eq!(nn.len(), 4);
    assert_eq!(*nn.last().unwrap(), 12 * 3 + 4 + 12);
    let _ = Pitch::E;
}
