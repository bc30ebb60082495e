use chord_midi::ChordError;
use chord_midi::Key;
use chord_midi::Note;
use chord_midi::Pitch;
use chord_midi::into_notes;
use chord_midi::measure_unit_size;
use chord_midi::parse;

fn run(src: &str, tonic: Option<Pitch>) -> Result<Vec<Note>, ChordError> {
    into_notes(&parse(src.as_bytes()).unwrap(), tonic)
}

#[test]
fn test_end_to_end() {
    // one whole-measure C, then Am F G in quarter slots, the last held by
    // a sustain; each chord is voiced near its predecessor.  (A bare
    // three-slot measure is rejected, so the last slot sustains.)
    let notes = run("C | Am F G =\n", None).unwrap();
    assert_eq!(notes.len(), 4);

    let c = notes[0].chord.as_ref().unwrap();
    assert_eq!(notes[0].duration, 16);
    assert_eq!(c.key, Key::Absolute(Pitch::C));
    assert_eq!(c.semitones, vec![0, 4, 7]);
    assert_eq!(c.octave, 4);

    let am = notes[1].chord.as_ref().unwrap();
    assert_eq!(notes[1].duration, 4);
    assert_eq!(am.key, Key::Absolute(Pitch::A));
    assert_eq!(am.semitones, vec![0, 3, 7]);
    let pitches: Vec<u8> = am.semitones.iter().map(|s| 9 + s).collect();
    assert_eq!(pitches, vec![9, 12, 16]);
    assert_eq!(am.octave, 3);

    let f = notes[2].chord.as_ref().unwrap();
    assert_eq!(notes[2].duration, 4);
    assert_eq!(f.key, Key::Absolute(Pitch::F));
    assert_eq!(f.semitones, vec![0, 4, 7]);
    let pitches: Vec<u8> = f.semitones.iter().map(|s| 5 + s).collect();
    assert_eq!(pitches, vec![5, 9, 12]);

    let g = notes[3].chord.as_ref().unwrap();
    assert_eq!(notes[3].duration, 8);
    assert_eq!(g.key, Key::Absolute(Pitch::G));
    assert_eq!(g.semitones, vec![0, 4, 7]);
    let pitches: Vec<u8> = g.semitones.iter().map(|s| 7 + s).collect();
    assert_eq!(pitches, vec![7, 11, 14]);
}

#[test]
fn test_sustain_before_chord() {
    // a score beginning with a sustain extends a rest, not an error
    let notes = run("=\n", None).unwrap();
    assert_eq!(notes.len(), 1);
    assert!(notes[0].chord.is_none());
    assert_eq!(notes[0].duration, 16);
}

#[test]
fn test_sustain_extends() {
    let notes = run("C = = =\n", None).unwrap();
    assert_eq!(notes.len(), 1);
    assert_eq!(notes[0].duration, 16);
    assert!(notes[0].chord.is_some());
}

#[test]
fn test_repeat_restates() {
    let notes = run("C %\n", None).unwrap();
    assert_eq!(notes.len(), 2);
    assert_eq!(notes[0].duration, 8);
    assert_eq!(notes[1].duration, 8);
    let a = notes[0].chord.as_ref().unwrap();
    let b = notes[1].chord.as_ref().unwrap();
    assert_eq!(a, b);
}

#[test]
fn test_rests_accumulate() {
    let notes = run("_ _ C _\n", None).unwrap();
    // the trailing rest is not flushed at the end of the score
    assert_eq!(notes.len(), 2);
    assert!(notes[0].chord.is_none());
    assert_eq!(notes[0].duration, 8);
    assert!(notes[1].chord.is_some());
    assert_eq!(notes[1].duration, 4);
}

#[test]
fn test_measure_lengths_accepted() {
    for n in [1usize, 2, 4, 8, 16] {
        let src = format!("{}\n", vec!["C"; n].join(" "));
        assert!(run(&src, None).is_ok(), "length {} should interpret", n);
        assert_eq!(measure_unit_size(n).unwrap(), 16 / n as u32);
    }
}

#[test]
fn test_measure_lengths_rejected() {
    for n in [3usize, 5, 17] {
        let src = format!("{}\n", vec!["C"; n].join(" "));
        let err = run(&src, None).unwrap_err();
        assert_eq!(err, ChordError::InvalidMeasureLength { n });
        assert_eq!(measure_unit_size(n).unwrap_err(), ChordError::InvalidMeasureLength { n });
    }
}

#[test]
fn test_missing_tonic() {
    let err = run("I IV\n", None).unwrap_err();
    assert_eq!(err, ChordError::MissingTonic);
}

#[test]
fn test_degree_with_tonic() {
    let notes = run("I IV\n", Some(Pitch::C)).unwrap();
    assert_eq!(notes.len(), 2);
    let one = notes[0].chord.as_ref().unwrap();
    assert_eq!(one.key, Key::Absolute(Pitch::C));
    let four = notes[1].chord.as_ref().unwrap();
    assert_eq!(four.key, Key::Absolute(Pitch::F));
}

#[test]
fn test_comments_are_silent() {
    let notes = run("# nothing here\nC\n", None).unwrap();
    assert_eq!(notes.len(), 1);
}

#[test]
fn test_unknown_modifier_aborts() {
    let err = run("C11\n", None).unwrap_err();
    assert_eq!(err, ChordError::UnknownModifier { degree: 11 });
}

#[test]
fn test_error_describe() {
    assert_eq!(ChordError::MissingTonic.describe(), "key is not set");
    assert_eq!(
        (ChordError::InvalidMeasureLength { n: 3 }).describe(),
        "invalid measure length"
    );
}
