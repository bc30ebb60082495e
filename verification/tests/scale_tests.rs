use chord_midi::Accidental;
use chord_midi::Degree;
use chord_midi::Pitch;
use chord_midi::Scale;
use chord_midi::parser_roman_num;
use chord_midi::to_roman_str;

#[test]
fn test_semitone() {
    assert_eq!(Scale::Major.semitone(1), 0);
    assert_eq!(Scale::Major.semitone(2), 2);
    assert_eq!(Scale::Major.semitone(3), 4);
    assert_eq!(Scale::Major.semitone(4), 5);
}

#[test]
fn scale_test_semitone() {
    assert_eq!(Scale::Major.semitone(1), 0);
    assert_eq!(Scale::Major.semitone(2), 2);
    assert_eq!(Scale::Major.semitone(3), 4);
    assert_eq!(Scale::Major.semitone(4), 5);
}

#[test]
fn test_minor_semitones() {
    assert_eq!(Scale::Minor.semitone(3), 3);
    assert_eq!(Scale::Minor.semitone(5), 7);
    assert_eq!(Scale::Minor.semitone(7), 10);
    assert_eq!(Scale::Major.semitone(7), 11);
    assert_eq!(Scale::Major.semitone(9), 14);
    assert_eq!(Scale::Major.semitone(11), 17);
    assert_eq!(Scale::Major.semitone(13), 21);
}

#[test]
fn test_degrees() {
    assert_eq!(Scale::Major.degrees(), vec![2, 2, 1, 2, 2, 2, 1]);
    assert_eq!(Scale::Minor.degrees(), vec![2, 1, 2, 2, 1, 2, 2]);
}

#[test]
fn test_semitones_list() {
    assert_eq!(Scale::Major.semitones(&[1, 3, 5]), vec![0, 4, 7]);
    assert_eq!(Scale::Minor.semitones(&[1, 3, 5]), vec![0, 3, 7]);
}

#[test]
fn test_from_semitone() {
    assert_eq!(Degree::from_semitone(0), Degree(1, Accidental::Natural));
    assert_eq!(Degree::from_semitone(1), Degree(1, Accidental::Sharp));
    assert_eq!(Degree::from_semitone(11), Degree(7, Accidental::Natural));
}

#[test]
fn test_with_pitch() {
    let d = Degree(3, Accidental::Natural);
    assert_eq!(d.with_pitch(Pitch::C), Pitch::Ds);
    let d = Degree(3, Accidental::Flat);
    assert_eq!(d.with_pitch(Pitch::C), Pitch::D);
}

#[test]
fn test_to_roman_str() {
    assert_eq!(to_roman_str(0), "I");
    assert_eq!(to_roman_str(1), "I#");
    assert_eq!(to_roman_str(11), "VII");
}

#[test]
fn test_parser_roman_num() {
    assert_eq!(parser_roman_num(b"I").unwrap(), 1);
    assert_eq!(parser_roman_num(b"IV").unwrap(), 4);
    assert_eq!(parser_roman_num(b"VII").unwrap(), 7);
    assert!(parser_roman_num(b"X").is_err());
}

#[test]
fn test_pitch_numbers() {
    assert_eq!(Pitch::from_u8(0), Pitch::C);
    assert_eq!(Pitch::from_u8(11), Pitch::B);
    assert_eq!(Pitch::Gs.into_u8(), 8);
    assert_eq!(Pitch::D.diff(&Pitch::C), 2);
    assert_eq!(Pitch::C.diff(&Pitch::D), 10);
}

#[test]
fn test_roman_spelling_round_trip() {
    for s in 0..12u8 {
        let text = to_roman_str(s);
        assert_eq!(chord_midi::degree_from_str(text.as_bytes()).unwrap(), s);
    }
}
