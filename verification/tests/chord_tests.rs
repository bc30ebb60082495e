use chord_midi::Ast;
use chord_midi::Chord;
use chord_midi::ChordError;
use chord_midi::Key;
use chord_midi::Modifier;
use chord_midi::Node;
use chord_midi::Pitch;
use chord_midi::Score;
use chord_midi::parse;

fn first_chord(score: &Score) -> chord_midi::ChordNode {
    for item in &score.items {
        if let Ast::Measure(nodes, _) = item {
            for n in nodes {
                if let Node::Chord(c) = n {
                    return c.clone();
                }
            }
        }
    }
    panic!("no chord in score");
}

fn resolve(sym: &str) -> Chord {
    let score = parse(sym.as_bytes()).unwrap();
    first_chord(&score).to_chord().unwrap()
}

#[test]
fn test_chord_modify() {
    let mut chord = Chord::new(4, 0, Key::Absolute(Pitch::C));
    chord.modify(&Modifier::Major(5)).unwrap();
    assert_eq!(chord.semitones, vec![0, 4, 7]);
    chord.modify(&Modifier::Minor(5)).unwrap();
    assert_eq!(chord.semitones, vec![0, 3, 7]);
    chord.modify(&Modifier::Major(7)).unwrap();
    assert_eq!(chord.semitones, vec![0, 4, 7, 11]);
}

#[test]
fn test_modifier_multi() {
    // the canonical set order applies the triad shape before the
    // augmentation, whatever order the modifiers arrive in
    let mods = vec![Modifier::Major(5), Modifier::Aug];
    let mut chord = Chord::new(4, 0, Key::Absolute(Pitch::F));
    for m in &mods {
        chord.modify(m).unwrap();
    }
    assert_eq!(chord.semitones, vec![0, 4, 8]);
}

#[test]
fn test_triads() {
    assert_eq!(resolve("C").semitones, vec![0, 4, 7]);
    assert_eq!(resolve("Cm").semitones, vec![0, 3, 7]);
    assert_eq!(resolve("CM7").semitones, vec![0, 4, 7, 11]);
    assert_eq!(resolve("Cm7b5").semitones, vec![0, 3, 6, 10]);
    assert_eq!(resolve("Caug").semitones, vec![0, 4, 8]);
    assert_eq!(resolve("Cdim7").semitones, vec![0, 3, 6, 9]);
}

#[test]
fn test_more_shapes() {
    assert_eq!(resolve("C7").semitones, vec![0, 4, 7, 11]);
    assert_eq!(resolve("C6").semitones, vec![0, 4, 7, 9]);
    assert_eq!(resolve("Cm6").semitones, vec![0, 3, 7, 8]);
    assert_eq!(resolve("CmM7").semitones, vec![0, 3, 7, 11]);
    assert_eq!(resolve("Csus2").semitones, vec![0, 3, 7]);
    assert_eq!(resolve("Csus4").semitones, vec![0, 5, 7]);
    assert_eq!(resolve("Cadd9").semitones, vec![0, 4, 7, 14]);
    assert_eq!(resolve("C7(b9)").semitones, vec![0, 4, 7, 11, 13]);
    assert_eq!(resolve("Cno5").semitones, vec![0, 4]);
}

#[test]
fn test_unknown_modifier() {
    let score = parse(b"C11").unwrap();
    let err = first_chord(&score).to_chord().unwrap_err();
    assert_eq!(err, ChordError::UnknownModifier { degree: 11 });
}

#[test]
fn test_scale_in_force() {
    // after a minor third the scale in force is minor, so a later added
    // sixth lands on the minor sixth
    let mut chord = Chord::new(4, 0, Key::Absolute(Pitch::C));
    chord.modify(&Modifier::Minor(5)).unwrap();
    chord.modify(&Modifier::Add(6)).unwrap();
    assert_eq!(chord.semitones, vec![0, 3, 7, 8]);
}

#[test]
fn test_remove_degree() {
    let mut chord = Chord::new(4, 0, Key::Absolute(Pitch::C));
    chord.modify(&Modifier::Minor(5)).unwrap();
    chord.remove_degree(3);
    assert_eq!(chord.semitones, vec![0, 7]);
}

#[test]
fn test_root_pitch_and_distance() {
    let c = resolve("C");
    assert_eq!(c.octave, 4);
    assert_eq!(c.inversion, 0);
    assert_eq!(c.root_pitch().unwrap(), 12 + 12 * 4 + 0 + 0 - 1);

    let rel = Chord::new(4, 0, Key::Relative(0));
    assert_eq!(rel.root_pitch().unwrap_err(), ChordError::KeyTypeMismatch);

    let a = resolve("C");
    let b = resolve("C");
    assert_eq!(a.distance(&b).unwrap(), 0);
    assert_eq!(a.distance(&rel).unwrap_err(), ChordError::KeyTypeMismatch);
}

#[test]
fn test_octave_continuity() {
    // held C resolves to octave 4; a following F starts at octave 3 and
    // the continuity search moves it to octave 4:
    //   octave 2: |29 - 48| = 19, octave 3: |41 - 48| = 7,
    //   octave 4: |53 - 48| = 5 (offset sets are equal, zipped gap 0)
    let c = resolve("C");
    assert_eq!(c.octave, 4);
    let mut f = resolve("F");
    assert_eq!(f.octave, 3);
    f.set_nearest_octave(&c);
    assert_eq!(f.octave, 4);
}

#[test]
fn test_on_chord_kept() {
    let score = parse(b"C/E").unwrap();
    let node = first_chord(&score);
    assert_eq!(node.on, Some(Key::Absolute(Pitch::E)));
    let chord = node.to_chord().unwrap();
    assert_eq!(chord.on, Some(Key::Absolute(Pitch::E)));
    assert_eq!(chord.semitones, vec![0, 4, 7]);
}
