use chord_midi::Ast;
use chord_midi::ChordError;
use chord_midi::Key;
use chord_midi::Modifier;
use chord_midi::Node;
use chord_midi::Pitch;
use chord_midi::degree_from_str;
use chord_midi::parse;
use chord_midi::parse_key;
use chord_midi::parse_measure;
use chord_midi::render;

#[test]
fn test_chord_node_parser() {
    for chord in [
        "C", "Cm", "CmM7", "Csus2", "Csus4", "C-5", "Caug", "Caug7", "Cdim", "Cdim7", "C/D",
    ] {
        let score = parse(chord.as_bytes()).unwrap();
        assert_eq!(score.items.len(), 1);
    }
}

#[test]
fn chord_test_chord_node_parser() {
    for chord in [
        "C",
        "Cm",
        "CmM7",
        "Csus2",
        "Csus4",
        "C-5",
        "Caug",
        "Caug7",
        "Cdim",
        "Cdim7",
        "C/D",
        "C7sus4(b9)",
        "C7(13)",
        "AbmM7/Eb",
    ] {
        let score = parse(chord.as_bytes()).unwrap();
        assert_eq!(score.items.len(), 1);
    }
}

#[test]
fn test_measure_parser() {
    for measure in ["C", "CC", "C C |", "C|", "C\n"] {
        let bytes = measure.as_bytes();
        let (_, _, end) = parse_measure(bytes, 0).unwrap();
        assert_eq!(end, bytes.len());
    }
}

#[test]
fn rechord_test_measure_parser() {
    for measure in ["C\n"] {
        let bytes = measure.as_bytes();
        let (_, _, end) = parse_measure(bytes, 0).unwrap();
        assert_eq!(end, bytes.len());
    }
}

#[test]
fn test_ast_parser() {
    for score in ["# comment\nCCC", "CCC|", "CCC\n"] {
        assert!(parse(score.as_bytes()).is_ok());
    }
}

#[test]
fn rechord_test_ast_parser() {
    for score in ["# comment\nCCC", "CCC|", "CCC\n"] {
        assert!(parse(score.as_bytes()).is_ok());
    }
}

#[test]
fn test_tentions_parser() {
    for tension in ["C(b9)", "C(#9)", "C(b5)", "C(#5)", "C(b13)", "C(b9,#11)"] {
        assert!(parse(tension.as_bytes()).is_ok());
    }
}

#[test]
fn test_parse_structure() {
    let score = parse(b"C | Am F G\n").unwrap();
    assert_eq!(score.items.len(), 2);
    match &score.items[0] {
        Ast::Measure(nodes, br) => {
            assert_eq!(nodes.len(), 1);
            assert_eq!(*br, false);
        },
        _ => panic!("expected a measure"),
    }
    match &score.items[1] {
        Ast::Measure(nodes, br) => {
            assert_eq!(nodes.len(), 3);
            assert_eq!(*br, true);
        },
        _ => panic!("expected a measure"),
    }
}

#[test]
fn test_parse_nodes() {
    let score = parse(b"= _ % N.C.\n").unwrap();
    match &score.items[0] {
        Ast::Measure(nodes, _) => {
            assert!(matches!(nodes[0], Node::Sustain));
            assert!(matches!(nodes[1], Node::Rest));
            assert!(matches!(nodes[2], Node::Repeat));
            assert!(matches!(nodes[3], Node::Rest));
        },
        _ => panic!("expected a measure"),
    }
}

#[test]
fn test_parse_degree_chords() {
    let score = parse(b"I bII #IV V\n").unwrap();
    match &score.items[0] {
        Ast::Measure(nodes, _) => {
            let keys: Vec<Key> = nodes
                .iter()
                .map(|n| match n {
                    Node::Chord(c) => c.key,
                    _ => panic!("expected chords"),
                })
                .collect();
            assert_eq!(
                keys,
                vec![
                    Key::Relative(0),
                    Key::Relative(1),
                    Key::Relative(6),
                    Key::Relative(7)
                ]
            );
        },
        _ => panic!("expected a measure"),
    }
}

#[test]
fn test_parse_rejects() {
    assert!(matches!(parse(b"C $"), Err(ChordError::Parse { .. })));
    assert!(matches!(parse(b"# unterminated"), Err(ChordError::Parse { .. })));
    assert!(matches!(parse(b"?"), Err(ChordError::Parse { .. })));
}

#[test]
fn test_default_triad_always_present() {
    let score = parse(b"C\n").unwrap();
    match &score.items[0] {
        Ast::Measure(nodes, _) => match &nodes[0] {
            Node::Chord(c) => {
                assert_eq!(c.modifiers, vec![Modifier::Major(5)]);
            },
            _ => panic!("expected a chord"),
        },
        _ => panic!("expected a measure"),
    }
}

#[test]
fn test_parse_key_tokens() {
    assert_eq!(parse_key(b"C").unwrap(), Key::Absolute(Pitch::C));
    assert_eq!(parse_key(b"Ab").unwrap(), Key::Absolute(Pitch::Gs));
    assert_eq!(parse_key(b"I#").unwrap(), Key::Relative(1));
    assert_eq!(parse_key(b"IV").unwrap(), Key::Relative(5));
    assert!(parse_key(b"H").is_err());
}

#[test]
fn test_degree_from_str_tokens() {
    assert_eq!(degree_from_str(b"I").unwrap(), 0);
    assert_eq!(degree_from_str(b"I#").unwrap(), 1);
    assert_eq!(degree_from_str(b"IV").unwrap(), 5);
    assert_eq!(degree_from_str(b"VIIb").unwrap(), 10);
    assert!(degree_from_str(b"VIII").is_err());
}

#[test]
fn test_render_round_trip() {
    for src in [
        "C | Am F G\n",
        "# a comment\nC7sus4(b9)/E\n",
        "=\n",
        "N.C. % _ C\n",
        "I bII #IV V | C\n",
        "Cm7b5 CmM7 Caug7 Cdim7\n",
        "Cno5 Cadd9 Cdim Caug\n",
        "C C |",
    ] {
        let s1 = parse(src.as_bytes()).unwrap();
        let r1 = render(&s1);
        let s2 = parse(&r1).unwrap();
        let r2 = render(&s2);
        assert_eq!(r1, r2, "render not a fixed point for {:?}", src);
        assert_eq!(s1, s2, "tree changed for {:?}", src);
    }
}

#[test]
fn test_normalize() {
    assert_eq!(chord_midi::normalize(b"a\r\nb\n"), b"a\nb\n".to_vec());
    // the unicode flat sign folds to the letter b before parsing
    assert_eq!(chord_midi::normalize("A\u{266d}\n".as_bytes()), b"Ab\n".to_vec());
    assert!(parse(&chord_midi::normalize("A\u{266d}mM7/E\u{266d}\n".as_bytes())).is_ok());
}

#[test]
fn test_modifiers_parser() {
    for lit in [
        "", "6", "7", "maj7", "M7", "m", "m6", "m7", "mM7", "m7-5", "dim", "sus4", "7sus4",
        "add9", "9", "m9", "7(b9)", "7(#9)", "maj9", "7(#11)", "7(13)", "7(b13)",
    ] {
        let sym = format!("C{}", lit);
        let score = parse(sym.as_bytes()).unwrap();
        assert_eq!(score.items.len(), 1);
    }
}
