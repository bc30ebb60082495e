use chord_midi::Ast;
use chord_midi::ChordNode;
use chord_midi::Key;
use chord_midi::Node;
use chord_midi::Pitch;
use chord_midi::Score;
use chord_midi::parse;
use chord_midi::render;

#[test]
fn test_transpose() {
    let i = Node::Chord(ChordNode::relative(0));
    let c = Node::Chord(ChordNode::absolute(Pitch::C));
    assert_eq!(
        Ast::Measure(vec![i], false).into_pitch(Pitch::C),
        Ast::Measure(vec![c], false)
    );

    let iv = Node::Chord(ChordNode::relative(5));
    let f = Node::Chord(ChordNode::absolute(Pitch::F));
    assert_eq!(
        Ast::Measure(vec![iv], false).into_pitch(Pitch::C),
        Ast::Measure(vec![f], false)
    );
}

#[test]
fn syntax_test_transpose() {
    let i = Node::Chord(ChordNode::relative(0));
    let c = Node::Chord(ChordNode::absolute(Pitch::C));
    assert_eq!(
        Ast::Measure(vec![i], false).into_pitch(Pitch::C),
        Ast::Measure(vec![c], false)
    );

    let iv = Node::Chord(ChordNode::relative(5));
    let f = Node::Chord(ChordNode::absolute(Pitch::F));
    assert_eq!(
        Ast::Measure(vec![iv], false).into_pitch(Pitch::C),
        Ast::Measure(vec![f], false)
    );
}

#[test]
fn test_key_into_degree() {
    assert_eq!(Key::Absolute(Pitch::D).into_degree(Pitch::C), Key::Relative(2));
    assert_eq!(Key::Relative(5).into_degree(Pitch::C), Key::Relative(5));
    assert_eq!(Key::Relative(2).into_pitch(Pitch::C), Key::Absolute(Pitch::D));
    assert_eq!(Key::Absolute(Pitch::D).into_pitch(Pitch::C), Key::Absolute(Pitch::D));
}

/// Round-tripping a score through degrees and back keeps every pitch, for
/// every tonic.
#[test]
fn test_transpose_inverse_all_tonics() {
    let src = b"C | Am F G\nDm7 E7 | N.C. C\n";
    let score: Score = parse(src).unwrap();
    let rendered = render(&score);
    for t in 0..12u8 {
        let tonic = Pitch::from_u8(t);
        let there = score.into_degree(tonic);
        let back = there.into_pitch(tonic);
        assert_eq!(render(&back), rendered);
        assert_eq!(back, parse(src).unwrap());
    }
}

#[test]
fn test_score_as_degree_renders_roman() {
    let score = parse(b"C F G\n").unwrap();
    let deg = score.into_degree(Pitch::C);
    assert_eq!(render(&deg), b"I IV V\n".to_vec());
}
