use vstd::prelude::*;

use crate::error::ChordError;
use crate::pitch::Accidental;
use crate::pitch::Pitch;
use crate::scale::Degree;
use crate::scale::Scale;
use crate::syntax::Ast;
use crate::syntax::ChordNode;
use crate::syntax::Key;
use crate::syntax::Modifier;
use crate::syntax::Node;
use crate::syntax::Score;
use crate::syntax::cnode_v_wf;
use crate::syntax::insert_modifier;
use crate::syntax::key_wf;
use crate::syntax::mod_insert;
use crate::syntax::mod_payload_wf;
use crate::syntax::node_v_wf;
use crate::syntax::score_v_wf;
use crate::syntax::sorted_mods;

verus! {

/// A chord symbol as the parser leaves it: its modifier set is canonically
/// sorted and always holds the default major triad shape.
pub open spec fn cnode_canonical(c: crate::syntax::ChordNodeV) -> bool {
    &&& cnode_v_wf(c)
    &&& c.mods.contains(Modifier::Major(5))
}

pub open spec fn node_canonical(n: crate::syntax::NodeV) -> bool {
    match n {
        crate::syntax::NodeV::Chord(c) => cnode_canonical(c),
        _ => true,
    }
}

/// What parsing guarantees of every score it accepts: measures are
/// nonempty, every node is well formed, and every chord set is canonical.
pub open spec fn ast_canonical(a: crate::syntax::AstV) -> bool {
    match a {
        crate::syntax::AstV::Comment(c) => !c.contains('\n' as u8),
        crate::syntax::AstV::Measure(nodes, _) => nodes.len() >= 1 && forall|i: int|
            0 <= i < nodes.len() ==> node_canonical(#[trigger] nodes[i]),
    }
}

pub open spec fn score_canonical(s: Seq<crate::syntax::AstV>) -> bool {
    forall|i: int| 0 <= i < s.len() ==> ast_canonical(#[trigger] s[i])
}


/// The pitch class a bare letter names, when it names one.
pub open spec fn letter_pitch(c: u8) -> Option<Pitch> {
    if c == 'C' as u8 {
        Some(Pitch::C)
    } else if c == 'D' as u8 {
        Some(Pitch::D)
    } else if c == 'E' as u8 {
        Some(Pitch::E)
    } else if c == 'F' as u8 {
        Some(Pitch::F)
    } else if c == 'G' as u8 {
        Some(Pitch::G)
    } else if c == 'A' as u8 {
        Some(Pitch::A)
    } else if c == 'B' as u8 {
        Some(Pitch::B)
    } else {
        None
    }
}

/// A letter sharpened one semitone, with the enharmonic folds E# = F and
/// B# = C#.
pub open spec fn sharp_of(p: Pitch) -> Pitch {
    match p {
        Pitch::C => Pitch::Cs,
        Pitch::D => Pitch::Ds,
        Pitch::E => Pitch::F,
        Pitch::F => Pitch::Fs,
        Pitch::G => Pitch::Gs,
        Pitch::A => Pitch::As,
        _ => Pitch::Cs,
    }
}

/// A letter flattened one semitone, with the enharmonic folds Cb = B and
/// Fb = E.
pub open spec fn flat_of(p: Pitch) -> Pitch {
    match p {
        Pitch::C => Pitch::B,
        Pitch::D => Pitch::Cs,
        Pitch::E => Pitch::Ds,
        Pitch::F => Pitch::E,
        Pitch::G => Pitch::Fs,
        Pitch::A => Pitch::Gs,
        _ => Pitch::As,
    }
}

/// What the pitch recognizer returns at `pos`: a letter, then an optional
/// accidental that folds onto the sharp spellings.
pub open spec fn pitch_token(code: Seq<u8>, pos: int) -> Option<(Pitch, int)> {
    if pos < 0 || pos >= code.len() {
        None
    } else {
        match letter_pitch(code[pos]) {
            None => None,
            Some(base) => if pos + 1 < code.len() && code[pos + 1] == '#' as u8 {
                Some((sharp_of(base), pos + 2))
            } else if pos + 1 < code.len() && code[pos + 1] == 'b' as u8 {
                Some((flat_of(base), pos + 2))
            } else {
                Some((base, pos + 1))
            },
        }
    }
}

/// Recognizes a pitch literal at `pos`: a letter C through B with an
/// optional sharp or flat, folded onto the twelve classes (Db = C#,
/// Cb = B, B# = C#, E# = F, Fb = E).
fn parse_pitch(code: &[u8], pos: usize) -> (r: Option<(Pitch, usize)>)
    requires
        pos <= code@.len(),
    ensures
        match r {
            Some((p, end)) => pos < end <= code@.len() && pitch_token(code@, pos as int) == Some(
                (p, end as int),
            ),
            None => pitch_token(code@, pos as int) is None,
        },
{
    if pos >= code.len() {
        return None;
    }
    let c0 = code[pos];
    let base: Pitch = if c0 == 'C' as u8 {
        Pitch::C
    } else if c0 == 'D' as u8 {
        Pitch::D
    } else if c0 == 'E' as u8 {
        Pitch::E
    } else if c0 == 'F' as u8 {
        Pitch::F
    } else if c0 == 'G' as u8 {
        Pitch::G
    } else if c0 == 'A' as u8 {
        Pitch::A
    } else if c0 == 'B' as u8 {
        Pitch::B
    } else {
        return None;
    };
    if code.len() - pos > 1 && code[pos + 1] == '#' as u8 {
        let sharpened: Pitch = match base {
            Pitch::C => Pitch::Cs,
            Pitch::D => Pitch::Ds,
            Pitch::E => Pitch::F,
            Pitch::F => Pitch::Fs,
            Pitch::G => Pitch::Gs,
            Pitch::A => Pitch::As,
            _ => Pitch::Cs,
        };
        Some((sharpened, pos + 2))
    } else if code.len() - pos > 1 && code[pos + 1] == 'b' as u8 {
        let flattened: Pitch = match base {
            Pitch::C => Pitch::B,
            Pitch::D => Pitch::Cs,
            Pitch::E => Pitch::Ds,
            Pitch::F => Pitch::E,
            Pitch::G => Pitch::Fs,
            Pitch::A => Pitch::Gs,
            _ => Pitch::As,
        };
        Some((flattened, pos + 2))
    } else {
        Some((base, pos + 1))
    }
}


/// What the roman-numeral recognizer returns at `pos`, longest spelling
/// first.
pub open spec fn roman_token(code: Seq<u8>, pos: int) -> Option<(u8, int)> {
    if pos < 0 {
        None
    } else if pos + 2 < code.len() && code[pos] == 'I' as u8 && code[pos + 1] == 'I' as u8 && code[
        pos + 2] == 'I' as u8 {
        Some((3u8, pos + 3))
    } else if pos + 2 < code.len() && code[pos] == 'V' as u8 && code[pos + 1] == 'I' as u8 && code[
        pos + 2] == 'I' as u8 {
        Some((7u8, pos + 3))
    } else if pos + 1 < code.len() && code[pos] == 'I' as u8 && code[pos + 1] == 'V' as u8 {
        Some((4u8, pos + 2))
    } else if pos + 1 < code.len() && code[pos] == 'I' as u8 && code[pos + 1] == 'I' as u8 {
        Some((2u8, pos + 2))
    } else if pos + 1 < code.len() && code[pos] == 'V' as u8 && code[pos + 1] == 'I' as u8 {
        Some((6u8, pos + 2))
    } else if pos < code.len() && code[pos] == 'I' as u8 {
        Some((1u8, pos + 1))
    } else if pos < code.len() && code[pos] == 'V' as u8 {
        Some((5u8, pos + 1))
    } else {
        None
    }
}

/// The relative semitone a numeral and accidental name together.
pub open spec fn degree_sem(d: int, acc: Accidental) -> int {
    (crate::scale::scale_semitone(Scale::Major, d) + acc.offset_spec() + 12) % 12
}

/// What the degree recognizer returns at `pos`: an optional accidental
/// prefix, then a numeral, named as a relative semitone.
pub open spec fn degree_token(code: Seq<u8>, pos: int) -> Option<(u8, int)> {
    if pos < 0 {
        None
    } else {
        let acc: Accidental = if pos < code.len() && code[pos] == '#' as u8 {
            Accidental::Sharp
        } else if pos < code.len() && code[pos] == 'b' as u8 {
            Accidental::Flat
        } else {
            Accidental::Natural
        };
        let p1: int = if acc is Natural {
            pos
        } else {
            pos + 1
        };
        match roman_token(code, p1) {
            Some((d, end)) => Some((degree_sem(d as int, acc) as u8, end)),
            None => None,
        }
    }
}

/// Recognizes a roman numeral at `pos`, longest spelling first, and
/// returns its scale position 1 through 7.
fn parse_roman(code: &[u8], pos: usize) -> (r: Option<(u8, usize)>)
    requires
        pos <= code@.len(),
    ensures
        match r {
            Some((d, end)) => pos < end <= code@.len() && 1 <= d <= 7 && roman_token(
                code@,
                pos as int,
            ) == Some((d, end as int)),
            None => roman_token(code@, pos as int) is None,
        },
{
    if code.len() - pos > 2 && code[pos] == 'I' as u8 && code[pos + 1] == 'I' as u8 && code[pos + 2]
        == 'I' as u8 {
        Some((3, pos + 3))
    } else if code.len() - pos > 2 && code[pos] == 'V' as u8 && code[pos + 1] == 'I' as u8 && code[
        pos + 2] == 'I' as u8 {
        Some((7, pos + 3))
    } else if code.len() - pos > 1 && code[pos] == 'I' as u8 && code[pos + 1] == 'V' as u8 {
        Some((4, pos + 2))
    } else if code.len() - pos > 1 && code[pos] == 'I' as u8 && code[pos + 1] == 'I' as u8 {
        Some((2, pos + 2))
    } else if code.len() - pos > 1 && code[pos] == 'V' as u8 && code[pos + 1] == 'I' as u8 {
        Some((6, pos + 2))
    } else if pos < code.len() && code[pos] == 'I' as u8 {
        Some((1, pos + 1))
    } else if pos < code.len() && code[pos] == 'V' as u8 {
        Some((5, pos + 1))
    } else {
        None
    }
}

/// The semitone distance a degree spelling names: the major-scale place
/// of the numeral, moved one semitone by the accidental, mod 12.
pub fn degree_semitone(d: u8, acc: Accidental) -> (r: u8)
    requires
        1 <= d <= 7,
    ensures
        r < 12,
        r as int == degree_sem(d as int, acc),
{
    let sem = Scale::Major.semitone(d);
    let moved: u8 = match acc {
        Accidental::Flat => sem + 11,
        Accidental::Natural => sem + 12,
        Accidental::Sharp => sem + 13,
    };
    moved % 12
}

/// Recognizes a degree at `pos`: an optional accidental prefix, then a
/// roman numeral; yields the relative semitone it names.
fn parse_degree(code: &[u8], pos: usize) -> (r: Option<(u8, usize)>)
    requires
        pos <= code@.len(),
    ensures
        match r {
            Some((s, end)) => pos < end <= code@.len() && s < 12 && degree_token(
                code@,
                pos as int,
            ) == Some((s, end as int)),
            None => degree_token(code@, pos as int) is None,
        },
{
    let (acc, p1): (Accidental, usize) = if pos < code.len() && code[pos] == '#' as u8 {
        (Accidental::Sharp, pos + 1)
    } else if pos < code.len() && code[pos] == 'b' as u8 {
        (Accidental::Flat, pos + 1)
    } else {
        (Accidental::Natural, pos)
    };
    match parse_roman(code, p1) {
        Some((d, end)) => Some((degree_semitone(d, acc), end)),
        None => None,
    }
}


/// What the degree-number recognizer returns at `pos`: 11 and 13 first,
/// then the single digits 3, 5, 6, 7, 9.
pub open spec fn number_token(code: Seq<u8>, pos: int) -> Option<(u8, int)> {
    if pos < 0 {
        None
    } else if lit2s(code, pos, '1' as u8, '1' as u8) {
        Some((11u8, pos + 2))
    } else if lit2s(code, pos, '1' as u8, '3' as u8) {
        Some((13u8, pos + 2))
    } else if lit1s(code, pos, '3' as u8) {
        Some((3u8, pos + 1))
    } else if lit1s(code, pos, '5' as u8) {
        Some((5u8, pos + 1))
    } else if lit1s(code, pos, '6' as u8) {
        Some((6u8, pos + 1))
    } else if lit1s(code, pos, '7' as u8) {
        Some((7u8, pos + 1))
    } else if lit1s(code, pos, '9' as u8) {
        Some((9u8, pos + 1))
    } else {
        None
    }
}

/// Recognizes a degree number literal: 3, 5, 6, 7, 9, 11 or 13, two-digit
/// spellings first.
fn parse_number(code: &[u8], pos: usize) -> (r: Option<(u8, usize)>)
    requires
        pos <= code@.len(),
    ensures
        match r {
            Some((n, end)) => pos < end <= code@.len() && 3 <= n <= 13 && number_token(
                code@,
                pos as int,
            ) == Some((n, end as int)),
            None => number_token(code@, pos as int) is None,
        },
{
    if code.len() - pos > 1 && code[pos] == '1' as u8 && code[pos + 1] == '1' as u8 {
        Some((11, pos + 2))
    } else if code.len() - pos > 1 && code[pos] == '1' as u8 && code[pos + 1] == '3' as u8 {
        Some((13, pos + 2))
    } else if pos < code.len() && code[pos] == '3' as u8 {
        Some((3, pos + 1))
    } else if pos < code.len() && code[pos] == '5' as u8 {
        Some((5, pos + 1))
    } else if pos < code.len() && code[pos] == '6' as u8 {
        Some((6, pos + 1))
    } else if pos < code.len() && code[pos] == '7' as u8 {
        Some((7, pos + 1))
    } else if pos < code.len() && code[pos] == '9' as u8 {
        Some((9, pos + 1))
    } else {
        None
    }
}


/// The byte `a` stands at `pos`.
pub open spec fn lit1s(code: Seq<u8>, pos: int, a: u8) -> bool {
    pos + 1 <= code.len() && code[pos] == a
}

/// The bytes `a b` stand at `pos`.
pub open spec fn lit2s(code: Seq<u8>, pos: int, a: u8, b: u8) -> bool {
    pos + 2 <= code.len() && code[pos] == a && code[pos + 1] == b
}

/// The bytes `a b c` stand at `pos`.
pub open spec fn lit3s(code: Seq<u8>, pos: int, a: u8, b: u8, c: u8) -> bool {
    pos + 3 <= code.len() && code[pos] == a && code[pos + 1] == b && code[pos + 2] == c
}

/// The bytes `a b c d` stand at `pos`.
pub open spec fn lit4s(code: Seq<u8>, pos: int, a: u8, b: u8, c: u8, d: u8) -> bool {
    pos + 4 <= code.len() && code[pos] == a && code[pos + 1] == b && code[pos + 2] == c && code[pos
        + 3] == d
}

/// True when the byte `a` stands at `pos`.
fn lit1(code: &[u8], pos: usize, a: u8) -> (r: bool)
    requires
        pos <= code@.len(),
    ensures
        r == lit1s(code@, pos as int, a),
        r ==> pos + 1 <= code@.len() && code@.len() <= usize::MAX,
{
    pos < code.len() && code[pos] == a
}

/// True when the bytes `a b` stand at `pos`.
fn lit2(code: &[u8], pos: usize, a: u8, b: u8) -> (r: bool)
    requires
        pos <= code@.len(),
    ensures
        r == lit2s(code@, pos as int, a, b),
        r ==> pos + 2 <= code@.len() && code@.len() <= usize::MAX,
{
    code.len() - pos > 1 && code[pos] == a && code[pos + 1] == b
}

/// True when the bytes `a b c` stand at `pos`.
fn lit3(code: &[u8], pos: usize, a: u8, b: u8, c: u8) -> (r: bool)
    requires
        pos <= code@.len(),
    ensures
        r == lit3s(code@, pos as int, a, b, c),
        r ==> pos + 3 <= code@.len() && code@.len() <= usize::MAX,
{
    code.len() - pos > 2 && code[pos] == a && code[pos + 1] == b && code[pos + 2] == c
}

/// True when the bytes `a b c d` stand at `pos`.
fn lit4(code: &[u8], pos: usize, a: u8, b: u8, c: u8, d: u8) -> (r: bool)
    requires
        pos <= code@.len(),
    ensures
        r == lit4s(code@, pos as int, a, b, c, d),
        r ==> pos + 4 <= code@.len() && code@.len() <= usize::MAX,
{
    code.len() - pos > 3 && code[pos] == a && code[pos + 1] == b && code[pos + 2] == c && code[pos
        + 3] == d
}


/// What the modifier recognizer returns at `pos`: the grammar's
/// alternatives tried in their fixed order, so longer literals win and a
/// bare number is a major shape.
pub open spec fn modifier_token(code: Seq<u8>, pos: int) -> Option<(Modifier, int)> {
    if pos < 0 {
        None
    } else if lit2s(code, pos, '-' as u8, '5' as u8) || lit2s(code, pos, 'b' as u8, '5' as u8) {
        Some((Modifier::Flat5th, pos + 2))
    } else if lit4s(code, pos, 's' as u8, 'u' as u8, 's' as u8, '2' as u8) {
        Some((Modifier::Sus2, pos + 4))
    } else if lit4s(code, pos, 's' as u8, 'u' as u8, 's' as u8, '4' as u8) {
        Some((Modifier::Sus4, pos + 4))
    } else if lit4s(code, pos, 'd' as u8, 'i' as u8, 'm' as u8, '7' as u8) {
        Some((Modifier::Dim7, pos + 4))
    } else if lit3s(code, pos, 'd' as u8, 'i' as u8, 'm' as u8) {
        Some((Modifier::Dim, pos + 3))
    } else if lit1s(code, pos, 'o' as u8) {
        Some((Modifier::Dim, pos + 1))
    } else if lit4s(code, pos, 'a' as u8, 'u' as u8, 'g' as u8, '7' as u8) {
        Some((Modifier::Aug7, pos + 4))
    } else if lit3s(code, pos, 'a' as u8, 'u' as u8, 'g' as u8) {
        Some((Modifier::Aug, pos + 3))
    } else if lit1s(code, pos, '+' as u8) {
        Some((Modifier::Aug, pos + 1))
    } else if lit3s(code, pos, 'a' as u8, 'd' as u8, 'd' as u8) {
        match number_token(code, pos + 3) {
            Some((n, end)) => Some((Modifier::Add(n), end)),
            None => None,
        }
    } else if lit4s(code, pos, 'o' as u8, 'm' as u8, 'i' as u8, 't' as u8) {
        match number_token(code, pos + 4) {
            Some((n, end)) => Some((Modifier::Omit(n), end)),
            None => None,
        }
    } else if lit2s(code, pos, 'n' as u8, 'o' as u8) {
        match number_token(code, pos + 2) {
            Some((n, end)) => Some((Modifier::Omit(n), end)),
            None => None,
        }
    } else if lit3s(code, pos, 'm' as u8, 'M' as u8, '7' as u8) {
        Some((Modifier::MinorMajor7, pos + 3))
    } else if lit3s(code, pos, 'm' as u8, 'a' as u8, 'j' as u8) {
        match number_token(code, pos + 3) {
            Some((n, end)) => Some((Modifier::Major(n), end)),
            None => Some((Modifier::Major(5), pos + 3)),
        }
    } else if lit1s(code, pos, 'M' as u8) {
        match number_token(code, pos + 1) {
            Some((n, end)) => Some((Modifier::Major(n), end)),
            None => Some((Modifier::Major(5), pos + 1)),
        }
    } else if lit1s(code, pos, 'm' as u8) {
        match number_token(code, pos + 1) {
            Some((n, end)) => Some((Modifier::Minor(n), end)),
            None => Some((Modifier::Minor(5), pos + 1)),
        }
    } else if lit1s(code, pos, 'b' as u8) {
        match number_token(code, pos + 1) {
            Some((n, end)) => Some((Modifier::Tension(Degree(n, Accidental::Flat)), end)),
            None => None,
        }
    } else if lit1s(code, pos, '#' as u8) {
        match number_token(code, pos + 1) {
            Some((n, end)) => Some((Modifier::Tension(Degree(n, Accidental::Sharp)), end)),
            None => None,
        }
    } else {
        match number_token(code, pos) {
            Some((n, end)) => Some((Modifier::Major(n), end)),
            None => None,
        }
    }
}

/// Recognizes one modifier token at `pos`, alternatives tried in the
/// grammar's fixed order so that longer literals win.
fn parse_modifier(code: &[u8], pos: usize) -> (r: Option<(Modifier, usize)>)
    requires
        pos <= code@.len(),
    ensures
        match r {
            Some((m, end)) => pos < end <= code@.len() && mod_payload_wf(m) && modifier_token(
                code@,
                pos as int,
            ) == Some((m, end as int)),
            None => modifier_token(code@, pos as int) is None,
        },
{
    if lit2(code, pos, '-' as u8, '5' as u8) || lit2(code, pos, 'b' as u8, '5' as u8) {
        Some((Modifier::Flat5th, pos + 2))
    } else if lit4(code, pos, 's' as u8, 'u' as u8, 's' as u8, '2' as u8) {
        Some((Modifier::Sus2, pos + 4))
    } else if lit4(code, pos, 's' as u8, 'u' as u8, 's' as u8, '4' as u8) {
        Some((Modifier::Sus4, pos + 4))
    } else if lit4(code, pos, 'd' as u8, 'i' as u8, 'm' as u8, '7' as u8) {
        Some((Modifier::Dim7, pos + 4))
    } else if lit3(code, pos, 'd' as u8, 'i' as u8, 'm' as u8) {
        Some((Modifier::Dim, pos + 3))
    } else if lit1(code, pos, 'o' as u8) {
        Some((Modifier::Dim, pos + 1))
    } else if lit4(code, pos, 'a' as u8, 'u' as u8, 'g' as u8, '7' as u8) {
        Some((Modifier::Aug7, pos + 4))
    } else if lit3(code, pos, 'a' as u8, 'u' as u8, 'g' as u8) {
        Some((Modifier::Aug, pos + 3))
    } else if lit1(code, pos, '+' as u8) {
        Some((Modifier::Aug, pos + 1))
    } else if lit3(code, pos, 'a' as u8, 'd' as u8, 'd' as u8) {
        match parse_number(code, pos + 3) {
            Some((n, end)) => Some((Modifier::Add(n), end)),
            None => None,
        }
    } else if lit4(code, pos, 'o' as u8, 'm' as u8, 'i' as u8, 't' as u8) {
        match parse_number(code, pos + 4) {
            Some((n, end)) => Some((Modifier::Omit(n), end)),
            None => None,
        }
    } else if lit2(code, pos, 'n' as u8, 'o' as u8) {
        match parse_number(code, pos + 2) {
            Some((n, end)) => Some((Modifier::Omit(n), end)),
            None => None,
        }
    } else if lit3(code, pos, 'm' as u8, 'M' as u8, '7' as u8) {
        Some((Modifier::MinorMajor7, pos + 3))
    } else if lit3(code, pos, 'm' as u8, 'a' as u8, 'j' as u8) {
        match parse_number(code, pos + 3) {
            Some((n, end)) => Some((Modifier::Major(n), end)),
            None => Some((Modifier::Major(5), pos + 3)),
        }
    } else if lit1(code, pos, 'M' as u8) {
        match parse_number(code, pos + 1) {
            Some((n, end)) => Some((Modifier::Major(n), end)),
            None => Some((Modifier::Major(5), pos + 1)),
        }
    } else if lit1(code, pos, 'm' as u8) {
        match parse_number(code, pos + 1) {
            Some((n, end)) => Some((Modifier::Minor(n), end)),
            None => Some((Modifier::Minor(5), pos + 1)),
        }
    } else if lit1(code, pos, 'b' as u8) {
        match parse_number(code, pos + 1) {
            Some((n, end)) => Some((Modifier::Tension(Degree(n, Accidental::Flat)), end)),
            None => None,
        }
    } else if lit1(code, pos, '#' as u8) {
        match parse_number(code, pos + 1) {
            Some((n, end)) => Some((Modifier::Tension(Degree(n, Accidental::Sharp)), end)),
            None => None,
        }
    } else {
        match parse_number(code, pos) {
            Some((n, end)) => Some((Modifier::Major(n), end)),
            None => None,
        }
    }
}


/// Each number spelling is nonempty and stays within the text.
proof fn lemma_number_token_advances(code: Seq<u8>, pos: int)
    ensures
        match number_token(code, pos) {
            Some((_, e)) => pos < e <= code.len(),
            None => true,
        },
{
}

/// Each modifier spelling is nonempty and stays within the text.
proof fn lemma_modifier_token_advances(code: Seq<u8>, pos: int)
    ensures
        match modifier_token(code, pos) {
            Some((_, e)) => pos < e <= code.len(),
            None => true,
        },
{
    lemma_number_token_advances(code, pos);
    lemma_number_token_advances(code, pos + 1);
    lemma_number_token_advances(code, pos + 2);
    lemma_number_token_advances(code, pos + 3);
    lemma_number_token_advances(code, pos + 4);
}

/// What a tension group's inside yields from `pos`, just past the opening
/// parenthesis: elements of an optional accidental and a number, separated
/// by commas and closed by the parenthesis.
pub open spec fn tension_list(code: Seq<u8>, pos: int) -> Option<(Seq<Modifier>, int)>
    decreases code.len() - pos,
        when 0 <= pos
        via tension_list_dec
{
    let acc: Accidental = if lit1s(code, pos, '#' as u8) {
        Accidental::Sharp
    } else if lit1s(code, pos, 'b' as u8) {
        Accidental::Flat
    } else {
        Accidental::Natural
    };
    let p1: int = if acc is Natural {
        pos
    } else {
        pos + 1
    };
    match number_token(code, p1) {
        None => None,
        Some((n, p2)) => {
            let t = Modifier::Tension(Degree(n, acc));
            if lit1s(code, p2, ',' as u8) {
                match tension_list(code, p2 + 1) {
                    Some((ts, e)) => Some((seq![t] + ts, e)),
                    None => None,
                }
            } else if lit1s(code, p2, ')' as u8) {
                Some((seq![t], p2 + 1))
            } else {
                None
            }
        },
    }
}

#[via_fn]
proof fn tension_list_dec(code: Seq<u8>, pos: int) {
    lemma_number_token_advances(code, pos);
    lemma_number_token_advances(code, pos + 1);
}

/// What a whole tension group yields at `pos`.
pub open spec fn tensions_token(code: Seq<u8>, pos: int) -> Option<(Seq<Modifier>, int)> {
    if lit1s(code, pos, '(' as u8) {
        tension_list(code, pos + 1)
    } else {
        None
    }
}

/// Inserting a row of modifiers into a canonical set, left to right.
pub open spec fn mods_insert_all(acc: Seq<Modifier>, ts: Seq<Modifier>) -> Seq<Modifier>
    decreases ts.len(),
{
    if ts.len() == 0 {
        acc
    } else {
        mods_insert_all(mod_insert(acc, ts[0]), ts.drop_first())
    }
}

/// A tension group's span stays within the text.
proof fn lemma_tension_list_bounds(code: Seq<u8>, pos: int)
    requires
        0 <= pos,
    ensures
        match tension_list(code, pos) {
            Some((_, e)) => pos < e <= code.len(),
            None => true,
        },
    decreases code.len() - pos,
{
    lemma_number_token_advances(code, pos);
    lemma_number_token_advances(code, pos + 1);
    let p1: int = if lit1s(code, pos, '#' as u8) || lit1s(code, pos, 'b' as u8) {
        pos + 1
    } else {
        pos
    };
    match number_token(code, p1) {
        Some((n, p2)) => {
            if lit1s(code, p2, ',' as u8) {
                lemma_tension_list_bounds(code, p2 + 1);
            }
        },
        None => {},
    }
}

/// Folding modifier tokens into the canonical set until none matches.
pub open spec fn mods_fold(code: Seq<u8>, pos: int, acc: Seq<Modifier>) -> (Seq<Modifier>, int)
    decreases code.len() - pos,
        when 0 <= pos
        via mods_fold_dec
{
    match modifier_token(code, pos) {
        Some((m, end)) => mods_fold(code, end, mod_insert(acc, m)),
        None => (acc, pos),
    }
}

#[via_fn]
proof fn mods_fold_dec(code: Seq<u8>, pos: int, acc: Seq<Modifier>) {
    lemma_modifier_token_advances(code, pos);
}

/// The modifier fold never leaves the text.
proof fn lemma_mods_fold_bounds(code: Seq<u8>, pos: int, acc: Seq<Modifier>)
    requires
        0 <= pos <= code.len(),
    ensures
        pos <= mods_fold(code, pos, acc).1 <= code.len(),
    decreases code.len() - pos,
{
    lemma_modifier_token_advances(code, pos);
    match modifier_token(code, pos) {
        Some((m, end)) => {
            lemma_mods_fold_bounds(code, end, mod_insert(acc, m));
        },
        None => {},
    }
}

/// What the key recognizer returns at `pos`: a pitch spelling makes an
/// absolute key, else a degree spelling a relative one.
pub open spec fn key_token(code: Seq<u8>, pos: int) -> Option<(Key, int)> {
    match pitch_token(code, pos) {
        Some((p, e)) => Some((Key::Absolute(p), e)),
        None => match degree_token(code, pos) {
            Some((sv, e)) => Some((Key::Relative(sv), e)),
            None => None,
        },
    }
}

/// A key spelling is nonempty and stays within the text.
proof fn lemma_key_token_bounds(code: Seq<u8>, pos: int)
    requires
        0 <= pos,
    ensures
        match key_token(code, pos) {
            Some((_, e)) => pos < e <= code.len(),
            None => true,
        },
{
}

/// What the chord-symbol recognizer returns at `pos`: a key, the modifier
/// fold seeded with the default major triad shape, an optional tension
/// group, and an optional bass key after a slash (a slash whose key does
/// not parse is left unconsumed, with no bass).
pub open spec fn chord_token(code: Seq<u8>, pos: int) -> Option<(crate::syntax::ChordNodeV, int)> {
    match key_token(code, pos) {
        None => None,
        Some((k, p1)) => {
            let folded = mods_fold(code, p1, seq![Modifier::Major(5)]);
            let after_t: (Seq<Modifier>, int) = match tensions_token(code, folded.1) {
                Some((ts, e)) => (mods_insert_all(folded.0, ts), e),
                None => folded,
            };
            let with_on: (Option<Key>, int) = if lit1s(code, after_t.1, '/' as u8) {
                match key_token(code, after_t.1 + 1) {
                    Some((k2, e)) => (Some(k2), e),
                    None => (None, after_t.1),
                }
            } else {
                (None, after_t.1)
            };
            Some(
                (
                    crate::syntax::ChordNodeV { key: k, mods: after_t.0, on: with_on.0 },
                    with_on.1,
                ),
            )
        },
    }
}

/// A chord spelling is nonempty and stays within the text.
proof fn lemma_chord_token_bounds(code: Seq<u8>, pos: int)
    requires
        0 <= pos,
    ensures
        match chord_token(code, pos) {
            Some((_, e)) => pos < e <= code.len(),
            None => true,
        },
{
    lemma_key_token_bounds(code, pos);
    match key_token(code, pos) {
        Some((k, p1)) => {
            lemma_mods_fold_bounds(code, p1, seq![Modifier::Major(5)]);
            let folded = mods_fold(code, p1, seq![Modifier::Major(5)]);
            lemma_tension_list_bounds(code, folded.1 + 1);
            let after_t: int = match tensions_token(code, folded.1) {
                Some((ts, e)) => e,
                None => folded.1,
            };
            lemma_key_token_bounds(code, after_t + 1);
        },
        None => {},
    }
}

/// What the node recognizer returns at `pos`: the three marks, the
/// no-chord spelling, or a chord symbol.
pub open spec fn node_token(code: Seq<u8>, pos: int) -> Option<(crate::syntax::NodeV, int)> {
    if lit1s(code, pos, '=' as u8) {
        Some((crate::syntax::NodeV::Sustain, pos + 1))
    } else if lit1s(code, pos, '_' as u8) {
        Some((crate::syntax::NodeV::Rest, pos + 1))
    } else if lit1s(code, pos, '%' as u8) {
        Some((crate::syntax::NodeV::Repeat, pos + 1))
    } else if lit4s(code, pos, 'N' as u8, '.' as u8, 'C' as u8, '.' as u8) {
        Some((crate::syntax::NodeV::Rest, pos + 4))
    } else {
        match chord_token(code, pos) {
            Some((c, e)) => Some((crate::syntax::NodeV::Chord(c), e)),
            None => None,
        }
    }
}

/// A node spelling is nonempty and stays within the text.
proof fn lemma_node_token_bounds(code: Seq<u8>, pos: int)
    requires
        0 <= pos,
    ensures
        match node_token(code, pos) {
            Some((_, e)) => pos < e <= code.len(),
            None => true,
        },
{
    lemma_chord_token_bounds(code, pos);
}

/// Recognizes a parenthesized tension group at `pos` and adds each
/// tension to the set; a malformed group is a failure that leaves the set
/// untouched.  Exactly the group `tensions_token` describes is consumed
/// and inserted.
fn parse_tensions(code: &[u8], pos: usize, mods: &mut Vec<Modifier>) -> (r: Option<usize>)
    requires
        pos <= code@.len(),
        sorted_mods(old(mods)@),
        forall|i: int| 0 <= i < old(mods)@.len() ==> mod_payload_wf(#[trigger] old(mods)@[i]),
    ensures
        sorted_mods(final(mods)@),
        forall|i: int| 0 <= i < final(mods)@.len() ==> mod_payload_wf(#[trigger] final(mods)@[i]),
        forall|m: Modifier| #[trigger] old(mods)@.contains(m) ==> final(mods)@.contains(m),
        match r {
            Some(end) => {
                &&& pos < end <= code@.len()
                &&& tensions_token(code@, pos as int) matches Some((ts, e)) && e == end as int
                    && final(mods)@ == mods_insert_all(old(mods)@, ts)
            },
            None => final(mods)@ == old(mods)@ && tensions_token(code@, pos as int) is None,
        },
{
    if !lit1(code, pos, '(' as u8) {
        return None;
    }
    let mut p = pos + 1;
    let mut pending: Vec<Modifier> = Vec::new();
    loop
        invariant
            pos < code@.len(),
            pos + 1 <= p <= code@.len(),
            mods@ == old(mods)@,
            sorted_mods(mods@),
            forall|i: int| 0 <= i < old(mods)@.len() ==> mod_payload_wf(#[trigger] old(mods)@[i]),
            forall|i: int| 0 <= i < pending@.len() ==> mod_payload_wf(#[trigger] pending@[i]),
            lit1s(code@, pos as int, '(' as u8),
            (match tension_list(code@, p as int) {
                Some((ts, e)) => tensions_token(code@, pos as int) == Some((pending@ + ts, e)),
                None => tensions_token(code@, pos as int) is None,
            }),
        decreases code@.len() - p,
    {
        let ghost p_elem = p as int;
        let acc: Accidental = if lit1(code, p, '#' as u8) {
            p = p + 1;
            Accidental::Sharp
        } else if lit1(code, p, 'b' as u8) {
            p = p + 1;
            Accidental::Flat
        } else {
            Accidental::Natural
        };
        let (n, p2) = match parse_number(code, p) {
            Some(x) => x,
            None => {
                proof {
                    assert(tension_list(code@, p_elem) is None);
                }
                return None;
            },
        };
        let t = Modifier::Tension(Degree(n, acc));
        pending.push(t);
        if lit1(code, p2, ',' as u8) {
            proof {
                assert(tension_list(code@, p_elem) == (match tension_list(code@, p2 + 1) {
                    Some((ts, e)) => Some::<(Seq<Modifier>, int)>((seq![t] + ts, e)),
                    None => None::<(Seq<Modifier>, int)>,
                }));
                match tension_list(code@, p2 + 1) {
                    Some((ts, e)) => {
                        assert(pending@.drop_last() + (seq![t] + ts) =~= pending@ + ts);
                    },
                    None => {},
                }
            }
            p = p2 + 1;
        } else if lit1(code, p2, ')' as u8) {
            proof {
                assert(tension_list(code@, p_elem) == Some::<(Seq<Modifier>, int)>(
                    (seq![t], p2 + 1),
                ));
                assert(pending@.drop_last() + seq![t] =~= pending@);
                assert(tensions_token(code@, pos as int) == Some::<(Seq<Modifier>, int)>(
                    (pending@, p2 + 1),
                ));
            }
            let ghost ts_full = pending@;
            proof {
                assert(ts_full.skip(0) =~= ts_full);
            }
            let mut k: usize = 0;
            while k < pending.len()
                invariant
                    k <= pending@.len(),
                    pending@ == ts_full,
                    sorted_mods(mods@),
                    forall|i: int|
                        0 <= i < pending@.len() ==> mod_payload_wf(#[trigger] pending@[i]),
                    forall|i: int| 0 <= i < mods@.len() ==> mod_payload_wf(#[trigger] mods@[i]),
                    forall|m: Modifier| #[trigger] old(mods)@.contains(m) ==> mods@.contains(m),
                    mods_insert_all(old(mods)@, ts_full) == mods_insert_all(
                        mods@,
                        ts_full.skip(k as int),
                    ),
                decreases pending@.len() - k,
            {
                let m = pending[k];
                proof {
                    crate::syntax::lemma_mod_insert_props(mods@, m);
                    assert(mod_payload_wf(pending@[k as int]));
                    assert(ts_full.skip(k as int).len() > 0);
                    assert(ts_full.skip(k as int)[0] == ts_full[k as int]);
                    assert(ts_full.skip(k as int).drop_first() =~= ts_full.skip(k as int + 1));
                }
                let ghost before = mods@;
                insert_modifier(mods, m);
                proof {
                    assert forall|i: int| 0 <= i < mods@.len() implies mod_payload_wf(
                        #[trigger] mods@[i],
                    ) by {
                        assert(mods@.contains(mods@[i]));
                        assert(before.contains(mods@[i]) || mods@[i] == m);
                        if before.contains(mods@[i]) {
                            let tix = choose|tix: int|
                                0 <= tix < before.len() && before[tix] == mods@[i];
                            assert(mod_payload_wf(before[tix]));
                        }
                    }
                }
                k = k + 1;
            }
            proof {
                assert(ts_full.skip(ts_full.len() as int) =~= Seq::<Modifier>::empty());
            }
            return Some(p2 + 1);
        } else {
            proof {
                assert(tension_list(code@, p_elem) is None);
            }
            return None;
        }
    }
}

/// Recognizes a chord root: a pitch makes an absolute key, a degree a
/// relative one.
fn parse_key_at(code: &[u8], pos: usize) -> (r: Option<(Key, usize)>)
    requires
        pos <= code@.len(),
    ensures
        match r {
            Some((k, end)) => pos < end <= code@.len() && key_wf(k) && key_token(
                code@,
                pos as int,
            ) == Some((k, end as int)),
            None => key_token(code@, pos as int) is None,
        },
{
    match parse_pitch(code, pos) {
        Some((p, end)) => Some((Key::Absolute(p), end)),
        None => match parse_degree(code, pos) {
            Some((s, end)) => Some((Key::Relative(s), end)),
            None => None,
        },
    }
}

/// Recognizes a whole chord symbol: root key, modifiers, an optional
/// tension group, and an optional bass override after a slash.  The
/// modifier set always receives the default major triad shape first.
fn parse_chord_node(code: &[u8], pos: usize) -> (r: Option<(ChordNode, usize)>)
    requires
        pos <= code@.len(),
    ensures
        match r {
            Some((c, end)) => pos < end <= code@.len() && cnode_canonical(c@) && chord_token(
                code@,
                pos as int,
            ) == Some((c@, end as int)),
            None => chord_token(code@, pos as int) is None,
        },
{
    let (key, mut p) = match parse_key_at(code, pos) {
        Some((k, end)) => (k, end),
        None => {
            return None;
        },
    };
    let ghost p1 = p as int;
    let mut mods: Vec<Modifier> = Vec::new();
    mods.push(Modifier::Major(5));
    proof {
        assert(mods@ =~= seq![Modifier::Major(5)]);
        assert(mods@[0] == Modifier::Major(5));
        assert(mods@.contains(Modifier::Major(5)));
    }
    loop
        invariant
            pos < p1 <= p <= code@.len(),
            sorted_mods(mods@),
            forall|i: int| 0 <= i < mods@.len() ==> mod_payload_wf(#[trigger] mods@[i]),
            mods@.contains(Modifier::Major(5)),
            mods_fold(code@, p1, seq![Modifier::Major(5)]) == mods_fold(code@, p as int, mods@),
        ensures
            pos < p1 <= p <= code@.len(),
            sorted_mods(mods@),
            forall|i: int| 0 <= i < mods@.len() ==> mod_payload_wf(#[trigger] mods@[i]),
            mods@.contains(Modifier::Major(5)),
            mods_fold(code@, p1, seq![Modifier::Major(5)]) == (mods@, p as int),
        decreases code@.len() - p,
    {
        match parse_modifier(code, p) {
            Some((m, end)) => {
                let ghost before = mods@;
                proof {
                    crate::syntax::lemma_mod_insert_props(mods@, m);
                }
                insert_modifier(&mut mods, m);
                proof {
                    assert forall|i: int| 0 <= i < mods@.len() implies mod_payload_wf(
                        #[trigger] mods@[i],
                    ) by {
                        assert(mods@.contains(mods@[i]));
                        assert(before.contains(mods@[i]) || mods@[i] == m);
                        if before.contains(mods@[i]) {
                            let t = choose|t: int| 0 <= t < before.len() && before[t] == mods@[i];
                            assert(mod_payload_wf(before[t]));
                        }
                    }
                    assert(mods@.contains(Modifier::Major(5)));
                    assert(mods_fold(code@, p as int, before) == mods_fold(
                        code@,
                        end as int,
                        mod_insert(before, m),
                    ));
                }
                p = end;
            },
            None => {
                break ;
            },
        }
    }
    let ghost p2 = p as int;
    let ghost folded_mods = mods@;
    match parse_tensions(code, p, &mut mods) {
        Some(end) => {
            p = end;
        },
        None => {},
    }
    proof {
        assert(mods@.contains(Modifier::Major(5)));
    }
    let ghost p3 = p as int;
    let ghost after_t_mods = mods@;
    let on: Option<Key> = if lit1(code, p, '/' as u8) {
        match parse_key_at(code, p + 1) {
            Some((k, end)) => {
                p = end;
                Some(k)
            },
            None => None,
        }
    } else {
        None
    };
    let c = ChordNode { key, modifiers: mods, on };
    proof {
        assert(c@ == (crate::syntax::ChordNodeV { key, mods: after_t_mods, on }));
        assert(chord_token(code@, pos as int) == Some::<(crate::syntax::ChordNodeV, int)>(
            (c@, p as int),
        ));
    }
    Some((c, p))
}

/// Recognizes one measure slot: sustain, rest, repeat, or a chord symbol.
fn parse_node_at(code: &[u8], pos: usize) -> (r: Option<(Node, usize)>)
    requires
        pos <= code@.len(),
    ensures
        match r {
            Some((n, end)) => pos < end <= code@.len() && node_canonical(n@) && node_v_wf(n@)
                && node_token(code@, pos as int) == Some((n@, end as int)),
            None => node_token(code@, pos as int) is None,
        },
{
    if lit1(code, pos, '=' as u8) {
        Some((Node::Sustain, pos + 1))
    } else if lit1(code, pos, '_' as u8) {
        Some((Node::Rest, pos + 1))
    } else if lit1(code, pos, '%' as u8) {
        Some((Node::Repeat, pos + 1))
    } else if lit4(code, pos, 'N' as u8, '.' as u8, 'C' as u8, '.' as u8) {
        Some((Node::Rest, pos + 4))
    } else {
        match parse_chord_node(code, pos) {
            Some((c, end)) => Some((Node::Chord(c), end)),
            None => None,
        }
    }
}


/// The position after any run of spaces at `pos`.
pub open spec fn skip_sp(code: Seq<u8>, pos: int) -> int
    decreases code.len() - pos,
        when 0 <= pos <= code.len()
{
    if pos < code.len() && code[pos] == ' ' as u8 {
        skip_sp(code, pos + 1)
    } else {
        pos
    }
}

proof fn lemma_skip_sp_bounds(code: Seq<u8>, pos: int)
    requires
        0 <= pos <= code.len(),
    ensures
        pos <= skip_sp(code, pos) <= code.len(),
    decreases code.len() - pos,
{
    if pos < code.len() && code[pos] == ' ' as u8 {
        lemma_skip_sp_bounds(code, pos + 1);
    }
}

/// Reading a measure's nodes from `pos`: node after node, each followed
/// by any spaces, until no node matches.
pub open spec fn nodes_fold(code: Seq<u8>, pos: int, acc: Seq<crate::syntax::NodeV>) -> (
    Seq<crate::syntax::NodeV>,
    int,
)
    decreases code.len() - pos,
        when 0 <= pos <= code.len()
        via nodes_fold_dec
{
    match node_token(code, pos) {
        Some((n, e)) => nodes_fold(code, skip_sp(code, e), acc.push(n)),
        None => (acc, pos),
    }
}

#[via_fn]
proof fn nodes_fold_dec(code: Seq<u8>, pos: int, acc: Seq<crate::syntax::NodeV>) {
    lemma_node_token_bounds(code, pos);
    match node_token(code, pos) {
        Some((n, e)) => {
            lemma_skip_sp_bounds(code, e);
        },
        None => {},
    }
}

proof fn lemma_nodes_fold_bounds(code: Seq<u8>, pos: int, acc: Seq<crate::syntax::NodeV>)
    requires
        0 <= pos <= code.len(),
    ensures
        pos <= nodes_fold(code, pos, acc).1 <= code.len(),
        nodes_fold(code, pos, acc).0.len() > acc.len() ==> pos < nodes_fold(code, pos, acc).1,
    decreases code.len() - pos,
{
    lemma_node_token_bounds(code, pos);
    match node_token(code, pos) {
        Some((n, e)) => {
            lemma_skip_sp_bounds(code, e);
            lemma_nodes_fold_bounds(code, skip_sp(code, e), acc.push(n));
        },
        None => {},
    }
}

/// What parsing one measure at `start` yields: at least one node after
/// leading spaces, then a bar (break flag false), a newline or the end of
/// the text (break flag true); anything else is no measure.
pub open spec fn measure_token(code: Seq<u8>, start: int) -> Option<(
    Seq<crate::syntax::NodeV>,
    bool,
    int,
)> {
    let folded = nodes_fold(code, skip_sp(code, start), Seq::empty());
    if folded.0.len() == 0 {
        None
    } else if folded.1 >= code.len() {
        Some((folded.0, true, folded.1))
    } else if code[folded.1] == '|' as u8 {
        Some((folded.0, false, folded.1 + 1))
    } else if code[folded.1] == '\n' as u8 {
        Some((folded.0, true, folded.1 + 1))
    } else {
        None
    }
}

/// A measure's span is nonempty and stays within the text.
proof fn lemma_measure_token_bounds(code: Seq<u8>, start: int)
    requires
        0 <= start <= code.len(),
    ensures
        match measure_token(code, start) {
            Some((_, _, e)) => start < e <= code.len(),
            None => true,
        },
{
    lemma_skip_sp_bounds(code, start);
    lemma_nodes_fold_bounds(code, skip_sp(code, start), Seq::empty());
}

/// Consumes spaces.
fn skip_spaces(code: &[u8], pos: usize) -> (r: usize)
    requires
        pos <= code@.len(),
    ensures
        pos <= r <= code@.len(),
        r as int == skip_sp(code@, pos as int),
{
    let mut p = pos;
    while p < code.len() && code[p] == ' ' as u8
        invariant
            pos <= p <= code@.len(),
            skip_sp(code@, pos as int) == skip_sp(code@, p as int),
        decreases code@.len() - p,
    {
        p = p + 1;
    }
    p
}

/// Parses one measure starting at `start`: one or more nodes separated by
/// spaces, closed by a bar, a line ending, or the end of the text.  On
/// success the whole measure up to and including its terminator is
/// consumed: `end` sits at the end of the text or just past a `|` or a
/// newline, with no unparsed text before it.
pub fn parse_measure(code: &[u8], start: usize) -> (r: Result<(Vec<Node>, bool, usize), ChordError>)
    requires
        start <= code@.len(),
    ensures
        match r {
            Ok((nodes, br, end)) => {
                &&& start < end <= code@.len()
                &&& nodes@.len() >= 1
                &&& forall|i: int|
                    0 <= i < nodes@.len() ==> node_canonical(#[trigger] nodes@[i]@) && node_v_wf(
                        nodes@[i]@,
                    )
                &&& (end == code@.len() || code@[end - 1] == '|' as u8 || code@[end - 1]
                    == '\n' as u8)
                &&& measure_token(code@, start as int) == Some(
                    (nodes@.map_values(|n: Node| n@), br, end as int),
                )
            },
            Err(e) => e is Parse && measure_token(code@, start as int) is None,
        },
{
    let mut nodes: Vec<Node> = Vec::new();
    let sp = skip_spaces(code, start);
    let mut p = sp;
    proof {
        assert(nodes@.map_values(|n: Node| n@) =~= Seq::<crate::syntax::NodeV>::empty());
    }
    loop
        invariant
            start <= sp <= p <= code@.len(),
            sp as int == skip_sp(code@, start as int),
            nodes@.len() >= 1 ==> start < p,
            forall|i: int|
                0 <= i < nodes@.len() ==> node_canonical(#[trigger] nodes@[i]@) && node_v_wf(
                    nodes@[i]@,
                ),
            nodes_fold(code@, sp as int, Seq::empty()) == nodes_fold(
                code@,
                p as int,
                nodes@.map_values(|n: Node| n@),
            ),
        ensures
            start <= p <= code@.len(),
            nodes@.len() >= 1,
            start < p,
            forall|i: int|
                0 <= i < nodes@.len() ==> node_canonical(#[trigger] nodes@[i]@) && node_v_wf(
                    nodes@[i]@,
                ),
            nodes_fold(code@, skip_sp(code@, start as int), Seq::empty()) == (
                nodes@.map_values(|n: Node| n@),
                p as int,
            ),
        decreases code@.len() - p + 1,
    {
        match parse_node_at(code, p) {
            Some((n, end)) => {
                let ghost before = nodes@.map_values(|nd: Node| nd@);
                nodes.push(n);
                proof {
                    assert(nodes@.map_values(|nd: Node| nd@) =~= before.push(n@));
                }
                p = skip_spaces(code, end);
            },
            None => {
                if nodes.len() == 0 {
                    proof {
                        assert(nodes_fold(code@, sp as int, Seq::empty()).0.len() == 0);
                    }
                    return Err(ChordError::Parse { position: p });
                }
                break ;
            },
        }
    }
    if p >= code.len() {
        Ok((nodes, true, p))
    } else if code[p] == '|' as u8 {
        Ok((nodes, false, p + 1))
    } else if code[p] == '\n' as u8 {
        Ok((nodes, true, p + 1))
    } else {
        Err(ChordError::Parse { position: p })
    }
}


/// The position after any run of spaces and line endings at `pos`.
pub open spec fn skip_ws(code: Seq<u8>, pos: int) -> int
    decreases code.len() - pos,
        when 0 <= pos <= code.len()
{
    if pos < code.len() && (code[pos] == ' ' as u8 || code[pos] == '\n' as u8 || code[pos]
        == '\r' as u8) {
        skip_ws(code, pos + 1)
    } else {
        pos
    }
}

proof fn lemma_skip_ws_bounds(code: Seq<u8>, pos: int)
    requires
        0 <= pos <= code.len(),
    ensures
        pos <= skip_ws(code, pos) <= code.len(),
    decreases code.len() - pos,
{
    if pos < code.len() && (code[pos] == ' ' as u8 || code[pos] == '\n' as u8 || code[pos]
        == '\r' as u8) {
        lemma_skip_ws_bounds(code, pos + 1);
    }
}

/// Skipping whitespace is idempotent: the skip stops on no whitespace.
proof fn lemma_skip_ws_idem(code: Seq<u8>, pos: int)
    requires
        0 <= pos <= code.len(),
    ensures
        skip_ws(code, skip_ws(code, pos)) == skip_ws(code, pos),
    decreases code.len() - pos,
{
    if pos < code.len() && (code[pos] == ' ' as u8 || code[pos] == '\n' as u8 || code[pos]
        == '\r' as u8) {
        lemma_skip_ws_idem(code, pos + 1);
    }
}

/// The position of the first newline at or after `pos`, if any.
pub open spec fn find_nl(code: Seq<u8>, pos: int) -> Option<int>
    decreases code.len() - pos,
        when 0 <= pos <= code.len()
{
    if pos >= code.len() {
        None
    } else if code[pos] == '\n' as u8 {
        Some(pos)
    } else {
        find_nl(code, pos + 1)
    }
}

proof fn lemma_find_nl_bounds(code: Seq<u8>, pos: int)
    requires
        0 <= pos <= code.len(),
    ensures
        match find_nl(code, pos) {
            Some(q) => pos <= q < code.len() && code[q] == '\n' as u8,
            None => true,
        },
    decreases code.len() - pos,
{
    if pos < code.len() && code[pos] != '\n' as u8 {
        lemma_find_nl_bounds(code, pos + 1);
    }
}

/// The first newline is the one before which no newline stands.
proof fn lemma_find_nl_at(code: Seq<u8>, pos: int, q: int)
    requires
        0 <= pos <= q <= code.len(),
        q < code.len() ==> code[q] == '\n' as u8,
        forall|k: int| pos <= k < q ==> code[k] != '\n' as u8,
    ensures
        q < code.len() ==> find_nl(code, pos) == Some(q),
        q == code.len() ==> find_nl(code, pos) is None,
    decreases q - pos,
{
    if pos < q {
        lemma_find_nl_at(code, pos + 1, q);
    }
}

/// Reading score items from `pos`: whitespace between items, then a
/// comment line or a measure, until the end of the text; any text no item
/// accepts sinks the whole run.
pub open spec fn items_fold(code: Seq<u8>, pos: int, acc: Seq<crate::syntax::AstV>) -> Option<
    Seq<crate::syntax::AstV>,
>
    decreases code.len() - pos,
        when 0 <= pos <= code.len()
        via items_fold_dec
{
    let p = skip_ws(code, pos);
    if p >= code.len() {
        Some(acc)
    } else if code[p] == '#' as u8 {
        match find_nl(code, p + 1) {
            Some(q) => items_fold(
                code,
                q + 1,
                acc.push(crate::syntax::AstV::Comment(code.subrange(p + 1, q))),
            ),
            None => None,
        }
    } else {
        match measure_token(code, p) {
            Some((nodes, br, end)) => items_fold(
                code,
                end,
                acc.push(crate::syntax::AstV::Measure(nodes, br)),
            ),
            None => None,
        }
    }
}

#[via_fn]
proof fn items_fold_dec(code: Seq<u8>, pos: int, acc: Seq<crate::syntax::AstV>) {
    lemma_skip_ws_bounds(code, pos);
    let p = skip_ws(code, pos);
    if p < code.len() {
        if code[p] == '#' as u8 {
            lemma_find_nl_bounds(code, p + 1);
        } else {
            lemma_measure_token_bounds(code, p);
        }
    }
}

/// What parsing a whole text yields: its item sequence, or nothing when
/// some byte belongs to no item.
pub open spec fn parse_spec(code: Seq<u8>) -> Option<Seq<crate::syntax::AstV>> {
    items_fold(code, 0, Seq::empty())
}

/// Parses a whole source text: comments and measures until the end.  The
/// text is accepted only when every byte belongs to some item, and every
/// score returned is well formed and canonical.
pub fn parse(code: &[u8]) -> (r: Result<Score, ChordError>)
    ensures
        match r {
            Ok(s) => score_v_wf(s@) && score_canonical(s@) && parse_spec(code@) == Some(s@),
            Err(e) => e is Parse && parse_spec(code@) is None,
        },
{
    let mut items: Vec<Ast> = Vec::new();
    let mut p: usize = 0;
    proof {
        assert(items@.map_values(|a: Ast| a@) =~= Seq::<crate::syntax::AstV>::empty());
    }
    loop
        invariant
            p <= code@.len(),
            forall|i: int|
                0 <= i < items@.len() ==> ast_canonical(#[trigger] items@[i]@)
                    && crate::syntax::ast_v_wf(items@[i]@),
            items_fold(code@, 0, Seq::empty()) == items_fold(
                code@,
                p as int,
                items@.map_values(|a: Ast| a@),
            ),
        ensures
            forall|i: int|
                0 <= i < items@.len() ==> ast_canonical(#[trigger] items@[i]@)
                    && crate::syntax::ast_v_wf(items@[i]@),
            items_fold(code@, 0, Seq::empty()) == Some(items@.map_values(|a: Ast| a@)),
        decreases code@.len() - p,
    {
        let ghost p_before = p as int;
        let ghost acc = items@.map_values(|a: Ast| a@);
        p = skip_whitespace(code, p);
        proof {
            lemma_skip_ws_idem(code@, p_before);
            assert(skip_ws(code@, p as int) == p as int);
            assert(items_fold(code@, p_before, acc) == items_fold(code@, p as int, acc));
        }
        if p >= code.len() {
            proof {
                assert(items_fold(code@, p as int, acc) == Some(acc));
            }
            break ;
        }
        if code[p] == '#' as u8 {
            let mut q = p + 1;
            while q < code.len() && code[q] != '\n' as u8
                invariant
                    p + 1 <= q <= code@.len(),
                    forall|k: int| p + 1 <= k < q ==> code@[k] != '\n' as u8,
                decreases code@.len() - q,
            {
                q = q + 1;
            }
            proof {
                lemma_find_nl_at(code@, p + 1, q as int);
            }
            if q >= code.len() {
                proof {
                    assert(items_fold(code@, p as int, acc) is None);
                }
                return Err(ChordError::Parse { position: p });
            }
            let text = copy_range(code, p + 1, q);
            proof {
                assert(forall|i: int|
                    0 <= i < text@.len() ==> text@[i] == code@[p + 1 + i]);
                if text@.contains('\n' as u8) {
                    let t = choose|t: int| 0 <= t < text@.len() && text@[t] == '\n' as u8;
                    assert(code@[p + 1 + t] == '\n' as u8);
                }
                assert(text@ =~= code@.subrange(p + 1, q as int));
            }
            let item = Ast::Comment(text);
            proof {
                assert(ast_canonical(item@));
                assert(crate::syntax::ast_v_wf(item@));
                assert(items_fold(code@, p as int, acc) == items_fold(
                    code@,
                    q as int + 1,
                    acc.push(item@),
                ));
            }
            items.push(item);
            proof {
                assert(items@.map_values(|a: Ast| a@) =~= acc.push(item@));
            }
            p = q + 1;
        } else {
            match parse_measure(code, p) {
                Ok((nodes, br, end)) => {
                    let ghost nv = nodes@.map_values(|n: Node| n@);
                    let item = Ast::Measure(nodes, br);
                    proof {
                        assert forall|i: int| 0 <= i < nv.len() implies node_canonical(
                            #[trigger] nv[i],
                        ) && node_v_wf(nv[i]) by {
                            assert(nv[i] == item->Measure_0@[i]@);
                        }
                        assert(ast_canonical(item@));
                        assert(crate::syntax::ast_v_wf(item@));
                        assert(item@ == crate::syntax::AstV::Measure(nv, br));
                        assert(items_fold(code@, p as int, acc) == items_fold(
                            code@,
                            end as int,
                            acc.push(item@),
                        ));
                    }
                    items.push(item);
                    proof {
                        assert(items@.map_values(|a: Ast| a@) =~= acc.push(item@));
                    }
                    p = end;
                },
                Err(e) => {
                    proof {
                        assert(items_fold(code@, p as int, acc) is None);
                    }
                    return Err(e);
                },
            }
        }
    }
    let s = Score { items };
    proof {
        assert forall|i: int| 0 <= i < s@.len() implies ast_canonical(#[trigger] s@[i])
            && crate::syntax::ast_v_wf(s@[i]) by {
            assert(s@[i] == s.items@[i]@);
        }
        assert(s@ =~= s.items@.map_values(|a: Ast| a@));
    }
    Ok(s)
}

/// Consumes spaces and line endings between top-level items.
fn skip_whitespace(code: &[u8], pos: usize) -> (r: usize)
    requires
        pos <= code@.len(),
    ensures
        pos <= r <= code@.len(),
        r as int == skip_ws(code@, pos as int),
{
    let mut p = pos;
    while p < code.len() && (code[p] == ' ' as u8 || code[p] == '\n' as u8 || code[p] == '\r' as u8)
        invariant
            pos <= p <= code@.len(),
            skip_ws(code@, pos as int) == skip_ws(code@, p as int),
        decreases code@.len() - p,
    {
        p = p + 1;
    }
    p
}

/// Copies the byte range `[from, to)` out of the text.
fn copy_range(code: &[u8], from: usize, to: usize) -> (r: Vec<u8>)
    requires
        from <= to <= code@.len(),
    ensures
        r@.len() == to - from,
        forall|i: int| 0 <= i < r@.len() ==> r@[i] == code@[from + i],
{
    let mut r: Vec<u8> = Vec::new();
    let mut k = from;
    while k < to
        invariant
            from <= k <= to <= code@.len(),
            r@.len() == k - from,
            forall|i: int| 0 <= i < r@.len() ==> r@[i] == code@[from + i],
        decreases to - k,
    {
        r.push(code[k]);
        k = k + 1;
    }
    r
}

/// What normalization produces: every CR-LF pair becomes a single LF,
/// and the unicode flat sign (its three bytes) becomes the letter b, so
/// both spellings of a flattened key read the same.
pub open spec fn normalize_spec(code: Seq<u8>) -> Seq<u8>
    decreases code.len(),
{
    if code.len() == 0 {
        code
    } else if code.len() >= 2 && code[0] == '\r' as u8 && code[1] == '\n' as u8 {
        seq!['\n' as u8] + normalize_spec(code.skip(2))
    } else if code.len() >= 3 && code[0] == 0xe2 && code[1] == 0x99 && code[2] == 0xad {
        seq!['b' as u8] + normalize_spec(code.skip(3))
    } else {
        seq![code[0]] + normalize_spec(code.skip(1))
    }
}

/// Normalizes a source text before parsing: CR-LF to LF, the unicode
/// flat sign to the letter b.
pub fn normalize(code: &[u8]) -> (r: Vec<u8>)
    ensures
        r@ == normalize_spec(code@),
        r@.len() <= code@.len(),
{
    let mut r: Vec<u8> = Vec::new();
    let mut p: usize = 0;
    proof {
        assert(code@.skip(0) =~= code@);
        assert(r@ + normalize_spec(code@.skip(0)) =~= normalize_spec(code@));
    }
    while p < code.len()
        invariant
            p <= code@.len(),
            r@.len() <= p,
            r@ + normalize_spec(code@.skip(p as int)) == normalize_spec(code@),
        decreases code@.len() - p,
    {
        let ghost rest = code@.skip(p as int);
        proof {
            assert(rest[0] == code@[p as int]);
            if rest.len() >= 2 {
                assert(rest[1] == code@[p as int + 1]);
            }
            if rest.len() >= 3 {
                assert(rest[2] == code@[p as int + 2]);
            }
        }
        if code[p] == '\r' as u8 && code.len() - p > 1 && code[p + 1] == '\n' as u8 {
            r.push('\n' as u8);
            proof {
                assert(rest.skip(2) =~= code@.skip(p as int + 2));
                assert(r@ + normalize_spec(code@.skip(p as int + 2)) =~= r@.drop_last() + (seq![
                    '\n' as u8,
                ] + normalize_spec(rest.skip(2))));
            }
            p = p + 2;
        } else if code[p] == 0xe2 && code.len() - p > 2 && code[p + 1] == 0x99 && code[p + 2]
            == 0xad {
            r.push('b' as u8);
            proof {
                assert(rest.skip(3) =~= code@.skip(p as int + 3));
                assert(r@ + normalize_spec(code@.skip(p as int + 3)) =~= r@.drop_last() + (seq![
                    'b' as u8,
                ] + normalize_spec(rest.skip(3))));
            }
            p = p + 3;
        } else {
            r.push(code[p]);
            proof {
                assert(rest.skip(1) =~= code@.skip(p as int + 1));
                assert(r@ + normalize_spec(code@.skip(p as int + 1)) =~= r@.drop_last() + (seq![
                    rest[0],
                ] + normalize_spec(rest.skip(1))));
            }
            p = p + 1;
        }
    }
    proof {
        assert(code@.skip(code@.len() as int).len() == 0);
        assert(r@ =~= r@ + normalize_spec(code@.skip(code@.len() as int)));
    }
    r
}


/// The relative semitone a whole degree token (numeral, optional trailing
/// accidental) names, when it names one.
pub open spec fn degree_str_spec(s: Seq<u8>) -> Option<u8> {
    match roman_token(s, 0) {
        Some((d, end)) => if end == s.len() {
            Some(degree_sem(d as int, Accidental::Natural) as u8)
        } else if end + 1 == s.len() && s[end] == '#' as u8 {
            Some(degree_sem(d as int, Accidental::Sharp) as u8)
        } else if end + 1 == s.len() && s[end] == 'b' as u8 {
            Some(degree_sem(d as int, Accidental::Flat) as u8)
        } else {
            None
        },
        None => None,
    }
}

/// The key a whole token names, when it names one: a full pitch spelling
/// first, else a full degree spelling.
pub open spec fn key_str_spec(s: Seq<u8>) -> Option<Key> {
    match pitch_token(s, 0) {
        Some((p, end)) if end == s.len() => Some(Key::Absolute(p)),
        _ => match degree_str_spec(s) {
            Some(v) => Some(Key::Relative(v)),
            None => None,
        },
    }
}

/// The key a lone token names, for the s-expression dialect: a pitch
/// spelling makes an absolute key, a degree spelling (accidental after
/// the numeral) a relative one; the whole token must be consumed.
pub fn parse_key(key: &[u8]) -> (r: Result<Key, ChordError>)
    ensures
        match r {
            Ok(k) => key_wf(k) && key_str_spec(key@) == Some(k),
            Err(e) => e is Parse && key_str_spec(key@) is None,
        },
{
    match parse_pitch(key, 0) {
        Some((p, end)) => {
            if end == key.len() {
                return Ok(Key::Absolute(p));
            }
        },
        None => {},
    }
    match degree_from_str(key) {
        Ok(s) => Ok(Key::Relative(s)),
        Err(e) => Err(e),
    }
}

/// The relative semitone a degree token names, for the s-expression
/// dialect: a roman numeral with an optional trailing accidental.
pub fn degree_from_str(s: &[u8]) -> (r: Result<u8, ChordError>)
    ensures
        match r {
            Ok(v) => v < 12 && degree_str_spec(s@) == Some(v),
            Err(e) => e is Parse && degree_str_spec(s@) is None,
        },
{
    match parse_roman(s, 0) {
        Some((d, end)) => {
            if end == s.len() {
                Ok(degree_semitone(d, Accidental::Natural))
            } else if end + 1 == s.len() && s[end] == '#' as u8 {
                Ok(degree_semitone(d, Accidental::Sharp))
            } else if end + 1 == s.len() && s[end] == 'b' as u8 {
                Ok(degree_semitone(d, Accidental::Flat))
            } else {
                Err(ChordError::Parse { position: 0 })
            }
        },
        None => Err(ChordError::Parse { position: 0 }),
    }
}

/// The reader for the primary plain-text dialect.
#[derive(Debug)]
pub struct RechordParser;

impl RechordParser {
    /// Parses a source text in the primary dialect.
    pub fn parse(&self, code: &[u8]) -> (r: Result<Score, ChordError>)
        ensures
            match r {
                Ok(s) => score_v_wf(s@) && score_canonical(s@) && parse_spec(code@) == Some(s@),
                Err(e) => e is Parse && parse_spec(code@) is None,
            },
    {
        parse(code)
    }
}

} // verus!
