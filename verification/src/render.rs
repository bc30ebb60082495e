use vstd::prelude::*;

use crate::pitch::Accidental;
use crate::pitch::Pitch;
use crate::scale::Degree;
use crate::scale::Scale;
use crate::syntax::Ast;
use crate::syntax::AstV;
use crate::syntax::ChordNode;
use crate::syntax::ChordNodeV;
use crate::syntax::Key;
use crate::syntax::Modifier;
use crate::syntax::Node;
use crate::syntax::NodeV;
use crate::syntax::Score;

verus! {

/// The literal spelling of a pitch class, sharps only.
pub open spec fn render_pitch(p: Pitch) -> Seq<u8> {
    match p {
        Pitch::C => seq!['C' as u8],
        Pitch::Cs => seq!['C' as u8, '#' as u8],
        Pitch::D => seq!['D' as u8],
        Pitch::Ds => seq!['D' as u8, '#' as u8],
        Pitch::E => seq!['E' as u8],
        Pitch::F => seq!['F' as u8],
        Pitch::Fs => seq!['F' as u8, '#' as u8],
        Pitch::G => seq!['G' as u8],
        Pitch::Gs => seq!['G' as u8, '#' as u8],
        Pitch::A => seq!['A' as u8],
        Pitch::As => seq!['A' as u8, '#' as u8],
        Pitch::B => seq!['B' as u8],
    }
}

/// The roman spelling of a relative semitone, a sharp prefix for the five
/// semitones between natural degrees.
pub open spec fn render_degree(s: int) -> Seq<u8> {
    if s == 0 {
        seq!['I' as u8]
    } else if s == 1 {
        seq!['#' as u8, 'I' as u8]
    } else if s == 2 {
        seq!['I' as u8, 'I' as u8]
    } else if s == 3 {
        seq!['#' as u8, 'I' as u8, 'I' as u8]
    } else if s == 4 {
        seq!['I' as u8, 'I' as u8, 'I' as u8]
    } else if s == 5 {
        seq!['I' as u8, 'V' as u8]
    } else if s == 6 {
        seq!['#' as u8, 'I' as u8, 'V' as u8]
    } else if s == 7 {
        seq!['V' as u8]
    } else if s == 8 {
        seq!['#' as u8, 'V' as u8]
    } else if s == 9 {
        seq!['V' as u8, 'I' as u8]
    } else if s == 10 {
        seq!['#' as u8, 'V' as u8, 'I' as u8]
    } else {
        seq!['V' as u8, 'I' as u8, 'I' as u8]
    }
}

pub open spec fn render_key(k: Key) -> Seq<u8> {
    match k {
        Key::Absolute(p) => render_pitch(p),
        Key::Relative(s) => render_degree(s as int),
    }
}

/// A degree number's digits.
pub open spec fn render_num(d: int) -> Seq<u8> {
    if d == 11 {
        seq!['1' as u8, '1' as u8]
    } else if d == 13 {
        seq!['1' as u8, '3' as u8]
    } else {
        seq![('0' as u8 + d) as u8]
    }
}

pub open spec fn render_acc(a: Accidental) -> Seq<u8> {
    match a {
        Accidental::Natural => Seq::empty(),
        Accidental::Sharp => seq!['#' as u8],
        Accidental::Flat => seq!['b' as u8],
    }
}

/// The literal spelling of one modifier; the default major triad shape is
/// invisible, tensions are spelled inside the tension group instead, and
/// an omission uses the `no` spelling, the one the grammar reads back as
/// an omission (`omit` is shadowed by the `o` spelling of the diminished
/// shape).
pub open spec fn render_modifier(m: Modifier) -> Seq<u8> {
    match m {
        Modifier::Major(d) => if d == 5 {
            Seq::empty()
        } else {
            render_num(d as int)
        },
        Modifier::Minor(d) => seq!['m' as u8] + render_num(d as int),
        Modifier::MinorMajor7 => seq!['m' as u8, 'M' as u8, '7' as u8],
        Modifier::Sus2 => seq!['s' as u8, 'u' as u8, 's' as u8, '2' as u8],
        Modifier::Sus4 => seq!['s' as u8, 'u' as u8, 's' as u8, '4' as u8],
        Modifier::Flat5th => seq!['b' as u8, '5' as u8],
        Modifier::Aug => seq!['a' as u8, 'u' as u8, 'g' as u8],
        Modifier::Aug7 => seq!['a' as u8, 'u' as u8, 'g' as u8, '7' as u8],
        Modifier::Dim => seq!['d' as u8, 'i' as u8, 'm' as u8],
        Modifier::Dim7 => seq!['d' as u8, 'i' as u8, 'm' as u8, '7' as u8],
        Modifier::Omit(d) => seq!['n' as u8, 'o' as u8] + render_num(d as int),
        Modifier::Add(d) => seq!['a' as u8, 'd' as u8, 'd' as u8] + render_num(d as int),
        Modifier::Tension(_) => Seq::empty(),
    }
}

/// The non-tension modifiers' spellings, concatenated from position `i`.
pub open spec fn render_mods_from(mods: Seq<Modifier>, i: int) -> Seq<u8>
    decreases mods.len() - i,
{
    if i < 0 || i >= mods.len() {
        Seq::empty()
    } else {
        render_modifier(mods[i]) + render_mods_from(mods, i + 1)
    }
}

/// Whether any tension stands at or after position `i`.
pub open spec fn has_tension_from(mods: Seq<Modifier>, i: int) -> bool
    decreases mods.len() - i,
{
    if i < 0 || i >= mods.len() {
        false
    } else {
        mods[i] is Tension || has_tension_from(mods, i + 1)
    }
}

/// The tension group's inside: accidental then number, comma-separated in
/// canonical order; `any` tells whether an element was spelled already.
pub open spec fn render_tens_from(mods: Seq<Modifier>, i: int, any: bool) -> Seq<u8>
    decreases mods.len() - i,
{
    if i < 0 || i >= mods.len() {
        Seq::empty()
    } else {
        match mods[i] {
            Modifier::Tension(Degree(d, a)) => (if any {
                seq![',' as u8]
            } else {
                Seq::<u8>::empty()
            }) + render_acc(a) + render_num(d as int) + render_tens_from(mods, i + 1, true),
            _ => render_tens_from(mods, i + 1, any),
        }
    }
}

/// The spelling of a whole chord symbol.
pub open spec fn render_cnode(c: ChordNodeV) -> Seq<u8> {
    render_key(c.key) + render_mods_from(c.mods, 0) + (if has_tension_from(c.mods, 0) {
        seq!['(' as u8] + render_tens_from(c.mods, 0, false) + seq![')' as u8]
    } else {
        Seq::<u8>::empty()
    }) + (match c.on {
        Some(k) => seq!['/' as u8] + render_key(k),
        None => Seq::<u8>::empty(),
    })
}

pub open spec fn render_node(n: NodeV) -> Seq<u8> {
    match n {
        NodeV::Chord(c) => render_cnode(c),
        NodeV::Rest => seq!['N' as u8, '.' as u8, 'C' as u8, '.' as u8],
        NodeV::Sustain => seq!['=' as u8],
        NodeV::Repeat => seq!['%' as u8],
    }
}

/// A measure's nodes joined with single spaces, from position `i`.
pub open spec fn render_nodes_from(nodes: Seq<NodeV>, i: int) -> Seq<u8>
    decreases nodes.len() - i,
{
    if i < 0 || i >= nodes.len() {
        Seq::empty()
    } else {
        (if i > 0 {
            seq![' ' as u8]
        } else {
            Seq::<u8>::empty()
        }) + render_node(nodes[i]) + render_nodes_from(nodes, i + 1)
    }
}

/// One item's spelling: comments get their hash and newline back; a
/// measure ends in a bar, or in a newline when it closed a line.
pub open spec fn render_ast(a: AstV) -> Seq<u8> {
    match a {
        AstV::Comment(c) => seq!['#' as u8] + c + seq!['\n' as u8],
        AstV::Measure(nodes, br) => render_nodes_from(nodes, 0) + (if br {
            seq!['\n' as u8]
        } else {
            seq![' ' as u8, '|' as u8, ' ' as u8]
        }),
    }
}

pub open spec fn render_score_from(items: Seq<AstV>, i: int) -> Seq<u8>
    decreases items.len() - i,
{
    if i < 0 || i >= items.len() {
        Seq::empty()
    } else {
        render_ast(items[i]) + render_score_from(items, i + 1)
    }
}

/// What rendering a whole score produces.
pub open spec fn render_spec(items: Seq<AstV>) -> Seq<u8> {
    render_score_from(items, 0)
}

/// Appends the digits of a degree number.
fn push_num(out: &mut Vec<u8>, d: u8)
    requires
        1 <= d <= 13,
    ensures
        final(out)@ == old(out)@ + render_num(d as int),
{
    if d == 11 {
        out.push('1' as u8);
        out.push('1' as u8);
    } else if d == 13 {
        out.push('1' as u8);
        out.push('3' as u8);
    } else {
        out.push('0' as u8 + d);
    }
    proof {
        assert(final(out)@ =~= old(out)@ + render_num(d as int));
    }
}

/// Appends a pitch spelling.
fn push_pitch(out: &mut Vec<u8>, p: Pitch)
    ensures
        final(out)@ == old(out)@ + render_pitch(p),
{
    match p {
        Pitch::C => out.push('C' as u8),
        Pitch::Cs => {
            out.push('C' as u8);
            out.push('#' as u8);
        },
        Pitch::D => out.push('D' as u8),
        Pitch::Ds => {
            out.push('D' as u8);
            out.push('#' as u8);
        },
        Pitch::E => out.push('E' as u8),
        Pitch::F => out.push('F' as u8),
        Pitch::Fs => {
            out.push('F' as u8);
            out.push('#' as u8);
        },
        Pitch::G => out.push('G' as u8),
        Pitch::Gs => {
            out.push('G' as u8);
            out.push('#' as u8);
        },
        Pitch::A => out.push('A' as u8),
        Pitch::As => {
            out.push('A' as u8);
            out.push('#' as u8);
        },
        Pitch::B => out.push('B' as u8),
    }
    proof {
        assert(final(out)@ =~= old(out)@ + render_pitch(p));
    }
}

/// Appends a roman degree spelling.
fn push_degree(out: &mut Vec<u8>, s: u8)
    requires
        s < 12,
    ensures
        final(out)@ == old(out)@ + render_degree(s as int),
{
    if s == 1 || s == 3 || s == 6 || s == 8 || s == 10 {
        out.push('#' as u8);
    }
    if s == 0 || s == 1 {
        out.push('I' as u8);
    } else if s == 2 || s == 3 {
        out.push('I' as u8);
        out.push('I' as u8);
    } else if s == 4 {
        out.push('I' as u8);
        out.push('I' as u8);
        out.push('I' as u8);
    } else if s == 5 || s == 6 {
        out.push('I' as u8);
        out.push('V' as u8);
    } else if s == 7 || s == 8 {
        out.push('V' as u8);
    } else if s == 9 || s == 10 {
        out.push('V' as u8);
        out.push('I' as u8);
    } else {
        out.push('V' as u8);
        out.push('I' as u8);
        out.push('I' as u8);
    }
    proof {
        assert(final(out)@ =~= old(out)@ + render_degree(s as int));
    }
}

/// Appends a key spelling.
fn push_key(out: &mut Vec<u8>, k: &Key)
    requires
        crate::syntax::key_wf(*k),
    ensures
        final(out)@ == old(out)@ + render_key(*k),
{
    match k {
        Key::Absolute(p) => push_pitch(out, *p),
        Key::Relative(s) => push_degree(out, *s),
    }
}

/// Appends one modifier's spelling (tensions are left to the group).
fn push_modifier(out: &mut Vec<u8>, m: &Modifier)
    requires
        crate::syntax::mod_payload_wf(*m),
    ensures
        final(out)@ == old(out)@ + render_modifier(*m),
{
    match m {
        Modifier::Major(d) => {
            if *d != 5 {
                push_num(out, *d);
            }
        },
        Modifier::Minor(d) => {
            out.push('m' as u8);
            push_num(out, *d);
        },
        Modifier::MinorMajor7 => {
            out.push('m' as u8);
            out.push('M' as u8);
            out.push('7' as u8);
        },
        Modifier::Sus2 => {
            out.push('s' as u8);
            out.push('u' as u8);
            out.push('s' as u8);
            out.push('2' as u8);
        },
        Modifier::Sus4 => {
            out.push('s' as u8);
            out.push('u' as u8);
            out.push('s' as u8);
            out.push('4' as u8);
        },
        Modifier::Flat5th => {
            out.push('b' as u8);
            out.push('5' as u8);
        },
        Modifier::Aug => {
            out.push('a' as u8);
            out.push('u' as u8);
            out.push('g' as u8);
        },
        Modifier::Aug7 => {
            out.push('a' as u8);
            out.push('u' as u8);
            out.push('g' as u8);
            out.push('7' as u8);
        },
        Modifier::Dim => {
            out.push('d' as u8);
            out.push('i' as u8);
            out.push('m' as u8);
        },
        Modifier::Dim7 => {
            out.push('d' as u8);
            out.push('i' as u8);
            out.push('m' as u8);
            out.push('7' as u8);
        },
        Modifier::Omit(d) => {
            out.push('n' as u8);
            out.push('o' as u8);
            push_num(out, *d);
        },
        Modifier::Add(d) => {
            out.push('a' as u8);
            out.push('d' as u8);
            out.push('d' as u8);
            push_num(out, *d);
        },
        Modifier::Tension(_) => {},
    }
    proof {
        assert(final(out)@ =~= old(out)@ + render_modifier(*m));
    }
}

/// Appends a whole chord symbol.
fn push_cnode(out: &mut Vec<u8>, c: &ChordNode)
    requires
        crate::syntax::cnode_v_wf(c@),
    ensures
        final(out)@ == old(out)@ + render_cnode(c@),
{
    push_key(out, &c.key);
    let ghost base1 = out@;
    let mut i: usize = 0;
    let mut any_tension = false;
    while i < c.modifiers.len()
        invariant
            crate::syntax::cnode_v_wf(c@),
            i <= c.modifiers@.len(),
            out@ + render_mods_from(c@.mods, i as int) == base1 + render_mods_from(c@.mods, 0),
            any_tension == has_tension_before(c@.mods, i as int),
        decreases c.modifiers@.len() - i,
    {
        let m = c.modifiers[i];
        proof {
            assert(crate::syntax::mod_payload_wf(c@.mods[i as int]));
        }
        let ghost pre = out@;
        push_modifier(out, &m);
        if matches!(m, Modifier::Tension(_)) {
            any_tension = true;
        }
        proof {
            assert(render_mods_from(c@.mods, i as int) == render_modifier(c@.mods[i as int])
                + render_mods_from(c@.mods, i as int + 1));
            assert(out@ + render_mods_from(c@.mods, i as int + 1) =~= pre + render_mods_from(
                c@.mods,
                i as int,
            ));
        }
        i = i + 1;
    }
    proof {
        assert(render_mods_from(c@.mods, c@.mods.len() as int) =~= Seq::<u8>::empty());
        assert(out@ =~= base1 + render_mods_from(c@.mods, 0));
        lemma_has_tension_split(c@.mods, c@.mods.len() as int);
    }
    if any_tension {
        out.push('(' as u8);
        let ghost base2 = out@;
        let mut j: usize = 0;
        let mut any = false;
        while j < c.modifiers.len()
            invariant
                crate::syntax::cnode_v_wf(c@),
                j <= c.modifiers@.len(),
                out@ + render_tens_from(c@.mods, j as int, any) == base2 + render_tens_from(
                    c@.mods,
                    0,
                    false,
                ),
                any == has_tension_before(c@.mods, j as int),
            decreases c.modifiers@.len() - j,
        {
            let m = c.modifiers[j];
            proof {
                assert(crate::syntax::mod_payload_wf(c@.mods[j as int]));
            }
            let ghost pre = out@;
            let ghost pre_any = any;
            match m {
                Modifier::Tension(Degree(d, a)) => {
                    if any {
                        out.push(',' as u8);
                    }
                    match a {
                        Accidental::Natural => {},
                        Accidental::Sharp => out.push('#' as u8),
                        Accidental::Flat => out.push('b' as u8),
                    }
                    push_num(out, d);
                    any = true;
                    proof {
                        assert(c@.mods[j as int] == Modifier::Tension(Degree(d, a)));
                        assert(render_tens_from(c@.mods, j as int, pre_any) == (if pre_any {
                            seq![',' as u8]
                        } else {
                            Seq::<u8>::empty()
                        }) + render_acc(a) + render_num(d as int) + render_tens_from(
                            c@.mods,
                            j as int + 1,
                            true,
                        ));
                        assert(out@ + render_tens_from(c@.mods, j as int + 1, true) =~= pre
                            + render_tens_from(c@.mods, j as int, pre_any));
                    }
                },
                _ => {
                    proof {
                        assert(render_tens_from(c@.mods, j as int, pre_any) == render_tens_from(
                            c@.mods,
                            j as int + 1,
                            pre_any,
                        ));
                    }
                },
            }
            j = j + 1;
        }
        out.push(')' as u8);
        proof {
            assert(render_tens_from(c@.mods, c@.mods.len() as int, any) =~= Seq::<u8>::empty());
            assert(out@ =~= base1 + render_mods_from(c@.mods, 0) + seq!['(' as u8]
                + render_tens_from(c@.mods, 0, false) + seq![')' as u8]);
        }
    }
    match &c.on {
        Some(k) => {
            out.push('/' as u8);
            push_key(out, k);
        },
        None => {},
    }
    proof {
        assert(final(out)@ =~= old(out)@ + render_cnode(c@));
    }
}

/// Whether a tension stands strictly before position `i`.
pub open spec fn has_tension_before(mods: Seq<Modifier>, i: int) -> bool {
    exists|j: int| 0 <= j < i && j < mods.len() && mods[j] is Tension
}

/// A tension stands somewhere iff it stands before the end.
proof fn lemma_has_tension_split(mods: Seq<Modifier>, i: int)
    requires
        0 <= i <= mods.len(),
    ensures
        has_tension_from(mods, 0) == (has_tension_before(mods, i) || has_tension_from(mods, i)),
    decreases i,
{
    if i > 0 {
        lemma_has_tension_split(mods, i - 1);
        assert(has_tension_from(mods, i - 1) == (mods[i - 1] is Tension || has_tension_from(
            mods,
            i,
        )));
        if has_tension_before(mods, i) {
            let j = choose|j: int| 0 <= j < i && j < mods.len() && mods[j] is Tension;
            if j < i - 1 {
                assert(has_tension_before(mods, i - 1));
            }
        }
        if has_tension_before(mods, i - 1) {
            let j = choose|j: int| 0 <= j < i - 1 && j < mods.len() && mods[j] is Tension;
            assert(0 <= j < i && mods[j] is Tension);
        }
    }
}

/// Appends one node's spelling.
fn push_node(out: &mut Vec<u8>, n: &Node)
    requires
        crate::syntax::node_v_wf(n@),
    ensures
        final(out)@ == old(out)@ + render_node(n@),
{
    match n {
        Node::Chord(c) => push_cnode(out, c),
        Node::Rest => {
            out.push('N' as u8);
            out.push('.' as u8);
            out.push('C' as u8);
            out.push('.' as u8);
        },
        Node::Sustain => {
            out.push('=' as u8);
        },
        Node::Repeat => {
            out.push('%' as u8);
        },
    }
    proof {
        assert(final(out)@ =~= old(out)@ + render_node(n@));
    }
}

/// Renders a whole score back to its source notation.  The output is
/// exactly what `render_spec` says: comments verbatim behind a hash,
/// nodes joined by spaces, measures closed by a bar or the newline they
/// ended on, chords spelled from their canonical modifier sets.
pub fn render(score: &Score) -> (r: Vec<u8>)
    requires
        crate::syntax::score_v_wf(score@),
    ensures
        r@ == render_spec(score@),
{
    let mut out: Vec<u8> = Vec::new();
    let mut i: usize = 0;
    proof {
        assert(score@.len() == score.items@.len());
    }
    while i < score.items.len()
        invariant
            crate::syntax::score_v_wf(score@),
            score@.len() == score.items@.len(),
            forall|j: int| 0 <= j < score.items@.len() ==> #[trigger] score@[j] == score.items@[j]@,
            i <= score.items@.len(),
            out@ + render_score_from(score@, i as int) == render_score_from(score@, 0),
        decreases score.items@.len() - i,
    {
        let ghost pre = out@;
        match &score.items[i] {
            Ast::Comment(c) => {
                out.push('#' as u8);
                let mut k: usize = 0;
                while k < c.len()
                    invariant
                        k <= c@.len(),
                        out@ =~= pre + seq!['#' as u8] + c@.subrange(0, k as int),
                    decreases c@.len() - k,
                {
                    out.push(c[k]);
                    proof {
                        assert(c@.subrange(0, k as int).push(c@[k as int]) =~= c@.subrange(
                            0,
                            k as int + 1,
                        ));
                    }
                    k = k + 1;
                }
                out.push('\n' as u8);
                proof {
                    assert(c@.subrange(0, c@.len() as int) =~= c@);
                    assert(score@[i as int] == AstV::Comment(c@));
                    assert(out@ =~= pre + render_ast(score@[i as int]));
                }
            },
            Ast::Measure(nodes, br) => {
                proof {
                    assert(score@[i as int] == AstV::Measure(
                        nodes@.map_values(|n: Node| n@),
                        *br,
                    ));
                    assert(crate::syntax::ast_v_wf(score@[i as int]));
                }
                let ghost nv = nodes@.map_values(|n: Node| n@);
                let mut k: usize = 0;
                while k < nodes.len()
                    invariant
                        k <= nodes@.len(),
                        nv == nodes@.map_values(|n: Node| n@),
                        nv.len() == nodes@.len(),
                        forall|q: int| 0 <= q < nv.len() ==> crate::syntax::node_v_wf(
                            #[trigger] nv[q],
                        ),
                        forall|q: int| 0 <= q < nodes@.len() ==> #[trigger] nv[q] == nodes@[q]@,
                        out@ + render_nodes_from(nv, k as int) =~= pre + render_nodes_from(nv, 0),
                    decreases nodes@.len() - k,
                {
                    if k > 0 {
                        out.push(' ' as u8);
                    }
                    let ghost mid = out@;
                    push_node(&mut out, &nodes[k]);
                    proof {
                        assert(render_nodes_from(nv, k as int) == (if k > 0 {
                            seq![' ' as u8]
                        } else {
                            Seq::<u8>::empty()
                        }) + render_node(nv[k as int]) + render_nodes_from(nv, k as int + 1));
                        assert(out@ + render_nodes_from(nv, k as int + 1) =~= pre
                            + render_nodes_from(nv, 0));
                    }
                    k = k + 1;
                }
                proof {
                    assert(render_nodes_from(nv, nv.len() as int) =~= Seq::<u8>::empty());
                }
                if *br {
                    out.push('\n' as u8);
                } else {
                    out.push(' ' as u8);
                    out.push('|' as u8);
                    out.push(' ' as u8);
                }
                proof {
                    assert(out@ =~= pre + render_ast(score@[i as int]));
                }
            },
        }
        proof {
            assert(render_score_from(score@, i as int) == render_ast(score@[i as int])
                + render_score_from(score@, i as int + 1));
            assert(out@ + render_score_from(score@, i as int + 1) =~= pre + render_score_from(
                score@,
                i as int,
            ));
        }
        i = i + 1;
    }
    proof {
        assert(render_score_from(score@, score@.len() as int) =~= Seq::<u8>::empty());
        assert(out@ =~= render_score_from(score@, 0));
    }
    out
}

/// The writer for the primary plain-text dialect.
#[derive(Debug)]
pub struct RechordExporter;

impl RechordExporter {
    /// Renders a score to the primary dialect's source text.
    pub fn export(&self, score: &Score) -> (r: Vec<u8>)
        requires
            crate::syntax::score_v_wf(score@),
        ensures
            r@ == render_spec(score@),
    {
        render(score)
    }
}

/// The token-level half of the render/parse round trip, for pitches: the
/// spelling a pitch renders to is recognized back as exactly that pitch,
/// whatever follows it, so long as what follows cannot extend the token
/// with an accidental.
pub proof fn lemma_render_pitch_parses_back(p: Pitch, rest: Seq<u8>)
    requires
        rest.len() > 0 ==> rest[0] != '#' as u8 && rest[0] != 'b' as u8,
    ensures
        crate::parser::pitch_token(render_pitch(p) + rest, 0) == Some(
            (p, render_pitch(p).len() as int),
        ),
{
    let code = render_pitch(p) + rest;
    assert(code[0] == render_pitch(p)[0]);
    if render_pitch(p).len() == 2 {
        assert(code[1] == render_pitch(p)[1]);
    } else {
        if code.len() > 1 {
            assert(code[1] == rest[0]);
        }
    }
}

/// The token-level half of the render/parse round trip, for degrees: the
/// roman spelling of a relative semitone is recognized back as exactly
/// that semitone, so long as what follows cannot extend the numeral or be
/// mistaken for its accidental.
pub proof fn lemma_render_degree_parses_back(s: u8, rest: Seq<u8>)
    requires
        s < 12,
        rest.len() > 0 ==> rest[0] != 'I' as u8 && rest[0] != 'V' as u8 && rest[0] != '#' as u8
            && rest[0] != 'b' as u8,
    ensures
        crate::parser::degree_token(render_degree(s as int) + rest, 0) == Some(
            (s, render_degree(s as int).len() as int),
        ),
{
    let spelled = render_degree(s as int);
    let code = spelled + rest;
    assert forall|j: int| 0 <= j < spelled.len() implies code[j] == spelled[j] by {}
    assert forall|j: int| spelled.len() <= j < code.len() implies code[j] == rest[
        j - spelled.len()
    ] by {}
    crate::scale::lemma_major_semitone_values();
}

/// The token-level half of the round trip for degree numbers: the digits
/// a grammar number renders to are recognized back as exactly that
/// number, whatever follows them.
pub proof fn lemma_render_num_parses_back(d: u8, rest: Seq<u8>)
    requires
        d == 3 || d == 5 || d == 6 || d == 7 || d == 9 || d == 11 || d == 13,
    ensures
        crate::parser::number_token(render_num(d as int) + rest, 0) == Some(
            (d, render_num(d as int).len() as int),
        ),
{
    let code = render_num(d as int) + rest;
    assert(code[0] == render_num(d as int)[0]);
    if d == 11 || d == 13 {
        assert(code[1] == render_num(d as int)[1]);
    } else {
        if code.len() > 1 {
            assert(code[1] == rest[0]);
        }
    }
}

/// The token-level half of the round trip for modifiers: the spelling a
/// modifier renders to is recognized back as exactly that modifier, so
/// long as what follows cannot extend it to the seventh-bearing literal
/// (only the bare diminished and augmented spellings can be so extended).
/// The invisible default shape and the tensions, which the group spells,
/// are the two spellings this does not cover.
pub proof fn lemma_render_modifier_parses_back(m: Modifier, rest: Seq<u8>)
    requires
        crate::syntax::mod_payload_wf(m),
        !(m is Tension),
        m != Modifier::Major(5),
        match m {
            Modifier::Major(d) => d == 3 || d == 6 || d == 7 || d == 9 || d == 11 || d == 13,
            Modifier::Minor(d) => d == 3 || d == 5 || d == 6 || d == 7 || d == 9 || d == 11 || d
                == 13,
            Modifier::Omit(d) => d == 3 || d == 5 || d == 6 || d == 7 || d == 9 || d == 11 || d
                == 13,
            Modifier::Add(d) => d == 3 || d == 5 || d == 6 || d == 7 || d == 9 || d == 11 || d
                == 13,
            _ => true,
        },
        (m is Dim || m is Aug) ==> (rest.len() > 0 ==> rest[0] != '7' as u8),
    ensures
        crate::parser::modifier_token(render_modifier(m) + rest, 0) == Some(
            (m, render_modifier(m).len() as int),
        ),
{
    let spelled = render_modifier(m);
    let code = spelled + rest;
    assert forall|j: int| 0 <= j < spelled.len() implies code[j] == spelled[j] by {}
    assert forall|j: int| spelled.len() <= j < code.len() implies code[j] == rest[
        j - spelled.len()
    ] by {}
    match m {
        Modifier::Major(d) => {
            lemma_render_num_parses_back(d, rest);
            assert(render_num(d as int) + rest =~= code);
        },
        Modifier::Minor(d) => {
            lemma_render_num_parses_back(d, rest);
            assert(render_num(d as int) + rest =~= code.skip(1));
            assert forall|j: int| 0 <= j < code.skip(1).len() implies code.skip(1)[j] == code[
                j + 1
            ] by {}
            lemma_number_token_shift(code, 1, d);
        },
        Modifier::Omit(d) => {
            lemma_render_num_parses_back(d, rest);
            assert(render_num(d as int) + rest =~= code.skip(2));
            lemma_number_token_shift(code, 2, d);
        },
        Modifier::Add(d) => {
            lemma_render_num_parses_back(d, rest);
            assert(render_num(d as int) + rest =~= code.skip(3));
            lemma_number_token_shift(code, 3, d);
        },
        _ => {},
    }
}

/// A number token read in a suffix is the same token read in place.
proof fn lemma_number_token_shift(code: Seq<u8>, at: int, d: u8)
    requires
        0 <= at <= code.len(),
        crate::parser::number_token(code.skip(at), 0) == Some(
            (d, render_num(d as int).len() as int),
        ),
    ensures
        crate::parser::number_token(code, at) == Some(
            (d, at + render_num(d as int).len() as int),
        ),
{
    let tail = code.skip(at);
    assert forall|j: int| 0 <= j < tail.len() implies tail[j] == code[at + j] by {}
}

} // verus!
