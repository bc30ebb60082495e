use vstd::prelude::*;

use crate::pitch::Accidental;
use crate::pitch::Pitch;
use crate::scale::Degree;

verus! {

/// A chord root: a fixed pitch class, or a tonic-relative scale position
/// given as a semitone distance below 12.
#[derive(Debug, Copy, Clone, PartialEq, Eq, Structural)]
pub enum Key {
    Absolute(Pitch),
    Relative(u8),
}

/// A relative key names one of the twelve semitone distances.
pub open spec fn key_wf(k: Key) -> bool {
    match k {
        Key::Absolute(_) => true,
        Key::Relative(s) => s < 12,
    }
}

/// What `Key::into_degree` returns: absolute keys become relative to `t`.
pub open spec fn key_as_degree(k: Key, t: Pitch) -> Key {
    match k {
        Key::Absolute(p) => Key::Relative(((p.u8_spec() - t.u8_spec() + 12) % 12) as u8),
        Key::Relative(_) => k,
    }
}

/// What `Key::into_pitch` returns: relative keys become absolute over `t`.
pub open spec fn key_as_pitch(k: Key, t: Pitch) -> Key {
    match k {
        Key::Absolute(_) => k,
        Key::Relative(s) => Key::Absolute(Pitch::from_u8_spec((s as int + t.u8_spec()) % 12)),
    }
}

impl Key {
    /// Rewrites an absolute key as the scale position it holds over the
    /// tonic `key`; relative keys are left unchanged.
    pub fn into_degree(self, key: Pitch) -> (r: Key)
        requires
            key_wf(self),
        ensures
            r == key_as_degree(self, key),
            key_wf(r),
    {
        match self {
            Key::Absolute(pitch) => Key::Relative(pitch.diff(&key)),
            Key::Relative(_) => self,
        }
    }

    /// Rewrites a relative key as the concrete pitch it names over the
    /// tonic `pitch`; absolute keys are left unchanged.
    pub fn into_pitch(self, pitch: Pitch) -> (r: Key)
        requires
            key_wf(self),
        ensures
            r == key_as_pitch(self, pitch),
            key_wf(r),
    {
        match self {
            Key::Absolute(_) => self,
            Key::Relative(degree) => Key::Absolute(Pitch::from_u8((degree + pitch.into_u8()) % 12)),
        }
    }
}

/// A textual alteration of a chord symbol, kept order-independently: the
/// set of modifiers is re-sorted into a canonical order before it is
/// applied (shapes first, then omissions, additions and tensions).
#[derive(Debug, Copy, Clone, PartialEq, Eq, Structural)]
pub enum Modifier {
    Major(u8),
    Minor(u8),
    MinorMajor7,
    Sus2,
    Sus4,
    Flat5th,
    Aug,
    Aug7,
    Dim,
    Dim7,
    Omit(u8),
    Add(u8),
    Tension(Degree),
}

/// The canonical position of a modifier: grouped by kind, then by degree
/// payload, then by accidental.  Distinct modifiers get distinct ranks.
pub open spec fn mod_rank(m: Modifier) -> int {
    match m {
        Modifier::Major(d) => 0int * 1024 + d * 4,
        Modifier::Minor(d) => 1int * 1024 + d * 4,
        Modifier::MinorMajor7 => 2int * 1024,
        Modifier::Sus2 => 3int * 1024,
        Modifier::Sus4 => 4int * 1024,
        Modifier::Flat5th => 5int * 1024,
        Modifier::Aug => 6int * 1024,
        Modifier::Aug7 => 7int * 1024,
        Modifier::Dim => 8int * 1024,
        Modifier::Dim7 => 9int * 1024,
        Modifier::Omit(d) => 10int * 1024 + d * 4,
        Modifier::Add(d) => 11int * 1024 + d * 4,
        Modifier::Tension(Degree(d, a)) => 12int * 1024 + d * 4 + acc_rank(a),
    }
}

/// Natural sorts before sharp, sharp before flat.
pub open spec fn acc_rank(a: Accidental) -> int {
    match a {
        Accidental::Natural => 0,
        Accidental::Sharp => 1,
        Accidental::Flat => 2,
    }
}

/// Equal ranks come only from equal modifiers.
pub proof fn lemma_mod_rank_injective(a: Modifier, b: Modifier)
    requires
        mod_rank(a) == mod_rank(b),
    ensures
        a == b,
{
}

/// The canonical rank, computed.
pub fn mod_rank_exec(m: &Modifier) -> (r: u32)
    ensures
        r as int == mod_rank(*m),
{
    match m {
        Modifier::Major(d) => 0 * 1024 + (*d as u32) * 4,
        Modifier::Minor(d) => 1 * 1024 + (*d as u32) * 4,
        Modifier::MinorMajor7 => 2 * 1024,
        Modifier::Sus2 => 3 * 1024,
        Modifier::Sus4 => 4 * 1024,
        Modifier::Flat5th => 5 * 1024,
        Modifier::Aug => 6 * 1024,
        Modifier::Aug7 => 7 * 1024,
        Modifier::Dim => 8 * 1024,
        Modifier::Dim7 => 9 * 1024,
        Modifier::Omit(d) => 10 * 1024 + (*d as u32) * 4,
        Modifier::Add(d) => 11 * 1024 + (*d as u32) * 4,
        Modifier::Tension(Degree(d, a)) => {
            let ar: u32 = match a {
                Accidental::Natural => 0,
                Accidental::Sharp => 1,
                Accidental::Flat => 2,
            };
            12 * 1024 + (*d as u32) * 4 + ar
        },
    }
}

/// A modifier set held as a sequence strictly increasing in rank: no
/// duplicates, canonical application order.
pub open spec fn sorted_mods(s: Seq<Modifier>) -> bool {
    forall|i: int, j: int| 0 <= i < j < s.len() ==> mod_rank(s[i]) < mod_rank(s[j])
}

/// A modifier's degree payload stays within the degrees the scales place
/// (1 through 13).
pub open spec fn mod_payload_wf(m: Modifier) -> bool {
    match m {
        Modifier::Major(d) => 1 <= d <= 13,
        Modifier::Minor(d) => 1 <= d <= 13,
        Modifier::Omit(d) => 1 <= d <= 13,
        Modifier::Add(d) => 1 <= d <= 13,
        Modifier::Tension(Degree(d, _)) => 2 <= d <= 13,
        _ => true,
    }
}

/// Insertion into the canonical order: duplicates collapse.
pub open spec fn mod_insert(s: Seq<Modifier>, m: Modifier) -> Seq<Modifier>
    decreases s.len(),
{
    if s.len() == 0 {
        seq![m]
    } else if mod_rank(m) < mod_rank(s[0]) {
        seq![m] + s
    } else if mod_rank(m) == mod_rank(s[0]) {
        s
    } else {
        seq![s[0]] + mod_insert(s.drop_first(), m)
    }
}

pub proof fn lemma_mod_insert_props(s: Seq<Modifier>, m: Modifier)
    requires
        sorted_mods(s),
    ensures
        sorted_mods(mod_insert(s, m)),
        forall|x: Modifier| #[trigger] mod_insert(s, m).contains(x) <==> (s.contains(x) || x == m),
        mod_insert(s, m).contains(m),
        forall|x: Modifier| s.contains(x) ==> #[trigger] mod_insert(s, m).contains(x),
    decreases s.len(),
{
    if s.len() == 0 {
        assert(mod_insert(s, m) =~= seq![m]);
        assert forall|x: Modifier| #[trigger] mod_insert(s, m).contains(x) implies (s.contains(x)
            || x == m) by {
            let i = choose|i: int| 0 <= i < mod_insert(s, m).len() && mod_insert(s, m)[i] == x;
            assert(i == 0);
        }
        assert(mod_insert(s, m)[0] == m);
    } else if mod_rank(m) < mod_rank(s[0]) {
        let r = mod_insert(s, m);
        assert(r =~= seq![m] + s);
        assert forall|i: int, j: int| 0 <= i < j < r.len() implies mod_rank(r[i]) < mod_rank(
            r[j],
        ) by {
            if i == 0 {
                assert(r[j] == s[j - 1]);
                if j - 1 > 0 {
                    assert(mod_rank(s[0]) < mod_rank(s[j - 1]));
                }
            } else {
                assert(r[i] == s[i - 1] && r[j] == s[j - 1]);
            }
        }
        assert forall|x: Modifier| #[trigger] r.contains(x) implies (s.contains(x) || x == m) by {
            let i = choose|i: int| 0 <= i < r.len() && r[i] == x;
            if i > 0 {
                assert(s[i - 1] == x);
            }
        }
        assert forall|x: Modifier| s.contains(x) implies #[trigger] r.contains(x) by {
            let i = choose|i: int| 0 <= i < s.len() && s[i] == x;
            assert(r[i + 1] == x);
        }
        assert(r[0] == m);
    } else if mod_rank(m) == mod_rank(s[0]) {
        lemma_mod_rank_injective(m, s[0]);
        assert(s[0] == m);
        assert(s.contains(s[0]));
    } else {
        let tail = s.drop_first();
        assert forall|i: int, j: int| 0 <= i < j < tail.len() implies mod_rank(tail[i]) < mod_rank(
            tail[j],
        ) by {
            assert(tail[i] == s[i + 1] && tail[j] == s[j + 1]);
        }
        lemma_mod_insert_props(tail, m);
        let r = mod_insert(s, m);
        let rt = mod_insert(tail, m);
        assert(r =~= seq![s[0]] + rt);
        assert forall|i: int, j: int| 0 <= i < j < r.len() implies mod_rank(r[i]) < mod_rank(
            r[j],
        ) by {
            if i == 0 {
                assert(r[j] == rt[j - 1]);
                assert(rt.contains(rt[j - 1]));
                if tail.contains(rt[j - 1]) {
                    let t = choose|t: int| 0 <= t < tail.len() && tail[t] == rt[j - 1];
                    assert(tail[t] == s[t + 1]);
                    assert(mod_rank(s[0]) < mod_rank(s[t + 1]));
                } else {
                    assert(rt[j - 1] == m);
                }
            } else {
                assert(r[i] == rt[i - 1] && r[j] == rt[j - 1]);
            }
        }
        assert forall|x: Modifier| #[trigger] r.contains(x) implies (s.contains(x) || x == m) by {
            let i = choose|i: int| 0 <= i < r.len() && r[i] == x;
            if i == 0 {
                assert(s.contains(s[0]));
            } else {
                assert(rt[i - 1] == x);
                assert(rt.contains(x));
                if tail.contains(x) {
                    let t = choose|t: int| 0 <= t < tail.len() && tail[t] == x;
                    assert(s[t + 1] == x);
                    assert(s.contains(x));
                }
            }
        }
        assert forall|x: Modifier| s.contains(x) implies #[trigger] r.contains(x) by {
            let i = choose|i: int| 0 <= i < s.len() && s[i] == x;
            if i == 0 {
                assert(r[0] == x);
            } else {
                assert(tail[i - 1] == x);
                assert(tail.contains(x));
                assert(rt.contains(x));
                let t = choose|t: int| 0 <= t < rt.len() && rt[t] == x;
                assert(r[t + 1] == x);
            }
        }
        assert(rt.contains(m));
        let t = choose|t: int| 0 <= t < rt.len() && rt[t] == m;
        assert(r[t + 1] == m);
    }
}

/// Inserts a modifier into a canonically sorted set, keeping it sorted and
/// duplicate-free.
pub fn insert_modifier(v: &mut Vec<Modifier>, m: Modifier)
    requires
        sorted_mods(old(v)@),
    ensures
        final(v)@ == mod_insert(old(v)@, m),
        sorted_mods(final(v)@),
{
    proof {
        lemma_mod_insert_props(old(v)@, m);
    }
    let rank = mod_rank_exec(&m);
    let mut i: usize = 0;
    let mut matched = false;
    while i < v.len()
        invariant_except_break
            matched == false,
        invariant
            i <= v@.len(),
            v@ == old(v)@,
            sorted_mods(v@),
            rank as int == mod_rank(m),
            forall|j: int| 0 <= j < i ==> mod_rank(v@[j]) < mod_rank(m),
        ensures
            i <= v@.len(),
            v@ == old(v)@,
            rank as int == mod_rank(m),
            forall|j: int| 0 <= j < i ==> mod_rank(v@[j]) < mod_rank(m),
            matched ==> i < v@.len() && mod_rank(v@[i as int]) == mod_rank(m),
            !matched ==> i == v@.len() || mod_rank(v@[i as int]) > mod_rank(m),
        decreases v@.len() - i,
    {
        let rk = mod_rank_exec(&v[i]);
        if rk == rank {
            matched = true;
            break ;
        }
        if rk > rank {
            break ;
        }
        i = i + 1;
    }
    if matched {
        proof {
            lemma_mod_insert_eq(v@, m, i as int);
        }
    } else {
        proof {
            assert forall|j: int| i <= j < v@.len() implies mod_rank(v@[j]) > mod_rank(m) by {
                if j > i {
                    assert(mod_rank(v@[i as int]) < mod_rank(v@[j]));
                }
            }
            lemma_mod_insert_at(v@, m, i as int);
        }
        v.insert(i, m);
    }
}

/// When the set already holds a modifier of the same rank, insertion
/// leaves it unchanged.
proof fn lemma_mod_insert_eq(s: Seq<Modifier>, m: Modifier, i: int)
    requires
        sorted_mods(s),
        0 <= i < s.len(),
        mod_rank(s[i]) == mod_rank(m),
        forall|j: int| 0 <= j < i ==> mod_rank(s[j]) < mod_rank(m),
    ensures
        mod_insert(s, m) == s,
    decreases i,
{
    if i == 0 {
        assert(mod_insert(s, m) == s);
    } else {
        let tail = s.drop_first();
        assert forall|p: int, q: int| 0 <= p < q < tail.len() implies mod_rank(tail[p]) < mod_rank(
            tail[q],
        ) by {
            assert(tail[p] == s[p + 1] && tail[q] == s[q + 1]);
        }
        assert(tail[i - 1] == s[i]);
        assert forall|j: int| 0 <= j < i - 1 implies mod_rank(tail[j]) < mod_rank(m) by {
            assert(tail[j] == s[j + 1]);
        }
        lemma_mod_insert_eq(tail, m, i - 1);
        assert(mod_insert(s, m) =~= seq![s[0]] + tail);
        assert(mod_insert(s, m) =~= s);
    }
}

/// Inserting a modifier whose rank falls strictly between positions `i - 1`
/// and `i` places it exactly at position `i`.
proof fn lemma_mod_insert_at(s: Seq<Modifier>, m: Modifier, i: int)
    requires
        sorted_mods(s),
        0 <= i <= s.len(),
        forall|j: int| 0 <= j < i ==> mod_rank(s[j]) < mod_rank(m),
        forall|j: int| i <= j < s.len() ==> mod_rank(s[j]) > mod_rank(m),
    ensures
        mod_insert(s, m) == s.subrange(0, i) + seq![m] + s.subrange(i, s.len() as int),
    decreases i,
{
    if s.len() == 0 {
        assert(mod_insert(s, m) =~= s.subrange(0, i) + seq![m] + s.subrange(i, s.len() as int));
    } else if i == 0 {
        assert(mod_insert(s, m) =~= s.subrange(0, i) + seq![m] + s.subrange(i, s.len() as int));
    } else {
        let tail = s.drop_first();
        assert forall|p: int, q: int| 0 <= p < q < tail.len() implies mod_rank(tail[p]) < mod_rank(
            tail[q],
        ) by {
            assert(tail[p] == s[p + 1] && tail[q] == s[q + 1]);
        }
        assert forall|j: int| 0 <= j < i - 1 implies mod_rank(tail[j]) < mod_rank(m) by {
            assert(tail[j] == s[j + 1]);
        }
        assert forall|j: int| i - 1 <= j < tail.len() implies mod_rank(tail[j]) > mod_rank(m) by {
            assert(tail[j] == s[j + 1]);
        }
        lemma_mod_insert_at(tail, m, i - 1);
        assert(mod_insert(s, m) =~= seq![s[0]] + mod_insert(tail, m));
        assert(tail.subrange(0, i - 1) =~= s.subrange(1, i));
        assert(tail.subrange(i - 1, tail.len() as int) =~= s.subrange(i, s.len() as int));
        assert(mod_insert(s, m) =~= s.subrange(0, i) + seq![m] + s.subrange(i, s.len() as int));
    }
}

/// A parsed chord symbol: a root key, the canonically ordered set of its
/// modifiers and tensions, and an optional bass override.
#[derive(Debug, PartialEq)]
pub struct ChordNode {
    pub key: Key,
    pub modifiers: Vec<Modifier>,
    pub on: Option<Key>,
}

/// The mathematical value of a `ChordNode`.
pub struct ChordNodeV {
    pub key: Key,
    pub mods: Seq<Modifier>,
    pub on: Option<Key>,
}

impl View for ChordNode {
    type V = ChordNodeV;

    open spec fn view(&self) -> ChordNodeV {
        ChordNodeV { key: self.key, mods: self.modifiers@, on: self.on }
    }
}

impl Clone for ChordNode {
    /// An exact copy: root, modifier set and bass are preserved.
    fn clone(&self) -> (r: Self)
        ensures
            r@ == self@,
    {
        let r = ChordNode { key: self.key, modifiers: self.modifiers.clone(), on: self.on };
        proof {
            assert(r.modifiers@ =~= self.modifiers@);
        }
        r
    }
}

/// Keys are in range, the modifier set is canonically sorted, and every
/// degree payload is one the scales can place.
pub open spec fn cnode_v_wf(c: ChordNodeV) -> bool {
    &&& key_wf(c.key)
    &&& sorted_mods(c.mods)
    &&& forall|i: int| 0 <= i < c.mods.len() ==> mod_payload_wf(#[trigger] c.mods[i])
    &&& match c.on {
        Some(k) => key_wf(k),
        None => true,
    }
}

/// One slot of a measure.
#[derive(Debug, Clone, PartialEq)]
pub enum Node {
    Chord(ChordNode),
    Rest,
    Sustain,
    Repeat,
}

/// The mathematical value of a `Node`.
pub enum NodeV {
    Chord(ChordNodeV),
    Rest,
    Sustain,
    Repeat,
}

impl View for Node {
    type V = NodeV;

    open spec fn view(&self) -> NodeV {
        match self {
            Node::Chord(c) => NodeV::Chord(c@),
            Node::Rest => NodeV::Rest,
            Node::Sustain => NodeV::Sustain,
            Node::Repeat => NodeV::Repeat,
        }
    }
}

pub open spec fn node_v_wf(n: NodeV) -> bool {
    match n {
        NodeV::Chord(c) => cnode_v_wf(c),
        _ => true,
    }
}

/// One top-level item of a score: a comment line, or a measure with its
/// node slots and a flag telling whether the measure ended at a line break
/// (kept only for re-rendering).
#[derive(Debug, Clone, PartialEq)]
pub enum Ast {
    Comment(Vec<u8>),
    Measure(Vec<Node>, bool),
}

/// The mathematical value of an `Ast` item.
pub enum AstV {
    Comment(Seq<u8>),
    Measure(Seq<NodeV>, bool),
}

impl View for Ast {
    type V = AstV;

    open spec fn view(&self) -> AstV {
        match self {
            Ast::Comment(c) => AstV::Comment(c@),
            Ast::Measure(nodes, br) => AstV::Measure(
                nodes@.map_values(|n: Node| n@),
                *br,
            ),
        }
    }
}

pub open spec fn ast_v_wf(a: AstV) -> bool {
    match a {
        AstV::Comment(_) => true,
        AstV::Measure(nodes, _) => forall|i: int|
            0 <= i < nodes.len() ==> node_v_wf(#[trigger] nodes[i]),
    }
}

/// A whole parsed score: comments and measures in source order.
#[derive(Debug, Clone, PartialEq)]
pub struct Score {
    pub items: Vec<Ast>,
}

impl View for Score {
    type V = Seq<AstV>;

    open spec fn view(&self) -> Seq<AstV> {
        self.items@.map_values(|a: Ast| a@)
    }
}

pub open spec fn score_v_wf(s: Seq<AstV>) -> bool {
    forall|i: int| 0 <= i < s.len() ==> ast_v_wf(#[trigger] s[i])
}

/// Every chord key in the item is absolute, bass keys included.
pub open spec fn node_v_absolute(n: NodeV) -> bool {
    match n {
        NodeV::Chord(c) => c.key is Absolute && match c.on {
            Some(k) => k is Absolute,
            None => true,
        },
        _ => true,
    }
}

pub open spec fn ast_v_absolute(a: AstV) -> bool {
    match a {
        AstV::Comment(_) => true,
        AstV::Measure(nodes, _) => forall|i: int|
            0 <= i < nodes.len() ==> node_v_absolute(#[trigger] nodes[i]),
    }
}

pub open spec fn score_v_absolute(s: Seq<AstV>) -> bool {
    forall|i: int| 0 <= i < s.len() ==> ast_v_absolute(#[trigger] s[i])
}

/// Tonic-relative rewriting of a chord node: root and bass both move.
pub open spec fn cnode_v_degree(c: ChordNodeV, t: Pitch) -> ChordNodeV {
    ChordNodeV {
        key: key_as_degree(c.key, t),
        mods: c.mods,
        on: match c.on {
            Some(k) => Some(key_as_degree(k, t)),
            None => None,
        },
    }
}

pub open spec fn cnode_v_pitch(c: ChordNodeV, t: Pitch) -> ChordNodeV {
    ChordNodeV {
        key: key_as_pitch(c.key, t),
        mods: c.mods,
        on: match c.on {
            Some(k) => Some(key_as_pitch(k, t)),
            None => None,
        },
    }
}

pub open spec fn node_v_degree(n: NodeV, t: Pitch) -> NodeV {
    match n {
        NodeV::Chord(c) => NodeV::Chord(cnode_v_degree(c, t)),
        _ => n,
    }
}

pub open spec fn node_v_pitch(n: NodeV, t: Pitch) -> NodeV {
    match n {
        NodeV::Chord(c) => NodeV::Chord(cnode_v_pitch(c, t)),
        _ => n,
    }
}

pub open spec fn ast_v_degree(a: AstV, t: Pitch) -> AstV {
    match a {
        AstV::Comment(_) => a,
        AstV::Measure(nodes, br) => AstV::Measure(
            nodes.map_values(|n: NodeV| node_v_degree(n, t)),
            br,
        ),
    }
}

pub open spec fn ast_v_pitch(a: AstV, t: Pitch) -> AstV {
    match a {
        AstV::Comment(_) => a,
        AstV::Measure(nodes, br) => AstV::Measure(
            nodes.map_values(|n: NodeV| node_v_pitch(n, t)),
            br,
        ),
    }
}

pub open spec fn score_v_degree(s: Seq<AstV>, t: Pitch) -> Seq<AstV> {
    s.map_values(|a: AstV| ast_v_degree(a, t))
}

pub open spec fn score_v_pitch(s: Seq<AstV>, t: Pitch) -> Seq<AstV> {
    s.map_values(|a: AstV| ast_v_pitch(a, t))
}

impl ChordNode {
    /// A bare chord on a fixed pitch: no modifiers, no bass.
    pub fn absolute(pitch: Pitch) -> (r: ChordNode)
        ensures
            r@ == (ChordNodeV { key: Key::Absolute(pitch), mods: Seq::<Modifier>::empty(), on: None }),
            cnode_v_wf(r@),
    {
        let r = ChordNode { key: Key::Absolute(pitch), modifiers: Vec::new(), on: None };
        proof {
            assert(r@.mods =~= Seq::<Modifier>::empty());
        }
        r
    }

    /// A bare chord on a tonic-relative root: no modifiers, no bass.
    pub fn relative(semitone: u8) -> (r: ChordNode)
        requires
            semitone < 12,
        ensures
            r@ == (ChordNodeV {
                key: Key::Relative(semitone),
                mods: Seq::<Modifier>::empty(),
                on: None,
            }),
            cnode_v_wf(r@),
    {
        let r = ChordNode { key: Key::Relative(semitone), modifiers: Vec::new(), on: None };
        proof {
            assert(r@.mods =~= Seq::<Modifier>::empty());
        }
        r
    }

    /// The chord with its root and bass rewritten relative to tonic `key`.
    pub fn into_degree(&self, key: Pitch) -> (r: ChordNode)
        requires
            cnode_v_wf(self@),
        ensures
            r@ == cnode_v_degree(self@, key),
            cnode_v_wf(r@),
    {
        let r = ChordNode {
            key: self.key.into_degree(key),
            modifiers: self.modifiers.clone(),
            on: match self.on {
                Some(k) => Some(k.into_degree(key)),
                None => None,
            },
        };
        proof {
            assert(r.modifiers@ =~= self.modifiers@);
            assert(r@ == cnode_v_degree(self@, key));
        }
        r
    }

    /// The chord with its root and bass rewritten as concrete pitches over
    /// tonic `key`.
    pub fn into_pitch(&self, key: Pitch) -> (r: ChordNode)
        requires
            cnode_v_wf(self@),
        ensures
            r@ == cnode_v_pitch(self@, key),
            cnode_v_wf(r@),
    {
        let r = ChordNode {
            key: self.key.into_pitch(key),
            modifiers: self.modifiers.clone(),
            on: match self.on {
                Some(k) => Some(k.into_pitch(key)),
                None => None,
            },
        };
        proof {
            assert(r.modifiers@ =~= self.modifiers@);
            assert(r@ == cnode_v_pitch(self@, key));
        }
        r
    }
}

impl Node {
    /// The node with any chord root rewritten relative to tonic `key`.
    pub fn into_degree(&self, key: Pitch) -> (r: Node)
        requires
            node_v_wf(self@),
        ensures
            r@ == node_v_degree(self@, key),
            node_v_wf(r@),
    {
        match self {
            Node::Chord(c) => Node::Chord(c.into_degree(key)),
            Node::Rest => Node::Rest,
            Node::Sustain => Node::Sustain,
            Node::Repeat => Node::Repeat,
        }
    }

    /// The node with any chord root rewritten as a concrete pitch.
    pub fn into_pitch(&self, key: Pitch) -> (r: Node)
        requires
            node_v_wf(self@),
        ensures
            r@ == node_v_pitch(self@, key),
            node_v_wf(r@),
    {
        match self {
            Node::Chord(c) => Node::Chord(c.into_pitch(key)),
            Node::Rest => Node::Rest,
            Node::Sustain => Node::Sustain,
            Node::Repeat => Node::Repeat,
        }
    }
}

impl Ast {
    /// The item with every chord key rewritten relative to tonic `key`.
    pub fn into_degree(&self, key: Pitch) -> (r: Ast)
        requires
            ast_v_wf(self@),
        ensures
            r@ == ast_v_degree(self@, key),
            ast_v_wf(r@),
    {
        match self {
            Ast::Comment(c) => {
                let r = Ast::Comment(c.clone());
                proof {
                    assert(r@ =~= self@);
                }
                r
            },
            Ast::Measure(nodes, br) => {
                proof {
                    let mv = nodes@.map_values(|n: Node| n@);
                    assert(self@ == AstV::Measure(mv, *br));
                    assert forall|j: int| 0 <= j < nodes@.len() implies node_v_wf(
                        #[trigger] nodes@[j]@,
                    ) by {
                        assert(mv[j] == nodes@[j]@);
                    }
                }
                let mut out: Vec<Node> = Vec::new();
                let mut i: usize = 0;
                while i < nodes.len()
                    invariant
                        i <= nodes@.len(),
                        out@.len() == i,
                        forall|j: int| 0 <= j < nodes@.len() ==> node_v_wf(#[trigger] nodes@[j]@),
                        forall|j: int|
                            0 <= j < i ==> #[trigger] out@[j]@ == node_v_degree(nodes@[j]@, key)
                                && node_v_wf(out@[j]@),
                    decreases nodes@.len() - i,
                {
                    out.push(nodes[i].into_degree(key));
                    i = i + 1;
                }
                let r = Ast::Measure(out, *br);
                proof {
                    assert(r@ =~= ast_v_degree(self@, key)) by {
                        assert(out@.map_values(|n: Node| n@) =~= nodes@.map_values(
                            |n: Node| n@,
                        ).map_values(|n: NodeV| node_v_degree(n, key)));
                    }
                }
                r
            },
        }
    }

    /// The item with every chord key rewritten as a concrete pitch.
    pub fn into_pitch(&self, key: Pitch) -> (r: Ast)
        requires
            ast_v_wf(self@),
        ensures
            r@ == ast_v_pitch(self@, key),
            ast_v_wf(r@),
    {
        match self {
            Ast::Comment(c) => {
                let r = Ast::Comment(c.clone());
                proof {
                    assert(r@ =~= self@);
                }
                r
            },
            Ast::Measure(nodes, br) => {
                proof {
                    let mv = nodes@.map_values(|n: Node| n@);
                    assert(self@ == AstV::Measure(mv, *br));
                    assert forall|j: int| 0 <= j < nodes@.len() implies node_v_wf(
                        #[trigger] nodes@[j]@,
                    ) by {
                        assert(mv[j] == nodes@[j]@);
                    }
                }
                let mut out: Vec<Node> = Vec::new();
                let mut i: usize = 0;
                while i < nodes.len()
                    invariant
                        i <= nodes@.len(),
                        out@.len() == i,
                        forall|j: int| 0 <= j < nodes@.len() ==> node_v_wf(#[trigger] nodes@[j]@),
                        forall|j: int|
                            0 <= j < i ==> #[trigger] out@[j]@ == node_v_pitch(nodes@[j]@, key)
                                && node_v_wf(out@[j]@),
                    decreases nodes@.len() - i,
                {
                    out.push(nodes[i].into_pitch(key));
                    i = i + 1;
                }
                let r = Ast::Measure(out, *br);
                proof {
                    assert(r@ =~= ast_v_pitch(self@, key)) by {
                        assert(out@.map_values(|n: Node| n@) =~= nodes@.map_values(
                            |n: Node| n@,
                        ).map_values(|n: NodeV| node_v_pitch(n, key)));
                    }
                }
                r
            },
        }
    }
}

impl Score {
    /// The score with every absolute chord key rewritten as a scale
    /// position relative to tonic `key`.
    pub fn into_degree(&self, key: Pitch) -> (r: Score)
        requires
            score_v_wf(self@),
        ensures
            r@ == score_v_degree(self@, key),
            score_v_wf(r@),
    {
        let mut out: Vec<Ast> = Vec::new();
        let mut i: usize = 0;
        while i < self.items.len()
            invariant
                i <= self.items@.len(),
                out@.len() == i,
                score_v_wf(self@),
                self@.len() == self.items@.len(),
                forall|j: int| 0 <= j < self.items@.len() ==> #[trigger] self@[j] == self.items@[j]@,
                forall|j: int|
                    0 <= j < i ==> #[trigger] out@[j]@ == ast_v_degree(self.items@[j]@, key)
                        && ast_v_wf(out@[j]@),
            decreases self.items@.len() - i,
        {
            proof {
                assert(ast_v_wf(self@[i as int]));
            }
            let a = self.items[i].into_degree(key);
            out.push(a);
            i = i + 1;
        }
        let r = Score { items: out };
        proof {
            assert(r@ =~= score_v_degree(self@, key));
        }
        r
    }

    /// The score with every relative chord key rewritten as the concrete
    /// pitch it names over tonic `key`.
    pub fn into_pitch(&self, key: Pitch) -> (r: Score)
        requires
            score_v_wf(self@),
        ensures
            r@ == score_v_pitch(self@, key),
            score_v_wf(r@),
    {
        let mut out: Vec<Ast> = Vec::new();
        let mut i: usize = 0;
        while i < self.items.len()
            invariant
                i <= self.items@.len(),
                out@.len() == i,
                score_v_wf(self@),
                self@.len() == self.items@.len(),
                forall|j: int| 0 <= j < self.items@.len() ==> #[trigger] self@[j] == self.items@[j]@,
                forall|j: int|
                    0 <= j < i ==> #[trigger] out@[j]@ == ast_v_pitch(self.items@[j]@, key)
                        && ast_v_wf(out@[j]@),
            decreases self.items@.len() - i,
        {
            proof {
                assert(ast_v_wf(self@[i as int]));
            }
            let a = self.items[i].into_pitch(key);
            out.push(a);
            i = i + 1;
        }
        let r = Score { items: out };
        proof {
            assert(r@ =~= score_v_pitch(self@, key));
        }
        r
    }
}

/// Rewriting an absolute key relative to a tonic and back reproduces it
/// exactly, for every tonic: the two rewritings are mod-12 inverses.
pub proof fn lemma_key_inverse(k: Key, t: Pitch)
    requires
        k is Absolute,
    ensures
        key_as_pitch(key_as_degree(k, t), t) == k,
{
    let p = k->Absolute_0;
    let d = (p.u8_spec() - t.u8_spec() + 12) % 12;
    assert(0 <= d < 12);
    assert((d + t.u8_spec()) % 12 == p.u8_spec());
    assert(Pitch::from_u8_spec(p.u8_spec()) == p);
}

/// Transposition inverse at the score level: turning every absolute key
/// relative to tonic `t` and then absolute again reproduces the score.
pub proof fn lemma_transposition_inverse(s: Seq<AstV>, t: Pitch)
    requires
        score_v_absolute(s),
    ensures
        score_v_pitch(score_v_degree(s, t), t) =~~= s,
{
    let d = score_v_degree(s, t);
    let r = score_v_pitch(d, t);
    assert forall|i: int| 0 <= i < s.len() implies #[trigger] r[i] =~~= s[i] by {
        assert(ast_v_absolute(s[i]));
        assert(d[i] == ast_v_degree(s[i], t));
        assert(r[i] == ast_v_pitch(d[i], t));
        match s[i] {
            AstV::Comment(_) => {},
            AstV::Measure(nodes, br) => {
                let dn = nodes.map_values(|n: NodeV| node_v_degree(n, t));
                let rn = dn.map_values(|n: NodeV| node_v_pitch(n, t));
                assert forall|j: int| 0 <= j < nodes.len() implies #[trigger] rn[j] == nodes[j] by {
                    assert(node_v_absolute(nodes[j]));
                    match nodes[j] {
                        NodeV::Chord(c) => {
                            lemma_key_inverse(c.key, t);
                            match c.on {
                                Some(k) => lemma_key_inverse(k, t),
                                None => {},
                            }
                        },
                        _ => {},
                    }
                }
                assert(rn =~= nodes);
            },
        }
    }
}
} // verus!
