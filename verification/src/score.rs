use vstd::prelude::*;

use crate::chord::Chord;
use crate::chord::ChordV;
use crate::chord::apply_mods;
use crate::chord::chord_v_wf;
use crate::chord::match_ens;
use crate::chord::oct_better;
use crate::error::ChordError;
use crate::pitch::Pitch;
use crate::syntax::Ast;
use crate::syntax::AstV;
use crate::syntax::ChordNode;
use crate::syntax::ChordNodeV;
use crate::syntax::Node;
use crate::syntax::NodeV;
use crate::syntax::Score;
use crate::syntax::cnode_v_pitch;
use crate::syntax::cnode_v_wf;
use crate::syntax::score_v_wf;

verus! {

/// One event of the interpreter's output: a sounding chord, or a rest when
/// absent, held for `duration` sixteenth-of-a-measure subunits.
#[derive(Debug)]
pub struct Note {
    pub chord: Option<Chord>,
    pub duration: u32,
}

/// The mathematical value of a `Note`.
pub struct NoteV {
    pub chord: Option<ChordV>,
    pub duration: int,
}

/// The value of an optional chord.
pub open spec fn opt_chord_v(c: Option<Chord>) -> Option<ChordV> {
    match c {
        Some(ch) => Some(ch@),
        None => None,
    }
}

impl View for Note {
    type V = NoteV;

    open spec fn view(&self) -> NoteV {
        NoteV { chord: opt_chord_v(self.chord), duration: self.duration as int }
    }
}

impl Note {
    /// Packs a chord (or a rest) with its duration.
    pub fn new(chord: Option<Chord>, duration: u32) -> (r: Note)
        ensures
            r@.chord == opt_chord_v(chord),
            r@.duration == duration as int,
    {
        Note { chord, duration }
    }
}

/// The interpreter's running state: emitted notes, the accumulated held
/// and rested subunits (at most one of them nonzero), and the chord most
/// recently sounded.
pub struct InterpSt {
    pub notes: Seq<NoteV>,
    pub sustain: int,
    pub rest: int,
    pub pre: Option<ChordV>,
}

pub open spec fn init_st() -> InterpSt {
    InterpSt { notes: Seq::empty(), sustain: 0, rest: 0, pre: None }
}

/// Any chord remembered as most recent is well formed, absolute, and in
/// register range.
pub open spec fn st_wf(st: InterpSt) -> bool {
    &&& st.sustain >= 0
    &&& st.rest >= 0
    &&& match st.pre {
        Some(c) => chord_v_wf(c) && c.key is Absolute && c.octave <= 8,
        None => true,
    }
}

/// Flushing before a node: a pending held note is emitted unless the node
/// sustains it; a pending rest is emitted unless the node rests on.
pub open spec fn flush_st(st: InterpSt, is_sustain: bool, is_rest: bool) -> InterpSt {
    let st1 = if !is_sustain && st.sustain != 0 {
        InterpSt {
            notes: st.notes.push(NoteV { chord: st.pre, duration: st.sustain }),
            sustain: 0,
            rest: st.rest,
            pre: st.pre,
        }
    } else {
        st
    };
    if !is_rest && st1.rest != 0 {
        InterpSt {
            notes: st1.notes.push(NoteV { chord: None, duration: st1.rest }),
            sustain: st1.sustain,
            rest: 0,
            pre: st1.pre,
        }
    } else {
        st1
    }
}

/// How a chord symbol resolves against the running state: relative roots
/// need the tonic, the modifier fold gives the offsets, the voicing search
/// places the chord, and the octave-continuity rule moves it at most one
/// octave towards the chord held before.
pub open spec fn resolve_rel(
    n: ChordNodeV,
    tonic: Option<Pitch>,
    pre: Option<ChordV>,
    r: Result<ChordV, ChordError>,
) -> bool {
    if n.key is Relative && tonic is None {
        r == Err::<ChordV, ChordError>(ChordError::MissingTonic)
    } else {
        let nn = match tonic {
            Some(t) => cnode_v_pitch(n, t),
            None => n,
        };
        match apply_mods(Seq::<u8>::empty(), nn.mods) {
            Err(e) => r == Err::<ChordV, ChordError>(e),
            Ok(sems) => match r {
                Ok(c) => {
                    &&& c.key == nn.key
                    &&& c.on == nn.on
                    &&& c.sems == sems
                    &&& chord_v_wf(c)
                    &&& c.octave <= 8
                    &&& (c.sems.len() > 0 ==> (c.inversion as int) < c.sems.len())
                    &&& (c.sems.len() == 0 ==> c.inversion == 0)
                    &&& exists|mo: u8|
                        {
                            &&& mo < 8
                            &&& #[trigger] match_ens(60, c, (mo, c.inversion))
                            &&& match pre {
                                None => c.octave == mo,
                                Some(p) => {
                                    &&& (p.octave == 0 ==> c.octave <= p.octave + 1)
                                    &&& (p.octave >= 1 ==> p.octave - 1 <= c.octave <= p.octave
                                        + 1)
                                    &&& forall|x: u8|
                                        (p.octave == 0 || x >= p.octave - 1) && x <= p.octave + 1
                                            && x <= 8 ==> oct_better(c, p, p.octave, c.octave, x)
                                },
                            }
                        }
                },
                Err(_) => false,
            },
        }
    }
}

/// One node advances the state: flush first, then hold, repeat, sustain
/// or rest as the node says.
pub open spec fn node_step_rel(
    st: InterpSt,
    n: NodeV,
    dur: int,
    tonic: Option<Pitch>,
    r: Result<InterpSt, ChordError>,
) -> bool {
    let f = flush_st(st, n is Sustain, n is Rest);
    match n {
        NodeV::Chord(c) => match r {
            Ok(st2) => {
                &&& st2.notes == f.notes
                &&& st2.rest == f.rest
                &&& st2.sustain == dur
                &&& st2.pre is Some
                &&& resolve_rel(c, tonic, f.pre, Ok(st2.pre->0))
            },
            Err(e) => resolve_rel(c, tonic, f.pre, Err(e)),
        },
        NodeV::Repeat => r == Ok::<InterpSt, ChordError>(
            InterpSt { notes: f.notes, sustain: dur, rest: f.rest, pre: f.pre },
        ),
        NodeV::Sustain => r == Ok::<InterpSt, ChordError>(
            InterpSt { notes: f.notes, sustain: f.sustain + dur, rest: f.rest, pre: f.pre },
        ),
        NodeV::Rest => r == Ok::<InterpSt, ChordError>(
            InterpSt { notes: f.notes, sustain: f.sustain, rest: f.rest + dur, pre: f.pre },
        ),
    }
}

/// Running a measure's nodes left to right; an error stops the run.
pub open spec fn nodes_rel(
    st: InterpSt,
    nodes: Seq<NodeV>,
    dur: int,
    tonic: Option<Pitch>,
    r: Result<InterpSt, ChordError>,
) -> bool
    decreases nodes.len(),
{
    if nodes.len() == 0 {
        r == Ok::<InterpSt, ChordError>(st)
    } else {
        ||| exists|mid: InterpSt|
            #[trigger] node_step_rel(st, nodes[0], dur, tonic, Ok(mid)) && nodes_rel(
                mid,
                nodes.drop_first(),
                dur,
                tonic,
                r,
            )
        ||| (r is Err && node_step_rel(st, nodes[0], dur, tonic, r))
    }
}

/// The subunit length of one slot in a measure of `n` slots; `n` must be
/// 1, 2, 4, 8 or 16, else the measure is rejected.
pub open spec fn unit_spec(n: int) -> Result<int, ChordError> {
    if n == 1 {
        Ok(16)
    } else if n == 2 {
        Ok(8)
    } else if n == 4 {
        Ok(4)
    } else if n == 8 {
        Ok(2)
    } else if n == 16 {
        Ok(1)
    } else {
        Err(ChordError::InvalidMeasureLength { n: n as usize })
    }
}

/// One score item advances the state: comments change nothing; a measure
/// is sliced by `unit_spec` and its nodes run in order.
pub open spec fn item_step_rel(
    st: InterpSt,
    a: AstV,
    tonic: Option<Pitch>,
    r: Result<InterpSt, ChordError>,
) -> bool {
    match a {
        AstV::Comment(_) => r == Ok::<InterpSt, ChordError>(st),
        AstV::Measure(nodes, _) => match unit_spec(nodes.len() as int) {
            Ok(d) => nodes_rel(st, nodes, d, tonic, r),
            Err(e) => r == Err::<InterpSt, ChordError>(e),
        },
    }
}

/// Running all score items in order; an error stops the run.
pub open spec fn items_rel(
    st: InterpSt,
    items: Seq<AstV>,
    tonic: Option<Pitch>,
    r: Result<InterpSt, ChordError>,
) -> bool
    decreases items.len(),
{
    if items.len() == 0 {
        r == Ok::<InterpSt, ChordError>(st)
    } else {
        ||| exists|mid: InterpSt|
            #[trigger] item_step_rel(st, items[0], tonic, Ok(mid)) && items_rel(
                mid,
                items.drop_first(),
                tonic,
                r,
            )
        ||| (r is Err && item_step_rel(st, items[0], tonic, r))
    }
}

/// After the last item a still-held note is emitted.
pub open spec fn final_flush(st: InterpSt) -> Seq<NoteV> {
    if st.sustain != 0 {
        st.notes.push(NoteV { chord: st.pre, duration: st.sustain })
    } else {
        st.notes
    }
}

/// The whole interpreter, start to finish.
pub open spec fn interp_rel(
    items: Seq<AstV>,
    tonic: Option<Pitch>,
    r: Result<Seq<NoteV>, ChordError>,
) -> bool {
    match r {
        Ok(notes) => exists|st: InterpSt|
            #[trigger] items_rel(init_st(), items, tonic, Ok(st)) && notes == final_flush(st),
        Err(e) => items_rel(init_st(), items, tonic, Err(e)),
    }
}

/// Appending a successful step to a successful run extends the run.
proof fn lemma_nodes_snoc(
    st0: InterpSt,
    nodes: Seq<NodeV>,
    mid: InterpSt,
    x: NodeV,
    st2: InterpSt,
    dur: int,
    tonic: Option<Pitch>,
)
    requires
        nodes_rel(st0, nodes, dur, tonic, Ok(mid)),
        node_step_rel(mid, x, dur, tonic, Ok(st2)),
    ensures
        nodes_rel(st0, nodes.push(x), dur, tonic, Ok(st2)),
    decreases nodes.len(),
{
    if nodes.len() == 0 {
        assert(st0 == mid);
        assert(nodes.push(x)[0] == x);
        assert(nodes.push(x).drop_first() =~= Seq::<NodeV>::empty());
        assert(nodes_rel(st2, nodes.push(x).drop_first(), dur, tonic, Ok(st2)));
    } else {
        let m1 = choose|m1: InterpSt|
            #[trigger] node_step_rel(st0, nodes[0], dur, tonic, Ok(m1)) && nodes_rel(
                m1,
                nodes.drop_first(),
                dur,
                tonic,
                Ok(mid),
            );
        lemma_nodes_snoc(m1, nodes.drop_first(), mid, x, st2, dur, tonic);
        assert(nodes.push(x)[0] == nodes[0]);
        assert(nodes.push(x).drop_first() =~= nodes.drop_first().push(x));
    }
}

/// Once a run has erred, any further nodes leave the error in place.
proof fn lemma_nodes_err(
    st0: InterpSt,
    pre: Seq<NodeV>,
    more: Seq<NodeV>,
    dur: int,
    tonic: Option<Pitch>,
    e: ChordError,
)
    requires
        pre.len() > 0,
        nodes_rel(st0, pre, dur, tonic, Err(e)),
    ensures
        nodes_rel(st0, pre + more, dur, tonic, Err(e)),
    decreases pre.len(),
{
    let full = pre + more;
    assert(full[0] == pre[0]);
    if exists|mid: InterpSt|
        #[trigger] node_step_rel(st0, pre[0], dur, tonic, Ok(mid)) && nodes_rel(
            mid,
            pre.drop_first(),
            dur,
            tonic,
            Err(e),
        ) {
        let mid = choose|mid: InterpSt|
            #[trigger] node_step_rel(st0, pre[0], dur, tonic, Ok(mid)) && nodes_rel(
                mid,
                pre.drop_first(),
                dur,
                tonic,
                Err(e),
            );
        assert(pre.drop_first().len() > 0) by {
            if pre.drop_first().len() == 0 {
                assert(nodes_rel(mid, pre.drop_first(), dur, tonic, Err(e)));
            }
        }
        lemma_nodes_err(mid, pre.drop_first(), more, dur, tonic, e);
        assert(full.drop_first() =~= pre.drop_first() + more);
    } else {
        assert(node_step_rel(st0, pre[0], dur, tonic, Err(e)));
    }
}

/// Appending a successful item to a successful run extends the run.
proof fn lemma_items_snoc(
    st0: InterpSt,
    items: Seq<AstV>,
    mid: InterpSt,
    x: AstV,
    st2: InterpSt,
    tonic: Option<Pitch>,
)
    requires
        items_rel(st0, items, tonic, Ok(mid)),
        item_step_rel(mid, x, tonic, Ok(st2)),
    ensures
        items_rel(st0, items.push(x), tonic, Ok(st2)),
    decreases items.len(),
{
    if items.len() == 0 {
        assert(st0 == mid);
        assert(items.push(x)[0] == x);
        assert(items.push(x).drop_first() =~= Seq::<AstV>::empty());
        assert(items_rel(st2, items.push(x).drop_first(), tonic, Ok(st2)));
    } else {
        let m1 = choose|m1: InterpSt|
            #[trigger] item_step_rel(st0, items[0], tonic, Ok(m1)) && items_rel(
                m1,
                items.drop_first(),
                tonic,
                Ok(mid),
            );
        lemma_items_snoc(m1, items.drop_first(), mid, x, st2, tonic);
        assert(items.push(x)[0] == items[0]);
        assert(items.push(x).drop_first() =~= items.drop_first().push(x));
    }
}

/// Once a run has erred, any further items leave the error in place.
proof fn lemma_items_err(
    st0: InterpSt,
    pre: Seq<AstV>,
    more: Seq<AstV>,
    tonic: Option<Pitch>,
    e: ChordError,
)
    requires
        pre.len() > 0,
        items_rel(st0, pre, tonic, Err(e)),
    ensures
        items_rel(st0, pre + more, tonic, Err(e)),
    decreases pre.len(),
{
    let full = pre + more;
    assert(full[0] == pre[0]);
    if exists|mid: InterpSt|
        #[trigger] item_step_rel(st0, pre[0], tonic, Ok(mid)) && items_rel(
            mid,
            pre.drop_first(),
            tonic,
            Err(e),
        ) {
        let mid = choose|mid: InterpSt|
            #[trigger] item_step_rel(st0, pre[0], tonic, Ok(mid)) && items_rel(
                mid,
                pre.drop_first(),
                tonic,
                Err(e),
            );
        assert(pre.drop_first().len() > 0) by {
            if pre.drop_first().len() == 0 {
                assert(items_rel(mid, pre.drop_first(), tonic, Err(e)));
            }
        }
        lemma_items_err(mid, pre.drop_first(), more, tonic, e);
        assert(full.drop_first() =~= pre.drop_first() + more);
    } else {
        assert(item_step_rel(st0, pre[0], tonic, Err(e)));
    }
}

/// The subunit length of one slot in a measure of `n` slots; fails with
/// `InvalidMeasureLength` exactly when `n` is not 1, 2, 4, 8 or 16.
pub fn measure_unit_size(n: usize) -> (r: Result<u32, ChordError>)
    ensures
        match r {
            Ok(d) => unit_spec(n as int) == Ok::<int, ChordError>(d as int) && 1 <= d <= 16,
            Err(e) => unit_spec(n as int) == Err::<int, ChordError>(e),
        },
{
    match n {
        1 => Ok(16),
        2 => Ok(8),
        4 => Ok(4),
        8 => Ok(2),
        16 => Ok(1),
        _ => Err(ChordError::InvalidMeasureLength { n }),
    }
}

/// Resolves one chord symbol against the tonic and the chord held before.
fn resolve_node(c: &ChordNode, tonic: Option<Pitch>, pre: &Option<Chord>) -> (r: Result<
    Chord,
    ChordError,
>)
    requires
        cnode_v_wf(c@),
        match pre {
            Some(p) => chord_v_wf(p@) && p@.key is Absolute && p@.octave <= 8,
            None => true,
        },
    ensures
        match r {
            Ok(ch) => resolve_rel(c@, tonic, opt_chord_v(*pre), Ok(ch@)) && chord_v_wf(ch@)
                && ch@.key is Absolute && ch@.octave <= 8,
            Err(e) => resolve_rel(c@, tonic, opt_chord_v(*pre), Err(e)),
        },
{
    let keyed: ChordNode = match (&c.key, tonic) {
        (crate::syntax::Key::Relative(_), None) => {
            return Err(ChordError::MissingTonic);
        },
        (_, Some(t)) => c.into_pitch(t),
        (crate::syntax::Key::Absolute(_), None) => c.clone(),
    };
    proof {
        assert(keyed@ == (match tonic {
            Some(t) => cnode_v_pitch(c@, t),
            None => c@,
        }));
        assert(keyed@.key is Absolute);
        assert(keyed@.mods == c@.mods);
    }
    let mut chord = match keyed.to_chord() {
        Ok(ch) => ch,
        Err(e) => {
            return Err(e);
        },
    };
    let ghost mo = chord@.octave;
    match pre {
        Some(p) => {
            chord.set_nearest_octave(p);
            proof {
                let cv = chord@;
                assert forall|x: u8|
                    (p@.octave == 0 || x >= p@.octave - 1) && x <= p@.octave + 1 && x <= 8 implies
                    oct_better(cv, p@, p@.octave, cv.octave, x) by {
                    assert(oct_better(
                        crate::chord::ChordV {
                            octave: mo,
                            inversion: cv.inversion,
                            key: cv.key,
                            sems: cv.sems,
                            on: cv.on,
                        },
                        p@,
                        p@.octave,
                        cv.octave,
                        x,
                    ));
                    assert(crate::chord::with_oct(cv, cv.octave) == crate::chord::with_oct(
                        crate::chord::ChordV {
                            octave: mo,
                            inversion: cv.inversion,
                            key: cv.key,
                            sems: cv.sems,
                            on: cv.on,
                        },
                        cv.octave,
                    ));
                    assert(crate::chord::with_oct(cv, x) == crate::chord::with_oct(
                        crate::chord::ChordV {
                            octave: mo,
                            inversion: cv.inversion,
                            key: cv.key,
                            sems: cv.sems,
                            on: cv.on,
                        },
                        x,
                    ));
                }
                assert(match_ens(60, cv, (mo, cv.inversion))) by {
                    assert forall|o: int, i: int|
                        0 <= o < 8 && 0 <= i < cv.sems.len() implies #[trigger] crate::chord::cand_diff(
                        60,
                        cv,
                        o,
                        i,
                    ) == crate::chord::cand_diff(
                        60,
                        crate::chord::ChordV {
                            octave: mo,
                            inversion: cv.inversion,
                            key: cv.key,
                            sems: cv.sems,
                            on: cv.on,
                        },
                        o,
                        i,
                    ) by {
                        assert(crate::chord::cand_root(cv, o, i) == crate::chord::cand_root(
                            crate::chord::ChordV {
                                octave: mo,
                                inversion: cv.inversion,
                                key: cv.key,
                                sems: cv.sems,
                                on: cv.on,
                            },
                            o,
                            i,
                        ));
                    }
                }
            }
        },
        None => {},
    }
    proof {
        assert(resolve_rel(c@, tonic, opt_chord_v(*pre), Ok(chord@)));
    }
    Ok(chord)
}

/// Appending an erring step to a successful run makes the run err.
proof fn lemma_nodes_snoc_e(
    st0: InterpSt,
    nodes: Seq<NodeV>,
    mid: InterpSt,
    x: NodeV,
    dur: int,
    tonic: Option<Pitch>,
    e: ChordError,
)
    requires
        nodes_rel(st0, nodes, dur, tonic, Ok(mid)),
        node_step_rel(mid, x, dur, tonic, Err(e)),
    ensures
        nodes_rel(st0, nodes.push(x), dur, tonic, Err(e)),
    decreases nodes.len(),
{
    if nodes.len() == 0 {
        assert(st0 == mid);
        assert(nodes.push(x)[0] == x);
    } else {
        let m1 = choose|m1: InterpSt|
            #[trigger] node_step_rel(st0, nodes[0], dur, tonic, Ok(m1)) && nodes_rel(
                m1,
                nodes.drop_first(),
                dur,
                tonic,
                Ok(mid),
            );
        lemma_nodes_snoc_e(m1, nodes.drop_first(), mid, x, dur, tonic, e);
        assert(nodes.push(x)[0] == nodes[0]);
        assert(nodes.push(x).drop_first() =~= nodes.drop_first().push(x));
    }
}

/// Appending an erring item to a successful run makes the run err.
proof fn lemma_items_snoc_e(
    st0: InterpSt,
    items: Seq<AstV>,
    mid: InterpSt,
    x: AstV,
    tonic: Option<Pitch>,
    e: ChordError,
)
    requires
        items_rel(st0, items, tonic, Ok(mid)),
        item_step_rel(mid, x, tonic, Err(e)),
    ensures
        items_rel(st0, items.push(x), tonic, Err(e)),
    decreases items.len(),
{
    if items.len() == 0 {
        assert(st0 == mid);
        assert(items.push(x)[0] == x);
    } else {
        let m1 = choose|m1: InterpSt|
            #[trigger] item_step_rel(st0, items[0], tonic, Ok(m1)) && items_rel(
                m1,
                items.drop_first(),
                tonic,
                Ok(mid),
            );
        lemma_items_snoc_e(m1, items.drop_first(), mid, x, tonic, e);
        assert(items.push(x)[0] == items[0]);
        assert(items.push(x).drop_first() =~= items.drop_first().push(x));
    }
}

/// Copies the remembered chord, if any.
fn clone_opt_chord(p: &Option<Chord>) -> (r: Option<Chord>)
    ensures
        opt_chord_v(r) == opt_chord_v(*p),
{
    match p {
        Some(c) => Some(c.clone()),
        None => None,
    }
}

/// Walks a parsed score and emits its time-ordered note events: per
/// measure each slot lasts a sixteenth of a measure times the slot count's
/// reciprocal, sustains extend the held note, rests accumulate silence,
/// repeats restate the held chord, and each chord symbol is resolved
/// against the tonic and voiced near the chord held before it.  The
/// outcome, success or any of the errors, is exactly the run the
/// interpreter relation describes.
pub fn into_notes(score: &Score, key: Option<Pitch>) -> (r: Result<Vec<Note>, ChordError>)
    requires
        score_v_wf(score@),
        score@.len() <= 0x0400_0000,
    ensures
        match r {
            Ok(notes) => interp_rel(score@, key, Ok(notes@.map_values(|n: Note| n@))),
            Err(e) => interp_rel(score@, key, Err(e)),
        },
{
    let mut notes: Vec<Note> = Vec::new();
    let mut sustain: u32 = 0;
    let mut rest: u32 = 0;
    let mut pre: Option<Chord> = None;
    let ghost mut cur = init_st();
    proof {
        assert(cur.notes =~= notes@.map_values(|n: Note| n@));
        assert(Seq::<AstV>::empty() =~= score@.subrange(0, 0));
        assert(items_rel(init_st(), score@.subrange(0, 0), key, Ok(cur)));
    }
    let mut i: usize = 0;
    while i < score.items.len()
        invariant
            score_v_wf(score@),
            score@.len() == score.items@.len(),
            score@.len() <= 0x0400_0000,
            forall|j: int| 0 <= j < score.items@.len() ==> #[trigger] score@[j] == score.items@[j]@,
            i <= score.items@.len(),
            cur == (InterpSt {
                notes: notes@.map_values(|n: Note| n@),
                sustain: sustain as int,
                rest: rest as int,
                pre: opt_chord_v(pre),
            }),
            st_wf(cur),
            sustain as int + rest as int <= 16 * i as int,
            items_rel(init_st(), score@.subrange(0, i as int), key, Ok(cur)),
        decreases score.items@.len() - i,
    {
        let ghost prefix = score@.subrange(0, i as int);
        let ghost item_v = score@[i as int];
        match &score.items[i] {
            Ast::Comment(_) => {
                proof {
                    assert(item_step_rel(cur, item_v, key, Ok(cur)));
                    lemma_items_snoc(init_st(), prefix, cur, item_v, cur, key);
                    assert(prefix.push(item_v) =~= score@.subrange(0, i as int + 1));
                }
            },
            Ast::Measure(nodes, _) => {
                let ghost nodes_v = nodes@.map_values(|n: Node| n@);
                proof {
                    assert(item_v == AstV::Measure(nodes_v, item_v->Measure_1));
                    assert(crate::syntax::ast_v_wf(item_v));
                    assert forall|q: int|
                        0 <= q < nodes_v.len() implies crate::syntax::node_v_wf(
                        #[trigger] nodes_v[q],
                    ) by {
                        assert(item_v->Measure_0 == nodes_v);
                        assert(crate::syntax::node_v_wf(item_v->Measure_0[q]));
                    }
                }
                let unit = match measure_unit_size(nodes.len()) {
                    Ok(u) => u,
                    Err(e) => {
                        proof {
                            assert(item_step_rel(cur, item_v, key, Err(e)));
                            lemma_items_snoc_e(init_st(), prefix, cur, item_v, key, e);
                            assert(prefix.push(item_v) =~= score@.subrange(0, i as int + 1));
                            lemma_items_err(
                                init_st(),
                                score@.subrange(0, i as int + 1),
                                score@.subrange(i as int + 1, score@.len() as int),
                                key,
                                e,
                            );
                            assert(score@.subrange(0, i as int + 1) + score@.subrange(
                                i as int + 1,
                                score@.len() as int,
                            ) =~= score@);
                        }
                        return Err(e);
                    },
                };
                let ghost mst = cur;
                proof {
                    assert(Seq::<NodeV>::empty() =~= nodes_v.subrange(0, 0));
                    assert(nodes_rel(mst, nodes_v.subrange(0, 0), unit as int, key, Ok(cur)));
                    let n = nodes@.len() as int;
                    if n == 1 {
                        assert(nodes@.len() as int * unit as int == 16);
                    } else if n == 2 {
                        assert(nodes@.len() as int * unit as int == 16);
                    } else if n == 4 {
                        assert(nodes@.len() as int * unit as int == 16);
                    } else if n == 8 {
                        assert(nodes@.len() as int * unit as int == 16);
                    } else {
                        assert(n == 16);
                        assert(nodes@.len() as int * unit as int == 16);
                    }
                }
                let mut j: usize = 0;
                while j < nodes.len()
                    invariant
                        score_v_wf(score@),
                        forall|q: int|
                            0 <= q < nodes_v.len() ==> crate::syntax::node_v_wf(
                                #[trigger] nodes_v[q],
                            ),
                        nodes_v.len() == nodes@.len(),
                        forall|q: int|
                            0 <= q < nodes@.len() ==> #[trigger] nodes_v[q] == nodes@[q]@,
                        j <= nodes@.len(),
                        i < score.items@.len(),
                        i <= 0x0400_0000,
                        1 <= unit <= 16,
                        nodes@.len() as int * unit as int == 16,
                        j as int * unit as int <= 16,
                        unit_spec(nodes@.len() as int) == Ok::<int, ChordError>(unit as int),
                        prefix == score@.subrange(0, i as int),
                        item_v == score@[i as int],
                        item_v == AstV::Measure(nodes_v, item_v->Measure_1),
                        items_rel(init_st(), prefix, key, Ok(mst)),
                        score@.len() == score.items@.len(),
                        score@.len() <= 0x0400_0000,
                        cur == (InterpSt {
                            notes: notes@.map_values(|n: Note| n@),
                            sustain: sustain as int,
                            rest: rest as int,
                            pre: opt_chord_v(pre),
                        }),
                        st_wf(cur),
                        sustain as int + rest as int <= 16 * i as int + j as int * unit as int,
                        nodes_rel(mst, nodes_v.subrange(0, j as int), unit as int, key, Ok(cur)),
                    decreases nodes@.len() - j,
                {
                    let ghost before = cur;
                    let node = &nodes[j];
                    let is_sus = matches!(node, Node::Sustain);
                    let is_rest = matches!(node, Node::Rest);
                    proof {
                        assert(is_sus == (nodes_v[j as int] is Sustain));
                        assert(is_rest == (nodes_v[j as int] is Rest));
                    }
                    if !is_sus && sustain != 0 {
                        let pc = clone_opt_chord(&pre);
                        notes.push(Note { chord: pc, duration: sustain });
                        sustain = 0;
                    }
                    if !is_rest && rest != 0 {
                        notes.push(Note { chord: None, duration: rest });
                        rest = 0;
                    }
                    proof {
                        cur = flush_st(before, is_sus, is_rest);
                        assert(cur.notes =~= notes@.map_values(|n: Note| n@));
                        assert(cur == (InterpSt {
                            notes: notes@.map_values(|n: Note| n@),
                            sustain: sustain as int,
                            rest: rest as int,
                            pre: opt_chord_v(pre),
                        }));
                    }
                    let ghost fcur = cur;
                    match node {
                        Node::Chord(c) => {
                            proof {
                                assert(nodes_v[j as int] == NodeV::Chord(c@));
                                assert(cnode_v_wf(c@));
                            }
                            match resolve_node(c, key, &pre) {
                                Ok(chord) => {
                                    pre = Some(chord);
                                    sustain = unit;
                                    rest = rest;
                                },
                                Err(e) => {
                                    proof {
                                        assert(node_step_rel(
                                            before,
                                            nodes_v[j as int],
                                            unit as int,
                                            key,
                                            Err(e),
                                        ));
                                        lemma_nodes_snoc_e(
                                            mst,
                                            nodes_v.subrange(0, j as int),
                                            before,
                                            nodes_v[j as int],
                                            unit as int,
                                            key,
                                            e,
                                        );
                                        assert(nodes_v.subrange(0, j as int).push(
                                            nodes_v[j as int],
                                        ) =~= nodes_v.subrange(0, j as int + 1));
                                        lemma_nodes_err(
                                            mst,
                                            nodes_v.subrange(0, j as int + 1),
                                            nodes_v.subrange(j as int + 1, nodes_v.len() as int),
                                            unit as int,
                                            key,
                                            e,
                                        );
                                        assert(nodes_v.subrange(0, j as int + 1) + nodes_v.subrange(
                                            j as int + 1,
                                            nodes_v.len() as int,
                                        ) =~= nodes_v);
                                        assert(nodes_v.len() == nodes@.len());
                                        assert(unit_spec(nodes_v.len() as int) == Ok::<
                                            int,
                                            ChordError,
                                        >(unit as int));
                                        assert(nodes_rel(mst, nodes_v, unit as int, key, Err(e)));
                                        assert(item_step_rel(mst, item_v, key, Err(e)));
                                        lemma_items_snoc_e(init_st(), prefix, mst, item_v, key, e);
                                        assert(prefix.push(item_v) =~= score@.subrange(
                                            0,
                                            i as int + 1,
                                        ));
                                        lemma_items_err(
                                            init_st(),
                                            score@.subrange(0, i as int + 1),
                                            score@.subrange(i as int + 1, score@.len() as int),
                                            key,
                                            e,
                                        );
                                        assert(score@.subrange(0, i as int + 1) + score@.subrange(
                                            i as int + 1,
                                            score@.len() as int,
                                        ) =~= score@);
                                    }
                                    return Err(e);
                                },
                            }
                        },
                        Node::Repeat => {
                            sustain = unit;
                        },
                        Node::Sustain => {
                            sustain = sustain + unit;
                        },
                        Node::Rest => {
                            rest = rest + unit;
                        },
                    }
                    proof {
                        cur = InterpSt {
                            notes: notes@.map_values(|n: Note| n@),
                            sustain: sustain as int,
                            rest: rest as int,
                            pre: opt_chord_v(pre),
                        };
                        assert((j as int + 1) * unit as int == j as int * unit as int
                            + unit as int) by (nonlinear_arith);
                        assert((j as int + 1) * unit as int <= nodes@.len() as int
                            * unit as int) by (nonlinear_arith)
                            requires
                                j as int + 1 <= nodes@.len() as int,
                                unit as int >= 1,
                        ;
                        assert(node_step_rel(before, nodes_v[j as int], unit as int, key, Ok(cur)));
                        lemma_nodes_snoc(
                            mst,
                            nodes_v.subrange(0, j as int),
                            before,
                            nodes_v[j as int],
                            cur,
                            unit as int,
                            key,
                        );
                        assert(nodes_v.subrange(0, j as int).push(nodes_v[j as int])
                            =~= nodes_v.subrange(0, j as int + 1));
                    }
                    j = j + 1;
                }
                proof {
                    assert(nodes_v.subrange(0, nodes_v.len() as int) =~= nodes_v);
                    assert(item_step_rel(mst, item_v, key, Ok(cur)));
                    lemma_items_snoc(init_st(), prefix, mst, item_v, cur, key);
                    assert(prefix.push(item_v) =~= score@.subrange(0, i as int + 1));
                }
            },
        }
        i = i + 1;
    }
    proof {
        assert(score@.subrange(0, score@.len() as int) =~= score@);
    }
    if sustain != 0 {
        let pc = clone_opt_chord(&pre);
        notes.push(Note { chord: pc, duration: sustain });
        proof {
            assert(notes@.map_values(|n: Note| n@) =~= final_flush(cur));
        }
    } else {
        proof {
            assert(notes@.map_values(|n: Note| n@) =~= final_flush(cur));
        }
    }
    Ok(notes)
}

/// Sustain marks only extend the held duration: running a row of them
/// emits nothing, keeps the held chord, and adds one slot length each.
pub proof fn lemma_sustain_run(
    st: InterpSt,
    nodes: Seq<NodeV>,
    dur: int,
    tonic: Option<Pitch>,
    r: Result<InterpSt, ChordError>,
)
    requires
        st.rest == 0,
        forall|i: int| 0 <= i < nodes.len() ==> nodes[i] is Sustain,
        nodes_rel(st, nodes, dur, tonic, r),
    ensures
        r == Ok::<InterpSt, ChordError>(
            InterpSt {
                notes: st.notes,
                sustain: st.sustain + nodes.len() * dur,
                rest: 0,
                pre: st.pre,
            },
        ),
    decreases nodes.len(),
{
    if nodes.len() == 0 {
        assert(nodes.len() * dur == 0);
    } else {
        assert(nodes[0] is Sustain);
        let stepped = InterpSt {
            notes: st.notes,
            sustain: st.sustain + dur,
            rest: 0,
            pre: st.pre,
        };
        assert(flush_st(st, true, false) == st);
        if r is Err && node_step_rel(st, nodes[0], dur, tonic, r) {
            assert(r == Ok::<InterpSt, ChordError>(stepped));
            assert(false);
        }
        let mid = choose|mid: InterpSt|
            #[trigger] node_step_rel(st, nodes[0], dur, tonic, Ok(mid)) && nodes_rel(
                mid,
                nodes.drop_first(),
                dur,
                tonic,
                r,
            );
        assert(mid == stepped);
        assert(forall|i: int|
            0 <= i < nodes.drop_first().len() ==> nodes.drop_first()[i] is Sustain);
        lemma_sustain_run(mid, nodes.drop_first(), dur, tonic, r);
        assert(nodes.len() * dur == dur + (nodes.len() - 1) * dur) by (nonlinear_arith);
    }
}

/// Sustain before any chord: a score whose single measure holds nothing
/// but sustain marks plays one held rest spanning the whole measure, not
/// an error.
pub proof fn lemma_sustain_before_chord(
    nodes: Seq<NodeV>,
    br: bool,
    tonic: Option<Pitch>,
    r: Result<Seq<NoteV>, ChordError>,
)
    requires
        nodes.len() == 1 || nodes.len() == 2 || nodes.len() == 4 || nodes.len() == 8 || nodes.len()
            == 16,
        forall|i: int| 0 <= i < nodes.len() ==> nodes[i] is Sustain,
        interp_rel(seq![AstV::Measure(nodes, br)], tonic, r),
    ensures
        r == Ok::<Seq<NoteV>, ChordError>(seq![NoteV { chord: None, duration: 16 }]),
{
    let items = seq![AstV::Measure(nodes, br)];
    let n = nodes.len() as int;
    let d: int = if n == 1 {
        16
    } else if n == 2 {
        8
    } else if n == 4 {
        4
    } else if n == 8 {
        2
    } else {
        1
    };
    assert(unit_spec(n) == Ok::<int, ChordError>(d));
    assert(n * d == 16) by (nonlinear_arith)
        requires
            (n == 1 && d == 16) || (n == 2 && d == 8) || (n == 4 && d == 4) || (n == 8 && d == 2)
                || (n == 16 && d == 1),
    ;
    match r {
        Ok(notes) => {
            let st = choose|st: InterpSt|
                #[trigger] items_rel(init_st(), items, tonic, Ok(st)) && notes == final_flush(st);
            assert(items[0] == AstV::Measure(nodes, br));
            if Ok::<InterpSt, ChordError>(st) is Err && item_step_rel(
                init_st(),
                items[0],
                tonic,
                Ok(st),
            ) {
                assert(false);
            }
            let mid = choose|mid: InterpSt|
                #[trigger] item_step_rel(init_st(), items[0], tonic, Ok(mid)) && items_rel(
                    mid,
                    items.drop_first(),
                    tonic,
                    Ok(st),
                );
            assert(items.drop_first().len() == 0);
            assert(st == mid);
            assert(nodes_rel(init_st(), nodes, d, tonic, Ok(mid)));
            lemma_sustain_run(init_st(), nodes, d, tonic, Ok(mid));
            assert(mid == InterpSt {
                notes: Seq::<NoteV>::empty(),
                sustain: 16,
                rest: 0,
                pre: None,
            });
            assert(final_flush(st) =~= seq![NoteV { chord: None, duration: 16 }]);
        },
        Err(e) => {
            assert(items_rel(init_st(), items, tonic, Err(e)));
            if exists|mid: InterpSt|
                #[trigger] item_step_rel(init_st(), items[0], tonic, Ok(mid)) && items_rel(
                    mid,
                    items.drop_first(),
                    tonic,
                    Err(e),
                ) {
                let mid = choose|mid: InterpSt|
                    #[trigger] item_step_rel(init_st(), items[0], tonic, Ok(mid)) && items_rel(
                        mid,
                        items.drop_first(),
                        tonic,
                        Err(e),
                    );
                assert(items.drop_first().len() == 0);
                assert(false);
            } else {
                assert(item_step_rel(init_st(), items[0], tonic, Err(e)));
                lemma_sustain_run(init_st(), nodes, d, tonic, Err(e));
                assert(false);
            }
        },
    }
}

/// Measure length validation, the rejecting half: a score whose single
/// measure has a slot count outside {1, 2, 4, 8, 16} is interpreted as
/// exactly the invalid-measure-length error, whatever its slots hold.
pub proof fn lemma_measure_length_rejected(
    nodes: Seq<NodeV>,
    br: bool,
    tonic: Option<Pitch>,
    r: Result<Seq<NoteV>, ChordError>,
)
    requires
        nodes.len() != 1 && nodes.len() != 2 && nodes.len() != 4 && nodes.len() != 8
            && nodes.len() != 16,
        interp_rel(seq![AstV::Measure(nodes, br)], tonic, r),
    ensures
        r == Err::<Seq<NoteV>, ChordError>(
            ChordError::InvalidMeasureLength { n: nodes.len() as usize },
        ),
{
    let items = seq![AstV::Measure(nodes, br)];
    let e0 = ChordError::InvalidMeasureLength { n: nodes.len() as usize };
    assert(unit_spec(nodes.len() as int) == Err::<int, ChordError>(e0));
    match r {
        Ok(notes) => {
            let st = choose|st: InterpSt|
                #[trigger] items_rel(init_st(), items, tonic, Ok(st)) && notes == final_flush(st);
            if exists|mid: InterpSt|
                #[trigger] item_step_rel(init_st(), items[0], tonic, Ok(mid)) && items_rel(
                    mid,
                    items.drop_first(),
                    tonic,
                    Ok(st),
                ) {
                let mid = choose|mid: InterpSt|
                    #[trigger] item_step_rel(init_st(), items[0], tonic, Ok(mid)) && items_rel(
                        mid,
                        items.drop_first(),
                        tonic,
                        Ok(st),
                    );
                assert(false);
            }
            assert(false);
        },
        Err(e) => {
            if exists|mid: InterpSt|
                #[trigger] item_step_rel(init_st(), items[0], tonic, Ok(mid)) && items_rel(
                    mid,
                    items.drop_first(),
                    tonic,
                    Err(e),
                ) {
                let mid = choose|mid: InterpSt|
                    #[trigger] item_step_rel(init_st(), items[0], tonic, Ok(mid)) && items_rel(
                        mid,
                        items.drop_first(),
                        tonic,
                        Err(e),
                    );
                assert(false);
            }
            assert(item_step_rel(init_st(), items[0], tonic, Err(e)));
            assert(e == e0);
        },
    }
}

} // verus!
