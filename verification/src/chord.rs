use vstd::prelude::*;

use crate::error::ChordError;
use crate::pitch::Pitch;
use crate::scale::Scale;
use crate::scale::scale_semitone;
use crate::syntax::Key;

verus! {

/// A set of relative semitones held as a strictly increasing sequence.
pub open spec fn sorted_sems(s: Seq<u8>) -> bool {
    forall|i: int, j: int| 0 <= i < j < s.len() ==> s[i] < s[j]
}

/// Every sounding offset stays at or below 25 semitones above the root,
/// the largest offset any modifier can place (a sharpened thirteenth).
pub open spec fn sems_bounded(s: Seq<u8>) -> bool {
    forall|i: int| 0 <= i < s.len() ==> #[trigger] s[i] <= 25
}

/// Insertion into the sorted set: duplicates collapse.
pub open spec fn sem_insert(s: Seq<u8>, v: u8) -> Seq<u8>
    decreases s.len(),
{
    if s.len() == 0 {
        seq![v]
    } else if v < s[0] {
        seq![v] + s
    } else if v == s[0] {
        s
    } else {
        seq![s[0]] + sem_insert(s.drop_first(), v)
    }
}

/// Removal from the sorted set; absent values leave it unchanged.
pub open spec fn sem_remove(s: Seq<u8>, v: u8) -> Seq<u8>
    decreases s.len(),
{
    if s.len() == 0 {
        s
    } else if v == s[0] {
        s.drop_first()
    } else {
        seq![s[0]] + sem_remove(s.drop_first(), v)
    }
}

pub proof fn lemma_sem_insert_props(s: Seq<u8>, v: u8)
    requires
        sorted_sems(s),
    ensures
        sorted_sems(sem_insert(s, v)),
        forall|x: u8| #[trigger] sem_insert(s, v).contains(x) <==> (s.contains(x) || x == v),
        sem_insert(s, v).len() <= s.len() + 1,
    decreases s.len(),
{
    let r = sem_insert(s, v);
    if s.len() == 0 {
        assert forall|x: u8| #[trigger] r.contains(x) implies (s.contains(x) || x == v) by {
            let i = choose|i: int| 0 <= i < r.len() && r[i] == x;
        }
        assert(r[0] == v);
    } else if v < s[0] {
        assert(r =~= seq![v] + s);
        assert forall|i: int, j: int| 0 <= i < j < r.len() implies r[i] < r[j] by {
            if i == 0 {
                if j - 1 > 0 {
                    assert(s[0] < s[j - 1]);
                } else {
                    assert(r[j] == s[0]);
                }
            } else {
                assert(r[i] == s[i - 1] && r[j] == s[j - 1]);
            }
        }
        assert forall|x: u8| #[trigger] r.contains(x) implies (s.contains(x) || x == v) by {
            let i = choose|i: int| 0 <= i < r.len() && r[i] == x;
            if i > 0 {
                assert(s[i - 1] == x);
            }
        }
        assert forall|x: u8| s.contains(x) || x == v implies #[trigger] r.contains(x) by {
            if s.contains(x) {
                let i = choose|i: int| 0 <= i < s.len() && s[i] == x;
                assert(r[i + 1] == x);
            } else {
                assert(r[0] == x);
            }
        }
    } else if v == s[0] {
        assert(s.contains(s[0]));
    } else {
        let tail = s.drop_first();
        assert forall|p: int, q: int| 0 <= p < q < tail.len() implies tail[p] < tail[q] by {
            assert(tail[p] == s[p + 1] && tail[q] == s[q + 1]);
        }
        lemma_sem_insert_props(tail, v);
        let rt = sem_insert(tail, v);
        assert(r =~= seq![s[0]] + rt);
        assert forall|i: int, j: int| 0 <= i < j < r.len() implies r[i] < r[j] by {
            if i == 0 {
                assert(r[j] == rt[j - 1]);
                assert(rt.contains(rt[j - 1]));
                if tail.contains(rt[j - 1]) {
                    let t = choose|t: int| 0 <= t < tail.len() && tail[t] == rt[j - 1];
                    assert(tail[t] == s[t + 1]);
                    assert(s[0] < s[t + 1]);
                } else {
                    assert(rt[j - 1] == v);
                }
            } else {
                assert(r[i] == rt[i - 1] && r[j] == rt[j - 1]);
            }
        }
        assert forall|x: u8| #[trigger] r.contains(x) implies (s.contains(x) || x == v) by {
            let i = choose|i: int| 0 <= i < r.len() && r[i] == x;
            if i == 0 {
                assert(s.contains(s[0]));
            } else {
                assert(rt[i - 1] == x);
                assert(rt.contains(x));
                if tail.contains(x) {
                    let t = choose|t: int| 0 <= t < tail.len() && tail[t] == x;
                    assert(s[t + 1] == x);
                    assert(s.contains(x));
                }
            }
        }
        assert forall|x: u8| s.contains(x) || x == v implies #[trigger] r.contains(x) by {
            if s.contains(x) {
                let i = choose|i: int| 0 <= i < s.len() && s[i] == x;
                if i == 0 {
                    assert(r[0] == x);
                } else {
                    assert(tail[i - 1] == x);
                    assert(tail.contains(x));
                    assert(rt.contains(x));
                    let t = choose|t: int| 0 <= t < rt.len() && rt[t] == x;
                    assert(r[t + 1] == x);
                }
            } else {
                assert(rt.contains(v));
                let t = choose|t: int| 0 <= t < rt.len() && rt[t] == v;
                assert(r[t + 1] == v);
            }
        }
    }
}

pub proof fn lemma_sem_remove_props(s: Seq<u8>, v: u8)
    requires
        sorted_sems(s),
    ensures
        sorted_sems(sem_remove(s, v)),
        forall|x: u8| #[trigger] sem_remove(s, v).contains(x) <==> (s.contains(x) && x != v),
        sem_remove(s, v).len() <= s.len(),
    decreases s.len(),
{
    let r = sem_remove(s, v);
    if s.len() == 0 {
    } else if v == s[0] {
        let tail = s.drop_first();
        assert forall|p: int, q: int| 0 <= p < q < tail.len() implies tail[p] < tail[q] by {
            assert(tail[p] == s[p + 1] && tail[q] == s[q + 1]);
        }
        assert forall|x: u8| #[trigger] r.contains(x) implies (s.contains(x) && x != v) by {
            let i = choose|i: int| 0 <= i < r.len() && r[i] == x;
            assert(tail[i] == s[i + 1]);
            assert(s[0] < s[i + 1]);
        }
        assert forall|x: u8| s.contains(x) && x != v implies #[trigger] r.contains(x) by {
            let i = choose|i: int| 0 <= i < s.len() && s[i] == x;
            assert(i > 0);
            assert(tail[i - 1] == x);
        }
    } else {
        let tail = s.drop_first();
        assert forall|p: int, q: int| 0 <= p < q < tail.len() implies tail[p] < tail[q] by {
            assert(tail[p] == s[p + 1] && tail[q] == s[q + 1]);
        }
        lemma_sem_remove_props(tail, v);
        let rt = sem_remove(tail, v);
        assert(r =~= seq![s[0]] + rt);
        assert forall|i: int, j: int| 0 <= i < j < r.len() implies r[i] < r[j] by {
            if i == 0 {
                assert(r[j] == rt[j - 1]);
                assert(rt.contains(rt[j - 1]));
                assert(tail.contains(rt[j - 1]));
                let t = choose|t: int| 0 <= t < tail.len() && tail[t] == rt[j - 1];
                assert(tail[t] == s[t + 1]);
                assert(s[0] < s[t + 1]);
            } else {
                assert(r[i] == rt[i - 1] && r[j] == rt[j - 1]);
            }
        }
        assert forall|x: u8| #[trigger] r.contains(x) implies (s.contains(x) && x != v) by {
            let i = choose|i: int| 0 <= i < r.len() && r[i] == x;
            if i == 0 {
                assert(s.contains(s[0]));
            } else {
                assert(rt[i - 1] == x);
                assert(rt.contains(x));
                assert(tail.contains(x));
                let t = choose|t: int| 0 <= t < tail.len() && tail[t] == x;
                assert(s[t + 1] == x);
                assert(s.contains(x));
            }
        }
        assert forall|x: u8| s.contains(x) && x != v implies #[trigger] r.contains(x) by {
            let i = choose|i: int| 0 <= i < s.len() && s[i] == x;
            if i == 0 {
                assert(r[0] == x);
            } else {
                assert(tail[i - 1] == x);
                assert(tail.contains(x));
                assert(rt.contains(x));
                let t = choose|t: int| 0 <= t < rt.len() && rt[t] == x;
                assert(r[t + 1] == x);
            }
        }
    }
}

/// Bounds survive insertion of a bounded value.
pub proof fn lemma_sem_insert_bounded(s: Seq<u8>, v: u8)
    requires
        sorted_sems(s),
        sems_bounded(s),
        v <= 25,
    ensures
        sems_bounded(sem_insert(s, v)),
{
    lemma_sem_insert_props(s, v);
    let r = sem_insert(s, v);
    assert forall|i: int| 0 <= i < r.len() implies #[trigger] r[i] <= 25 by {
        assert(r.contains(r[i]));
    }
}

/// Bounds survive removal.
pub proof fn lemma_sem_remove_bounded(s: Seq<u8>, v: u8)
    requires
        sorted_sems(s),
        sems_bounded(s),
    ensures
        sems_bounded(sem_remove(s, v)),
{
    lemma_sem_remove_props(s, v);
    let r = sem_remove(s, v);
    assert forall|i: int| 0 <= i < r.len() implies #[trigger] r[i] <= 25 by {
        assert(r.contains(r[i]));
    }
}

/// When the value sits at position `i`, removal deletes exactly that slot.
proof fn lemma_sem_remove_at(s: Seq<u8>, v: u8, i: int)
    requires
        sorted_sems(s),
        0 <= i < s.len(),
        s[i] == v,
        forall|j: int| 0 <= j < i ==> s[j] < v,
    ensures
        sem_remove(s, v) == s.subrange(0, i) + s.subrange(i + 1, s.len() as int),
    decreases i,
{
    if i == 0 {
        assert(sem_remove(s, v) =~= s.subrange(0, i) + s.subrange(i + 1, s.len() as int));
    } else {
        let tail = s.drop_first();
        assert forall|p: int, q: int| 0 <= p < q < tail.len() implies tail[p] < tail[q] by {
            assert(tail[p] == s[p + 1] && tail[q] == s[q + 1]);
        }
        assert(tail[i - 1] == s[i]);
        assert forall|j: int| 0 <= j < i - 1 implies tail[j] < v by {
            assert(tail[j] == s[j + 1]);
        }
        lemma_sem_remove_at(tail, v, i - 1);
        assert(tail.subrange(0, i - 1) =~= s.subrange(1, i));
        assert(tail.subrange(i, tail.len() as int) =~= s.subrange(i + 1, s.len() as int));
        assert(sem_remove(s, v) =~= s.subrange(0, i) + s.subrange(i + 1, s.len() as int));
    }
}

/// When the value is absent, removal changes nothing.
proof fn lemma_sem_remove_absent(s: Seq<u8>, v: u8)
    requires
        sorted_sems(s),
        !s.contains(v),
    ensures
        sem_remove(s, v) == s,
    decreases s.len(),
{
    if s.len() > 0 {
        assert(s.contains(s[0]));
        let tail = s.drop_first();
        assert forall|p: int, q: int| 0 <= p < q < tail.len() implies tail[p] < tail[q] by {
            assert(tail[p] == s[p + 1] && tail[q] == s[q + 1]);
        }
        assert forall|j: int| 0 <= j < tail.len() implies tail[j] != v by {
            assert(tail[j] == s[j + 1]);
            assert(s.contains(s[j + 1])) by {
                assert(s[j + 1] == s[j + 1]);
            }
        }
        if tail.contains(v) {
            let t = choose|t: int| 0 <= t < tail.len() && tail[t] == v;
            assert(false);
        }
        lemma_sem_remove_absent(tail, v);
        assert(sem_remove(s, v) =~= s);
    }
}

/// When the value belongs strictly between positions `i - 1` and `i`,
/// insertion places it exactly at position `i`.
proof fn lemma_sem_insert_at(s: Seq<u8>, v: u8, i: int)
    requires
        sorted_sems(s),
        0 <= i <= s.len(),
        forall|j: int| 0 <= j < i ==> s[j] < v,
        forall|j: int| i <= j < s.len() ==> s[j] > v,
    ensures
        sem_insert(s, v) == s.subrange(0, i) + seq![v] + s.subrange(i, s.len() as int),
    decreases i,
{
    if s.len() == 0 || i == 0 {
        assert(sem_insert(s, v) =~= s.subrange(0, i) + seq![v] + s.subrange(i, s.len() as int));
    } else {
        let tail = s.drop_first();
        assert forall|p: int, q: int| 0 <= p < q < tail.len() implies tail[p] < tail[q] by {
            assert(tail[p] == s[p + 1] && tail[q] == s[q + 1]);
        }
        assert forall|j: int| 0 <= j < i - 1 implies tail[j] < v by {
            assert(tail[j] == s[j + 1]);
        }
        assert forall|j: int| i - 1 <= j < tail.len() implies tail[j] > v by {
            assert(tail[j] == s[j + 1]);
        }
        lemma_sem_insert_at(tail, v, i - 1);
        assert(tail.subrange(0, i - 1) =~= s.subrange(1, i));
        assert(tail.subrange(i - 1, tail.len() as int) =~= s.subrange(i, s.len() as int));
        assert(sem_insert(s, v) =~= s.subrange(0, i) + seq![v] + s.subrange(i, s.len() as int));
    }
}

/// Inserts a relative semitone into a chord's sorted set.
pub fn insert_sem(v: &mut Vec<u8>, x: u8)
    requires
        sorted_sems(old(v)@),
    ensures
        final(v)@ == sem_insert(old(v)@, x),
        sorted_sems(final(v)@),
{
    proof {
        lemma_sem_insert_props(old(v)@, x);
    }
    let mut i: usize = 0;
    while i < v.len()
        invariant
            i <= v@.len(),
            v@ == old(v)@,
            sorted_sems(v@),
            forall|j: int| 0 <= j < i ==> v@[j] < x,
        ensures
            i <= v@.len(),
            v@ == old(v)@,
            forall|j: int| 0 <= j < i ==> v@[j] < x,
            i == v@.len() || v@[i as int] >= x,
        decreases v@.len() - i,
    {
        if v[i] >= x {
            break ;
        }
        i = i + 1;
    }
    let matched = i < v.len() && v[i] == x;
    if matched {
        proof {
            assert(v@.contains(x));
            lemma_sem_insert_contained(v@, x, i as int);
        }
    } else {
        proof {
            assert forall|j: int| i <= j < v@.len() implies v@[j] > x by {
                if j > i {
                    assert(v@[i as int] < v@[j]);
                }
            }
            lemma_sem_insert_at(v@, x, i as int);
        }
        v.insert(i, x);
    }
}

/// Inserting a value already present leaves the set unchanged.
proof fn lemma_sem_insert_contained(s: Seq<u8>, v: u8, i: int)
    requires
        sorted_sems(s),
        0 <= i < s.len(),
        s[i] == v,
        forall|j: int| 0 <= j < i ==> s[j] < v,
    ensures
        sem_insert(s, v) == s,
    decreases i,
{
    if i == 0 {
        assert(sem_insert(s, v) == s);
    } else {
        let tail = s.drop_first();
        assert forall|p: int, q: int| 0 <= p < q < tail.len() implies tail[p] < tail[q] by {
            assert(tail[p] == s[p + 1] && tail[q] == s[q + 1]);
        }
        assert(tail[i - 1] == s[i]);
        assert forall|j: int| 0 <= j < i - 1 implies tail[j] < v by {
            assert(tail[j] == s[j + 1]);
        }
        lemma_sem_insert_contained(tail, v, i - 1);
        assert(sem_insert(s, v) =~= seq![s[0]] + tail);
        assert(sem_insert(s, v) =~= s);
    }
}

/// Removes a relative semitone from a chord's sorted set, if present.
pub fn remove_sem(v: &mut Vec<u8>, x: u8)
    requires
        sorted_sems(old(v)@),
    ensures
        final(v)@ == sem_remove(old(v)@, x),
        sorted_sems(final(v)@),
{
    proof {
        lemma_sem_remove_props(old(v)@, x);
    }
    let mut i: usize = 0;
    while i < v.len()
        invariant
            i <= v@.len(),
            v@ == old(v)@,
            sorted_sems(v@),
            forall|j: int| 0 <= j < i ==> v@[j] < x,
        ensures
            i <= v@.len(),
            v@ == old(v)@,
            forall|j: int| 0 <= j < i ==> v@[j] < x,
            i == v@.len() || v@[i as int] >= x,
        decreases v@.len() - i,
    {
        if v[i] >= x {
            break ;
        }
        i = i + 1;
    }
    let matched = i < v.len() && v[i] == x;
    if matched {
        proof {
            lemma_sem_remove_at(v@, x, i as int);
        }
        v.remove(i);
    } else {
        proof {
            assert forall|j: int| 0 <= j < v@.len() implies v@[j] != x by {
                if j >= i {
                    if j > i {
                        assert(v@[i as int] < v@[j]);
                    }
                }
            }
            if v@.contains(x) {
                let t = choose|t: int| 0 <= t < v@.len() && v@[t] == x;
                assert(false);
            }
            lemma_sem_remove_absent(v@, x);
        }
    }
}

/// A resolved chord: a voicing (octave and inversion), the root key, the
/// set of sounding offsets relative to the root, and an optional bass.
#[derive(Debug, PartialEq)]
pub struct Chord {
    pub octave: u8,
    pub inversion: u8,
    pub key: Key,
    pub semitones: Vec<u8>,
    pub on: Option<Key>,
}

/// The mathematical value of a `Chord`.
pub struct ChordV {
    pub octave: u8,
    pub inversion: u8,
    pub key: Key,
    pub sems: Seq<u8>,
    pub on: Option<Key>,
}

impl View for Chord {
    type V = ChordV;

    open spec fn view(&self) -> ChordV {
        ChordV {
            octave: self.octave,
            inversion: self.inversion,
            key: self.key,
            sems: self.semitones@,
            on: self.on,
        }
    }
}

impl Clone for Chord {
    /// An exact copy: every field, offsets included, is preserved.
    fn clone(&self) -> (r: Self)
        ensures
            r@ == self@,
    {
        let r = Chord {
            octave: self.octave,
            inversion: self.inversion,
            key: self.key,
            semitones: self.semitones.clone(),
            on: self.on,
        };
        proof {
            assert(r.semitones@ =~= self.semitones@);
        }
        r
    }
}

/// The offsets are a bounded sorted set and the keys are in range.
pub open spec fn chord_v_wf(c: ChordV) -> bool {
    &&& sorted_sems(c.sems)
    &&& sems_bounded(c.sems)
    &&& crate::syntax::key_wf(c.key)
    &&& match c.on {
        Some(k) => crate::syntax::key_wf(k),
        None => true,
    }
}

/// Fields other than the offset set agree.
pub open spec fn same_shell(a: ChordV, b: ChordV) -> bool {
    a.octave == b.octave && a.inversion == b.inversion && a.key == b.key && a.on == b.on
}

/// The scale in force: minor exactly when the chord holds the minor-third
/// offset, else major.
pub open spec fn scale_of(s: Seq<u8>) -> Scale {
    if s.contains(3) {
        Scale::Minor
    } else {
        Scale::Major
    }
}

/// Deleting degree `d` in both its minor-slot and major-slot identities.
pub open spec fn remove_degree_spec(s: Seq<u8>, d: int) -> Seq<u8> {
    sem_remove(sem_remove(s, scale_semitone(Scale::Minor, d) as u8), scale_semitone(Scale::Major, d) as u8)
}

/// One step of laying down a shape: degree `d` is cleared in both slot
/// identities and re-inserted at its place in `scale`.
pub open spec fn shape_step(s: Seq<u8>, scale: Scale, d: int) -> Seq<u8> {
    sem_insert(remove_degree_spec(s, d), scale_semitone(scale, d) as u8)
}

/// Laying down a whole shape, degree by degree, left to right.
pub open spec fn shape_spec(s: Seq<u8>, scale: Scale, ds: Seq<u8>) -> Seq<u8>
    decreases ds.len(),
{
    if ds.len() == 0 {
        s
    } else {
        shape_spec(shape_step(s, scale, ds[0] as int), scale, ds.drop_first())
    }
}

proof fn lemma_shape_push(s: Seq<u8>, scale: Scale, ds: Seq<u8>, d: u8)
    ensures
        shape_spec(s, scale, ds.push(d)) == shape_step(shape_spec(s, scale, ds), scale, d as int),
    decreases ds.len(),
{
    if ds.len() == 0 {
        assert(ds.push(d).drop_first() =~= ds);
        assert(shape_spec(s, scale, ds.push(d)) == shape_spec(
            shape_step(s, scale, d as int),
            scale,
            ds,
        ));
    } else {
        assert(ds.push(d)[0] == ds[0]);
        assert(ds.push(d).drop_first() =~= ds.drop_first().push(d));
        lemma_shape_push(shape_step(s, scale, ds[0] as int), scale, ds.drop_first(), d);
    }
}

/// Replacing a chord's content by a scale shape: step by step the set
/// stays sorted and bounded.
proof fn lemma_shape_wf(s: Seq<u8>, scale: Scale, d: int)
    requires
        sorted_sems(s),
        sems_bounded(s),
        1 <= d <= 13,
    ensures
        sorted_sems(shape_step(s, scale, d)),
        sems_bounded(shape_step(s, scale, d)),
{
    crate::scale::lemma_scale_semitone_bounds(Scale::Minor, d);
    crate::scale::lemma_scale_semitone_bounds(Scale::Major, d);
    crate::scale::lemma_scale_semitone_bounds(scale, d);
    let s1 = sem_remove(s, scale_semitone(Scale::Minor, d) as u8);
    lemma_sem_remove_props(s, scale_semitone(Scale::Minor, d) as u8);
    lemma_sem_remove_bounded(s, scale_semitone(Scale::Minor, d) as u8);
    let s2 = sem_remove(s1, scale_semitone(Scale::Major, d) as u8);
    lemma_sem_remove_props(s1, scale_semitone(Scale::Major, d) as u8);
    lemma_sem_remove_bounded(s1, scale_semitone(Scale::Major, d) as u8);
    lemma_sem_insert_props(s2, scale_semitone(scale, d) as u8);
    lemma_sem_insert_bounded(s2, scale_semitone(scale, d) as u8);
}

/// What one modifier does to the offset set, per the canonical rules; the
/// result is an error exactly for a major or minor shape on a degree
/// outside {5, 6, 7, 9}.
pub open spec fn modify_spec(s: Seq<u8>, m: crate::syntax::Modifier) -> Result<
    Seq<u8>,
    ChordError,
> {
    match m {
        crate::syntax::Modifier::Major(d) => if d == 5 {
            Ok(shape_spec(s, Scale::Major, seq![1u8, 3, 5]))
        } else if d == 6 {
            Ok(shape_spec(s, Scale::Major, seq![1u8, 3, 5, 6]))
        } else if d == 7 {
            Ok(shape_spec(s, Scale::Major, seq![1u8, 3, 5, 7]))
        } else if d == 9 {
            Ok(shape_spec(s, Scale::Major, seq![1u8, 3, 5, 7, 9]))
        } else {
            Err(ChordError::UnknownModifier { degree: d })
        },
        crate::syntax::Modifier::Minor(d) => if d == 5 {
            Ok(shape_spec(s, Scale::Minor, seq![1u8, 3, 5]))
        } else if d == 6 {
            Ok(shape_spec(s, Scale::Minor, seq![1u8, 3, 5, 6]))
        } else if d == 7 {
            Ok(shape_spec(s, Scale::Minor, seq![1u8, 3, 5, 7]))
        } else if d == 9 {
            Ok(shape_spec(s, Scale::Minor, seq![1u8, 3, 5, 7, 9]))
        } else {
            Err(ChordError::UnknownModifier { degree: d })
        },
        crate::syntax::Modifier::MinorMajor7 => {
            let s1 = mm7_step(s, Scale::Minor, 1);
            let s2 = mm7_step(s1, Scale::Minor, 3);
            let s3 = mm7_step(s2, Scale::Minor, 5);
            Ok(mm7_step(s3, Scale::Major, 7))
        },
        crate::syntax::Modifier::Sus2 => Ok(
            sem_insert(
                sem_remove(s, scale_semitone(scale_of(s), 3) as u8),
                (scale_semitone(Scale::Major, 3) - 1) as u8,
            ),
        ),
        crate::syntax::Modifier::Sus4 => Ok(
            sem_insert(
                sem_remove(s, scale_semitone(scale_of(s), 3) as u8),
                (scale_semitone(Scale::Major, 3) + 1) as u8,
            ),
        ),
        crate::syntax::Modifier::Flat5th => Ok(
            sem_insert(
                sem_remove(s, scale_semitone(scale_of(s), 5) as u8),
                (scale_semitone(Scale::Major, 5) - 1) as u8,
            ),
        ),
        crate::syntax::Modifier::Aug => Ok(
            sem_insert(
                sem_remove(s, scale_semitone(scale_of(s), 5) as u8),
                (scale_semitone(Scale::Major, 5) + 1) as u8,
            ),
        ),
        crate::syntax::Modifier::Aug7 => {
            let s1 = sem_insert(
                sem_remove(s, scale_semitone(scale_of(s), 5) as u8),
                (scale_semitone(Scale::Major, 5) + 1) as u8,
            );
            Ok(
                sem_insert(
                    sem_remove(s1, scale_semitone(scale_of(s1), 7) as u8),
                    (scale_semitone(Scale::Major, 7) + 1) as u8,
                ),
            )
        },
        crate::syntax::Modifier::Dim => {
            let s1 = sem_insert(
                sem_remove(s, scale_semitone(scale_of(s), 3) as u8),
                (scale_semitone(Scale::Major, 3) - 1) as u8,
            );
            Ok(
                sem_insert(
                    sem_remove(s1, scale_semitone(scale_of(s1), 5) as u8),
                    (scale_semitone(Scale::Major, 5) - 1) as u8,
                ),
            )
        },
        crate::syntax::Modifier::Dim7 => {
            let s1 = sem_insert(
                sem_remove(s, scale_semitone(scale_of(s), 3) as u8),
                (scale_semitone(Scale::Major, 3) - 1) as u8,
            );
            let s2 = sem_insert(
                sem_remove(s1, scale_semitone(scale_of(s1), 5) as u8),
                (scale_semitone(Scale::Major, 5) - 1) as u8,
            );
            Ok(
                sem_insert(
                    sem_remove(s2, scale_semitone(scale_of(s2), 7) as u8),
                    (scale_semitone(Scale::Major, 7) - 2) as u8,
                ),
            )
        },
        crate::syntax::Modifier::Omit(d) => Ok(remove_degree_spec(s, d as int)),
        crate::syntax::Modifier::Add(d) => Ok(
            sem_insert(s, scale_semitone(scale_of(s), d as int) as u8),
        ),
        crate::syntax::Modifier::Tension(crate::scale::Degree(d, a)) => Ok(
            sem_insert(
                s,
                (scale_semitone(scale_of(s), d as int) + crate::pitch::Accidental::offset_spec(a)) as u8,
            ),
        ),
    }
}

/// One step of the minor-major-seventh rewrite: clear degree `d` at its
/// current-scale slot, re-insert it at its place in `scale`.
pub open spec fn mm7_step(s: Seq<u8>, scale: Scale, d: int) -> Seq<u8> {
    sem_insert(sem_remove(s, scale_semitone(scale_of(s), d) as u8), scale_semitone(scale, d) as u8)
}

impl Chord {
    /// A chord with no sounding offsets yet, at the given voicing.
    pub fn new(octave: u8, inversion: u8, key: Key) -> (r: Chord)
        ensures
            r@.octave == octave,
            r@.inversion == inversion,
            r@.key == key,
            r@.sems =~= Seq::<u8>::empty(),
            r@.on is None,
    {
        Chord { octave, inversion, key, semitones: Vec::new(), on: None }
    }

    /// The scale in force, read off the chord's current content.
    pub fn scale(&self) -> (r: Scale)
        ensures
            r == scale_of(self@.sems),
    {
        let mut i: usize = 0;
        while i < self.semitones.len()
            invariant
                i <= self.semitones@.len(),
                forall|j: int| 0 <= j < i ==> self.semitones@[j] != 3,
            ensures
                i <= self.semitones@.len(),
                forall|j: int| 0 <= j < i ==> self.semitones@[j] != 3,
                i == self.semitones@.len() || self.semitones@[i as int] == 3,
            decreases self.semitones@.len() - i,
        {
            if self.semitones[i] == 3 {
                break ;
            }
            i = i + 1;
        }
        if i < self.semitones.len() {
            proof {
                assert(self.semitones@.contains(3)) by {
                    assert(self.semitones@[i as int] == 3);
                }
            }
            Scale::Minor
        } else {
            proof {
                if self.semitones@.contains(3) {
                    let t = choose|t: int|
                        0 <= t < self.semitones@.len() && self.semitones@[t] == 3;
                    assert(false);
                }
            }
            Scale::Major
        }
    }

    /// Deletes degree `degree` from the chord, trying both its minor-slot
    /// and major-slot identities.
    pub fn remove_degree(&mut self, degree: u8)
        requires
            chord_v_wf(old(self)@),
            1 <= degree <= 13,
        ensures
            final(self)@.sems == remove_degree_spec(old(self)@.sems, degree as int),
            same_shell(final(self)@, old(self)@),
            chord_v_wf(final(self)@),
    {
        let lo = Scale::Minor.semitone(degree);
        let hi = Scale::Major.semitone(degree);
        proof {
            lemma_sem_remove_props(self.semitones@, lo);
            lemma_sem_remove_bounded(self.semitones@, lo);
        }
        remove_sem(&mut self.semitones, lo);
        proof {
            lemma_sem_remove_props(self.semitones@, hi);
            lemma_sem_remove_bounded(self.semitones@, hi);
        }
        remove_sem(&mut self.semitones, hi);
    }

    /// Lays down the shape `degrees` in `scale`, degree by degree.
    fn modify_degree(&mut self, scale: Scale, degrees: &[u8])
        requires
            chord_v_wf(old(self)@),
            forall|i: int| 0 <= i < degrees@.len() ==> 1 <= #[trigger] degrees@[i] <= 13,
        ensures
            final(self)@.sems == shape_spec(old(self)@.sems, scale, degrees@),
            same_shell(final(self)@, old(self)@),
            chord_v_wf(final(self)@),
    {
        let mut i: usize = 0;
        while i < degrees.len()
            invariant
                i <= degrees@.len(),
                forall|j: int| 0 <= j < degrees@.len() ==> 1 <= #[trigger] degrees@[j] <= 13,
                self@.sems == shape_spec(old(self)@.sems, scale, degrees@.subrange(0, i as int)),
                same_shell(self@, old(self)@),
                chord_v_wf(self@),
            decreases degrees@.len() - i,
        {
            let d = degrees[i];
            let ghost pre = self@.sems;
            self.remove_degree(d);
            let v = scale.semitone(d);
            proof {
                crate::scale::lemma_scale_semitone_bounds(scale, d as int);
                lemma_sem_insert_props(self.semitones@, v);
                lemma_sem_insert_bounded(self.semitones@, v);
            }
            insert_sem(&mut self.semitones, v);
            proof {
                assert(self@.sems == shape_step(pre, scale, d as int));
                assert(degrees@.subrange(0, i as int).push(d) =~= degrees@.subrange(
                    0,
                    i as int + 1,
                ));
                lemma_shape_push(old(self)@.sems, scale, degrees@.subrange(0, i as int), d);
            }
            i = i + 1;
        }
        proof {
            assert(degrees@.subrange(0, degrees@.len() as int) =~= degrees@);
        }
    }

    /// Applies one modifier to the chord's offset set, per the canonical
    /// semantics; fails with `UnknownModifier` exactly when the modifier
    /// names a major or minor shape on a degree outside {5, 6, 7, 9}.
    #[verifier::rlimit(100)]
    pub fn modify(&mut self, modifier: &crate::syntax::Modifier) -> (r: Result<(), ChordError>)
        requires
            chord_v_wf(old(self)@),
            crate::syntax::mod_payload_wf(*modifier),
        ensures
            same_shell(final(self)@, old(self)@),
            chord_v_wf(final(self)@),
            match r {
                Ok(_) => modify_spec(old(self)@.sems, *modifier) == Ok::<Seq<u8>, ChordError>(
                    final(self)@.sems,
                ),
                Err(e) => modify_spec(old(self)@.sems, *modifier) == Err::<Seq<u8>, ChordError>(e)
                    && final(self)@.sems == old(self)@.sems,
            },
    {
        match modifier {
            crate::syntax::Modifier::Major(5) => {
                self.modify_degree(Scale::Major, &[1, 3, 5]);
                Ok(())
            },
            crate::syntax::Modifier::Major(6) => {
                self.modify_degree(Scale::Major, &[1, 3, 5, 6]);
                Ok(())
            },
            crate::syntax::Modifier::Major(7) => {
                self.modify_degree(Scale::Major, &[1, 3, 5, 7]);
                Ok(())
            },
            crate::syntax::Modifier::Major(9) => {
                self.modify_degree(Scale::Major, &[1, 3, 5, 7, 9]);
                Ok(())
            },
            crate::syntax::Modifier::Minor(5) => {
                self.modify_degree(Scale::Minor, &[1, 3, 5]);
                Ok(())
            },
            crate::syntax::Modifier::Minor(6) => {
                self.modify_degree(Scale::Minor, &[1, 3, 5, 6]);
                Ok(())
            },
            crate::syntax::Modifier::Minor(7) => {
                self.modify_degree(Scale::Minor, &[1, 3, 5, 7]);
                Ok(())
            },
            crate::syntax::Modifier::Minor(9) => {
                self.modify_degree(Scale::Minor, &[1, 3, 5, 7, 9]);
                Ok(())
            },
            crate::syntax::Modifier::MinorMajor7 => {
                self.mm7_exec(Scale::Minor, 1);
                self.mm7_exec(Scale::Minor, 3);
                self.mm7_exec(Scale::Minor, 5);
                self.mm7_exec(Scale::Major, 7);
                Ok(())
            },
            crate::syntax::Modifier::Sus2 => {
                self.replace_slot(3, Scale::Major.semitone(3) - 1);
                Ok(())
            },
            crate::syntax::Modifier::Sus4 => {
                self.replace_slot(3, Scale::Major.semitone(3) + 1);
                Ok(())
            },
            crate::syntax::Modifier::Flat5th => {
                self.replace_slot(5, Scale::Major.semitone(5) - 1);
                Ok(())
            },
            crate::syntax::Modifier::Aug => {
                self.replace_slot(5, Scale::Major.semitone(5) + 1);
                Ok(())
            },
            crate::syntax::Modifier::Aug7 => {
                self.replace_slot(5, Scale::Major.semitone(5) + 1);
                self.replace_slot(7, Scale::Major.semitone(7) + 1);
                Ok(())
            },
            crate::syntax::Modifier::Dim => {
                self.replace_slot(3, Scale::Major.semitone(3) - 1);
                self.replace_slot(5, Scale::Major.semitone(5) - 1);
                Ok(())
            },
            crate::syntax::Modifier::Dim7 => {
                self.replace_slot(3, Scale::Major.semitone(3) - 1);
                self.replace_slot(5, Scale::Major.semitone(5) - 1);
                self.replace_slot(7, Scale::Major.semitone(7) - 2);
                Ok(())
            },
            crate::syntax::Modifier::Omit(d) => {
                self.remove_degree(*d);
                Ok(())
            },
            crate::syntax::Modifier::Add(d) => {
                let v = self.scale().semitone(*d);
                proof {
                    crate::scale::lemma_scale_semitone_bounds(scale_of(self@.sems), *d as int);
                    lemma_sem_insert_props(self.semitones@, v);
                    lemma_sem_insert_bounded(self.semitones@, v);
                }
                insert_sem(&mut self.semitones, v);
                Ok(())
            },
            crate::syntax::Modifier::Tension(crate::scale::Degree(d, a)) => {
                let base = self.scale().semitone(*d);
                proof {
                    crate::scale::lemma_scale_semitone_bounds(scale_of(self@.sems), *d as int);
                }
                let v = match a {
                    crate::pitch::Accidental::Flat => base - 1,
                    crate::pitch::Accidental::Natural => base,
                    crate::pitch::Accidental::Sharp => base + 1,
                };
                proof {
                    lemma_sem_insert_props(self.semitones@, v);
                    lemma_sem_insert_bounded(self.semitones@, v);
                }
                insert_sem(&mut self.semitones, v);
                Ok(())
            },
            crate::syntax::Modifier::Major(d) => Err(ChordError::UnknownModifier { degree: *d }),
            crate::syntax::Modifier::Minor(d) => Err(ChordError::UnknownModifier { degree: *d }),
        }
    }

    /// One minor-major-seventh step, executably.
    fn mm7_exec(&mut self, scale: Scale, d: u8)
        requires
            chord_v_wf(old(self)@),
            1 <= d <= 13,
        ensures
            final(self)@.sems == mm7_step(old(self)@.sems, scale, d as int),
            same_shell(final(self)@, old(self)@),
            chord_v_wf(final(self)@),
    {
        let cur = self.scale().semitone(d);
        proof {
            lemma_sem_remove_props(self.semitones@, cur);
            lemma_sem_remove_bounded(self.semitones@, cur);
        }
        remove_sem(&mut self.semitones, cur);
        let v = scale.semitone(d);
        proof {
            crate::scale::lemma_scale_semitone_bounds(scale, d as int);
            lemma_sem_insert_props(self.semitones@, v);
            lemma_sem_insert_bounded(self.semitones@, v);
        }
        insert_sem(&mut self.semitones, v);
    }

    /// Clears degree `slot` at its current-scale place and inserts the
    /// given offset instead.
    fn replace_slot(&mut self, slot: u8, value: u8)
        requires
            chord_v_wf(old(self)@),
            1 <= slot <= 13,
            value <= 25,
        ensures
            final(self)@.sems == sem_insert(
                sem_remove(old(self)@.sems, scale_semitone(scale_of(old(self)@.sems), slot as int) as u8),
                value,
            ),
            same_shell(final(self)@, old(self)@),
            chord_v_wf(final(self)@),
    {
        let cur = self.scale().semitone(slot);
        proof {
            lemma_sem_remove_props(self.semitones@, cur);
            lemma_sem_remove_bounded(self.semitones@, cur);
        }
        remove_sem(&mut self.semitones, cur);
        proof {
            lemma_sem_insert_props(self.semitones@, value);
            lemma_sem_insert_bounded(self.semitones@, value);
        }
        insert_sem(&mut self.semitones, value);
    }
}

/// Sorted distinct bytes bounded by 25 number at most 26.
pub proof fn lemma_sems_card(s: Seq<u8>)
    requires
        sorted_sems(s),
        sems_bounded(s),
    ensures
        s.len() <= 26,
{
    if s.len() > 26 {
        lemma_sorted_lower(s, 26);
        assert(s[26] <= 25);
    }
}

proof fn lemma_sorted_lower(s: Seq<u8>, i: int)
    requires
        sorted_sems(s),
        0 <= i < s.len(),
    ensures
        s[i] >= i,
    decreases i,
{
    if i > 0 {
        lemma_sorted_lower(s, i - 1);
        assert(s[i - 1] < s[i]);
    }
}

/// The semitone number anchoring a chord's root in register: twelve per
/// octave plus the root's own semitone value.
pub open spec fn key_anchor(c: ChordV) -> int {
    12 * c.octave + match c.key {
        Key::Absolute(p) => p.u8_spec(),
        Key::Relative(s) => s as int,
    }
}

/// Sum of pairwise absolute differences of two offset sets, zipped from
/// position `i` and truncated to the shorter one.
pub open spec fn zipsum_from(x: Seq<u8>, y: Seq<u8>, i: int) -> int
    decreases (if x.len() < y.len() { x.len() } else { y.len() }) - i,
{
    let n = if x.len() < y.len() {
        x.len() as int
    } else {
        y.len() as int
    };
    if i < 0 || i >= n {
        0
    } else {
        abs_int(x[i] - y[i]) + zipsum_from(x, y, i + 1)
    }
}

pub open spec fn abs_int(v: int) -> int {
    if v < 0 {
        -v
    } else {
        v
    }
}

/// The edit distance between two chords in the same key frame: the
/// register gap of their roots plus the zipped gap of their offsets.
pub open spec fn chord_dist(a: ChordV, b: ChordV) -> int {
    abs_int(key_anchor(a) - key_anchor(b)) + zipsum_from(a.sems, b.sems, 0)
}

/// Both keys absolute, or both relative.
pub open spec fn same_key_kind(a: Key, b: Key) -> bool {
    (a is Absolute && b is Absolute) || (a is Relative && b is Relative)
}

/// The register of the note at sorted position `i` of the chord placed at
/// octave `o`, as the voicing search scores a candidate.
pub open spec fn cand_root(c: ChordV, o: int, i: int) -> int {
    12 + 12 * o + match c.key {
        Key::Absolute(p) => p.u8_spec(),
        Key::Relative(s) => s as int,
    } + c.sems[i] - 1
}

pub open spec fn cand_diff(base: u8, c: ChordV, o: int, i: int) -> int {
    abs_int(base - cand_root(c, o, i))
}

/// What the voicing search returns: the first pair, in ascending (octave,
/// inversion) order, whose root lands nearest the target register.
pub open spec fn match_ens(base: u8, c: ChordV, r: (u8, u8)) -> bool {
    if c.sems.len() == 0 {
        r == (0u8, 0u8)
    } else {
        &&& r.0 < 8
        &&& (r.1 as int) < c.sems.len()
        &&& forall|o: int, i: int|
            0 <= o < 8 && 0 <= i < c.sems.len() ==> cand_diff(base, c, r.0 as int, r.1 as int)
                <= #[trigger] cand_diff(base, c, o, i)
        &&& forall|o: int, i: int|
            0 <= o < 8 && 0 <= i < c.sems.len() && #[trigger] cand_diff(base, c, o, i) == cand_diff(
                base,
                c,
                r.0 as int,
                r.1 as int,
            ) ==> (r.0 < o || (r.0 == o && r.1 <= i))
    }
}

/// Searches octaves 0 through 7 and every inversion for the voicing whose
/// root pitch lands nearest `base`; ties go to the first candidate found.
pub fn match_pitches(base: u8, chord: &Chord) -> (r: (u8, u8))
    requires
        chord_v_wf(chord@),
        chord@.key is Absolute,
    ensures
        match_ens(base, chord@, r),
{
    let n = chord.semitones.len();
    proof {
        lemma_sems_card(chord@.sems);
    }
    if n == 0 {
        return (0, 0);
    }
    let p = match chord.key {
        Key::Absolute(p) => p.into_u8(),
        Key::Relative(_) => 0,
    };
    let mut best_diff: u8 = 255;
    let mut bo: u8 = 0;
    let mut bi: u8 = 0;
    let mut o: u8 = 0;
    while o < 8
        invariant
            chord_v_wf(chord@),
            chord@.key is Absolute,
            n == chord@.sems.len(),
            n > 0,
            n <= 26,
            p as int == chord@.key->Absolute_0.u8_spec(),
            o <= 8,
            o == 0 ==> best_diff == 255,
            o > 0 ==> {
                &&& bo < o
                &&& (bi as int) < n
                &&& best_diff as int == cand_diff(base, chord@, bo as int, bi as int)
                &&& best_diff < 255
                &&& forall|o2: int, i2: int|
                    0 <= o2 < o && 0 <= i2 < n ==> best_diff as int <= #[trigger] cand_diff(
                        base,
                        chord@,
                        o2,
                        i2,
                    )
                &&& forall|o2: int, i2: int|
                    0 <= o2 < o && 0 <= i2 < n && #[trigger] cand_diff(base, chord@, o2, i2)
                        == best_diff as int ==> (bo < o2 || (bo == o2 && bi <= i2))
            },
        decreases 8 - o,
    {
        let mut i: usize = 0;
        while i < n
            invariant
                chord_v_wf(chord@),
                chord@.key is Absolute,
                n == chord@.sems.len(),
                n > 0,
                n <= 26,
                p as int == chord@.key->Absolute_0.u8_spec(),
                o < 8,
                i <= n,
                (o == 0 && i == 0) ==> best_diff == 255,
                (o > 0 || i > 0) ==> {
                    &&& (bo < o || (bo == o && (bi as int) < i))
                    &&& (bi as int) < n
                    &&& best_diff as int == cand_diff(base, chord@, bo as int, bi as int)
                    &&& best_diff < 255
                    &&& forall|o2: int, i2: int|
                        0 <= o2 < 8 && 0 <= i2 < n && (o2 < o || (o2 == o && i2 < i))
                            ==> best_diff as int <= #[trigger] cand_diff(base, chord@, o2, i2)
                    &&& forall|o2: int, i2: int|
                        0 <= o2 < 8 && 0 <= i2 < n && (o2 < o || (o2 == o && i2 < i))
                            && #[trigger] cand_diff(base, chord@, o2, i2) == best_diff as int ==> (
                        bo < o2 || (bo == o2 && bi <= i2))
                },
            decreases n - i,
        {
            let s = chord.semitones[i];
            let root: u8 = 12 + 12 * o + p + s - 1;
            proof {
                assert(root as int == cand_root(chord@, o as int, i as int));
            }
            let d = if base >= root {
                base - root
            } else {
                root - base
            };
            proof {
                assert(d as int == cand_diff(base, chord@, o as int, i as int));
                assert(d < 255);
            }
            if d < best_diff {
                best_diff = d;
                bo = o;
                bi = i as u8;
            }
            i = i + 1;
        }
        o = o + 1;
    }
    (bo, bi)
}

impl Chord {
    /// The register of the sounding note the current inversion makes the
    /// root; fails with a key-frame error on a relative key.
    pub fn root_pitch(&self) -> (r: Result<u8, ChordError>)
        requires
            chord_v_wf(self@),
            self@.key is Absolute ==> (self@.inversion as int) < self@.sems.len()
                && self@.octave <= 8,
        ensures
            match r {
                Ok(v) => self@.key is Absolute && v as int == cand_root(
                    self@,
                    self@.octave as int,
                    self@.inversion as int,
                ),
                Err(e) => self@.key is Relative && e == ChordError::KeyTypeMismatch,
            },
    {
        match self.key {
            Key::Absolute(p) => {
                let s = self.semitones[self.inversion as usize];
                Ok(12 + 12 * self.octave + p.into_u8() + s - 1)
            },
            Key::Relative(_) => Err(ChordError::KeyTypeMismatch),
        }
    }

    /// The edit distance to another chord: register gap of the roots plus
    /// the zipped gap of the offset sets; fails when one key is absolute
    /// and the other relative.
    pub fn distance(&self, other: &Self) -> (r: Result<usize, ChordError>)
        requires
            chord_v_wf(self@),
            chord_v_wf(other@),
            self@.octave <= 8,
            other@.octave <= 8,
        ensures
            match r {
                Ok(d) => same_key_kind(self@.key, other@.key) && d as int == chord_dist(
                    self@,
                    other@,
                ),
                Err(e) => !same_key_kind(self@.key, other@.key) && e
                    == ChordError::KeyTypeMismatch,
            },
    {
        let a: u32 = match self.key {
            Key::Absolute(p) => 12 * self.octave as u32 + p.into_u8() as u32,
            Key::Relative(s) => 12 * self.octave as u32 + s as u32,
        };
        let b: u32 = match other.key {
            Key::Absolute(p) => 12 * other.octave as u32 + p.into_u8() as u32,
            Key::Relative(s) => 12 * other.octave as u32 + s as u32,
        };
        match (&self.key, &other.key) {
            (Key::Absolute(_), Key::Relative(_)) => {
                return Err(ChordError::KeyTypeMismatch);
            },
            (Key::Relative(_), Key::Absolute(_)) => {
                return Err(ChordError::KeyTypeMismatch);
            },
            _ => {},
        }
        let key_dist: u32 = if a >= b {
            a - b
        } else {
            b - a
        };
        let z = zipsum_exec(&self.semitones, &other.semitones);
        Ok((key_dist + z) as usize)
    }
}

/// The zipped sum of offset gaps, computed.
pub fn zipsum_exec(x: &Vec<u8>, y: &Vec<u8>) -> (r: u32)
    requires
        sorted_sems(x@),
        sems_bounded(x@),
        sorted_sems(y@),
        sems_bounded(y@),
    ensures
        r as int == zipsum_from(x@, y@, 0),
        r <= 650,
{
    proof {
        lemma_sems_card(x@);
        lemma_sems_card(y@);
    }
    let n = if x.len() < y.len() {
        x.len()
    } else {
        y.len()
    };
    let mut acc: u32 = 0;
    let mut i: usize = 0;
    while i < n
        invariant
            n == (if x@.len() < y@.len() {
                x@.len()
            } else {
                y@.len()
            }),
            n <= 26,
            sems_bounded(x@),
            sems_bounded(y@),
            i <= n,
            acc <= 25 * i,
            acc as int + zipsum_from(x@, y@, i as int) == zipsum_from(x@, y@, 0),
        decreases n - i,
    {
        let a = x[i];
        let b = y[i];
        let d = if a >= b {
            a - b
        } else {
            b - a
        };
        proof {
            assert(d as int == abs_int(x@[i as int] - y@[i as int]));
            assert(zipsum_from(x@, y@, i as int) == abs_int(x@[i as int] - y@[i as int])
                + zipsum_from(x@, y@, i as int + 1));
        }
        acc = acc + d as u32;
        i = i + 1;
    }
    proof {
        assert(zipsum_from(x@, y@, n as int) == 0);
    }
    acc
}

/// A chord value equal to `c` but placed at octave `o`.
pub open spec fn with_oct(c: ChordV, o: u8) -> ChordV {
    ChordV { octave: o, inversion: c.inversion, key: c.key, sems: c.sems, on: c.on }
}

/// The score the octave-continuity search minimizes for a candidate
/// octave against the held chord `pre`: the chord distance first, then
/// nearness to the held chord's octave `home`, then the lower octave.
pub open spec fn oct_better(c: ChordV, pre: ChordV, home: u8, a: u8, b: u8) -> bool {
    let da = chord_dist(with_oct(c, a), pre);
    let db = chord_dist(with_oct(c, b), pre);
    ||| da < db
    ||| (da == db && abs_int(a - home) < abs_int(b - home))
    ||| (da == db && abs_int(a - home) == abs_int(b - home) && a <= b)
}

impl Chord {
    /// Moves the chord to whichever of the octaves one below, at, or one
    /// above the held chord's octave sits nearest that chord, by the
    /// distance of the voicing rules; ties prefer the smaller move from
    /// the held octave, then the lower octave.  Candidates above the
    /// eight-octave register are not considered.
    pub fn set_nearest_octave(&mut self, pre: &Chord)
        requires
            chord_v_wf(old(self)@),
            chord_v_wf(pre@),
            old(self)@.key is Absolute,
            pre@.key is Absolute,
            pre@.octave <= 8,
        ensures
            chord_v_wf(final(self)@),
            final(self)@ == with_oct(old(self)@, final(self)@.octave),
            final(self)@.octave <= 8,
            pre@.octave >= 1 ==> final(self)@.octave >= pre@.octave - 1,
            final(self)@.octave <= pre@.octave + 1,
            pre@.octave == 0 ==> final(self)@.octave >= pre@.octave,
            forall|c: u8|
                (pre@.octave == 0 || c >= pre@.octave - 1) && c <= pre@.octave + 1 && c <= 8
                    ==> oct_better(old(self)@, pre@, pre@.octave, final(self)@.octave, c),
    {
        let home = pre.octave;
        let lo: u8 = if home >= 1 {
            home - 1
        } else {
            home
        };
        let hi: u8 = if home < 8 {
            home + 1
        } else {
            home
        };
        let mut best: u8 = lo;
        let mut best_d: u32 = dist_with_oct(self, lo, pre);
        let mut c: u8 = lo + 1;
        while c <= hi
            invariant
                chord_v_wf(self@),
                chord_v_wf(pre@),
                self@ == old(self)@,
                self@.key is Absolute,
                pre@.key is Absolute,
                pre@.octave <= 8,
                home == pre@.octave,
                lo == (if home >= 1 {
                    (home - 1) as int
                } else {
                    home as int
                }),
                hi == (if home < 8 {
                    (home + 1) as int
                } else {
                    home as int
                }),
                lo <= c <= hi + 1,
                c >= 1,
                lo <= best < c,
                best <= hi,
                best_d as int == chord_dist(with_oct(self@, best), pre@),
                forall|x: u8| lo <= x < c ==> oct_better(self@, pre@, home, best, x),
            decreases hi + 1 - c,
        {
            let d = dist_with_oct(self, c, pre);
            let off_c = if c >= home {
                c - home
            } else {
                home - c
            };
            let off_b = if best >= home {
                best - home
            } else {
                home - best
            };
            proof {
                assert(off_c as int == abs_int(c - home));
                assert(off_b as int == abs_int(best - home));
            }
            if d < best_d || (d == best_d && off_c < off_b) {
                proof {
                    assert forall|x: u8| lo <= x < c implies oct_better(
                        self@,
                        pre@,
                        home,
                        c,
                        x,
                    ) by {
                        assert(oct_better(self@, pre@, home, best, x));
                    }
                    assert(oct_better(self@, pre@, home, c, c));
                }
                best = c;
                best_d = d;
            } else {
                proof {
                    assert(oct_better(self@, pre@, home, best, c));
                }
            }
            c = c + 1;
        }
        self.octave = best;
    }
}

/// The chord distance the candidate octave `oct` would give against `pre`.
fn dist_with_oct(c: &Chord, oct: u8, pre: &Chord) -> (r: u32)
    requires
        chord_v_wf(c@),
        chord_v_wf(pre@),
        c@.key is Absolute,
        pre@.key is Absolute,
        oct <= 9,
        pre@.octave <= 8,
    ensures
        r as int == chord_dist(with_oct(c@, oct), pre@),
{
    let a: u32 = match c.key {
        Key::Absolute(p) => 12 * oct as u32 + p.into_u8() as u32,
        Key::Relative(s) => 0,
    };
    let b: u32 = match pre.key {
        Key::Absolute(p) => 12 * pre.octave as u32 + p.into_u8() as u32,
        Key::Relative(s) => 0,
    };
    let key_dist: u32 = if a >= b {
        a - b
    } else {
        b - a
    };
    let z = zipsum_exec(&c.semitones, &pre.semitones);
    key_dist + z
}

/// Folding a whole modifier set over a chord's offsets, left to right;
/// the first shape without a defined mapping aborts the fold.
pub open spec fn apply_mods(s: Seq<u8>, mods: Seq<crate::syntax::Modifier>) -> Result<
    Seq<u8>,
    ChordError,
>
    decreases mods.len(),
{
    if mods.len() == 0 {
        Ok(s)
    } else {
        match modify_spec(s, mods[0]) {
            Ok(s2) => apply_mods(s2, mods.drop_first()),
            Err(e) => Err(e),
        }
    }
}

impl crate::syntax::ChordNode {
    /// Resolves the symbol to a concrete chord: the modifier set is folded
    /// over the empty offset set in canonical order, and the voicing search
    /// picks the octave and inversion nearest the middle register.  Fails
    /// with `UnknownModifier` exactly when the fold does.
    pub fn to_chord(&self) -> (r: Result<Chord, ChordError>)
        requires
            crate::syntax::cnode_v_wf(self@),
            self@.key is Absolute,
        ensures
            match r {
                Ok(c) => {
                    &&& apply_mods(Seq::<u8>::empty(), self@.mods) == Ok::<Seq<u8>, ChordError>(
                        c@.sems,
                    )
                    &&& c@.key == self@.key
                    &&& c@.on == self@.on
                    &&& chord_v_wf(c@)
                    &&& c@.octave < 8
                    &&& (c@.sems.len() > 0 ==> (c@.inversion as int) < c@.sems.len())
                    &&& (c@.sems.len() == 0 ==> c@.inversion == 0)
                    &&& match_ens(60, c@, (c@.octave, c@.inversion))
                },
                Err(e) => apply_mods(Seq::<u8>::empty(), self@.mods) == Err::<Seq<u8>, ChordError>(
                    e,
                ),
            },
    {
        let mut chord = Chord::new(5, 0, self.key);
        chord.on = self.on;
        proof {
            assert(chord@.sems =~= Seq::<u8>::empty());
            assert(self@.mods.skip(0) =~= self@.mods);
        }
        let mut i: usize = 0;
        while i < self.modifiers.len()
            invariant
                crate::syntax::cnode_v_wf(self@),
                self@.mods.len() == self.modifiers@.len(),
                i <= self.modifiers@.len(),
                chord@.key == self@.key,
                chord@.on == self@.on,
                chord@.octave == 5,
                chord@.inversion == 0,
                chord_v_wf(chord@),
                apply_mods(Seq::<u8>::empty(), self@.mods) == apply_mods(
                    chord@.sems,
                    self@.mods.skip(i as int),
                ),
            decreases self.modifiers@.len() - i,
        {
            let m = self.modifiers[i];
            proof {
                assert(self@.mods[i as int] == m);
                assert(crate::syntax::mod_payload_wf(self@.mods[i as int]));
                assert(self@.mods.skip(i as int).len() > 0);
                assert(self@.mods.skip(i as int)[0] == self@.mods[i as int]);
                assert(self@.mods.skip(i as int).drop_first() =~= self@.mods.skip(i as int + 1));
            }
            match chord.modify(&m) {
                Ok(_) => {},
                Err(e) => {
                    return Err(e);
                },
            }
            i = i + 1;
        }
        proof {
            assert(self@.mods.skip(i as int) =~= Seq::<crate::syntax::Modifier>::empty());
        }
        let ghost before = chord@;
        let voicing = match_pitches(12 * chord.octave, &chord);
        chord.octave = voicing.0;
        chord.inversion = voicing.1;
        proof {
            lemma_sems_card(chord@.sems);
            assert(chord@.sems == before.sems && chord@.key == before.key);
            assert forall|o: int, i: int| 0 <= o < 8 && 0 <= i < chord@.sems.len() implies #[trigger] cand_diff(
                60,
                chord@,
                o,
                i,
            ) == cand_diff(60, before, o, i) by {
                assert(cand_root(chord@, o, i) == cand_root(before, o, i));
            }
            if before.sems.len() > 0 {
                assert(cand_diff(60, chord@, voicing.0 as int, voicing.1 as int) == cand_diff(
                    60,
                    before,
                    voicing.0 as int,
                    voicing.1 as int,
                ));
                assert(match_ens(60, chord@, voicing));
            }
        }
        Ok(chord)
    }
}

} // verus!
