use vstd::prelude::*;

use crate::chord::Chord;
use crate::chord::ChordV;
use crate::chord::chord_v_wf;
use crate::error::ChordError;
use crate::score::Note;
use crate::score::NoteV;
use crate::syntax::Key;

verus! {

/// Ticks per rhythmic subunit when notes are laid out for a MIDI sink.
pub const UNIT: u32 = 256;

/// The sorted offsets taken to absolute registers, before inversion.
pub open spec fn base_registers(c: ChordV, p: crate::pitch::Pitch) -> Seq<u8> {
    Seq::new(c.sems.len(), |i: int| (12 * c.octave + p.u8_spec() + c.sems[i]) as u8)
}

/// Rotating the lowest note up an octave, `k` times.
pub open spec fn rotate_spec(s: Seq<u8>, k: int) -> Seq<u8>
    decreases k,
{
    if k <= 0 || s.len() == 0 {
        s
    } else {
        rotate_spec(s.drop_first().push((s[0] + 12) as u8), k - 1)
    }
}

proof fn lemma_rotate_len(s: Seq<u8>, k: int)
    ensures
        rotate_spec(s, k).len() == s.len(),
    decreases k,
{
    if k > 0 && s.len() > 0 {
        lemma_rotate_len(s.drop_first().push((s[0] + 12) as u8), k - 1);
    }
}

/// One more rotation acts on the rotated sequence's own front.
proof fn lemma_rotate_step(s: Seq<u8>, k: int)
    requires
        s.len() > 0,
        k >= 0,
    ensures
        rotate_spec(s, k).len() == s.len(),
        rotate_spec(s, k + 1) == rotate_spec(s, k).drop_first().push(
            (rotate_spec(s, k)[0] + 12) as u8,
        ),
    decreases k,
{
    lemma_rotate_len(s, k);
    if k == 0 {
        let s1 = s.drop_first().push((s[0] + 12) as u8);
        assert(rotate_spec(s, 1) == rotate_spec(s1, 0));
        assert(rotate_spec(s1, 0) == s1);
        assert(rotate_spec(s, 0) == s);
    } else {
        let s1 = s.drop_first().push((s[0] + 12) as u8);
        lemma_rotate_step(s1, k - 1);
        assert(rotate_spec(s, k + 1) == rotate_spec(s1, k));
        assert(rotate_spec(s, k) == rotate_spec(s1, k - 1));
    }
}

/// The MIDI note numbers a resolved chord sounds: each offset placed in
/// register, the inversion rotating that many low notes up an octave, an
/// absolute bass an octave below the root, and the sink's octave shift of
/// twelve on every note.  A relative key has no register and is refused.
pub open spec fn note_numbers_spec(c: ChordV) -> Result<Seq<u8>, ChordError> {
    match c.key {
        Key::Relative(_) => Err(ChordError::KeyTypeMismatch),
        Key::Absolute(p) => {
            let rot = rotate_spec(base_registers(c, p), c.inversion as int);
            let with_bass = match c.on {
                Some(Key::Absolute(q)) => rot.push((12 * (c.octave - 1) + q.u8_spec()) as u8),
                _ => rot,
            };
            Ok(Seq::new(with_bass.len(), |i: int| (with_bass[i] + 12) as u8))
        },
    }
}

/// The preconditions under which a chord can be laid out for the sink.
pub open spec fn chord_playable(c: ChordV) -> bool {
    &&& chord_v_wf(c)
    &&& c.octave <= 8
    &&& c.inversion as int <= c.sems.len()
    &&& ((c.key is Absolute && c.on is Some && c.on->0 is Absolute) ==> c.octave >= 1)
}

/// Computes the MIDI note numbers of a resolved chord; fails exactly on a
/// relative key.
pub fn into_note_numbers(chord: &Chord) -> (r: Result<Vec<u8>, ChordError>)
    requires
        chord_playable(chord@),
    ensures
        match r {
            Ok(v) => note_numbers_spec(chord@) == Ok::<Seq<u8>, ChordError>(v@),
            Err(e) => note_numbers_spec(chord@) == Err::<Seq<u8>, ChordError>(e) && chord@.key
                is Relative,
        },
{
    let p = match chord.key {
        Key::Relative(_) => {
            return Err(ChordError::KeyTypeMismatch);
        },
        Key::Absolute(p) => p,
    };
    let pb = p.into_u8();
    let mut v: Vec<u8> = Vec::new();
    let mut i: usize = 0;
    while i < chord.semitones.len()
        invariant
            chord_playable(chord@),
            chord@.key == Key::Absolute(p),
            pb as int == p.u8_spec(),
            i <= chord@.sems.len(),
            v@.len() == i,
            forall|j: int| 0 <= j < i ==> v@[j] == base_registers(chord@, p)[j],
            forall|j: int| 0 <= j < i ==> v@[j] <= 132,
        decreases chord@.sems.len() - i,
    {
        let s = chord.semitones[i];
        v.push(12 * chord.octave + pb + s);
        i = i + 1;
    }
    proof {
        assert(v@ =~= base_registers(chord@, p));
    }
    let ghost base = v@;
    let mut r: u8 = 0;
    while r < chord.inversion
        invariant
            chord_playable(chord@),
            r <= chord@.inversion,
            chord@.inversion as int <= base.len(),
            v@ == rotate_spec(base, r as int),
            v@.len() == base.len(),
            forall|j: int| 0 <= j < base.len() ==> base[j] <= 132,
            forall|j: int| 0 <= j < v@.len() ==> #[trigger] v@[j] <= 144,
            forall|j: int| 0 <= j < base.len() - r ==> #[trigger] v@[j] <= 132,
        decreases chord@.inversion - r,
    {
        proof {
            lemma_rotate_step(base, r as int);
            assert(v@.len() > 0);
            assert(v@[0] <= 132);
        }
        let n = v.remove(0);
        v.push(n + 12);
        proof {
            assert(v@ =~= rotate_spec(base, r as int + 1));
            assert forall|j: int| 0 <= j < base.len() - (r + 1) implies #[trigger] v@[j] <= 132 by {
                assert(v@[j] == rotate_spec(base, r as int)[j + 1]);
            }
        }
        r = r + 1;
    }
    match chord.on {
        Some(Key::Absolute(q)) => {
            v.push(12 * (chord.octave - 1) + q.into_u8());
        },
        _ => {},
    }
    let ghost with_bass = v@;
    let mut out: Vec<u8> = Vec::new();
    let mut k: usize = 0;
    while k < v.len()
        invariant
            k <= v@.len(),
            v@ == with_bass,
            forall|j: int| 0 <= j < v@.len() ==> #[trigger] v@[j] <= 144 + 95,
            out@.len() == k,
            forall|j: int| 0 <= j < k ==> out@[j] == (with_bass[j] + 12) as u8,
        decreases v@.len() - k,
    {
        out.push(v[k] + 12);
        k = k + 1;
    }
    proof {
        assert(out@ =~= Seq::new(with_bass.len(), |i: int| (with_bass[i] + 12) as u8));
    }
    Ok(out)
}

/// One abstract event for the sink: a tick delta, whether the note starts
/// or stops, and its MIDI note number.
#[derive(Debug, Copy, Clone, PartialEq, Eq, Structural)]
pub struct MidiEvent {
    pub delta: u32,
    pub on: bool,
    pub note: u8,
}

/// The note-on events of one chord: all at once, the first carrying the
/// accumulated silence.
pub open spec fn ons_spec(nn: Seq<u8>, skip: int) -> Seq<MidiEvent> {
    Seq::new(
        nn.len(),
        |j: int|
            MidiEvent {
                delta: if j == 0 {
                    skip as u32
                } else {
                    0
                },
                on: true,
                note: nn[j],
            },
    )
}

/// The note-off events of one chord: all after the held duration.
pub open spec fn offs_spec(nn: Seq<u8>, dur: int) -> Seq<MidiEvent> {
    Seq::new(
        nn.len(),
        |j: int|
            MidiEvent {
                delta: if j == 0 {
                    dur as u32
                } else {
                    0
                },
                on: false,
                note: nn[j],
            },
    )
}

/// The whole event list from note `i` on, with `skip` ticks of silence
/// pending: rests only set the pending silence; a chord emits its ons and
/// offs; a trailing rest emits nothing.
pub open spec fn events_spec(notes: Seq<NoteV>, i: int, skip: int) -> Result<
    Seq<MidiEvent>,
    ChordError,
>
    decreases notes.len() - i,
{
    if i < 0 || i >= notes.len() {
        Ok(Seq::empty())
    } else {
        match notes[i].chord {
            None => events_spec(notes, i + 1, notes[i].duration * UNIT as int),
            Some(c) => match note_numbers_spec(c) {
                Err(e) => Err(e),
                Ok(nn) => match events_spec(notes, i + 1, 0) {
                    Ok(rest) => Ok(
                        ons_spec(nn, skip) + offs_spec(nn, notes[i].duration * UNIT as int) + rest,
                    ),
                    Err(e) => Err(e),
                },
            },
        }
    }
}

/// Lays a note list out as the sink's abstract event stream; fails
/// exactly when some sounding chord still has a relative key.
pub fn midi_events(notes: &Vec<Note>) -> (r: Result<Vec<MidiEvent>, ChordError>)
    requires
        forall|i: int|
            0 <= i < notes@.len() ==> match (#[trigger] notes@[i]@).chord {
                Some(c) => chord_playable(c),
                None => true,
            },
        forall|i: int| 0 <= i < notes@.len() ==> (#[trigger] notes@[i]@).duration <= 0xFF_FFFF,
    ensures
        match r {
            Ok(evs) => events_spec(notes@.map_values(|n: Note| n@), 0, 0) == Ok::<
                Seq<MidiEvent>,
                ChordError,
            >(evs@),
            Err(e) => events_spec(notes@.map_values(|n: Note| n@), 0, 0) == Err::<
                Seq<MidiEvent>,
                ChordError,
            >(e),
        },
{
    let ghost nv = notes@.map_values(|n: Note| n@);
    let mut out: Vec<MidiEvent> = Vec::new();
    let mut skip: u32 = 0;
    let mut i: usize = 0;
    proof {
        assert(forall|j: int| 0 <= j < nv.len() ==> #[trigger] nv[j] == notes@[j]@);
    }
    while i < notes.len()
        invariant
            nv == notes@.map_values(|n: Note| n@),
            nv.len() == notes@.len(),
            forall|j: int| 0 <= j < nv.len() ==> #[trigger] nv[j] == notes@[j]@,
            forall|j: int|
                0 <= j < notes@.len() ==> match (#[trigger] notes@[j]@).chord {
                    Some(c) => chord_playable(c),
                    None => true,
                },
            forall|j: int| 0 <= j < notes@.len() ==> (#[trigger] notes@[j]@).duration <= 0xFF_FFFF,
            i <= nv.len(),
            skip <= 0xFF_FFFF * 256,
            forall|rest: Seq<MidiEvent>|
                events_spec(nv, i as int, skip as int) == Ok::<Seq<MidiEvent>, ChordError>(rest)
                    ==> events_spec(nv, 0, 0) == Ok::<Seq<MidiEvent>, ChordError>(out@ + rest),
            forall|e: ChordError|
                events_spec(nv, i as int, skip as int) == Err::<Seq<MidiEvent>, ChordError>(e)
                    ==> events_spec(nv, 0, 0) == Err::<Seq<MidiEvent>, ChordError>(e),
        decreases nv.len() - i,
    {
        let dur = notes[i].duration * UNIT;
        match &notes[i].chord {
            None => {
                proof {
                    assert(nv[i as int].chord is None);
                    assert(events_spec(nv, i as int, skip as int) == events_spec(
                        nv,
                        i as int + 1,
                        nv[i as int].duration * UNIT as int,
                    ));
                }
                skip = dur;
            },
            Some(c) => {
                match into_note_numbers(c) {
                    Ok(nn) => {
                        proof {
                            assert(nv[i as int].chord == Some(c@));
                            assert(note_numbers_spec(c@) == Ok::<Seq<u8>, ChordError>(nn@));
                        }
                        let ghost pre_out = out@;
                        let count = nn.len();
                        let mut j: usize = 0;
                        while j < count
                            invariant
                                j <= count,
                                count == nn@.len(),
                                out@ =~= pre_out + ons_spec(nn@, skip as int).subrange(
                                    0,
                                    j as int,
                                ),
                            decreases count - j,
                        {
                            let d = if j == 0 {
                                skip
                            } else {
                                0
                            };
                            out.push(MidiEvent { delta: d, on: true, note: nn[j] });
                            proof {
                                assert(ons_spec(nn@, skip as int).subrange(0, j as int).push(
                                    ons_spec(nn@, skip as int)[j as int],
                                ) =~= ons_spec(nn@, skip as int).subrange(0, j as int + 1));
                            }
                            j = j + 1;
                        }
                        let mut j2: usize = 0;
                        let ghost mid_out = out@;
                        while j2 < count
                            invariant
                                j2 <= count,
                                count == nn@.len(),
                                dur as int == nv[i as int].duration * UNIT as int,
                                out@ =~= mid_out + offs_spec(nn@, dur as int).subrange(
                                    0,
                                    j2 as int,
                                ),
                            decreases count - j2,
                        {
                            let d = if j2 == 0 {
                                dur
                            } else {
                                0
                            };
                            out.push(MidiEvent { delta: d, on: false, note: nn[j2] });
                            proof {
                                assert(offs_spec(nn@, dur as int).subrange(0, j2 as int).push(
                                    offs_spec(nn@, dur as int)[j2 as int],
                                ) =~= offs_spec(nn@, dur as int).subrange(0, j2 as int + 1));
                            }
                            j2 = j2 + 1;
                        }
                        proof {
                            assert(ons_spec(nn@, skip as int).subrange(
                                0,
                                nn@.len() as int,
                            ) =~= ons_spec(nn@, skip as int));
                            assert(offs_spec(nn@, dur as int).subrange(
                                0,
                                nn@.len() as int,
                            ) =~= offs_spec(nn@, dur as int));
                            assert(out@ =~= pre_out + (ons_spec(nn@, skip as int) + offs_spec(
                                nn@,
                                dur as int,
                            )));
                            assert forall|rest: Seq<MidiEvent>|
                                events_spec(nv, i as int + 1, 0) == Ok::<Seq<MidiEvent>, ChordError>(
                                    rest,
                                ) implies events_spec(nv, 0, 0) == Ok::<Seq<MidiEvent>, ChordError>(
                                out@ + rest,
                            ) by {
                                assert(events_spec(nv, i as int, skip as int) == Ok::<
                                    Seq<MidiEvent>,
                                    ChordError,
                                >(
                                    ons_spec(nn@, skip as int) + offs_spec(nn@, dur as int)
                                        + rest,
                                ));
                                assert(pre_out + (ons_spec(nn@, skip as int) + offs_spec(
                                    nn@,
                                    dur as int,
                                ) + rest) =~= out@ + rest);
                            }
                        }
                        skip = 0;
                    },
                    Err(e) => {
                        proof {
                            assert(nv[i as int].chord == Some(c@));
                            assert(events_spec(nv, i as int, skip as int) == Err::<
                                Seq<MidiEvent>,
                                ChordError,
                            >(e));
                        }
                        return Err(e);
                    },
                }
            },
        }
        i = i + 1;
    }
    proof {
        assert(events_spec(nv, nv.len() as int, skip as int) == Ok::<Seq<MidiEvent>, ChordError>(
            Seq::empty(),
        ));
        assert(out@ + Seq::<MidiEvent>::empty() =~= out@);
    }
    Ok(out)
}

} // verus!
