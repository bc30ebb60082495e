use vstd::prelude::*;

use crate::error::ChordError;
use crate::pitch::Accidental;
use crate::pitch::Pitch;

verus! {

/// One of the two diatonic step patterns used to place scale degrees.
#[derive(Debug, Copy, Clone, PartialEq, Eq, Structural)]
pub enum Scale {
    Major,
    Minor,
}

/// The width in semitones of step `i` (0-based, taken mod 7) of a scale.
pub open spec fn scale_step(s: Scale, i: int) -> int {
    let steps = match s {
        Scale::Major => seq![2int, 2, 1, 2, 2, 2, 1],
        Scale::Minor => seq![2int, 1, 2, 2, 1, 2, 2],
    };
    steps[i % 7]
}

/// Semitone distance of degree `d` (1-based; 8 and beyond fold an octave up)
/// from the tonic of scale `s`.
pub open spec fn scale_semitone(s: Scale, d: int) -> int
    decreases d,
{
    if d <= 1 {
        0
    } else {
        scale_semitone(s, d - 1) + scale_step(s, d - 2)
    }
}

/// Each step is 1 or 2 semitones, so degree `d` sits within `2 * (d - 1)`
/// semitones of the tonic.
pub proof fn lemma_scale_semitone_bounds(s: Scale, d: int)
    requires
        1 <= d,
    ensures
        d - 1 <= scale_semitone(s, d) <= 2 * (d - 1),
    decreases d,
{
    if d > 1 {
        lemma_scale_semitone_bounds(s, d - 1);
    }
}

/// The major scale's semitone table for the seven natural degrees.
pub proof fn lemma_major_semitone_values()
    ensures
        scale_semitone(Scale::Major, 1) == 0,
        scale_semitone(Scale::Major, 2) == 2,
        scale_semitone(Scale::Major, 3) == 4,
        scale_semitone(Scale::Major, 4) == 5,
        scale_semitone(Scale::Major, 5) == 7,
        scale_semitone(Scale::Major, 6) == 9,
        scale_semitone(Scale::Major, 7) == 11,
{
    assert(scale_semitone(Scale::Major, 1) == 0);
    assert(scale_step(Scale::Major, 0) == 2);
    assert(scale_step(Scale::Major, 1) == 2);
    assert(scale_step(Scale::Major, 2) == 1);
    assert(scale_step(Scale::Major, 3) == 2);
    assert(scale_step(Scale::Major, 4) == 2);
    assert(scale_step(Scale::Major, 5) == 2);
    assert(scale_semitone(Scale::Major, 2) == scale_semitone(Scale::Major, 1) + scale_step(
        Scale::Major,
        0,
    ));
    assert(scale_semitone(Scale::Major, 3) == scale_semitone(Scale::Major, 2) + scale_step(
        Scale::Major,
        1,
    ));
    assert(scale_semitone(Scale::Major, 4) == scale_semitone(Scale::Major, 3) + scale_step(
        Scale::Major,
        2,
    ));
    assert(scale_semitone(Scale::Major, 5) == scale_semitone(Scale::Major, 4) + scale_step(
        Scale::Major,
        3,
    ));
    assert(scale_semitone(Scale::Major, 6) == scale_semitone(Scale::Major, 5) + scale_step(
        Scale::Major,
        4,
    ));
    assert(scale_semitone(Scale::Major, 7) == scale_semitone(Scale::Major, 6) + scale_step(
        Scale::Major,
        5,
    ));
}

impl Scale {
    /// The seven step widths of this scale, in order from the tonic.
    pub fn degrees(&self) -> (r: Vec<u8>)
        ensures
            r@.len() == 7,
            forall|i: int| 0 <= i < 7 ==> r@[i] as int == scale_step(*self, i),
    {
        match self {
            Scale::Major => vec![2, 2, 1, 2, 2, 2, 1],
            Scale::Minor => vec![2, 1, 2, 2, 1, 2, 2],
        }
    }

    /// Semitone distance of degree `degree` from the tonic.
    pub fn semitone(&self, degree: u8) -> (r: u8)
        requires
            1 <= degree <= 13,
        ensures
            r as int == scale_semitone(*self, degree as int),
            degree - 1 <= r <= 24,
    {
        proof {
            lemma_scale_semitone_bounds(*self, degree as int);
        }
        let steps = self.degrees();
        let mut semitone: u8 = 0;
        let mut i: usize = 0;
        while i < degree as usize - 1
            invariant
                i <= degree - 1,
                degree <= 13,
                steps@.len() == 7,
                forall|j: int| 0 <= j < 7 ==> steps@[j] as int == scale_step(*self, j),
                semitone as int == scale_semitone(*self, i as int + 1),
                semitone <= 2 * i,
            decreases degree as usize - 1 - i,
        {
            proof {
                lemma_scale_semitone_bounds(*self, i as int + 2);
                assert((i as int % 7) % 7 == i as int % 7);
                assert(steps@[i as int % 7] as int == scale_step(*self, i as int % 7));
                assert(scale_step(*self, i as int % 7) == scale_step(*self, i as int));
                assert(steps@[i as int % 7] as int == scale_step(*self, i as int));
                assert(
                    scale_semitone(*self, i as int + 2)
                    == scale_semitone(*self, i as int + 1) + scale_step(*self, i as int)
                );
            }
            semitone = semitone + steps[i % 7];
            i = i + 1;
        }
        semitone
    }

    /// The semitone distances of several degrees at once.
    pub fn semitones(&self, degrees: &[u8]) -> (r: Vec<u8>)
        requires
            forall|i: int| 0 <= i < degrees@.len() ==> 1 <= #[trigger] degrees@[i] <= 13,
        ensures
            r@.len() == degrees@.len(),
            forall|i: int|
                0 <= i < degrees@.len() ==> r@[i] as int == scale_semitone(
                    *self,
                    #[trigger] degrees@[i] as int,
                ),
    {
        let mut r: Vec<u8> = Vec::new();
        let mut i: usize = 0;
        while i < degrees.len()
            invariant
                i <= degrees@.len(),
                r@.len() == i,
                forall|j: int| 0 <= j < degrees@.len() ==> 1 <= #[trigger] degrees@[j] <= 13,
                forall|j: int|
                    0 <= j < i ==> r@[j] as int == scale_semitone(
                        *self,
                        #[trigger] degrees@[j] as int,
                    ),
            decreases degrees@.len() - i,
        {
            r.push(self.semitone(degrees[i]));
            i = i + 1;
        }
        r
    }
}

/// A scale position (1 through 7) together with an accidental, as used for
/// roman-numeral keys and tensions.
#[derive(Debug, Copy, Clone, PartialEq, Eq, Structural)]
pub struct Degree(pub u8, pub Accidental);

/// The degree a semitone distance from the tonic folds back to: each of the
/// twelve distances is a natural or sharpened degree of the major scale.
pub open spec fn degree_of_semitone(s: int) -> Degree {
    if s == 0 {
        Degree(1, Accidental::Natural)
    } else if s == 1 {
        Degree(1, Accidental::Sharp)
    } else if s == 2 {
        Degree(2, Accidental::Natural)
    } else if s == 3 {
        Degree(2, Accidental::Sharp)
    } else if s == 4 {
        Degree(3, Accidental::Natural)
    } else if s == 5 {
        Degree(4, Accidental::Natural)
    } else if s == 6 {
        Degree(4, Accidental::Sharp)
    } else if s == 7 {
        Degree(5, Accidental::Natural)
    } else if s == 8 {
        Degree(5, Accidental::Sharp)
    } else if s == 9 {
        Degree(6, Accidental::Natural)
    } else if s == 10 {
        Degree(6, Accidental::Sharp)
    } else {
        Degree(7, Accidental::Natural)
    }
}

impl Degree {
    /// The degree that names the given semitone distance from a tonic.
    pub fn from_semitone(semitone: u8) -> (r: Degree)
        requires
            semitone < 12,
        ensures
            r == degree_of_semitone(semitone as int),
    {
        match semitone {
            0 => Degree(1, Accidental::Natural),
            1 => Degree(1, Accidental::Sharp),
            2 => Degree(2, Accidental::Natural),
            3 => Degree(2, Accidental::Sharp),
            4 => Degree(3, Accidental::Natural),
            5 => Degree(4, Accidental::Natural),
            6 => Degree(4, Accidental::Sharp),
            7 => Degree(5, Accidental::Natural),
            8 => Degree(5, Accidental::Sharp),
            9 => Degree(6, Accidental::Natural),
            10 => Degree(6, Accidental::Sharp),
            _ => Degree(7, Accidental::Natural),
        }
    }

    /// Shifts a pitch up by the degree's number and accidental, mod 12.
    pub fn with_pitch(&self, pitch: Pitch) -> (r: Pitch)
        requires
            1 <= self.0 <= 7,
        ensures
            r.u8_spec() == (pitch.u8_spec() + self.0 as int + self.1.offset_spec()) % 12,
    {
        let base: u8 = pitch.into_u8() + self.0;
        let shifted: u8 = match self.1 {
            Accidental::Flat => base - 1,
            Accidental::Natural => base,
            Accidental::Sharp => base + 1,
        };
        Pitch::from_u8(shifted % 12)
    }
}


/// The roman-with-suffix spelling of each of the twelve semitone
/// distances, as characters: natural degrees bare, the five raised ones
/// with a trailing sharp.
pub open spec fn roman_chars(s: int) -> Seq<char> {
    if s == 0 {
        seq!['I']
    } else if s == 1 {
        seq!['I', '#']
    } else if s == 2 {
        seq!['I', 'I']
    } else if s == 3 {
        seq!['I', 'I', '#']
    } else if s == 4 {
        seq!['I', 'I', 'I']
    } else if s == 5 {
        seq!['I', 'V']
    } else if s == 6 {
        seq!['I', 'V', '#']
    } else if s == 7 {
        seq!['V']
    } else if s == 8 {
        seq!['V', '#']
    } else if s == 9 {
        seq!['V', 'I']
    } else if s == 10 {
        seq!['V', 'I', '#']
    } else {
        seq!['V', 'I', 'I']
    }
}

/// The scale position a whole roman-numeral token names, when it names
/// one.
pub open spec fn roman_name_value(s: Seq<u8>) -> Option<u8> {
    if s.len() == 1 && s[0] == 'I' as u8 {
        Some(1u8)
    } else if s.len() == 2 && s[0] == 'I' as u8 && s[1] == 'I' as u8 {
        Some(2u8)
    } else if s.len() == 3 && s[0] == 'I' as u8 && s[1] == 'I' as u8 && s[2] == 'I' as u8 {
        Some(3u8)
    } else if s.len() == 2 && s[0] == 'I' as u8 && s[1] == 'V' as u8 {
        Some(4u8)
    } else if s.len() == 1 && s[0] == 'V' as u8 {
        Some(5u8)
    } else if s.len() == 2 && s[0] == 'V' as u8 && s[1] == 'I' as u8 {
        Some(6u8)
    } else if s.len() == 3 && s[0] == 'V' as u8 && s[1] == 'I' as u8 && s[2] == 'I' as u8 {
        Some(7u8)
    } else {
        None
    }
}

/// The roman-numeral spelling of a semitone distance from the tonic.
pub fn to_roman_str(semitone: u8) -> (r: &'static str)
    requires
        semitone < 12,
    ensures
        r@ == roman_chars(semitone as int),
{
    let r: &'static str = match semitone {
        0 => "I",
        1 => "I#",
        2 => "II",
        3 => "II#",
        4 => "III",
        5 => "IV",
        6 => "IV#",
        7 => "V",
        8 => "V#",
        9 => "VI",
        10 => "VI#",
        _ => "VII",
    };
    proof {
        reveal_strlit("I");
        reveal_strlit("I#");
        reveal_strlit("II");
        reveal_strlit("II#");
        reveal_strlit("III");
        reveal_strlit("IV");
        reveal_strlit("IV#");
        reveal_strlit("V");
        reveal_strlit("V#");
        reveal_strlit("VI");
        reveal_strlit("VI#");
        reveal_strlit("VII");
        assert(r@ =~= roman_chars(semitone as int));
    }
    r
}

/// The scale position a roman numeral names: `I` is 1 through `VII` is 7.
/// Any other token is a parse failure at position 0.
pub fn parser_roman_num(s: &[u8]) -> (r: Result<u8, ChordError>)
    ensures
        match r {
            Ok(d) => 1 <= d <= 7 && roman_name_value(s@) == Some(d),
            Err(e) => e == (ChordError::Parse { position: 0usize }) && roman_name_value(s@)
                is None,
        },
{
    if s.len() == 1 && s[0] == 'I' as u8 {
        Ok(1)
    } else if s.len() == 2 && s[0] == 'I' as u8 && s[1] == 'I' as u8 {
        Ok(2)
    } else if s.len() == 3 && s[0] == 'I' as u8 && s[1] == 'I' as u8 && s[2] == 'I' as u8 {
        Ok(3)
    } else if s.len() == 2 && s[0] == 'I' as u8 && s[1] == 'V' as u8 {
        Ok(4)
    } else if s.len() == 1 && s[0] == 'V' as u8 {
        Ok(5)
    } else if s.len() == 2 && s[0] == 'V' as u8 && s[1] == 'I' as u8 {
        Ok(6)
    } else if s.len() == 3 && s[0] == 'V' as u8 && s[1] == 'I' as u8 && s[2] == 'I' as u8 {
        Ok(7)
    } else {
        Err(ChordError::Parse { position: 0 })
    }
}

} // verus!
