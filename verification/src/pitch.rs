use vstd::prelude::*;

verus! {

/// One of the twelve chromatic pitch classes, C upward in semitone steps.
#[derive(Debug, Copy, Clone, PartialEq, Eq, Structural)]
pub enum Pitch {
    C,
    Cs,
    D,
    Ds,
    E,
    F,
    Fs,
    G,
    Gs,
    A,
    As,
    B,
}

/// A chromatic alteration of a scale degree: none, one semitone up, or one down.
#[derive(Debug, Copy, Clone, PartialEq, Eq, Structural)]
pub enum Accidental {
    Natural,
    Sharp,
    Flat,
}

impl Accidental {
    /// The signed semitone offset this accidental stands for.
    pub open spec fn offset_spec(self) -> int {
        match self {
            Accidental::Natural => 0,
            Accidental::Sharp => 1,
            Accidental::Flat => -1,
        }
    }

    /// The signed semitone offset: 0 for natural, +1 for sharp, -1 for flat.
    pub fn offset(self) -> (r: i8)
        ensures
            r as int == self.offset_spec(),
    {
        match self {
            Accidental::Natural => 0,
            Accidental::Sharp => 1,
            Accidental::Flat => -1,
        }
    }
}

impl Pitch {
    /// The semitone number of this pitch class, with C = 0 and B = 11.
    pub open spec fn u8_spec(self) -> int {
        match self {
            Pitch::C => 0,
            Pitch::Cs => 1,
            Pitch::D => 2,
            Pitch::Ds => 3,
            Pitch::E => 4,
            Pitch::F => 5,
            Pitch::Fs => 6,
            Pitch::G => 7,
            Pitch::Gs => 8,
            Pitch::A => 9,
            Pitch::As => 10,
            Pitch::B => 11,
        }
    }

    /// The pitch class standing for a semitone number below 12.
    pub open spec fn from_u8_spec(n: int) -> Pitch {
        if n == 0 {
            Pitch::C
        } else if n == 1 {
            Pitch::Cs
        } else if n == 2 {
            Pitch::D
        } else if n == 3 {
            Pitch::Ds
        } else if n == 4 {
            Pitch::E
        } else if n == 5 {
            Pitch::F
        } else if n == 6 {
            Pitch::Fs
        } else if n == 7 {
            Pitch::G
        } else if n == 8 {
            Pitch::Gs
        } else if n == 9 {
            Pitch::A
        } else if n == 10 {
            Pitch::As
        } else {
            Pitch::B
        }
    }

    /// Maps a semitone number in 0..12 to its pitch class.
    pub fn from_u8(n: u8) -> (r: Pitch)
        requires
            n < 12,
        ensures
            r == Pitch::from_u8_spec(n as int),
            r.u8_spec() == n as int,
    {
        match n {
            0 => Pitch::C,
            1 => Pitch::Cs,
            2 => Pitch::D,
            3 => Pitch::Ds,
            4 => Pitch::E,
            5 => Pitch::F,
            6 => Pitch::Fs,
            7 => Pitch::G,
            8 => Pitch::Gs,
            9 => Pitch::A,
            10 => Pitch::As,
            _ => Pitch::B,
        }
    }

    /// The semitone number of this pitch class, C = 0 through B = 11.
    pub fn into_u8(self) -> (r: u8)
        ensures
            r as int == self.u8_spec(),
            r < 12,
    {
        match self {
            Pitch::C => 0,
            Pitch::Cs => 1,
            Pitch::D => 2,
            Pitch::Ds => 3,
            Pitch::E => 4,
            Pitch::F => 5,
            Pitch::Fs => 6,
            Pitch::G => 7,
            Pitch::Gs => 8,
            Pitch::A => 9,
            Pitch::As => 10,
            Pitch::B => 11,
        }
    }

    /// The upward semitone distance from `other` to `self`, taken mod 12.
    pub open spec fn diff_spec(self, other: Pitch) -> int {
        (self.u8_spec() - other.u8_spec() + 12) % 12
    }

    /// Mod-12 difference between two pitch classes: how many semitones
    /// `self` sits above `other`.
    pub fn diff(&self, other: &Self) -> (r: u8)
        ensures
            r as int == self.diff_spec(*other),
            r < 12,
    {
        let a = self.into_u8();
        let b = other.into_u8();
        (a + 12 - b) % 12
    }
}

} // verus!
