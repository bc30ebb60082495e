use vstd::prelude::*;

verus! {

/// The closed set of failures the pipeline can report.  Every fallible
/// operation of the library returns one of these; nothing panics.
#[derive(Debug, Clone, PartialEq)]
pub enum ChordError {
    /// The source text did not match the grammar; `position` is the byte
    /// offset at which no production could continue.
    Parse { position: usize },
    /// A modifier carried a degree number for which no chord shape is
    /// defined (for example a major shape on degree 11).
    UnknownModifier { degree: u8 },
    /// A measure held a node count outside {1, 2, 4, 8, 16}.
    InvalidMeasureLength { n: usize },
    /// A degree-rooted node was interpreted without a tonic.
    MissingTonic,
    /// An operation needed two keys in the same frame but met an absolute
    /// key on one side and a relative key on the other.
    KeyTypeMismatch,
}

impl ChordError {
    /// A short human-readable account of the error, for reporting at the
    /// program boundary.
    pub fn describe(&self) -> &'static str {
        match self {
            ChordError::Parse { .. } => "text does not match the grammar",
            ChordError::UnknownModifier { .. } => "unknown modifier",
            ChordError::InvalidMeasureLength { .. } => "invalid measure length",
            ChordError::MissingTonic => "key is not set",
            ChordError::KeyTypeMismatch => "key type mismatch",
        }
    }
}

} // verus!
