use vstd::prelude::*;

mod error;
mod midi;
mod pitch;
mod render;
mod scale;
mod parser;
mod score;
mod chord;
mod syntax;

pub use error::ChordError;
pub use pitch::Accidental;
pub use pitch::Pitch;
pub use scale::Degree;
pub use scale::Scale;
pub use scale::parser_roman_num;
pub use scale::to_roman_str;
pub use chord::Chord;
pub use chord::match_pitches;
pub use parser::RechordParser;
pub use parser::degree_from_str;
pub use parser::parse;
pub use parser::parse_key;
pub use parser::normalize;
pub use parser::parse_measure;
pub use render::RechordExporter;
pub use render::render;
pub use midi::MidiEvent;
pub use midi::into_note_numbers;
pub use midi::midi_events;
pub use score::Note;
pub use score::into_notes;
pub use score::measure_unit_size;
pub use syntax::Ast;
pub use syntax::ChordNode;
pub use syntax::Key;
pub use syntax::Node;
pub use syntax::Score;
pub use syntax::Modifier;

verus! {

} // verus!
