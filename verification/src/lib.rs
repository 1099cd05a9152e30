//! Layout of a relationship timeline: a story told as a sequence of beats, each
//! of which sorts the cast into groups. Every entity is drawn as one coloured
//! line that bends, beat by beat, to the vertical slot of its current group.
pub mod color;
pub mod track;
pub mod layout;
pub mod curve;
pub mod timeline;
pub mod tokens;
pub mod lex;
pub mod parse;
