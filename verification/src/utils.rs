//! The pieces that the notations are read with and written from.
pub mod format;
pub mod parse;
pub mod text;
