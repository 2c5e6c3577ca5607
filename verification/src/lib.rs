//! LexSift: sensitive-term detection, scanning and masking over Unicode text.
//!
//! Terms, whitelist phrases and input text are normalized with the same
//! options; matches found in the normalized text are mapped back to byte
//! ranges of the original text.

pub mod encoding;
pub mod unicode;
pub mod normalize;
pub mod order;
pub mod automaton;
pub mod text;
pub mod engine;
pub mod php;
pub mod laws;
