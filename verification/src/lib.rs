//! A pronunciation dictionary: a flat-text word-to-phonemes table is parsed
//! into an in-memory store, and single words are resolved to their phoneme
//! sequences, with a graceful fallback for unknown words.

pub mod parse;
pub mod service;
pub mod store;
pub mod text;
