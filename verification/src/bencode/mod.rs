//! Canonical Bencode: the value type, its byte-level model, the encoder,
//! the strict decoder and the key-ordering utilities.

pub mod model;
pub mod grammar;
pub mod lemmas;
pub mod sort;
pub mod decoder;
pub mod encoder;
pub mod laws;
pub mod canonical;
