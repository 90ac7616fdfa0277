//! A canonical binary encoding: one byte layout for each value, and a decoder
//! that rejects every other layout.
//!
//! - `uleb128`: the variable-length form of lengths and variant indices.
//! - `ser`: the encoder, including the ordering of map entries by key bytes.
//! - `de`: the decoder over an in-memory input, with its strict and streaming ends.
//! - `stream`: the decoder over any byte source.
//! - `io`: byte sinks and sources with full-transfer helpers.
//! - `error`: the failures shared by all of them.
use vstd::prelude::*;

pub mod de;
pub mod error;
pub mod io;
pub mod ser;
pub mod stream;
pub mod uleb128;

pub use de::Deserializer;
pub use error::{Error, Result};
pub use ser::Serializer;

verus! {

} // verus!
