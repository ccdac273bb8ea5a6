//! Structured decoding of stream sections into owned values.

pub mod attribute;
pub mod corner_table;
pub mod inverse_transform;
pub mod metadata;
pub mod seams;
pub mod uv_prediction;

use vstd::prelude::*;

verus! {

/// Decoder options. The decoder has no runtime configuration; the type
/// exists so that callers can pass one.
#[derive(Debug, Clone, Copy, Default)]
pub struct Config {}

} // verus!
