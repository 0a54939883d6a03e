//! Verified core of a live lecture assistant: it segments captured speech,
//! cleans up transcripts, matches them against reference questions, strips
//! model "thinking" from streamed answers and frames the audio/text exchange
//! with the speech-recognition worker.
use vstd::prelude::*;

pub mod capture;
pub mod edit_distance;
pub mod filler;
pub mod generation;
pub mod prompt;
pub mod protocol;
pub mod sanitize;
pub mod similarity;
pub mod text;
pub mod think_filter;
pub mod transcript;

verus! {

} // verus!
