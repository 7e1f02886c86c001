//! Subtitle (SRT) rewriting: parsing, rule passes, bilingual merging and
//! re-serialisation, with the rule configuration they are driven by.

pub mod text;
pub mod srt;
pub mod rules;
pub mod config;
pub mod pipeline;
pub mod laws;
pub mod round_trip;
pub mod batch;
