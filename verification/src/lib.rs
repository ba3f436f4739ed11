//! Trend-score acquisition and aggregation for translated news descriptions.
//!
//! The crate models the pipeline's core: tokenizing translated text into
//! word sets, removing the vocabulary common to every translation variant,
//! resolving per-word popularity scores through a single-flight cache backed
//! by a durable store, and laying out the resulting report tables.

pub mod analyze;
pub mod input;
pub mod output;
pub mod rate_limiter;
pub mod scoring;
pub mod translate;
pub mod urls;
