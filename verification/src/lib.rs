//! Span-indexing and slice-relevance metrics.
//!
//! Given the lexical tokens of a function body, rebased into the source
//! file's global byte-offset coordinates, and a set of externally computed
//! relevant sub-ranges describing a program slice, this library computes,
//! per function and per slice direction, how many tokens and source lines
//! the slice touches and how those lines are distributed across the
//! function (an interquartile dispersion measure).

pub mod config;
pub mod lines;
pub mod metrics;
pub mod seq_util;
pub mod span;
pub mod tokens;
pub mod visitor;
