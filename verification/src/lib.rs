//! Core logic of a directory-watching image normalizer.
//!
//! The library covers the event-coalescing pipeline that turns a noisy
//! stream of filesystem notifications into one debounced trigger per path,
//! the ignore filter that suppresses the normalizer's own feedback events,
//! the image transform (content bounding box, crop, scale, pad onto a
//! fixed canvas), the resilient decode retry policy, and the rotation
//! policy of the rolling log sink. File and watcher I/O live outside.

pub mod bbox;
pub mod coalesce;
pub mod errors;
pub mod filter;
pub mod imgio;
pub mod logsink;
pub mod normalize;
pub mod transform;
