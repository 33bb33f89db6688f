//! Verified core of a single-pass object-detection task.
//!
//! The inference engine hands back raw candidate detections; this library
//! applies the class-probability threshold, picks the best class of each
//! detection, resolves class indices to labels, ranks the survivors by
//! descending confidence (stably, so equal confidences keep their input
//! order), and renders the ranked list in the fixed textual output layout.
//!
//! Probabilities are carried as fixed-point values in units of 1/10000
//! (so 10000 stands for certainty), which makes the two-decimal percentage
//! rendering of the output exact. Box coordinates are carried as the byte
//! text the engine rendered and are passed through to the output unchanged.

pub mod config;
pub mod detection;
pub mod format;
pub mod labels;
pub mod postprocess;
