//! Duplicate-file detection as a verified core.
//!
//! The crate holds the rules of a duplicate finder and none of its input or
//! output: which directory entries a walk visits, how files are bucketed by
//! size and then by content digest, and how a batch removal reports its first
//! failure. A caller performs the directory listings, the reads and the
//! deletions, and hands the outcomes to the state machines defined here.
//!
//! - [`walk`]: the tree walker, and [`walk_laws`]: what a whole walk reports.
//! - [`grouping`] and [`buckets`]: which positions of a list bear the same key.
//! - [`digest`]: the digest of a file's content, fed read by read.
//! - [`detect`]: the detector, and [`detect_laws`]: what a whole detection
//!   ends with.
//! - [`remove`]: a batch removal that stops at its first failure.
//! - [`config`]: the settings of a run.

pub mod buckets;
pub mod config;
pub mod detect;
pub mod detect_laws;
pub mod digest;
pub mod grouping;
pub mod remove;
pub mod walk;
pub mod walk_laws;
