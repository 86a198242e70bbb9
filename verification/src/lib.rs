//! Scans directory trees for version-controlled repositories and reports,
//! per branch, whether each one carries uncommitted local edits or has
//! diverged from its configured upstream.
//!
//! The crate is organised as a pipeline:
//! - [`crawler`] finds repository roots under one or more starting
//!   directories, pruning hidden directories and bounding the search depth;
//! - [`git`] turns per-repository observations into [`git::Changeset`]
//!   reports, one per branch;
//! - [`report`] holds the rendering decisions (quiet mode, path display);
//! - [`error`] enumerates the non-fatal failures a run can meet.

pub mod crawler;
pub mod error;
pub mod git;
pub mod report;
