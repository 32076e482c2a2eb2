//! Verified core of a concurrent document search and archival engine.
//!
//! Given a literal phrase and a set of root directories, the engine walks
//! each tree, extracts text from candidate documents, finds all
//! non-overlapping occurrences of the phrase with surrounding context,
//! merges the per-root results into one aggregate, and can bundle the
//! matching files into a single archive.
//!
//! The filesystem walk, the thread plumbing, the text extractor's own
//! fault boundary and the command line live in an unverified shell around
//! this crate; everything here is verified, with the calls into the
//! compressor, the checksum and the clock behind small trusted items.

pub mod archive;
pub mod coordinator;
pub mod matching;
pub mod panel;
pub mod results;
pub mod text;
pub mod walker;
