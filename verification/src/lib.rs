//! A byte-string pattern-matching index built on gapped fingerprints.
//!
//! The library preprocesses a fixed byte buffer once and then answers
//! repeated "find all offsets where pattern P occurs" queries: an
//! entropy estimate of the buffer picks a window length `k` and a set of
//! gap distances; for each gap, an open-addressed hash table maps the
//! combined fingerprint of two `k`-byte windows separated by that gap to
//! the sorted list of buffer offsets sharing it.  A query probes one
//! table per applicable gap, intersects the sorted candidate lists, and
//! verifies every surviving candidate against the real buffer bytes, so
//! the verified result is exactly the set of verbatim occurrences.

pub mod bucket;
pub mod entropy;
pub mod hashing;
pub mod index;
pub mod seqs;
