//! Content-based duplicate detection: the stages of a hashing-and-indexing
//! pipeline, each as a state machine with a proved contract.
//!
//! A chunk source cuts every file into numbered chunks, the hashing stage
//! folds them into one SHA-256 digest per file, the indexing stage files each
//! path under the identifier of its digest, and the reporter reads the index
//! back and lists the paths that share one. A program runs the stages on
//! threads of its own and does the reading and the sending; `pipeline` runs
//! them in turn on files held in memory.

pub mod chunk;
pub mod digest;
pub mod error;
pub mod message;
pub mod hashing;
pub mod index;
pub mod order;
pub mod pipeline;
pub mod report;
