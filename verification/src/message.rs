//! The messages that travel between the stages.

use vstd::prelude::*;

verus! {

/// What the chunk source sends to the hashing stage.
#[derive(Debug)]
pub enum HashChunk {
    /// A path, the chunk's sequence number within that path's stream, and
    /// the chunk's bytes.
    HashChunk(String, usize, Vec<u8>),
    /// No further chunk of this path will come.
    FileDone(String),
    /// No further message will come.
    Done,
}

/// What the hashing stage sends to the indexing stage.
#[derive(Debug)]
pub enum StoreHash {
    /// A path and the digest of the file's content.
    StoreHash(String, Vec<u8>),
    /// No further message will come.
    Done,
}

/// What the indexing stage sends back once it has drained.
#[derive(Debug)]
pub enum ProcessEnd {
    Done,
}

/// A `HashChunk` as a mathematical value.
pub ghost enum ChunkEvent {
    Chunk { path: Seq<char>, seq: int, data: Seq<u8> },
    FileDone { path: Seq<char> },
    Done,
}

/// A `StoreHash` as a mathematical value.
pub ghost enum DigestEvent {
    Digest { path: Seq<char>, digest: Seq<u8> },
    Done,
}

impl View for HashChunk {
    type V = ChunkEvent;

    open spec fn view(&self) -> ChunkEvent {
        match *self {
            HashChunk::HashChunk(path, seq, data) => ChunkEvent::Chunk {
                path: path@,
                seq: seq as int,
                data: data@,
            },
            HashChunk::FileDone(path) => ChunkEvent::FileDone { path: path@ },
            HashChunk::Done => ChunkEvent::Done,
        }
    }
}

impl View for StoreHash {
    type V = DigestEvent;

    open spec fn view(&self) -> DigestEvent {
        match *self {
            StoreHash::StoreHash(path, digest) => DigestEvent::Digest {
                path: path@,
                digest: digest@,
            },
            StoreHash::Done => DigestEvent::Done,
        }
    }
}

} // verus!
