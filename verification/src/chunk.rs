//! The chunk source: which entries of a walk are hashed, and how the bytes
//! read from one file become numbered chunks and an end-of-file marker.

use vstd::prelude::*;
use crate::message::{ChunkEvent, HashChunk};

verus! {

/// Whether a walked entry is hashed: only a regular file that holds at least
/// one byte is. Directories, other entries and empty files are passed over.
pub fn qualifies(is_file: bool, len: u64) -> (hashed: bool)
    ensures
        hashed == (is_file && len > 0),
{
    is_file && len != 0
}

/// The reader of one file as a mathematical value.
pub ghost struct SourceView {
    pub path: Seq<char>,
    /// The sequence number that the next chunk will carry.
    pub next_seq: int,
    /// Whether the end-of-file marker has been handed out.
    pub finished: bool,
}

/// The state of reading one file: its path and how many chunks have been
/// handed out.
pub struct ChunkSource {
    path: String,
    n: usize,
    finished: bool,
}

impl View for ChunkSource {
    type V = SourceView;

    closed spec fn view(&self) -> SourceView {
        SourceView { path: self.path@, next_seq: self.n as int, finished: self.finished }
    }
}

/// The message for one read: the end-of-file marker for a read of no bytes,
/// else a chunk of the bytes read, under the next sequence number.
pub open spec fn message_for(source: SourceView, buffer: Seq<u8>, size: int) -> ChunkEvent {
    if size == 0 {
        ChunkEvent::FileDone { path: source.path }
    } else {
        ChunkEvent::Chunk { path: source.path, seq: source.next_seq, data: buffer.take(size) }
    }
}

/// The reader after one read.
pub open spec fn after_read(source: SourceView, size: int) -> SourceView {
    if size == 0 {
        SourceView { finished: true, ..source }
    } else {
        SourceView { next_seq: source.next_seq + 1, ..source }
    }
}

impl ChunkSource {
    /// The reader of a file of which nothing has been read yet.
    pub fn new(path: String) -> (source: Self)
        ensures
            source@ == (SourceView { path: path@, next_seq: 0, finished: false }),
    {
        ChunkSource { path, n: 0, finished: false }
    }

    /// Whether the end-of-file marker has been handed out.
    pub fn is_finished(&self) -> (finished: bool)
        ensures
            finished == self@.finished,
    {
        self.finished
    }

    /// The sequence number that the next chunk will carry.
    pub fn next_seq(&self) -> (n: usize)
        ensures
            n == self@.next_seq,
    {
        self.n
    }

    /// Turns one read into a message. `buffer` is what was read into and
    /// `size` the number of bytes read: the chunk holds exactly those bytes,
    /// and a read of no bytes ends the file.
    pub fn next_message(&mut self, buffer: Vec<u8>, size: usize) -> (message: HashChunk)
        requires
            !old(self)@.finished,
            size <= buffer@.len(),
            size > 0 ==> old(self)@.next_seq < usize::MAX,
        ensures
            message@ == message_for(old(self)@, buffer@, size as int),
            final(self)@ == after_read(old(self)@, size as int),
    {
        if size == 0 {
            self.finished = true;
            HashChunk::FileDone(self.path.clone())
        } else {
            let mut data = buffer;
            data.truncate(size);
            let n = self.n;
            self.n = n + 1;
            HashChunk::HashChunk(self.path.clone(), n, data)
        }
    }
}

} // verus!
