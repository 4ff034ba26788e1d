//! The hashing stage: one running digest per file in flight.

use vstd::prelude::*;
use vstd::hash_map::StringHashMap;
use crate::digest::{
    absorbed, clone_context, finish, for_sha256, new_context, sha256, update, DIGEST_LEN,
    MAX_DIGEST_INPUT,
};
use crate::message::{ChunkEvent, DigestEvent, HashChunk, StoreHash};

verus! {

/// What the stage keeps for one path: the sequence number of the last chunk
/// it folded in, and the bytes folded in so far.
#[verifier::ext_equal]
pub ghost struct Accumulator {
    pub last_seq: int,
    pub bytes: Seq<u8>,
}

/// The stage as a mathematical value: the accumulator of each path in flight.
pub type Accumulators = Map<Seq<char>, Accumulator>;

/// Whether the stage accepts a message in a given state. A chunk must carry
/// the number that its path's stream has reached, and must not take the
/// stream past what one digest can cover.
pub open spec fn admits(state: Accumulators, message: ChunkEvent) -> bool {
    match message {
        ChunkEvent::Chunk { path, seq, data } => if state.contains_key(path) {
            seq == state[path].last_seq + 1 && state[path].bytes.len() + data.len()
                <= MAX_DIGEST_INPUT
        } else {
            seq == 0 && data.len() <= MAX_DIGEST_INPUT
        },
        _ => true,
    }
}

/// The state after a message.
pub open spec fn next_state(state: Accumulators, message: ChunkEvent) -> Accumulators {
    match message {
        ChunkEvent::Chunk { path, seq, data } => if state.contains_key(path) {
            state.insert(path, Accumulator { last_seq: seq, bytes: state[path].bytes + data })
        } else {
            state.insert(path, Accumulator { last_seq: seq, bytes: data })
        },
        ChunkEvent::FileDone { path } => state.remove(path),
        ChunkEvent::Done => state,
    }
}

/// What a message makes the stage send downstream, if anything.
pub open spec fn emitted(state: Accumulators, message: ChunkEvent) -> Option<DigestEvent> {
    match message {
        ChunkEvent::Chunk { .. } => None,
        ChunkEvent::FileDone { path } => if state.contains_key(path) {
            Some(DigestEvent::Digest { path, digest: sha256(state[path].bytes) })
        } else {
            None
        },
        ChunkEvent::Done => Some(DigestEvent::Done),
    }
}

/// The running digest of one file: the number of the last chunk folded in,
/// the count of the bytes folded in, and the hash state.
struct WorkingContext {
    n: usize,
    fed: u64,
    context: ring::digest::Context,
}

impl WorkingContext {
    spec fn wf(self) -> bool {
        &&& for_sha256(self.context)
        &&& absorbed(self.context).len() == self.fed
        &&& self.fed <= MAX_DIGEST_INPUT
    }
}

impl View for WorkingContext {
    type V = Accumulator;

    closed spec fn view(&self) -> Accumulator {
        Accumulator { last_seq: self.n as int, bytes: absorbed(self.context) }
    }
}

/// The hashing stage.
pub struct HashingStage {
    in_process: StringHashMap<WorkingContext>,
}

impl View for HashingStage {
    type V = Accumulators;

    closed spec fn view(&self) -> Accumulators {
        Map::new(
            |path: Seq<char>| self.in_process@.contains_key(path),
            |path: Seq<char>| self.in_process@[path]@,
        )
    }
}

impl HashingStage {
    /// Every running digest is one for SHA-256, and its byte count is right
    /// and within what one digest can cover.
    pub closed spec fn wf(&self) -> bool {
        forall|path: Seq<char>| #[trigger]
            self.in_process@.contains_key(path) ==> self.in_process@[path].wf()
    }

    /// A stage with no file in flight.
    pub fn new() -> (stage: Self)
        ensures
            stage.wf(),
            stage@ == Map::<Seq<char>, Accumulator>::empty(),
    {
        let stage = HashingStage { in_process: StringHashMap::new() };
        assert(stage@ =~= Map::<Seq<char>, Accumulator>::empty());
        stage
    }

    /// Whether `step` may be called with this message.
    pub fn admits(&self, message: &HashChunk) -> (ok: bool)
        requires
            self.wf(),
        ensures
            ok == admits(self@, message@),
    {
        match message {
            HashChunk::HashChunk(path, n, buffer) => {
                match self.in_process.get(path.as_str()) {
                    Some(working) => {
                        *n > 0 && working.n == *n - 1 && buffer.len() as u64 <= MAX_DIGEST_INPUT
                            - working.fed
                    },
                    None => *n == 0 && buffer.len() as u64 <= MAX_DIGEST_INPUT,
                }
            },
            _ => true,
        }
    }

    /// Takes one message in: folds a chunk into its path's digest, or closes
    /// a path and hands out its digest, or passes the end of the stream on.
    pub fn step(&mut self, message: HashChunk) -> (out: Option<StoreHash>)
        requires
            old(self).wf(),
            admits(old(self)@, message@),
        ensures
            final(self).wf(),
            final(self)@ == next_state(old(self)@, message@),
            match out {
                Some(sent) => emitted(old(self)@, message@) == Some(sent@),
                None => emitted(old(self)@, message@).is_none(),
            },
            out matches Some(StoreHash::StoreHash(_, digest)) ==> digest@.len() == DIGEST_LEN,
    {
        match message {
            HashChunk::HashChunk(path, n, buffer) => {
                let (mut context, fed) = match self.in_process.get(path.as_str()) {
                    Some(working) => (clone_context(&working.context), working.fed),
                    None => (new_context(), 0),
                };
                update(&mut context, buffer.as_slice());
                let working = WorkingContext { n, fed: fed + buffer.len() as u64, context };
                self.in_process.insert(path, working);
                assert(self@ =~= next_state(old(self)@, message@));
                None
            },
            HashChunk::FileDone(path) => {
                let found = match self.in_process.get(path.as_str()) {
                    Some(working) => Some(clone_context(&working.context)),
                    None => None,
                };
                self.in_process.remove(path.as_str());
                assert(self@ =~= next_state(old(self)@, message@));
                match found {
                    Some(context) => Some(StoreHash::StoreHash(path, finish(context))),
                    None => None,
                }
            },
            HashChunk::Done => Some(StoreHash::Done),
        }
    }
}

/// The state after a sequence of messages.
pub open spec fn state_after(state: Accumulators, messages: Seq<ChunkEvent>) -> Accumulators
    decreases messages.len(),
{
    if messages.len() == 0 {
        state
    } else {
        next_state(state_after(state, messages.drop_last()), messages.last())
    }
}

/// Whether the stage accepts each message of a sequence in its turn.
pub open spec fn admits_all(state: Accumulators, messages: Seq<ChunkEvent>) -> bool
    decreases messages.len(),
{
    messages.len() == 0 || (admits_all(state, messages.drop_last()) && admits(
        state_after(state, messages.drop_last()),
        messages.last(),
    ))
}

/// The bytes of the chunks that a sequence of messages holds for one path,
/// in the order of the messages.
pub open spec fn payload(messages: Seq<ChunkEvent>, path: Seq<char>) -> Seq<u8>
    decreases messages.len(),
{
    if messages.len() == 0 {
        Seq::empty()
    } else {
        match messages.last() {
            ChunkEvent::Chunk { path: p, data, .. } if p == path => payload(
                messages.drop_last(),
                path,
            ) + data,
            _ => payload(messages.drop_last(), path),
        }
    }
}

/// The number of chunks that a sequence of messages holds for one path.
pub open spec fn chunk_count(messages: Seq<ChunkEvent>, path: Seq<char>) -> nat
    decreases messages.len(),
{
    if messages.len() == 0 {
        0
    } else {
        match messages.last() {
            ChunkEvent::Chunk { path: p, .. } if p == path => chunk_count(
                messages.drop_last(),
                path,
            ) + 1,
            _ => chunk_count(messages.drop_last(), path),
        }
    }
}

/// Whether a sequence of messages holds the end-of-file marker of a path.
pub open spec fn closes(messages: Seq<ChunkEvent>, path: Seq<char>) -> bool {
    exists|i: int|
        0 <= i < messages.len() && #[trigger] messages[i] == (ChunkEvent::FileDone { path })
}

/// The messages that carry the chunks of one file, numbered from 0.
pub open spec fn chunk_stream(path: Seq<char>, chunks: Seq<Seq<u8>>) -> Seq<ChunkEvent> {
    Seq::new(chunks.len(), |k: int| ChunkEvent::Chunk { path, seq: k, data: chunks[k] })
}

/// Messages that hold no chunk of a path hold no byte of it.
pub proof fn lemma_no_chunk_no_payload(messages: Seq<ChunkEvent>, path: Seq<char>)
    requires
        chunk_count(messages, path) == 0,
    ensures
        payload(messages, path) == Seq::<u8>::empty(),
    decreases messages.len(),
{
    if messages.len() > 0 {
        lemma_no_chunk_no_payload(messages.drop_last(), path);
    }
}

/// A path's stream is folded in order, whatever stands between its chunks.
///
/// Take a stage that does not hold `path`, and messages that it accepts, none
/// of them the end-of-file marker of `path`. Afterwards the stage holds
/// `path` exactly if a chunk of it came, and then its accumulator holds the
/// bytes of those chunks in their order and the number of the last one.
pub proof fn lemma_stream_accumulates(
    state: Accumulators,
    messages: Seq<ChunkEvent>,
    path: Seq<char>,
)
    requires
        !state.contains_key(path),
        !closes(messages, path),
        admits_all(state, messages),
    ensures
        state_after(state, messages).contains_key(path) <==> chunk_count(messages, path) > 0,
        chunk_count(messages, path) > 0 ==> state_after(state, messages)[path] == (Accumulator {
            last_seq: chunk_count(messages, path) - 1,
            bytes: payload(messages, path),
        }),
    decreases messages.len(),
{
    if messages.len() > 0 {
        let before = messages.drop_last();
        assert forall|i: int| 0 <= i < before.len() implies #[trigger] before[i] != (
        ChunkEvent::FileDone { path }) by {
            assert(messages[i] == before[i]);
        }
        lemma_stream_accumulates(state, before, path);
        assert(messages[messages.len() - 1] == messages.last());
        match messages.last() {
            ChunkEvent::Chunk { path: p, seq, data } => {
                if p == path && chunk_count(before, path) == 0 {
                    lemma_no_chunk_no_payload(before, path);
                    assert(Seq::<u8>::empty() + data =~= data);
                }
            },
            _ => {},
        }
    }
}

/// What closing a path's stream sends downstream: the SHA-256 digest of the
/// bytes of its chunks in their order, and nothing for a path of which no
/// chunk came.
pub proof fn lemma_digest_of_stream(
    state: Accumulators,
    messages: Seq<ChunkEvent>,
    path: Seq<char>,
)
    requires
        !state.contains_key(path),
        !closes(messages, path),
        admits_all(state, messages),
    ensures
        emitted(state_after(state, messages), ChunkEvent::FileDone { path }) == if chunk_count(
            messages,
            path,
        ) > 0 {
            Some(DigestEvent::Digest { path, digest: sha256(payload(messages, path)) })
        } else {
            None
        },
{
    lemma_stream_accumulates(state, messages, path);
}

/// The stage accepts the chunks of a file in their order, however the file
/// was cut, as long as one digest can cover the file: the numbers are the
/// ones it waits for, and the stream holds the file's bytes.
pub proof fn lemma_chunk_stream(state: Accumulators, path: Seq<char>, chunks: Seq<Seq<u8>>)
    requires
        !state.contains_key(path),
        chunks.flatten().len() <= MAX_DIGEST_INPUT,
    ensures
        admits_all(state, chunk_stream(path, chunks)),
        !closes(chunk_stream(path, chunks), path),
        chunk_count(chunk_stream(path, chunks), path) == chunks.len(),
        payload(chunk_stream(path, chunks), path) == chunks.flatten(),
    decreases chunks.len(),
{
    let stream = chunk_stream(path, chunks);
    chunks.lemma_flatten_and_flatten_alt_are_equivalent();
    if chunks.len() > 0 {
        let earlier = chunk_stream(path, chunks.drop_last());
        assert(stream.drop_last() =~= earlier);
        chunks.drop_last().lemma_flatten_and_flatten_alt_are_equivalent();
        lemma_chunk_stream(state, path, chunks.drop_last());
        lemma_stream_accumulates(state, earlier, path);
    }
}

/// Every way of cutting a file into chunks gives the digest of the whole
/// file: closing the stream of its chunks sends the SHA-256 digest of the
/// file's bytes.
pub proof fn lemma_digest_of_any_chunking(
    state: Accumulators,
    path: Seq<char>,
    chunks: Seq<Seq<u8>>,
)
    requires
        !state.contains_key(path),
        chunks.len() > 0,
        chunks.flatten().len() <= MAX_DIGEST_INPUT,
    ensures
        emitted(
            state_after(state, chunk_stream(path, chunks)),
            ChunkEvent::FileDone { path },
        ) == Some(DigestEvent::Digest { path, digest: sha256(chunks.flatten()) }),
{
    lemma_chunk_stream(state, path, chunks);
    lemma_digest_of_stream(state, chunk_stream(path, chunks), path);
}

/// The digest of a file does not depend on how its bytes were cut into
/// chunks, nor on what other files' messages stood between them: two streams
/// for one path whose chunks hold the same bytes in the same order give the
/// same digest.
pub proof fn lemma_chunking_invariance(
    state1: Accumulators,
    messages1: Seq<ChunkEvent>,
    state2: Accumulators,
    messages2: Seq<ChunkEvent>,
    path: Seq<char>,
)
    requires
        !state1.contains_key(path),
        !closes(messages1, path),
        admits_all(state1, messages1),
        !state2.contains_key(path),
        !closes(messages2, path),
        admits_all(state2, messages2),
        chunk_count(messages1, path) > 0,
        chunk_count(messages2, path) > 0,
        payload(messages1, path) == payload(messages2, path),
    ensures
        emitted(state_after(state1, messages1), ChunkEvent::FileDone { path }) == emitted(
            state_after(state2, messages2),
            ChunkEvent::FileDone { path },
        ),
        emitted(state_after(state1, messages1), ChunkEvent::FileDone { path }) == Some(
            DigestEvent::Digest { path, digest: sha256(payload(messages1, path)) },
        ),
{
    lemma_digest_of_stream(state1, messages1, path);
    lemma_digest_of_stream(state2, messages2, path);
}

} // verus!
