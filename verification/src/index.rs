//! The content index and the indexing stage that fills it.
//!
//! The index holds two relations: one row per distinct digest, numbered from
//! 1 in the order of their coming, and one row per path, under the
//! identifier of the path's digest.

use vstd::prelude::*;
use vstd::hash_map::StringHashMap;
use vstd::hash_set::StringHashSet;
use crate::digest::{hex_encode, hex_lower};
use crate::error::Error;
use crate::message::{DigestEvent, ProcessEnd, StoreHash};
use crate::order::{entries, record_order, sort_records, texts, Entry};

verus! {

/// The index as a mathematical value.
#[verifier::ext_equal]
pub ghost struct IndexView {
    /// The digests on record, in hexadecimal; the one at position `i` has
    /// the identifier `i + 1`.
    pub digests: Seq<Seq<char>>,
    /// The path records, in the order of their coming.
    pub files: Seq<Entry>,
}

impl IndexView {
    /// Whether a digest is on record.
    pub open spec fn has_digest(self, digest: Seq<char>) -> bool {
        self.digests.contains(digest)
    }

    /// The identifier of a digest that is on record.
    pub open spec fn identifier(self, digest: Seq<char>) -> int {
        self.digests.index_of(digest) + 1
    }

    /// Whether a path is on record.
    pub open spec fn has_path(self, path: Seq<char>) -> bool {
        exists|i: int| 0 <= i < self.files.len() && (#[trigger] self.files[i]).1 == path
    }

    /// Whether a new digest can still be given an identifier.
    pub open spec fn has_room(self) -> bool {
        self.digests.len() < u32::MAX
    }

    /// The index with a digest on record: unchanged where it was already.
    pub open spec fn with_digest(self, digest: Seq<char>) -> IndexView {
        if self.has_digest(digest) {
            self
        } else {
            IndexView { digests: self.digests.push(digest), files: self.files }
        }
    }

    /// The index with one more path record.
    pub open spec fn with_file(self, path: Seq<char>, identifier: u32) -> IndexView {
        IndexView { digests: self.digests, files: self.files.push((identifier, path)) }
    }

    /// No digest and no path is on record twice, and every identifier fits
    /// in 32 bits.
    pub open spec fn consistent(self) -> bool {
        &&& self.digests.no_duplicates()
        &&& self.digests.len() <= u32::MAX
        &&& forall|i: int, j: int|
            0 <= i < j < self.files.len() ==> (#[trigger] self.files[i]).1 != (
            #[trigger] self.files[j]).1
    }

    /// Every path record names the identifier of a digest on record.
    pub open spec fn referential(self) -> bool {
        forall|i: int|
            0 <= i < self.files.len() ==> 1 <= (#[trigger] self.files[i]).0 <= self.digests.len()
    }
}

/// The text of the error for a path that is on record already.
pub open spec fn duplicate_path_text() -> Seq<char> {
    "path is already on record"@
}

/// The text of the error for a new digest when every identifier is taken.
pub open spec fn no_identifier_text() -> Seq<char> {
    "no identifier is left for a new digest"@
}

/// A content-addressed index: digests by identifier, and paths by the
/// identifier of their digest.
pub struct ContentIndex {
    hashes: Vec<String>,
    ids: StringHashMap<u32>,
    files: Vec<(u32, String)>,
    paths: StringHashSet,
}

impl View for ContentIndex {
    type V = IndexView;

    closed spec fn view(&self) -> IndexView {
        IndexView { digests: texts(self.hashes@), files: entries(self.files@) }
    }
}

impl ContentIndex {
    /// The lookup tables agree with the two relations, and the relations
    /// are consistent.
    pub closed spec fn wf(&self) -> bool {
        &&& self.hashes@.len() <= u32::MAX
        &&& forall|i: int|
            0 <= i < self.hashes@.len() ==> self.ids@.contains_key((#[trigger] self.hashes@[i])@)
                && self.ids@[self.hashes@[i]@] == i + 1
        &&& forall|k: Seq<char>| #[trigger]
            self.ids@.contains_key(k) ==> 1 <= self.ids@[k] <= self.hashes@.len()
                && self.hashes@[self.ids@[k] - 1]@ == k
        &&& forall|p: Seq<char>| #[trigger]
            self.paths@.contains(p) <==> exists|j: int|
                0 <= j < self.files@.len() && (#[trigger] self.files@[j]).1@ == p
        &&& forall|i: int, j: int|
            0 <= i < j < self.files@.len() ==> (#[trigger] self.files@[i]).1@ != (
            #[trigger] self.files@[j]).1@
    }

    /// A well-formed index is consistent.
    pub proof fn lemma_consistent(&self)
        requires
            self.wf(),
        ensures
            self@.consistent(),
    {
        let digests = self@.digests;
        assert forall|i: int, j: int|
            0 <= i < digests.len() && 0 <= j < digests.len() && i != j implies digests[i]
            != digests[j] by {
            assert(self.ids@[self.hashes@[i]@] == i + 1);
            assert(self.ids@[self.hashes@[j]@] == j + 1);
        }
        assert forall|i: int, j: int| 0 <= i < j < self@.files.len() implies (
        #[trigger] self@.files[i]).1 != (#[trigger] self@.files[j]).1 by {
            assert(self.files@[i].1@ != self.files@[j].1@);
        }
    }

    /// An index with nothing on record.
    pub fn new() -> (index: Self)
        ensures
            index.wf(),
            index@.digests.len() == 0,
            index@.files.len() == 0,
    {
        ContentIndex {
            hashes: Vec::new(),
            ids: StringHashMap::new(),
            files: Vec::new(),
            paths: StringHashSet::new(),
        }
    }

    /// Puts a digest on record, unless it is there already, and gives its
    /// identifier. A new digest gets the next identifier after the last one
    /// given; it is refused once `u32::MAX` digests are on record.
    pub fn record(&mut self, digest: &str) -> (result: Result<u32, Error>)
        requires
            old(self).wf(),
        ensures
            final(self).wf(),
            match result {
                Ok(identifier) => {
                    &&& old(self)@.has_digest(digest@) || old(self)@.has_room()
                    &&& final(self)@ == old(self)@.with_digest(digest@)
                    &&& identifier == final(self)@.identifier(digest@)
                    &&& 1 <= identifier <= final(self)@.digests.len()
                    &&& final(self)@.digests[identifier - 1] == digest@
                },
                Err(error) => {
                    &&& !old(self)@.has_digest(digest@)
                    &&& !old(self)@.has_room()
                    &&& final(self)@ == old(self)@
                    &&& error matches Error::StorageError(text)
                    &&& text@ == no_identifier_text()
                },
            },
    {
        proof {
            self.lemma_consistent();
        }
        let ghost before = self@;
        match self.ids.get(digest) {
            Some(identifier) => {
                proof {
                    let at = *identifier - 1;
                    assert(before.digests[at] == digest@);
                    assert(before.digests.index_of(digest@) == at);
                }
                Ok(*identifier)
            },
            None => {
                proof {
                    if before.has_digest(digest@) {
                        let at = before.digests.index_of(digest@);
                        assert(self.ids@.contains_key(self.hashes@[at]@));
                    }
                }
                if self.hashes.len() >= u32::MAX as usize {
                    return Err(
                        Error::StorageError("no identifier is left for a new digest".to_owned()),
                    );
                }
                let identifier = (self.hashes.len() + 1) as u32;
                self.hashes.push(digest.to_owned());
                self.ids.insert(digest.to_owned(), identifier);
                proof {
                    assert(self@.digests =~= before.digests.push(digest@));
                    assert(self@.digests[identifier - 1] == digest@);
                    assert forall|i: int|
                        0 <= i < self.hashes@.len() implies self.ids@.contains_key(
                        (#[trigger] self.hashes@[i])@,
                    ) && self.ids@[self.hashes@[i]@] == i + 1 by {
                        if i < identifier - 1 {
                            assert(self.hashes@[i] == old(self).hashes@[i]);
                            assert(before.digests[i] == old(self).hashes@[i]@);
                            assert(before.has_digest(before.digests[i]));
                        }
                    }
                    assert forall|k: Seq<char>| #[trigger]
                        self.ids@.contains_key(k) implies 1 <= self.ids@[k] <= self.hashes@.len()
                        && self.hashes@[self.ids@[k] - 1]@ == k by {
                        if k != digest@ {
                            assert(old(self).ids@.contains_key(k));
                            assert(self.hashes@[self.ids@[k] - 1] == old(self).hashes@[old(
                                self,
                            ).ids@[k] - 1]);
                        }
                    }
                    self.lemma_consistent();
                    assert(self@.digests.index_of(digest@) == identifier - 1);
                }
                Ok(identifier)
            },
        }
    }

    /// Puts a path on record under an identifier. A path that is on record
    /// already is refused, and the index stays as it was.
    pub fn associate(&mut self, path: String, identifier: u32) -> (result: Result<(), Error>)
        requires
            old(self).wf(),
        ensures
            final(self).wf(),
            match result {
                Ok(()) => {
                    &&& !old(self)@.has_path(path@)
                    &&& final(self)@ == old(self)@.with_file(path@, identifier)
                },
                Err(error) => {
                    &&& old(self)@.has_path(path@)
                    &&& final(self)@ == old(self)@
                    &&& error matches Error::StorageError(text)
                    &&& text@ == duplicate_path_text()
                },
            },
    {
        let ghost before = self@;
        proof {
            if before.has_path(path@) {
                let at = choose|i: int|
                    0 <= i < before.files.len() && (#[trigger] before.files[i]).1 == path@;
                assert(self.files@[at].1@ == path@);
            }
            if self.paths@.contains(path@) {
                let at = choose|j: int|
                    0 <= j < self.files@.len() && (#[trigger] self.files@[j]).1@ == path@;
                assert(before.files[at].1 == path@);
            }
        }
        if self.paths.contains(path.as_str()) {
            return Err(Error::StorageError("path is already on record".to_owned()));
        }
        self.paths.insert(path.clone());
        self.files.push((identifier, path));
        proof {
            let last = self.files@.len() - 1;
            assert(self@.files =~= before.files.push((identifier, path@)));
            assert forall|p: Seq<char>| #[trigger]
                self.paths@.contains(p) <==> exists|j: int|
                    0 <= j < self.files@.len() && (#[trigger] self.files@[j]).1@ == p by {
                if p == path@ {
                    assert(self.files@[last].1@ == p);
                } else if old(self).paths@.contains(p) {
                    let at = choose|j: int|
                        0 <= j < old(self).files@.len() && (#[trigger] old(self).files@[j]).1@
                            == p;
                    assert(self.files@[at].1@ == p);
                } else if exists|j: int|
                    0 <= j < self.files@.len() && (#[trigger] self.files@[j]).1@ == p {
                    let at = choose|j: int|
                        0 <= j < self.files@.len() && (#[trigger] self.files@[j]).1@ == p;
                    assert(old(self).files@[at].1@ == p);
                }
            }
            assert forall|i: int, j: int| 0 <= i < j < self.files@.len() implies (
            #[trigger] self.files@[i]).1@ != (#[trigger] self.files@[j]).1@ by {
                if j == last {
                    assert(old(self).files@[i].1@ != path@);
                } else {
                    assert(old(self).files@[i].1@ != old(self).files@[j].1@);
                }
            }
        }
        Ok(())
    }

    /// Every path record with its identifier, ordered by identifier and,
    /// among equal identifiers, by path.
    pub fn scan_ordered(&self) -> (scan: Vec<(u32, String)>)
        requires
            self.wf(),
        ensures
            entries(scan@) == self@.files.sort_by(record_order()),
    {
        sort_records(&self.files)
    }
}

/// What was put on record for one path.
#[derive(Debug)]
pub struct StoredHash {
    /// The identifier of the path's digest.
    pub hash_id: u32,
    /// The digest in lowercase hexadecimal.
    pub hash: String,
    /// The path that was filed.
    pub pathname: String,
}

/// What `store_hash` leaves behind and hands back: the index `before`, a
/// path and its digest in hexadecimal, the index `after`, and the result.
///
/// The digest is put on record first, so it stays on record where the path
/// is then refused.
pub open spec fn store_hash_outcome(
    before: IndexView,
    path: Seq<char>,
    hash: Seq<char>,
    after: IndexView,
    result: Result<StoredHash, Error>,
) -> bool {
    if !before.has_digest(hash) && !before.has_room() {
        &&& after == before
        &&& result matches Err(Error::StorageError(text))
        &&& text@ == no_identifier_text()
    } else if before.has_path(path) {
        &&& after == before.with_digest(hash)
        &&& result matches Err(Error::StorageError(text))
        &&& text@ == duplicate_path_text()
    } else {
        &&& result matches Ok(stored)
        &&& stored.hash_id == before.with_digest(hash).identifier(hash)
        &&& 1 <= stored.hash_id <= after.digests.len()
        &&& after.digests[stored.hash_id - 1] == hash
        &&& stored.hash@ == hash
        &&& stored.pathname@ == path
        &&& after == before.with_digest(hash).with_file(path, stored.hash_id)
    }
}

/// Files a path under the identifier of its digest: puts the digest on
/// record in lowercase hexadecimal, unless it is there already, and then the
/// path under the digest's identifier.
pub fn store_hash(index: &mut ContentIndex, path: String, digest: &[u8]) -> (result: Result<
    StoredHash,
    Error,
>)
    requires
        old(index).wf(),
        digest@.len() <= usize::MAX / 512,
    ensures
        final(index).wf(),
        store_hash_outcome(old(index)@, path@, hex_lower(digest@), final(index)@, result),
{
    let hash = hex_encode(digest);
    let hash_id = match index.record(hash.as_str()) {
        Ok(identifier) => identifier,
        Err(error) => {
            return Err(error);
        },
    };
    match index.associate(path.clone(), hash_id) {
        Ok(()) => Ok(StoredHash { hash_id, hash, pathname: path }),
        Err(error) => Err(error),
    }
}

/// What the indexing stage did with a message.
#[derive(Debug)]
pub enum Indexed {
    /// A path was put on record.
    Stored(StoredHash),
    /// The stream has ended; the message is for the orchestrator.
    Drained(ProcessEnd),
}

/// The indexing stage: it owns the index and files every digest it is sent.
pub struct IndexingStage {
    index: ContentIndex,
}

impl View for IndexingStage {
    type V = IndexView;

    closed spec fn view(&self) -> IndexView {
        self.index@
    }
}

impl IndexingStage {
    /// The index is well-formed, and every path record names a digest on
    /// record.
    pub closed spec fn wf(&self) -> bool {
        self.index.wf() && self.index@.referential()
    }

    /// What holds of the index of a well-formed stage.
    pub proof fn lemma_consistent(&self)
        requires
            self.wf(),
        ensures
            self@.consistent(),
            self@.referential(),
    {
        self.index.lemma_consistent();
    }

    /// A stage with an empty index.
    pub fn new() -> (stage: Self)
        ensures
            stage.wf(),
            stage@.digests.len() == 0,
            stage@.files.len() == 0,
    {
        IndexingStage { index: ContentIndex::new() }
    }

    /// Takes one message in: files a path under its digest, or reports that
    /// the stream has ended.
    pub fn step(&mut self, message: StoreHash) -> (result: Result<Indexed, Error>)
        requires
            old(self).wf(),
            message@ matches DigestEvent::Digest { digest, .. } ==> digest.len() <= usize::MAX
                / 512,
        ensures
            final(self).wf(),
            match message@ {
                DigestEvent::Digest { path, digest } => match result {
                    Ok(Indexed::Stored(stored)) => store_hash_outcome(
                        old(self)@,
                        path,
                        hex_lower(digest),
                        final(self)@,
                        Ok(stored),
                    ),
                    Ok(Indexed::Drained(_)) => false,
                    Err(error) => store_hash_outcome(
                        old(self)@,
                        path,
                        hex_lower(digest),
                        final(self)@,
                        Err(error),
                    ),
                },
                DigestEvent::Done => result matches Ok(Indexed::Drained(_)) && final(self)@ == old(
                    self,
                )@,
            },
    {
        match message {
            StoreHash::StoreHash(path, digest) => {
                proof {
                    self.index.lemma_consistent();
                }
                let ghost before = self.index@;
                let ghost hash = hex_lower(digest@);
                let result = store_hash(&mut self.index, path, digest.as_slice());
                proof {
                    let after = self.index@;
                    let grown = before.with_digest(hash);
                    if !before.has_digest(hash) {
                        assert(before.digests.push(hash)[before.digests.len() as int] == hash);
                    }
                    assert forall|i: int| 0 <= i < after.files.len() implies 1 <= (
                    #[trigger] after.files[i]).0 <= after.digests.len() by {
                        if i < before.files.len() {
                            assert(after.files[i] == before.files[i]);
                        } else {
                            assert(grown.has_digest(hash));
                        }
                    }
                }
                match result {
                    Ok(stored) => Ok(Indexed::Stored(stored)),
                    Err(error) => Err(error),
                }
            },
            StoreHash::Done => Ok(Indexed::Drained(ProcessEnd::Done)),
        }
    }

    /// The index that the stage has filled.
    pub fn index(&self) -> (index: &ContentIndex)
        requires
            self.wf(),
        ensures
            index.wf(),
            index@ == self@,
    {
        &self.index
    }
}

/// Two digests on record have one identifier only where they are one
/// digest, and an identifier is the place of its digest, counted from 1.
pub proof fn lemma_identifier_unique(index: IndexView, a: Seq<char>, b: Seq<char>)
    requires
        index.consistent(),
        index.has_digest(a),
        index.has_digest(b),
    ensures
        1 <= index.identifier(a) <= index.digests.len(),
        index.digests[index.identifier(a) - 1] == a,
        index.identifier(a) == index.identifier(b) <==> a == b,
{
}

/// Putting a digest on record changes no identifier that was given before,
/// and a digest that is new gets the identifier after the last one given:
/// identifiers ascend in the order in which the digests were first seen.
pub proof fn lemma_with_digest(index: IndexView, digest: Seq<char>)
    requires
        index.consistent(),
        index.has_digest(digest) || index.has_room(),
    ensures
        index.with_digest(digest).consistent(),
        index.with_digest(digest).has_digest(digest),
        !index.has_digest(digest) ==> index.with_digest(digest).identifier(digest)
            == index.digests.len() + 1,
        forall|other: Seq<char>| #[trigger]
            index.has_digest(other) ==> index.with_digest(digest).has_digest(other)
                && index.with_digest(digest).identifier(other) == index.identifier(other),
{
    let grown = index.with_digest(digest);
    if !index.has_digest(digest) {
        let last = index.digests.len() as int;
        assert(grown.digests[last] == digest);
        let digests = grown.digests;
        assert forall|i: int, j: int|
            0 <= i < digests.len() && 0 <= j < digests.len() && i != j implies digests[i]
            != digests[j] by {
            if i < last && j < last {
                assert(index.digests[i] != index.digests[j]);
            } else if i < last {
                assert(index.digests[i] == grown.digests[i]);
            } else {
                assert(index.digests[j] == grown.digests[j]);
            }
        }
        assert forall|other: Seq<char>| #[trigger] index.has_digest(other) implies grown.has_digest(
            other,
        ) && grown.identifier(other) == index.identifier(other) by {
            let at = index.digests.index_of(other);
            assert(grown.digests[at] == other);
        }
    }
}

} // verus!
