//! The whole pipeline on files held in memory: every stage in turn, on one
//! thread.

use vstd::prelude::*;
use vstd::relations::sorted_by;
use vstd::slice::{slice_subrange, slice_to_vec};
use crate::chunk::{qualifies, ChunkSource};
use crate::digest::{
    hex_lower, lemma_hex_lower_injective, sha256, DIGEST_LEN, MAX_DIGEST_INPUT,
};
use crate::error::Error;
use crate::hashing::{Accumulator, HashingStage};
use crate::index::{
    duplicate_path_text, lemma_identifier_unique, lemma_with_digest, no_identifier_text, IndexView,
    IndexingStage,
};
use crate::message::StoreHash;
use crate::order::{lemma_record_order_total, path_order, record_order, texts, Entry};
use crate::report::{
    ascending_ids, groups_of, has_group, lemma_count_of_two, lemma_groups_of_ordered_scan,
    lines_of, report_duplicate_files, GroupView,
};

verus! {

/// A file as a mathematical value: its path and its content.
pub type FileView = (Seq<char>, Seq<u8>);

/// The mathematical value of a sequence of files.
pub open spec fn file_views(files: Seq<(String, Vec<u8>)>) -> Seq<FileView> {
    files.map_values(|file: (String, Vec<u8>)| (file.0@, file.1@))
}

/// The digest of a file's content as the index holds it.
pub open spec fn content_hash(content: Seq<u8>) -> Seq<char> {
    hex_lower(sha256(content))
}

/// The index with nothing on record.
pub open spec fn empty_index() -> IndexView {
    IndexView { digests: Seq::empty(), files: Seq::empty() }
}

/// The index after files have been hashed and filed in their order. A file
/// without content leaves no trace.
pub open spec fn filed(files: Seq<FileView>) -> IndexView
    decreases files.len(),
{
    if files.len() == 0 {
        empty_index()
    } else if files.last().1.len() == 0 {
        filed(files.drop_last())
    } else {
        let grown = filed(files.drop_last()).with_digest(content_hash(files.last().1));
        grown.with_file(files.last().0, grown.identifier(content_hash(files.last().1)) as u32)
    }
}

/// Whether the index takes every file: no two files with content share a
/// path, and no more distinct contents come than there are identifiers.
pub open spec fn fileable(files: Seq<FileView>) -> bool
    decreases files.len(),
{
    files.len() == 0 || {
        let before = filed(files.drop_last());
        &&& fileable(files.drop_last())
        &&& files.last().1.len() > 0 ==> {
            &&& !before.has_path(files.last().0)
            &&& before.has_digest(content_hash(files.last().1)) || before.has_room()
        }
    }
}

/// The text of the error that ends a run which the index does not take: that
/// for the first file it refuses.
pub open spec fn refusal(files: Seq<FileView>) -> Seq<char>
    decreases files.len(),
{
    if files.len() == 0 {
        Seq::empty()
    } else if !fileable(files.drop_last()) {
        refusal(files.drop_last())
    } else if !filed(files.drop_last()).has_digest(content_hash(files.last().1)) && !filed(
        files.drop_last(),
    ).has_room() {
        no_identifier_text()
    } else {
        duplicate_path_text()
    }
}

/// The ordered scan of the index after a run.
pub open spec fn scan_of(files: Seq<FileView>) -> Seq<Entry> {
    filed(files).files.sort_by(record_order())
}

/// The duplicate groups that a run reports.
pub open spec fn groups_found(files: Seq<FileView>) -> Seq<GroupView> {
    groups_of(scan_of(files))
}

/// What a run on files yields, whatever the size of its chunks: the report of
/// the index where the index takes every file, and else the error for the
/// first file that it refuses.
pub open spec fn outcome_of(files: Seq<FileView>, result: Result<Vec<String>, Error>) -> bool {
    &&& result is Ok <==> fileable(files)
    &&& result matches Ok(lines) ==> texts(lines@) == lines_of(scan_of(files))
    &&& result matches Err(error) ==> error matches Error::StorageError(text) && text@ == refusal(
        files,
    )
}

/// Sends one file's content through the hashing stage, cut into chunks of
/// `capacity` bytes, and hands back the digest that the stage sends on.
pub fn hash_content(
    stage: &mut HashingStage,
    path: &String,
    content: &[u8],
    capacity: usize,
) -> (out: Option<StoreHash>)
    requires
        old(stage).wf(),
        !old(stage)@.contains_key(path@),
        capacity > 0,
        content@.len() <= MAX_DIGEST_INPUT,
    ensures
        final(stage).wf(),
        final(stage)@ == old(stage)@,
        match out {
            Some(StoreHash::StoreHash(sent_path, digest)) => {
                &&& content@.len() > 0
                &&& sent_path@ == path@
                &&& digest@ == sha256(content@)
                &&& digest@.len() == DIGEST_LEN
            },
            Some(StoreHash::Done) => false,
            None => content@.len() == 0,
        },
{
    let ghost start = stage@;
    let mut source = ChunkSource::new(path.clone());
    let mut offset: usize = 0;
    while offset < content.len()
        invariant
            offset <= content.len(),
            capacity > 0,
            content@.len() <= MAX_DIGEST_INPUT,
            !start.contains_key(path@),
            stage.wf(),
            source@.path == path@,
            !source@.finished,
            0 <= source@.next_seq <= offset,
            offset == 0 ==> stage@ == start && source@.next_seq == 0,
            offset > 0 ==> source@.next_seq > 0 && stage@ == start.insert(
                path@,
                Accumulator { last_seq: source@.next_seq - 1, bytes: content@.take(offset as int) },
            ),
        decreases content.len() - offset,
    {
        let left = content.len() - offset;
        let size = if left < capacity { left } else { capacity };
        let buffer = slice_to_vec(slice_subrange(content, offset, offset + size));
        let message = source.next_message(buffer, size);
        proof {
            assert(buffer@.take(size as int) =~= buffer@);
            assert(content@.take(offset as int) + buffer@ =~= content@.take(offset + size));
            if offset == 0 {
                assert(buffer@ =~= content@.take(size as int));
            }
        }
        let out = stage.step(message);
        assert(out.is_none());
        offset = offset + size;
    }
    let end = source.next_message(Vec::new(), 0);
    let out = stage.step(end);
    proof {
        assert(content@.take(content@.len() as int) =~= content@);
        assert(stage@ =~= start);
    }
    out
}

/// Finds the duplicates among files held in memory.
///
/// Every file with content is cut into chunks of `capacity` bytes and hashed,
/// and its path is filed under the identifier of its digest; files without
/// content are passed over. The result is the report of the index: one line
/// for each digest that two paths or more share. The run fails where a path
/// comes twice, or where the identifiers run out.
pub fn find_duplicates(files: &Vec<(String, Vec<u8>)>, capacity: usize) -> (result: Result<
    Vec<String>,
    Error,
>)
    requires
        capacity > 0,
        forall|i: int|
            0 <= i < files@.len() ==> (#[trigger] files@[i]).1@.len() <= MAX_DIGEST_INPUT,
    ensures
        outcome_of(file_views(files@), result),
{
    let ghost views = file_views(files@);
    let mut hashing = HashingStage::new();
    let mut indexing = IndexingStage::new();
    let mut i: usize = 0;
    proof {
        assert(indexing@ =~= filed(views.take(0)));
    }
    while i < files.len()
        invariant
            i <= files.len(),
            capacity > 0,
            views == file_views(files@),
            forall|k: int|
                0 <= k < files@.len() ==> (#[trigger] files@[k]).1@.len() <= MAX_DIGEST_INPUT,
            hashing.wf(),
            hashing@ == Map::<Seq<char>, Accumulator>::empty(),
            indexing.wf(),
            fileable(views.take(i as int)),
            indexing@ == filed(views.take(i as int)),
        decreases files.len() - i,
    {
        let path = &files[i].0;
        let content = &files[i].1;
        proof {
            assert(views.take(i + 1).drop_last() =~= views.take(i as int));
            assert(views.take(i + 1).last() == (path@, content@));
        }
        if qualifies(true, content.len() as u64) {
            let sent = hash_content(&mut hashing, path, content.as_slice(), capacity);
            match sent {
                Some(message) => {
                    match indexing.step(message) {
                        Ok(_) => {},
                        Err(error) => {
                            proof {
                                if fileable(views) {
                                    lemma_fileable_prefix(views, i + 1);
                                }
                                lemma_refusal_prefix(views, i + 1);
                            }
                            return Err(error);
                        },
                    }
                },
                None => {},
            }
        }
        i += 1;
    }
    proof {
        assert(views.take(files@.len() as int) =~= views);
    }
    let scan = indexing.index().scan_ordered();
    Ok(report_duplicate_files(scan))
}

/// What stops a prefix of the files stops them all.
pub proof fn lemma_fileable_prefix(files: Seq<FileView>, n: int)
    requires
        0 <= n <= files.len(),
        fileable(files),
    ensures
        fileable(files.take(n)),
    decreases files.len(),
{
    if n < files.len() {
        lemma_fileable_prefix(files.drop_last(), n);
        assert(files.drop_last().take(n) =~= files.take(n));
    } else {
        assert(files.take(n) =~= files);
    }
}

/// The file that stops a prefix of the files decides the error of the run.
pub proof fn lemma_refusal_prefix(files: Seq<FileView>, n: int)
    requires
        0 <= n <= files.len(),
        !fileable(files.take(n)),
    ensures
        refusal(files) == refusal(files.take(n)),
    decreases files.len(),
{
    if n < files.len() {
        assert(files.drop_last().take(n) =~= files.take(n));
        if fileable(files.drop_last()) {
            lemma_fileable_prefix(files.drop_last(), n);
        }
        lemma_refusal_prefix(files.drop_last(), n);
    } else {
        assert(files.take(n) =~= files);
    }
}

/// The record that the index holds for a file with content.
pub open spec fn record_of(index: IndexView, file: FileView) -> Entry {
    (index.identifier(content_hash(file.1)) as u32, file.0)
}

/// Whether a record is that of one of the files with content.
pub open spec fn stems_from(index: IndexView, record: Entry, files: Seq<FileView>) -> bool {
    exists|i: int|
        0 <= i < files.len() && (#[trigger] files[i]).1.len() > 0 && record == record_of(
            index,
            files[i],
        )
}

/// Whether a digest is that of one of the files with content.
pub open spec fn digest_stems_from(digest: Seq<char>, files: Seq<FileView>) -> bool {
    exists|i: int|
        0 <= i < files.len() && (#[trigger] files[i]).1.len() > 0 && digest == content_hash(
            files[i].1,
        )
}

/// Whether an index holds one record for each file with content, under the
/// identifier of the content's digest, and nothing else: no record and no
/// digest without a file with content that it stems from.
pub open spec fn accounts_for(index: IndexView, files: Seq<FileView>) -> bool {
    &&& index.consistent()
    &&& index.referential()
    &&& forall|i: int|
        0 <= i < files.len() && (#[trigger] files[i]).1.len() > 0 ==> index.has_digest(
            content_hash(files[i].1),
        ) && index.files.contains(record_of(index, files[i]))
    &&& forall|record: Entry|
        index.files.contains(record) ==> #[trigger] stems_from(index, record, files)
    &&& forall|digest: Seq<char>|
        index.has_digest(digest) ==> #[trigger] digest_stems_from(digest, files)
}

/// A file without content changes nothing of what the index accounts for.
proof fn lemma_accounts_for_skipped(index: IndexView, earlier: Seq<FileView>, file: FileView)
    requires
        accounts_for(index, earlier),
        file.1.len() == 0,
    ensures
        accounts_for(index, earlier.push(file)),
{
    let files = earlier.push(file);
    assert forall|i: int|
        0 <= i < files.len() && (#[trigger] files[i]).1.len() > 0 implies index.has_digest(
        content_hash(files[i].1),
    ) && index.files.contains(record_of(index, files[i])) by {
        assert(files[i] == earlier[i]);
    }
    assert forall|record: Entry| index.files.contains(record) implies #[trigger] stems_from(
        index,
        record,
        files,
    ) by {
        assert(stems_from(index, record, earlier));
        let i = choose|i: int|
            0 <= i < earlier.len() && (#[trigger] earlier[i]).1.len() > 0 && record == record_of(
                index,
                earlier[i],
            );
        assert(files[i] == earlier[i]);
    }
    assert forall|digest: Seq<char>| index.has_digest(digest) implies #[trigger] digest_stems_from(
        digest,
        files,
    ) by {
        assert(digest_stems_from(digest, earlier));
        let i = choose|i: int|
            0 <= i < earlier.len() && (#[trigger] earlier[i]).1.len() > 0 && digest
                == content_hash(earlier[i].1);
        assert(files[i] == earlier[i]);
    }
}

/// A file with content that the index takes is accounted for afterwards.
proof fn lemma_accounts_for_filed(before: IndexView, earlier: Seq<FileView>, file: FileView)
    requires
        accounts_for(before, earlier),
        file.1.len() > 0,
        !before.has_path(file.0),
        before.has_digest(content_hash(file.1)) || before.has_room(),
    ensures
        accounts_for(
            before.with_digest(content_hash(file.1)).with_file(
                file.0,
                before.with_digest(content_hash(file.1)).identifier(content_hash(file.1)) as u32,
            ),
            earlier.push(file),
        ),
{
    let files = earlier.push(file);
    let last = earlier.len() as int;
    let hash = content_hash(file.1);
    let grown = before.with_digest(hash);
    let id = grown.identifier(hash);
    let after = grown.with_file(file.0, id as u32);
    let added = before.files.len() as int;
    lemma_with_digest(before, hash);
    lemma_identifier_unique(grown, hash, hash);
    assert(after.files[added] == record_of(after, file));
    assert(files[last] == file);
    assert forall|at: int| 0 <= at < added implies #[trigger] after.files[at]
        == before.files[at] by {}
    assert(after.consistent()) by {
        assert forall|i: int, j: int| 0 <= i < j < after.files.len() implies (
        #[trigger] after.files[i]).1 != (#[trigger] after.files[j]).1 by {
            if j < added {
                assert(before.files[i].1 != before.files[j].1);
            } else {
                assert(after.files[i] == before.files[i]);
            }
        }
    }
    assert(after.referential()) by {
        assert forall|i: int| 0 <= i < after.files.len() implies 1 <= (
        #[trigger] after.files[i]).0 <= after.digests.len() by {
            if i < added {
                assert(after.files[i] == before.files[i]);
            }
        }
    }
    assert forall|i: int|
        0 <= i < files.len() && (#[trigger] files[i]).1.len() > 0 implies after.has_digest(
        content_hash(files[i].1),
    ) && after.files.contains(record_of(after, files[i])) by {
        if i < last {
            assert(earlier[i] == files[i]);
            assert(before.has_digest(content_hash(files[i].1)));
            let record = record_of(before, files[i]);
            assert(before.files.contains(record));
            let at = choose|at: int| 0 <= at < before.files.len() && before.files[at] == record;
            assert(after.files[at] == record);
        }
    }
    assert forall|record: Entry| after.files.contains(record) implies #[trigger] stems_from(
        after,
        record,
        files,
    ) by {
        let at = choose|at: int| 0 <= at < after.files.len() && after.files[at] == record;
        if at < added {
            assert(before.files[at] == record);
            assert(before.files.contains(record));
            assert(stems_from(before, record, earlier));
            let i = choose|i: int|
                0 <= i < earlier.len() && (#[trigger] earlier[i]).1.len() > 0 && record
                    == record_of(before, earlier[i]);
            assert(files[i] == earlier[i]);
            assert(before.has_digest(content_hash(files[i].1)));
            assert(record == record_of(after, files[i]));
        } else {
            assert(record == record_of(after, files[last]));
        }
    }
    assert forall|digest: Seq<char>| after.has_digest(digest) implies #[trigger] digest_stems_from(
        digest,
        files,
    ) by {
        if before.has_digest(digest) {
            assert(digest_stems_from(digest, earlier));
            let i = choose|i: int|
                0 <= i < earlier.len() && (#[trigger] earlier[i]).1.len() > 0 && digest
                    == content_hash(earlier[i].1);
            assert(files[i] == earlier[i]);
        } else {
            let at = choose|at: int| 0 <= at < grown.digests.len() && grown.digests[at] == digest;
            if at < before.digests.len() {
                assert(before.digests[at] == digest);
            }
            assert(digest == content_hash(files[last].1));
        }
    }
}

/// What the index holds after a run.
///
/// Where the index takes every file, it is consistent afterwards, it holds
/// one record for each file with content, under the identifier of the
/// content's digest, and it holds nothing else.
pub proof fn lemma_filed(files: Seq<FileView>)
    requires
        fileable(files),
    ensures
        accounts_for(filed(files), files),
    decreases files.len(),
{
    if files.len() > 0 {
        let earlier = files.drop_last();
        assert(files =~= earlier.push(files.last()));
        lemma_filed(earlier);
        if files.last().1.len() == 0 {
            lemma_accounts_for_skipped(filed(earlier), earlier, files.last());
        } else {
            lemma_accounts_for_filed(filed(earlier), earlier, files.last());
        }
    }
}

/// Whether one group holds both paths.
pub open spec fn grouped_together(groups: Seq<GroupView>, a: Seq<char>, b: Seq<char>) -> bool {
    exists|k: int|
        0 <= k < groups.len() && (#[trigger] groups[k]).paths.contains(a)
            && groups[k].paths.contains(b)
}

/// Whether a path is that of one of the files with content.
pub open spec fn path_with_content(path: Seq<char>, files: Seq<FileView>) -> bool {
    exists|i: int| 0 <= i < files.len() && (#[trigger] files[i]).1.len() > 0 && files[i].0 == path
}

/// The ordered scan holds the records of the index and no others, and its
/// identifiers never descend.
pub proof fn lemma_scan_of(files: Seq<FileView>)
    ensures
        ascending_ids(scan_of(files)),
        forall|record: Entry|
            scan_of(files).contains(record) <==> filed(files).files.contains(record),
        scan_of(files).to_multiset() == filed(files).files.to_multiset(),
{
    broadcast use vstd::seq_lib::group_to_multiset_ensures;

    let leq = record_order();
    let records = filed(files).files;
    let scan = scan_of(files);
    lemma_record_order_total();
    records.lemma_sort_by_ensures(leq);
    assert forall|i: int, j: int| 0 <= i < j < scan.len() implies (#[trigger] scan[i]).0 <= (
    #[trigger] scan[j]).0 by {
        assert(leq(scan[i], scan[j]));
    }
    assert forall|record: Entry| scan.contains(record) <==> records.contains(record) by {
        assert(scan.to_multiset().count(record) == records.to_multiset().count(record));
    }
}

/// A group holds a path exactly where the index holds the path under the
/// group's identifier.
pub proof fn lemma_group_holds(files: Seq<FileView>, k: int, path: Seq<char>)
    requires
        0 <= k < groups_found(files).len(),
    ensures
        groups_found(files)[k].paths.contains(path) <==> filed(files).files.contains(
            (groups_found(files)[k].hash_id, path),
        ),
{
    lemma_scan_of(files);
    lemma_groups_of_ordered_scan(scan_of(files));
}

/// An identifier that two records of the index carry has a group.
pub proof fn lemma_shared_identifier_has_group(files: Seq<FileView>, a: Entry, b: Entry)
    requires
        filed(files).files.contains(a),
        filed(files).files.contains(b),
        a != b,
        a.0 == b.0,
    ensures
        has_group(groups_found(files), a.0),
{
    let scan = scan_of(files);
    lemma_scan_of(files);
    assert(scan.contains(a) && scan.contains(b));
    let at_a = choose|at: int| 0 <= at < scan.len() && scan[at] == a;
    let at_b = choose|at: int| 0 <= at < scan.len() && scan[at] == b;
    if at_a < at_b {
        lemma_count_of_two(scan, at_a, at_b);
    } else {
        lemma_count_of_two(scan, at_b, at_a);
    }
    lemma_groups_of_ordered_scan(scan);
}

/// The index holds the path of a file with content under one identifier
/// only: that of the digest of the file's content.
pub proof fn lemma_one_record_for_a_path(files: Seq<FileView>, i: int, id: u32)
    requires
        fileable(files),
        0 <= i < files.len(),
        files[i].1.len() > 0,
        filed(files).files.contains((id, files[i].0)),
    ensures
        filed(files).files.contains(record_of(filed(files), files[i])),
        filed(files).has_digest(content_hash(files[i].1)),
        id == record_of(filed(files), files[i]).0,
        id == filed(files).identifier(content_hash(files[i].1)),
{
    let index = filed(files);
    let record = record_of(index, files[i]);
    lemma_filed(files);
    assert(index.files.contains(record));
    lemma_identifier_unique(index, content_hash(files[i].1), content_hash(files[i].1));
    let own = choose|at: int| 0 <= at < index.files.len() && index.files[at] == record;
    let at = choose|at: int| 0 <= at < index.files.len() && index.files[at] == (id, files[i].0);
    if at < own {
        assert(index.files[at].1 != index.files[own].1);
    } else if own < at {
        assert(index.files[own].1 != index.files[at].1);
    }
}

/// Files with the same content are reported together, and files with
/// different digests are not.
///
/// Take a run that the index accepts and two of its files with content. One
/// group holds both their paths exactly if the SHA-256 digests of their
/// contents are equal, as they are where the contents are; and no path
/// stands in two groups.
pub proof fn lemma_duplicates_are_grouped(files: Seq<FileView>, i: int, j: int)
    requires
        fileable(files),
        0 <= i < files.len(),
        0 <= j < files.len(),
        i != j,
        files[i].1.len() > 0,
        files[j].1.len() > 0,
    ensures
        grouped_together(groups_found(files), files[i].0, files[j].0) <==> sha256(files[i].1)
            == sha256(files[j].1),
        files[i].1 == files[j].1 ==> grouped_together(groups_found(files), files[i].0, files[j].0),
        forall|k: int, l: int|
            0 <= k < l < groups_found(files).len() ==> !((#[trigger] groups_found(
                files,
            )[k]).paths.contains(files[i].0) && (#[trigger] groups_found(files)[l]).paths.contains(
                files[i].0,
            )),
{
    let index = filed(files);
    let groups = groups_found(files);
    let hash_i = content_hash(files[i].1);
    let hash_j = content_hash(files[j].1);
    let record_i = record_of(index, files[i]);
    let record_j = record_of(index, files[j]);
    assert(index.files.contains(record_i) && index.files.contains(record_j) && index.has_digest(
        hash_i,
    ) && index.has_digest(hash_j) && index.consistent()) by {
        lemma_filed(files);
    }
    lemma_one_record_for_a_path(files, i, record_i.0);
    lemma_one_record_for_a_path(files, j, record_j.0);
    assert(record_i.0 == record_j.0 <==> hash_i == hash_j) by {
        lemma_identifier_unique(index, hash_i, hash_j);
    }
    assert(record_i != record_j) by {
        lemma_paths_differ(files, i, j);
    }
    if sha256(files[i].1) == sha256(files[j].1) {
        lemma_shared_identifier_has_group(files, record_i, record_j);
        let k = choose|k: int|
            0 <= k < groups.len() && (#[trigger] groups[k]).hash_id == record_i.0;
        lemma_group_holds(files, k, files[i].0);
        lemma_group_holds(files, k, files[j].0);
        assert(grouped_together(groups, files[i].0, files[j].0));
    }
    if grouped_together(groups, files[i].0, files[j].0) {
        let k = choose|k: int|
            0 <= k < groups.len() && (#[trigger] groups[k]).paths.contains(files[i].0)
                && groups[k].paths.contains(files[j].0);
        lemma_group_holds(files, k, files[i].0);
        lemma_group_holds(files, k, files[j].0);
        lemma_one_record_for_a_path(files, i, groups[k].hash_id);
        lemma_one_record_for_a_path(files, j, groups[k].hash_id);
        lemma_hex_lower_injective(sha256(files[i].1), sha256(files[j].1));
    }
    assert forall|k: int, l: int| 0 <= k < l < groups.len() implies !((
    #[trigger] groups[k]).paths.contains(files[i].0) && (#[trigger] groups[l]).paths.contains(
        files[i].0,
    )) by {
        if groups[k].paths.contains(files[i].0) && groups[l].paths.contains(files[i].0) {
            lemma_group_holds(files, k, files[i].0);
            lemma_group_holds(files, l, files[i].0);
            lemma_one_record_for_a_path(files, i, groups[k].hash_id);
            lemma_one_record_for_a_path(files, i, groups[l].hash_id);
            assert(groups[k].hash_id < groups[l].hash_id) by {
                lemma_scan_of(files);
                lemma_groups_of_ordered_scan(scan_of(files));
            }
        }
    }
}

/// No two files with content that the index takes share a path.
pub proof fn lemma_paths_differ(files: Seq<FileView>, i: int, j: int)
    requires
        fileable(files),
        0 <= i < files.len(),
        0 <= j < files.len(),
        i != j,
        files[i].1.len() > 0,
        files[j].1.len() > 0,
    ensures
        files[i].0 != files[j].0,
    decreases files.len(),
{
    let earlier = files.drop_last();
    let last = files.len() - 1;
    if i < last && j < last {
        assert(earlier[i] == files[i] && earlier[j] == files[j]);
        lemma_paths_differ(earlier, i, j);
    } else {
        let other = if i < last { i } else { j };
        lemma_filed(earlier);
        assert(earlier[other] == files[other]);
        let records = filed(earlier).files;
        let record = record_of(filed(earlier), earlier[other]);
        assert(records.contains(record));
        let at = choose|at: int| 0 <= at < records.len() && records[at] == record;
        assert(records[at].1 == files[other].0);
    }
}

/// Files without content leave no trace, and the report is in order.
///
/// Every path in a group is the path of a file with content, every group
/// holds two paths at least, in ascending order, and the groups come by
/// ascending identifier, which is the order in which their digests were
/// first seen.
pub proof fn lemma_report_in_order(files: Seq<FileView>)
    requires
        fileable(files),
    ensures
        forall|k: int, l: int|
            0 <= k < l < groups_found(files).len() ==> (#[trigger] groups_found(
                files,
            )[k]).hash_id < (#[trigger] groups_found(files)[l]).hash_id,
        forall|k: int|
            0 <= k < groups_found(files).len() ==> {
                let group = #[trigger] groups_found(files)[k];
                &&& group.paths.len() >= 2
                &&& sorted_by(group.paths, path_order())
                &&& forall|path: Seq<char>| #[trigger]
                    group.paths.contains(path) ==> path_with_content(path, files)
            },
{
    let index = filed(files);
    let scan = scan_of(files);
    let groups = groups_found(files);
    lemma_filed(files);
    lemma_scan_of(files);
    lemma_groups_of_ordered_scan(scan);
    assert forall|k: int| 0 <= k < groups.len() implies {
        let group = #[trigger] groups[k];
        forall|path: Seq<char>| #[trigger]
            group.paths.contains(path) ==> path_with_content(path, files)
    } by {
        let group = groups[k];
        assert forall|path: Seq<char>| #[trigger]
            group.paths.contains(path) implies path_with_content(path, files) by {
            let record = (group.hash_id, path);
            assert(scan.contains(record));
            assert(index.files.contains(record));
            assert(stems_from(index, record, files));
            let i = choose|i: int|
                0 <= i < files.len() && (#[trigger] files[i]).1.len() > 0 && record == record_of(
                    index,
                    files[i],
                );
            assert(files[i].0 == path);
        }
    }
}

/// Two runs on the same files end alike, whatever the size of their chunks:
/// both fail with the same error, or both report the same lines.
pub proof fn lemma_runs_agree(
    files: Seq<FileView>,
    first: Result<Vec<String>, Error>,
    second: Result<Vec<String>, Error>,
)
    requires
        outcome_of(files, first),
        outcome_of(files, second),
    ensures
        first is Ok <==> second is Ok,
        first matches Ok(lines) ==> texts(lines@) == texts(second->Ok_0@),
        first matches Err(error) ==> error.text() == second->Err_0.text(),
{
}

} // verus!
