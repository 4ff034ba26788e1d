use dedup::chunk::{qualifies, ChunkSource};
use dedup::error::Error;
use dedup::hashing::HashingStage;
use dedup::index::{store_hash, ContentIndex, Indexed, IndexingStage};
use dedup::message::{HashChunk, ProcessEnd, StoreHash};
use dedup::order::{path_precedes, record_precedes, sort_records, sorted_paths};
use dedup::pipeline::hash_content;
use dedup::report::{duplicate_groups, group_line, report_duplicate_files, DuplicateGroup};

const HELLO: &str = "2cf24dba5fb0a30e26e83b2ac5b9e29e1b161e5c1fa7425e73043362938b9824";
const WORLD: &str = "486ea46224d1bb4fb680f34f7c9ad96a8f24ec88be73ea8e5a6c65260e9cb8a7";
const ABC: &str = "ba7816bf8f01cfea414140de5dae2223b00361a396177a9cb410ff61f20015ad";

fn chunk(path: &str, n: usize, data: &[u8]) -> HashChunk {
    HashChunk::HashChunk(path.to_string(), n, data.to_vec())
}

fn done(path: &str) -> HashChunk {
    HashChunk::FileDone(path.to_string())
}

fn digest_of(out: Option<StoreHash>) -> (String, Vec<u8>) {
    match out {
        Some(StoreHash::StoreHash(path, digest)) => (path, digest),
        _ => panic!("no digest was sent"),
    }
}

fn hex_of(digest: &[u8]) -> String {
    let mut index = ContentIndex::new();
    store_hash(&mut index, "p".to_string(), digest).unwrap().hash
}

fn record(id: u32, path: &str) -> (u32, String) {
    (id, path.to_string())
}

#[test]
fn only_regular_files_with_content_qualify() {
    assert!(qualifies(true, 1));
    assert!(qualifies(true, u64::MAX));
    assert!(!qualifies(true, 0));
    assert!(!qualifies(false, 1));
    assert!(!qualifies(false, 0));
}

#[test]
fn a_source_numbers_its_chunks_from_zero_and_ends_with_the_marker() {
    let mut source = ChunkSource::new("a/b".to_string());
    assert!(!source.is_finished());
    assert_eq!(source.next_seq(), 0);
    match source.next_message(vec![1, 2, 3, 4], 4) {
        HashChunk::HashChunk(path, n, data) => {
            assert_eq!(path, "a/b");
            assert_eq!(n, 0);
            assert_eq!(data, vec![1, 2, 3, 4]);
        }
        _ => panic!("not a chunk"),
    }
    assert_eq!(source.next_seq(), 1);
    match source.next_message(vec![5, 6, 0, 0], 2) {
        HashChunk::HashChunk(path, n, data) => {
            assert_eq!(path, "a/b");
            assert_eq!(n, 1);
            assert_eq!(data, vec![5, 6]);
        }
        _ => panic!("not a chunk"),
    }
    assert!(!source.is_finished());
    match source.next_message(vec![0, 0, 0, 0], 0) {
        HashChunk::FileDone(path) => assert_eq!(path, "a/b"),
        _ => panic!("not the marker"),
    }
    assert!(source.is_finished());
    assert_eq!(source.next_seq(), 2);
}

#[test]
fn the_stage_hashes_a_stream_of_chunks() {
    let mut stage = HashingStage::new();
    assert!(stage.step(chunk("f", 0, b"he")).is_none());
    assert!(stage.step(chunk("f", 1, b"l")).is_none());
    assert!(stage.step(chunk("f", 2, b"lo")).is_none());
    let (path, digest) = digest_of(stage.step(done("f")));
    assert_eq!(path, "f");
    assert_eq!(digest.len(), 32);
    assert_eq!(hex_of(&digest), HELLO);
}

#[test]
fn test_hashes_known_content() {
    let mut stage = HashingStage::new();
    let cases = [(&b"hello"[..], HELLO), (&b"world"[..], WORLD), (&b"abc"[..], ABC)];
    for (content, expected) in cases {
        let out = hash_content(&mut stage, &"p".to_string(), content, 1024);
        assert_eq!(hex_of(&digest_of(out).1), expected);
    }
}

#[test]
fn every_chunking_gives_the_digest_of_the_whole() {
    let content = b"hello";
    for capacity in 1..8 {
        let mut stage = HashingStage::new();
        let out = hash_content(&mut stage, &"p".to_string(), content, capacity);
        assert_eq!(hex_of(&digest_of(out).1), HELLO);
    }
    let mut stage = HashingStage::new();
    stage.step(chunk("p", 0, b"h"));
    stage.step(chunk("p", 1, b""));
    stage.step(chunk("p", 2, b"ello"));
    assert_eq!(hex_of(&digest_of(stage.step(done("p"))).1), HELLO);
}

#[test]
fn streams_of_several_files_may_interleave() {
    let mut stage = HashingStage::new();
    stage.step(chunk("one", 0, b"hel"));
    stage.step(chunk("two", 0, b"wor"));
    stage.step(chunk("one", 1, b"lo"));
    stage.step(chunk("three", 0, b"abc"));
    stage.step(chunk("two", 1, b"ld"));
    assert_eq!(hex_of(&digest_of(stage.step(done("three"))).1), ABC);
    assert_eq!(hex_of(&digest_of(stage.step(done("one"))).1), HELLO);
    assert_eq!(hex_of(&digest_of(stage.step(done("two"))).1), WORLD);
}

#[test]
fn the_stage_admits_only_the_next_sequence_number() {
    let mut stage = HashingStage::new();
    assert!(stage.admits(&chunk("f", 0, b"a")));
    assert!(!stage.admits(&chunk("f", 1, b"a")));
    stage.step(chunk("f", 0, b"a"));
    assert!(stage.admits(&chunk("f", 1, b"b")));
    assert!(!stage.admits(&chunk("f", 0, b"b")));
    assert!(!stage.admits(&chunk("f", 2, b"b")));
    assert!(stage.admits(&chunk("g", 0, b"b")));
    assert!(stage.admits(&done("f")));
    assert!(stage.admits(&done("unknown")));
    assert!(stage.admits(&HashChunk::Done));
    stage.step(done("f"));
    assert!(stage.admits(&chunk("f", 0, b"again")));
    assert!(!stage.admits(&chunk("f", 1, b"again")));
}

#[test]
fn the_marker_of_a_path_without_chunks_sends_nothing() {
    let mut stage = HashingStage::new();
    assert!(stage.step(done("never seen")).is_none());
    stage.step(chunk("f", 0, b"hello"));
    assert!(stage.step(done("other")).is_none());
    assert_eq!(hex_of(&digest_of(stage.step(done("f"))).1), HELLO);
    assert!(stage.step(done("f")).is_none());
}

#[test]
fn the_end_of_the_stream_is_passed_on() {
    let mut stage = HashingStage::new();
    assert!(matches!(stage.step(HashChunk::Done), Some(StoreHash::Done)));
}

#[test]
fn a_file_without_content_sends_nothing() {
    let mut stage = HashingStage::new();
    assert!(hash_content(&mut stage, &"empty".to_string(), b"", 16).is_none());
}

#[test]
fn hexadecimal_is_lowercase_with_the_high_half_first() {
    assert_eq!(hex_of(&[0xde, 0xad, 0xbe, 0xef]), "deadbeef");
    assert_eq!(hex_of(&[0x00, 0x0f, 0xf0, 0x1a, 0xa1]), "000ff01aa1");
    assert_eq!(hex_of(&[]), "");
}

#[test]
fn identifiers_are_given_from_one_in_the_order_of_coming() {
    let mut index = ContentIndex::new();
    assert_eq!(index.record("aa").unwrap(), 1);
    assert_eq!(index.record("bb").unwrap(), 2);
    assert_eq!(index.record("aa").unwrap(), 1);
    assert_eq!(index.record("cc").unwrap(), 3);
    assert_eq!(index.record("bb").unwrap(), 2);
    assert_eq!(index.record("").unwrap(), 4);
}

#[test]
fn a_path_is_taken_once() {
    let mut index = ContentIndex::new();
    assert!(index.associate("p".to_string(), 1).is_ok());
    assert!(index.associate("q".to_string(), 1).is_ok());
    match index.associate("p".to_string(), 2) {
        Err(Error::StorageError(text)) => assert_eq!(text, "path is already on record"),
        other => panic!("unexpected result: {:?}", other),
    }
    assert_eq!(index.scan_ordered(), vec![record(1, "p"), record(1, "q")]);
}

#[test]
fn the_scan_is_ordered_by_identifier_and_then_by_path() {
    let mut index = ContentIndex::new();
    for (path, id) in [("m", 2), ("z", 1), ("a", 2), ("b", 3), ("a/b", 1), ("a!", 1), ("", 2)] {
        index.associate(path.to_string(), id).unwrap();
    }
    assert_eq!(
        index.scan_ordered(),
        vec![
            record(1, "a!"),
            record(1, "a/b"),
            record(1, "z"),
            record(2, ""),
            record(2, "a"),
            record(2, "m"),
            record(3, "b"),
        ]
    );
}

#[test]
fn an_empty_index_scans_to_nothing() {
    assert_eq!(ContentIndex::new().scan_ordered(), Vec::<(u32, String)>::new());
}

#[test]
fn store_hash_files_a_path_under_its_digest() {
    let mut index = ContentIndex::new();
    let first = store_hash(&mut index, "one".to_string(), &[0xab; 32]).unwrap();
    assert_eq!(first.hash_id, 1);
    assert_eq!(first.hash, "ab".repeat(32));
    assert_eq!(first.pathname, "one");
    let second = store_hash(&mut index, "two".to_string(), &[0xcd; 32]).unwrap();
    assert_eq!(second.hash_id, 2);
    let third = store_hash(&mut index, "three".to_string(), &[0xab; 32]).unwrap();
    assert_eq!(third.hash_id, 1);
    assert_eq!(index.scan_ordered(), vec![record(1, "one"), record(1, "three"), record(2, "two")]);
}

#[test]
fn a_refused_path_leaves_its_digest_on_record() {
    let mut index = ContentIndex::new();
    store_hash(&mut index, "p".to_string(), &[1]).unwrap();
    assert!(matches!(
        store_hash(&mut index, "p".to_string(), &[2]),
        Err(Error::StorageError(_))
    ));
    assert_eq!(store_hash(&mut index, "q".to_string(), &[3]).unwrap().hash_id, 3);
    assert_eq!(store_hash(&mut index, "r".to_string(), &[2]).unwrap().hash_id, 2);
    assert_eq!(index.scan_ordered(), vec![record(1, "p"), record(2, "r"), record(3, "q")]);
}

#[test]
fn the_indexing_stage_files_digests_and_reports_the_end() {
    let mut stage = IndexingStage::new();
    match stage.step(StoreHash::StoreHash("a".to_string(), vec![0x01, 0x02])).unwrap() {
        Indexed::Stored(stored) => {
            assert_eq!(stored.hash_id, 1);
            assert_eq!(stored.hash, "0102");
            assert_eq!(stored.pathname, "a");
        }
        Indexed::Drained(_) => panic!("nothing was stored"),
    }
    match stage.step(StoreHash::StoreHash("b".to_string(), vec![0x01, 0x02])).unwrap() {
        Indexed::Stored(stored) => assert_eq!(stored.hash_id, 1),
        Indexed::Drained(_) => panic!("nothing was stored"),
    }
    assert!(matches!(
        stage.step(StoreHash::StoreHash("a".to_string(), vec![0x03])),
        Err(Error::StorageError(_))
    ));
    assert!(matches!(stage.step(StoreHash::Done), Ok(Indexed::Drained(ProcessEnd::Done))));
    assert_eq!(stage.index().scan_ordered(), vec![record(1, "a"), record(1, "b")]);
    assert_eq!(report_duplicate_files(stage.index().scan_ordered()), vec!["a\tb".to_string()]);
}

#[test]
fn paths_are_ordered_by_their_bytes() {
    assert!(path_precedes("", ""));
    assert!(path_precedes("", "a"));
    assert!(!path_precedes("a", ""));
    assert!(path_precedes("a", "a"));
    assert!(path_precedes("a", "ab"));
    assert!(!path_precedes("ab", "a"));
    assert!(path_precedes("ab", "b"));
    assert!(path_precedes("Z", "a"));
    assert!(!path_precedes("a", "Z"));
    assert!(path_precedes("a-b", "a/b"));
    assert!(path_precedes("z", "\u{e9}"));
    assert!(path_precedes("\u{e9}", "\u{4e2d}"));
    assert!(path_precedes("\u{ffff}", "\u{10000}"));
    assert!(!path_precedes("\u{10000}", "\u{ffff}"));
}

#[test]
fn records_are_ordered_by_identifier_first() {
    assert!(record_precedes(&record(1, "z"), &record(2, "a")));
    assert!(!record_precedes(&record(2, "a"), &record(1, "z")));
    assert!(record_precedes(&record(2, "a"), &record(2, "b")));
    assert!(!record_precedes(&record(2, "b"), &record(2, "a")));
    assert!(record_precedes(&record(2, "a"), &record(2, "a")));
}

#[test]
fn sorting_keeps_every_record() {
    let records =
        vec![record(3, "c"), record(1, "b"), record(3, "a"), record(1, "b"), record(2, "")];
    assert_eq!(
        sort_records(&records),
        vec![record(1, "b"), record(1, "b"), record(2, ""), record(3, "a"), record(3, "c")]
    );
    assert_eq!(sort_records(&Vec::new()), Vec::<(u32, String)>::new());
}

#[test]
fn the_paths_of_a_range_come_in_order() {
    let records =
        vec![record(9, "x"), record(2, "c"), record(2, "a"), record(2, "b"), record(1, "y")];
    assert_eq!(sorted_paths(&records, 1, 4), vec!["a", "b", "c"]);
    assert_eq!(sorted_paths(&records, 0, 5), vec!["y", "a", "b", "c", "x"]);
    assert_eq!(sorted_paths(&records, 2, 3), vec!["a"]);
    assert_eq!(sorted_paths(&records, 3, 3), Vec::<String>::new());
}

#[test]
fn sorting_orders_many_records() {
    let mut records = Vec::new();
    for i in 0..20000u32 {
        records.push(record((i * 7919) % 101, &format!("path/{:05}", (i * 104729) % 20011)));
    }
    let sorted = sort_records(&records);
    let mut expected = records.clone();
    expected.sort();
    assert_eq!(sorted, expected);
}

#[test]
fn the_report_keeps_runs_of_two_or_more() {
    let scan = vec![
        record(1, "a"),
        record(2, "b"),
        record(2, "c"),
        record(3, "d"),
        record(4, "e"),
        record(4, "f"),
        record(4, "g"),
    ];
    assert_eq!(report_duplicate_files(scan), vec!["b\tc".to_string(), "e\tf\tg".to_string()]);
}

#[test]
fn the_report_orders_the_paths_of_a_run() {
    let scan = vec![record(7, "q"), record(7, "p"), record(7, "r"), record(9, "a")];
    let groups = duplicate_groups(&scan);
    assert_eq!(groups.len(), 1);
    assert_eq!(groups[0].hash_id, 7);
    assert_eq!(groups[0].paths, vec!["p".to_string(), "q".to_string(), "r".to_string()]);
    assert_eq!(report_duplicate_files(scan), vec!["p\tq\tr".to_string()]);
}

#[test]
fn the_report_gathers_neighbours_only() {
    let scan = vec![record(1, "a"), record(2, "b"), record(1, "c"), record(1, "d")];
    assert_eq!(report_duplicate_files(scan), vec!["c\td".to_string()]);
}

#[test]
fn the_report_of_nothing_and_of_single_records_is_empty() {
    assert_eq!(report_duplicate_files(Vec::new()), Vec::<String>::new());
    assert_eq!(report_duplicate_files(vec![record(1, "a")]), Vec::<String>::new());
    assert_eq!(
        report_duplicate_files(vec![record(1, "a"), record(2, "b"), record(3, "c")]),
        Vec::<String>::new()
    );
}

#[test]
fn a_line_joins_paths_with_tabs() {
    let group = |paths: &[&str]| DuplicateGroup {
        hash_id: 1,
        paths: paths.iter().map(|p| p.to_string()).collect(),
    };
    assert_eq!(group_line(&group(&[])), "");
    assert_eq!(group_line(&group(&["only"])), "only");
    assert_eq!(group_line(&group(&["a", "b"])), "a\tb");
    assert_eq!(group_line(&group(&["", "b", ""])), "\tb\t");
}

#[test]
fn every_error_shows_its_text() {
    assert_eq!(Error::IoError("read failed".to_string()).message(), "read failed");
    assert_eq!(Error::WalkDirError("no such directory".to_string()).message(), "no such directory");
    assert_eq!(Error::StorageError("disk full".to_string()).message(), "disk full");
    assert_eq!(
        Error::MessagingError("receiving on an empty and disconnected channel".to_string())
            .message(),
        "receiving on an empty and disconnected channel"
    );
}
