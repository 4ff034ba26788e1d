use dedup::chunk::{qualifies, ChunkSource};
use dedup::error::Error;
use dedup::hashing::HashingStage;
use dedup::index::{Indexed, IndexingStage};
use dedup::message::{HashChunk, ProcessEnd, StoreHash};
use dedup::pipeline::{find_duplicates, hash_content};
use dedup::report::report_duplicate_files;

fn file(path: &str, content: &[u8]) -> (String, Vec<u8>) {
    (path.to_string(), content.to_vec())
}

const GRIEF: &str = "I measure every Grief I meet\nWith narrow, probing, eyes \u{2013}\n";
const NOBODY: &str = "I'm Nobody! Who are you?\n\
Are you \u{2013} Nobody \u{2013} too?\n\
Then there's a pair of us!\n\
Don't tell! they'd advertise \u{2013} you know!\n\
\n\
How dreary \u{2013} to be \u{2013} Somebody!\n\
How public \u{2013} like a Frog \u{2013}\n\
To tell one's name \u{2013} the livelong June \u{2013}\n\
To an admiring Bog!\n";

fn fixtures() -> Vec<(String, Vec<u8>)> {
    vec![
        file("tests/fixtures/i-measure-every-copy", GRIEF.as_bytes()),
        file("tests/fixtures/i-measure-every-grief-i-meet", GRIEF.as_bytes()),
        file("tests/fixtures/im-nobody-who-are-you", NOBODY.as_bytes()),
        file("tests/fixtures/im-nobody-who-are-you-2", NOBODY.as_bytes()),
    ]
}

#[test]
fn test_finds_duplicate_files() {
    let lines = find_duplicates(&fixtures(), 1024).unwrap();
    assert!(lines.iter().any(|line| line
        .contains("i-measure-every-copy\ttests/fixtures/i-measure-every-grief-i-meet")));
}

#[test]
fn test_lists_last_duplicate_files() {
    let lines = find_duplicates(&fixtures(), 1024).unwrap();
    assert!(lines.iter().any(|line| line.contains(
        "tests/fixtures/im-nobody-who-are-you\ttests/fixtures/im-nobody-who-are-you-2"
    )));
    assert_eq!(
        lines.last().unwrap(),
        "tests/fixtures/im-nobody-who-are-you\ttests/fixtures/im-nobody-who-are-you-2"
    );
}

#[test]
fn a_file_is_stored_under_the_digest_of_its_text() {
    let mut hashing = HashingStage::new();
    let mut indexing = IndexingStage::new();
    let path = "tests/fixtures/im-nobody-who-are-you".to_string();
    let sent = hash_content(&mut hashing, &path, NOBODY.as_bytes(), 1024).unwrap();
    match indexing.step(sent).unwrap() {
        Indexed::Stored(stored) => {
            assert_eq!(
                format!("{}\t{}", stored.pathname, stored.hash),
                "tests/fixtures/im-nobody-who-are-you\t\
                 12cfa77c4b4d8d493fdde29cf0856b2f8f09082c5c47788ad270001a983d9dc5"
            );
            assert_eq!(stored.hash_id, 1);
        }
        Indexed::Drained(_) => panic!("nothing was stored"),
    }
}

#[test]
fn one_group_for_two_equal_files_and_none_for_the_third() {
    let files = vec![
        file("x/one.txt", b"hello"),
        file("x/two.txt", b"hello"),
        file("x/three.txt", b"world"),
    ];
    let lines = find_duplicates(&files, 1024).unwrap();
    assert_eq!(lines, vec!["x/one.txt\tx/two.txt".to_string()]);
}

#[test]
fn an_empty_tree_gives_no_line() {
    let lines = find_duplicates(&Vec::new(), 1024).unwrap();
    assert_eq!(lines, Vec::<String>::new());
}

#[test]
fn a_thousand_distinct_files_in_chunks_of_one_byte_give_no_group() {
    let mut files = Vec::new();
    for i in 0..1000 {
        files.push(file(&format!("tree/file-{}", i), format!("content {}", i).as_bytes()));
    }
    let lines = find_duplicates(&files, 1).unwrap();
    assert_eq!(lines, Vec::<String>::new());
}

#[test]
fn two_runs_on_one_tree_give_the_same_lines() {
    let first = find_duplicates(&fixtures(), 7).unwrap();
    let second = find_duplicates(&fixtures(), 7).unwrap();
    assert_eq!(first, second);
    assert_eq!(first.len(), 2);
}

#[test]
fn the_chunk_size_does_not_change_the_report() {
    let files = vec![
        file("b", b"same bytes, cut differently"),
        file("a", b"same bytes, cut differently"),
        file("c", b"same bytes, cut differently!"),
    ];
    let expected = vec!["a\tb".to_string()];
    for capacity in [1usize, 2, 3, 5, 26, 27, 28, 1024] {
        assert_eq!(find_duplicates(&files, capacity).unwrap(), expected);
    }
}

#[test]
fn files_without_content_are_in_no_group() {
    let files = vec![
        file("empty-1", b""),
        file("empty-2", b""),
        file("full-1", b"x"),
        file("full-2", b"x"),
    ];
    let lines = find_duplicates(&files, 4).unwrap();
    assert_eq!(lines, vec!["full-1\tfull-2".to_string()]);
}

#[test]
fn groups_come_in_the_order_in_which_their_content_was_first_seen() {
    let files = vec![
        file("z-first", b"seen first"),
        file("a-second", b"seen second"),
        file("m-second", b"seen second"),
        file("b-first", b"seen first"),
    ];
    let lines = find_duplicates(&files, 3).unwrap();
    assert_eq!(lines, vec!["b-first\tz-first".to_string(), "a-second\tm-second".to_string()]);
}

#[test]
fn a_path_that_comes_twice_ends_the_run() {
    let files = vec![file("twice", b"one"), file("twice", b"two")];
    match find_duplicates(&files, 1024) {
        Err(Error::StorageError(text)) => assert_eq!(text, "path is already on record"),
        other => panic!("unexpected result: {:?}", other),
    }
}

#[test]
fn a_path_that_comes_twice_without_content_is_passed_over() {
    let files = vec![file("twice", b""), file("twice", b""), file("twice", b"content")];
    assert_eq!(find_duplicates(&files, 1024).unwrap(), Vec::<String>::new());
}

/// Reads `content` as a file would be read, `sizes` bytes at a time (and then
/// to its end in reads of `capacity` bytes), and returns the messages.
fn read_file(path: &str, content: &[u8], capacity: usize, sizes: &[usize]) -> Vec<HashChunk> {
    let mut source = ChunkSource::new(path.to_string());
    let mut messages = Vec::new();
    let mut offset = 0;
    let mut turn = 0;
    while !source.is_finished() {
        let wanted = sizes.get(turn).copied().unwrap_or(capacity).min(capacity);
        let size = wanted.min(content.len() - offset);
        let mut buffer = vec![0xff; capacity];
        buffer[..size].copy_from_slice(&content[offset..offset + size]);
        messages.push(source.next_message(buffer, size));
        offset += size;
        turn += 1;
    }
    messages
}

#[test]
fn the_stages_run_a_walk_from_the_reads_to_the_report() {
    let entries: Vec<(&str, bool, &[u8])> = vec![
        ("tree", false, b""),
        ("tree/a", true, b"the same bytes"),
        ("tree/empty", true, b""),
        ("tree/sub", false, b""),
        ("tree/sub/b", true, b"the same bytes"),
        ("tree/sub/c", true, b"other bytes"),
    ];
    let mut hashing = HashingStage::new();
    let mut indexing = IndexingStage::new();
    let mut stored = Vec::new();
    let mut drained = false;
    let mut inbound = Vec::new();
    for (path, is_file, content) in &entries {
        if qualifies(*is_file, content.len() as u64) {
            inbound.extend(read_file(path, content, 4, &[3, 1, 4, 2]));
        }
    }
    inbound.push(HashChunk::Done);
    for message in inbound {
        assert!(!drained);
        assert!(hashing.admits(&message));
        if let Some(sent) = hashing.step(message) {
            match indexing.step(sent).unwrap() {
                Indexed::Stored(record) => stored.push((record.hash_id, record.pathname)),
                Indexed::Drained(ProcessEnd::Done) => drained = true,
            }
        }
    }
    assert!(drained);
    assert_eq!(
        stored,
        vec![
            (1, "tree/a".to_string()),
            (1, "tree/sub/b".to_string()),
            (2, "tree/sub/c".to_string())
        ]
    );
    let lines = report_duplicate_files(indexing.index().scan_ordered());
    assert_eq!(lines, vec!["tree/a\ttree/sub/b".to_string()]);
}

#[test]
fn reads_of_any_size_give_the_digest_of_the_file() {
    let content = b"0123456789abcdefghij";
    let mut digests = Vec::new();
    for sizes in [&[][..], &[1, 1, 1][..], &[7, 2][..], &[20][..], &[19, 1][..], &[5, 5, 5, 5][..]] {
        let mut stage = HashingStage::new();
        let messages = read_file("f", content, 20, sizes);
        assert!(matches!(messages.last(), Some(HashChunk::FileDone(_))));
        let mut sent = None;
        for message in messages {
            assert!(stage.admits(&message));
            if let Some(StoreHash::StoreHash(_, digest)) = stage.step(message) {
                sent = Some(digest);
            }
        }
        digests.push(sent.unwrap());
    }
    assert!(digests.iter().all(|digest| digest == &digests[0]));
}
