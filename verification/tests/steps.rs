use dedupe::file_record::{ByHash, ByHash4096, BySize, FileRecord};
use dedupe::filter_duplicates::{step1, step2, HasHash, HashPass, NotEmpty};
use dedupe::grouping::{find_duplicates_by, flattened};
use dedupe::path::FilePath;
use dedupe::selection::retain;
use dedupe::sorting::{reversed, sort_by};

fn file(id: usize, size: i64, hash_4096: Option<&str>, hash: Option<&str>) -> FileRecord {
    FileRecord {
        path: FilePath {
            id,
            name: format!("/f{}", id),
            unicode: true,
            components: vec![],
        },
        size,
        hash: hash.map(|h| h.to_string()),
        hash_4096: hash_4096.map(|h| h.to_string()),
    }
}

fn ids(files: &[FileRecord]) -> Vec<usize> {
    files.iter().map(|f| f.path.id).collect()
}

fn group_ids(groups: &[Vec<FileRecord>]) -> Vec<Vec<usize>> {
    groups.iter().map(|g| ids(g)).collect()
}

/// Runs a pass in which each file is hashed by `hash`.
fn run(mut pass: HashPass, hash: &dyn Fn(&FileRecord) -> Option<String>) -> Vec<FileRecord> {
    while let Some(at) = pass.next() {
        let digest = hash(&pass.files()[at]);
        if let Some(stored) = pass.hashed(digest) {
            assert_eq!(stored, at);
            pass.stored(0);
        }
    }
    pass.into_files()
}

#[test]
fn sorting_is_stable() {
    let files = vec![
        file(0, 5, None, None),
        file(1, 3, None, None),
        file(2, 5, None, None),
        file(3, -1, None, None),
        file(4, 3, None, None),
    ];
    assert_eq!(ids(&sort_by(&BySize, files)), vec![3, 1, 4, 0, 2]);
    assert_eq!(ids(&sort_by(&BySize, vec![])), Vec::<usize>::new());
}

#[test]
fn sorting_many_files_agrees_with_the_standard_sort() {
    let mut files = vec![];
    let mut seed: u64 = 1;
    for id in 0..2000 {
        seed = seed.wrapping_mul(6364136223846793005).wrapping_add(1442695040888963407);
        files.push(file(id, (seed >> 60) as i64, None, None));
    }
    let mut expected = files.clone();
    expected.sort_by_key(|f| f.size);
    assert_eq!(sort_by(&BySize, files), expected);
}

#[test]
fn hashes_are_ordered_like_strings() {
    let hashes = [None, Some(""), Some("a"), Some("ab"), Some("b"), Some("\u{e9}"), Some("Z")];
    let files: Vec<FileRecord> =
        hashes.iter().enumerate().map(|(id, h)| file(id, 1, None, *h)).collect();
    let mut expected = files.clone();
    expected.sort_by(|a, b| a.hash.cmp(&b.hash));
    assert_eq!(sort_by(&ByHash, files), expected);
}

#[test]
fn reversing_turns_the_order_round() {
    assert_eq!(reversed(vec![1, 2, 3]), vec![3, 2, 1]);
}

#[test]
fn duplicates_are_grouped() {
    let files = vec![
        file(0, 7, None, None),
        file(1, 3, None, None),
        file(2, 7, None, None),
        file(3, 1, None, None),
        file(4, 3, None, None),
        file(5, 7, None, None),
    ];
    let groups = find_duplicates_by(&BySize, files);
    assert_eq!(group_ids(&groups), vec![vec![1, 4], vec![0, 2, 5]]);
    assert_eq!(ids(&flattened(groups)), vec![1, 4, 0, 2, 5]);
}

#[test]
fn grouping_what_was_grouped_changes_nothing() {
    let files: Vec<FileRecord> =
        (0..40).map(|id| file(id, (id % 13) as i64 * 2 % 11, None, None)).collect();
    let groups = find_duplicates_by(&BySize, files);
    let again = find_duplicates_by(&BySize, flattened(groups.clone()));
    assert_eq!(group_ids(&again), group_ids(&groups));
}

#[test]
fn a_single_file_is_no_duplicate() {
    assert!(find_duplicates_by(&BySize, vec![file(0, 1, None, None)]).is_empty());
    assert!(find_duplicates_by(&BySize, Vec::<FileRecord>::new()).is_empty());
}

#[test]
fn missing_hashes_are_equal_to_each_other() {
    let files = vec![
        file(0, 1, None, None),
        file(1, 1, Some("a"), None),
        file(2, 1, None, None),
        file(3, 1, Some("a"), None),
    ];
    let groups = find_duplicates_by(&ByHash4096, files);
    assert_eq!(group_ids(&groups), vec![vec![0, 2], vec![1, 3]]);
}

#[test]
fn files_are_selected_in_order() {
    let files = vec![
        file(0, 0, None, Some("a")),
        file(1, 2, None, None),
        file(2, -1, None, Some("b")),
        file(3, 1, None, Some("c")),
    ];
    assert_eq!(ids(&retain(&NotEmpty, files.clone())), vec![1, 3]);
    assert_eq!(ids(&retain(&HasHash, files)), vec![0, 2, 3]);
}

#[test]
fn the_first_step_keeps_files_of_equal_size() {
    let files = vec![
        file(0, 0, None, None),
        file(1, 0, None, None),
        file(2, 10, None, None),
        file(3, 20, Some("p"), None),
        file(4, 30, None, None),
        file(5, 10, Some("q"), None),
        file(6, 20, None, None),
    ];
    let pass = step1(files);
    assert_eq!(ids(pass.files()), vec![2, 5, 3, 6]);
    assert_eq!(*pass.pending(), vec![0, 3]);
    assert_eq!(pass.next(), Some(0));
    assert_eq!(pass.num_commands(), 0);
}

#[test]
fn the_first_step_hashes_small_files_completely() {
    let files = vec![
        file(0, 4096, None, None),
        file(1, 4096, None, None),
        file(2, 4097, None, None),
        file(3, 4097, None, None),
    ];
    let files = run(step1(files), &|f| Some(format!("h{}", f.path.id)));
    assert_eq!(files[0].hash_4096.as_deref(), Some("h0"));
    assert_eq!(files[0].hash.as_deref(), Some("h0"));
    assert_eq!(files[2].hash_4096.as_deref(), Some("h2"));
    assert_eq!(files[2].hash, None);
}

#[test]
fn a_file_that_cannot_be_read_keeps_no_hash() {
    let files = vec![file(0, 9, None, None), file(1, 9, None, None), file(2, 9, None, None)];
    let mut pass = step1(files);
    assert_eq!(pass.hashed(Some("a".to_string())), Some(0));
    assert_eq!(pass.hashed(None), None);
    assert_eq!(pass.next(), Some(2));
    assert_eq!(pass.hashed(Some("b".to_string())), Some(2));
    assert_eq!(pass.next(), None);
    assert_eq!(pass.hashed(Some("c".to_string())), None);
    let files = pass.into_files();
    assert_eq!(files[1].hash_4096, None);
    assert_eq!(files[2].hash_4096.as_deref(), Some("b"));
}

#[test]
fn the_second_step_keeps_files_with_equal_first_bytes() {
    let files = vec![
        file(0, 9000, Some("b"), None),
        file(1, 9000, Some("a"), Some("x")),
        file(2, 9000, None, None),
        file(3, 9000, Some("c"), None),
        file(4, 9000, Some("b"), None),
        file(5, 9000, Some("a"), None),
    ];
    let mut pass = step2(files);
    assert_eq!(ids(pass.files()), vec![1, 5, 0, 4]);
    assert_eq!(*pass.pending(), vec![1, 2, 3]);
    assert_eq!(pass.hashed(Some("y".to_string())), Some(1));
    assert_eq!(pass.files()[1].hash.as_deref(), Some("y"));
    assert_eq!(pass.files()[1].hash_4096.as_deref(), Some("a"));
}

#[test]
fn updates_are_committed_when_there_are_many() {
    let two = || vec![file(0, 9000, Some("a"), None), file(1, 9000, Some("a"), None)];
    let mut pass = step1(two());
    for n in 1..15_000 {
        assert!(!pass.stored(0));
        assert_eq!(pass.num_commands(), n);
    }
    assert!(pass.stored(0));
    assert_eq!(pass.num_commands(), 0);
    let mut pass = step2(two());
    for _ in 1..5_000 {
        assert!(!pass.stored(0));
    }
    assert!(pass.stored(0));
    assert!(!pass.stored(0));
}

#[test]
fn updates_are_committed_after_five_seconds() {
    let mut pass = step2(vec![]);
    assert!(!pass.stored(5_000_000_000));
    assert_eq!(pass.num_commands(), 1);
    assert!(pass.stored(5_000_000_001));
    assert_eq!(pass.num_commands(), 0);
}

#[test]
fn equal_files_survive_both_steps() {
    let contents = ["aaaa", "bbbb", "aaaa", "cc", "bbbx", "aaaa", "", ""];
    let files: Vec<FileRecord> = contents
        .iter()
        .enumerate()
        .map(|(id, c)| file(id, c.len() as i64, None, None))
        .collect();
    let read = |f: &FileRecord| Some(contents[f.path.id].to_string());
    let files = run(step1(files), &read);
    let files = run(step2(files), &read);
    let groups = find_duplicates_by(&ByHash, retain(&HasHash, files));
    assert_eq!(group_ids(&groups), vec![vec![0, 2, 5]]);
}

#[test]
fn the_first_step_keeps_what_it_kept() {
    let files = vec![
        file(0, 10, None, None),
        file(1, 20, None, None),
        file(2, 30, None, None),
        file(3, 20, None, None),
        file(4, 10, None, None),
    ];
    let once = step1(files).into_files();
    assert_eq!(ids(&once), vec![0, 4, 1, 3]);
    let twice = step1(once).into_files();
    assert_eq!(ids(&twice), vec![0, 4, 1, 3]);
}

#[test]
fn what_was_hashed_passes_its_step_again() {
    let files: Vec<FileRecord> = [9000, 10, 9000, 20, 10, 9000, 7]
        .iter()
        .enumerate()
        .map(|(id, size)| file(id, *size, None, None))
        .collect();
    let hash = |f: &FileRecord| if f.path.id == 5 { None } else { Some("p".to_string()) };
    let once = run(step1(files), &hash);
    assert_eq!(ids(&once), vec![1, 4, 0, 2, 5]);
    let again = step1(once);
    assert_eq!(ids(again.files()), vec![1, 4, 0, 2, 5]);
    assert_eq!(*again.pending(), vec![4]);

    let twice = run(step2(again.into_files()), &hash);
    assert_eq!(ids(&twice), vec![1, 4, 0, 2]);
    let again = step2(twice);
    assert_eq!(ids(again.files()), vec![1, 4, 0, 2]);
    assert!(again.pending().is_empty());
}

#[test]
fn the_size_of_the_files_to_hash_is_known() {
    let files = vec![
        file(0, 9000, Some("p"), None),
        file(1, 9001, Some("p"), Some("h")),
        file(2, 9002, Some("p"), None),
        file(3, 9003, Some("q"), None),
    ];
    let mut pass = step2(files);
    assert_eq!(pass.pending_size(), 18002);
    pass.hashed(Some("h".to_string()));
    assert_eq!(pass.pending_size(), 18002);
    assert_eq!(step2(vec![]).pending_size(), 0);

    let files = vec![file(0, i64::MAX, None, None), file(1, i64::MAX, None, None)];
    assert_eq!(step1(files).pending_size(), 2 * (i64::MAX as i128));
}
