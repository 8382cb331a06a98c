use dedupe::config::{Config, DuplicateGroupFilter};
use dedupe::file_record::FileRecord;
use dedupe::path::{FilePath, PathComponent};
use dedupe::scan::{add_folder, CacheCommand, WalkEntry};
use regex::Regex;

fn file_path(id: usize, text: &str) -> FilePath {
    FilePath {
        id,
        name: text.to_string(),
        unicode: true,
        components: text
            .split('/')
            .map(|part| {
                if part.is_empty() {
                    PathComponent::RootDir
                } else {
                    PathComponent::Normal(part.as_bytes().to_vec())
                }
            })
            .collect(),
    }
}

fn entry(id: usize, text: &str, size: u64) -> WalkEntry {
    WalkEntry {
        path: file_path(id, text),
        is_file: true,
        is_dir: false,
        is_symlink: false,
        size: Some(size),
    }
}

fn known(id: usize, text: &str, hash: &str) -> FileRecord {
    FileRecord {
        path: file_path(id, text),
        size: 11,
        hash: Some(hash.to_string()),
        hash_4096: None,
    }
}

fn config(min_size: u64) -> Config {
    Config {
        includes: vec![file_path(0, "/a")],
        exclude_regex: vec![Regex::new("skip").unwrap()],
        min_size,
        scores: vec![],
        groups_filter: DuplicateGroupFilter::All,
    }
}

#[test]
fn new_files_are_inserted() {
    let scan = add_folder(&config(0), &vec![], &vec![entry(1, "/a/x", 5), entry(2, "/a/y", 0)]);
    assert_eq!(scan.files.len(), 2);
    assert_eq!(scan.files[0].path, file_path(1, "/a/x"));
    assert_eq!(scan.files[0].size, 5);
    assert_eq!(scan.files[0].hash, None);
    assert_eq!(scan.files[0].hash_4096, None);
    assert_eq!(
        scan.commands,
        vec![CacheCommand::Insert(0), CacheCommand::Insert(1), CacheCommand::Commit]
    );
}

#[test]
fn known_files_are_taken_from_the_cache() {
    let cache = vec![known(8, "/a/x", "old"), known(9, "/a/x", "new")];
    let scan = add_folder(&config(0), &cache, &vec![entry(1, "/a/y", 5), entry(2, "/a/x", 7)]);
    assert_eq!(scan.files[1], cache[1]);
    assert_eq!(scan.commands, vec![CacheCommand::Insert(0), CacheCommand::Commit]);
}

#[test]
fn a_known_file_can_be_taken_twice() {
    let cache = vec![known(8, "/a/x", "h")];
    let scan = add_folder(&config(0), &cache, &vec![entry(1, "/a/x", 5), entry(2, "/a/x", 5)]);
    assert_eq!(scan.files, vec![cache[0].clone(), cache[0].clone()]);
    assert_eq!(scan.commands, vec![CacheCommand::Commit]);
}

#[test]
fn only_regular_files_that_are_looked_at_are_taken() {
    let mut directory = entry(1, "/a/d", 5);
    directory.is_file = false;
    directory.is_dir = true;
    let mut link = entry(2, "/a/l", 5);
    link.is_symlink = true;
    let mut unknown = entry(3, "/a/u", 5);
    unknown.size = None;
    let entries = vec![
        directory,
        link,
        unknown,
        entry(4, "/b/x", 5),
        entry(5, "/a/skip", 5),
        entry(6, "/a/small", 4),
        entry(7, "/a/fits", 5),
    ];
    let scan = add_folder(&config(5), &vec![], &entries);
    assert_eq!(scan.files.iter().map(|f| f.path.id).collect::<Vec<_>>(), vec![7]);
    let scan = add_folder(&config(0), &vec![], &entries);
    assert_eq!(scan.files.iter().map(|f| f.path.id).collect::<Vec<_>>(), vec![3, 6, 7]);
    assert_eq!(scan.files[0].size, 0);
}

#[test]
fn an_empty_folder_is_committed() {
    let scan = add_folder(&config(0), &vec![], &vec![]);
    assert!(scan.files.is_empty());
    assert_eq!(scan.commands, vec![CacheCommand::Commit]);
}

#[test]
fn inserts_are_committed_in_batches() {
    let entries: Vec<WalkEntry> =
        (0..20_001).map(|id| entry(id, &format!("/a/{}", id), 1)).collect();
    let scan = add_folder(&config(0), &vec![], &entries);
    let commits: Vec<usize> = scan
        .commands
        .iter()
        .enumerate()
        .filter(|(_, c)| **c == CacheCommand::Commit)
        .map(|(i, _)| i)
        .collect();
    assert_eq!(commits, vec![10_000, 20_001, 20_003]);
    let inserted: Vec<usize> = scan
        .commands
        .iter()
        .filter_map(|c| match c {
            CacheCommand::Insert(i) => Some(*i),
            CacheCommand::Commit => None,
        })
        .collect();
    assert_eq!(inserted, (0..20_001).collect::<Vec<usize>>());
}

#[test]
fn a_size_beyond_the_signed_range_wraps() {
    let scan = add_folder(&config(0), &vec![], &vec![entry(1, "/a/x", u64::MAX)]);
    assert_eq!(scan.files[0].size, -1);
}

#[test]
fn a_second_scan_inserts_no_file() {
    let entries = || vec![entry(1, "/a/x", 5), entry(2, "/a/y", 0), entry(3, "/a/z", 8)];
    let cache = vec![known(8, "/a/y", "h")];
    let first = add_folder(&config(0), &cache, &entries());
    assert_eq!(
        first.commands,
        vec![CacheCommand::Insert(0), CacheCommand::Insert(2), CacheCommand::Commit]
    );
    let mut later = vec![first.files[2].clone(), cache[0].clone(), first.files[0].clone()];
    for (id, file) in later.iter_mut().enumerate() {
        file.path.id = 20 + id;
    }
    let second = add_folder(&config(0), &later, &entries());
    assert_eq!(second.commands, vec![CacheCommand::Commit]);
    assert_eq!(second.files, first.files);
}
