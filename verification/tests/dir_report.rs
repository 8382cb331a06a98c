use dedupe::config::{Config, DuplicateGroupFilter};
use dedupe::dir_report::{report_duplication_status_in_dir, EntryStatus};
use dedupe::file_record::FileRecord;
use dedupe::path::{FilePath, PathComponent};
use dedupe::scan::WalkEntry;

fn file_path(text: &str) -> FilePath {
    FilePath {
        id: 0,
        name: text.to_string(),
        unicode: true,
        components: text
            .split('/')
            .map(|part| {
                if part.is_empty() {
                    PathComponent::RootDir
                } else {
                    PathComponent::Normal(part.as_bytes().to_vec())
                }
            })
            .collect(),
    }
}

fn file(text: &str, hash: Option<&str>) -> FileRecord {
    FileRecord {
        path: file_path(text),
        size: 10,
        hash: hash.map(|h| h.to_string()),
        hash_4096: None,
    }
}

fn entry(text: &str, size: u64) -> WalkEntry {
    WalkEntry {
        path: file_path(text),
        is_file: true,
        is_dir: false,
        is_symlink: false,
        size: Some(size),
    }
}

fn config() -> Config {
    Config {
        includes: vec![file_path("/a")],
        exclude_regex: vec![],
        min_size: 3,
        scores: vec![],
        groups_filter: DuplicateGroupFilter::All,
    }
}

fn copies(names: &[&str]) -> EntryStatus {
    EntryStatus::Copies(names.iter().map(|n| n.to_string()).collect())
}

#[test]
fn each_entry_of_the_folder_has_a_status() {
    let files = vec![
        file("/a/dir/copied", Some("h")),
        file("/a/other/2", Some("h")),
        file("/a/other/1", Some("h")),
        file("/a/dir/alone", Some("i")),
        file("/a/dir/twice1", Some("j")),
        file("/a/dir/twice2", Some("j")),
        file("/a/dir/unhashed", None),
        file("/a/other/unhashed", None),
        file("/a/dirt", Some("j")),
    ];
    let mut directory = entry("/a/dir", 4096);
    directory.is_dir = true;
    let mut link = entry("/a/dir/link", 10);
    link.is_symlink = true;
    let mut unreadable = entry("/a/dir/copied", 10);
    unreadable.size = None;
    let entries = vec![
        directory,
        entry("/a/dir/copied", 10),
        entry("/a/dir/alone", 10),
        entry("/a/dir/twice1", 10),
        entry("/a/dir/unhashed", 10),
        entry("/a/dir/unknown", 10),
        entry("/a/dir/empty", 0),
        entry("/a/dir/small", 2),
        link,
        entry("/b/elsewhere", 10),
        unreadable,
    ];
    let report = report_duplication_status_in_dir(&config(), &file_path("/a/dir"), &files, &entries);
    assert_eq!(
        report.statuses,
        vec![
            EntryStatus::Directory,
            copies(&["/a/other/2", "/a/other/1"]),
            EntryStatus::OnlyCopy,
            copies(&["/a/dirt"]),
            EntryStatus::OnlyCopy,
            EntryStatus::OnlyCopy,
            EntryStatus::Ignored,
            EntryStatus::Ignored,
            EntryStatus::Ignored,
            EntryStatus::Ignored,
            EntryStatus::Ignored,
        ]
    );
    assert_eq!(report.duplicated_files, 2);
    assert_eq!(report.unique_files, 3);
    assert_eq!(report.ignored_files, 5);
    assert_eq!(
        report.duplicated_files + report.unique_files + report.ignored_files + 1,
        report.statuses.len()
    );
}

#[test]
fn copies_inside_the_folder_do_not_count() {
    let files = vec![file("/a/dir/1", Some("h")), file("/a/dir/2", Some("h"))];
    let entries = vec![entry("/a/dir/1", 10), entry("/a/dir/2", 10)];
    let report = report_duplication_status_in_dir(&config(), &file_path("/a/dir"), &files, &entries);
    assert_eq!(report.statuses, vec![EntryStatus::OnlyCopy, EntryStatus::OnlyCopy]);
    assert_eq!(report.unique_files, 2);
}

#[test]
fn the_last_record_of_a_path_counts() {
    let files = vec![
        file("/a/dir/1", Some("h")),
        file("/a/x", Some("h")),
        file("/a/dir/1", Some("i")),
        file("/a/y", Some("i")),
    ];
    let entries = vec![entry("/a/dir/1", 10)];
    let report = report_duplication_status_in_dir(&config(), &file_path("/a/dir"), &files, &entries);
    assert_eq!(report.statuses, vec![copies(&["/a/y"])]);
}

#[test]
fn an_empty_folder_has_nothing_to_report() {
    let report =
        report_duplication_status_in_dir(&config(), &file_path("/a/dir"), &vec![], &vec![]);
    assert!(report.statuses.is_empty());
    assert_eq!(
        (report.duplicated_files, report.unique_files, report.ignored_files),
        (0, 0, 0)
    );
}

#[test]
fn every_copy_outside_the_folder_is_listed() {
    let files = vec![
        file("/a/x", Some("h")),
        file("/a/dir/1", Some("h")),
        file("/b/y", Some("h")),
        file("/b/z", Some("i")),
    ];
    let entries = vec![entry("/a/dir/1", 10)];
    let report = report_duplication_status_in_dir(&config(), &file_path("/a/dir"), &files, &entries);
    assert_eq!(report.statuses, vec![copies(&["/a/x", "/b/y"])]);
}

#[test]
fn a_further_file_inside_the_folder_changes_no_status() {
    let mut files = vec![
        file("/a/dir/1", Some("h")),
        file("/a/x", Some("i")),
        file("/a/dir/2", Some("i")),
    ];
    let entries = vec![entry("/a/dir/1", 10), entry("/a/dir/2", 10)];
    let before = report_duplication_status_in_dir(&config(), &file_path("/a/dir"), &files, &entries);
    files.insert(1, file("/a/dir/sub/3", Some("h")));
    files.push(file("/a/dir/sub/4", Some("i")));
    let after = report_duplication_status_in_dir(&config(), &file_path("/a/dir"), &files, &entries);
    assert_eq!(before.statuses, vec![EntryStatus::OnlyCopy, copies(&["/a/x"])]);
    assert_eq!(after.statuses, before.statuses);
    assert_eq!(
        (after.duplicated_files, after.unique_files, after.ignored_files),
        (before.duplicated_files, before.unique_files, before.ignored_files)
    );
}
