use dedupe::config::{Config, DuplicateGroupFilter, Score};
use dedupe::file_record::FileRecord;
use dedupe::path::{FilePath, PathComponent};
use dedupe::report::{
    report_all_duplicated_files, show_group, show_scored_group, DuplicateReport,
};

fn file(id: usize, text: &str, size: i64, hash: Option<&str>) -> FileRecord {
    FileRecord {
        path: FilePath {
            id,
            name: text.to_string(),
            unicode: true,
            components: text
                .split('/')
                .map(|part| {
                    if part.is_empty() {
                        PathComponent::RootDir
                    } else {
                        PathComponent::Normal(part.as_bytes().to_vec())
                    }
                })
                .collect(),
        },
        size,
        hash: hash.map(|h| h.to_string()),
        hash_4096: None,
    }
}

fn config(scores: &[&str], groups_filter: DuplicateGroupFilter) -> Config {
    Config {
        includes: vec![],
        exclude_regex: vec![],
        min_size: 0,
        scores: scores.iter().map(|s| Score::parse(s).unwrap()).collect(),
        groups_filter,
    }
}

fn shown_ids(report: &DuplicateReport) -> Vec<Vec<usize>> {
    report
        .groups
        .iter()
        .map(|g| g.files.iter().map(|f| f.file.path.id).collect())
        .collect()
}

fn deleted_ids(report: &DuplicateReport) -> Vec<usize> {
    report.to_delete.iter().map(|f| f.path.id).collect()
}

#[test]
fn files_with_the_same_hash_are_reported_smallest_first() {
    let files = vec![
        file(0, "/big/b", 100, Some("a")),
        file(1, "/x", 5, None),
        file(2, "/small/b", 10, Some("z")),
        file(3, "/big/a", 100, Some("a")),
        file(4, "/small/a", 10, Some("z")),
        file(5, "/alone", 10, Some("y")),
        file(6, "/small/c", 10, Some("z")),
    ];
    let report =
        report_all_duplicated_files(&config(&[], DuplicateGroupFilter::All), files, true).unwrap();
    assert_eq!(shown_ids(&report), vec![vec![4, 2, 6], vec![3, 0]]);
    assert_eq!(report.groups[0].size, 10);
    assert_eq!(report.groups[1].size, 100);
    assert!(!report.groups[0].has_scores);
    assert_eq!(report.redundant_size, 10 * 2 + 100);
    assert!(report.to_delete.is_empty());
    assert!(!report.confirm);
}

#[test]
fn without_scores_files_are_listed_by_path() {
    let files = vec![file(0, "/a-c", 1, Some("h")), file(1, "/a/b", 1, Some("h"))];
    let report =
        report_all_duplicated_files(&config(&[], DuplicateGroupFilter::All), files, false).unwrap();
    assert_eq!(shown_ids(&report), vec![vec![1, 0]]);
}

#[test]
fn the_lowest_score_is_deleted() {
    let files = vec![
        file(0, "/low/1", 4, Some("h")),
        file(1, "/high/1", 4, Some("h")),
        file(2, "/low/2", 4, Some("h")),
        file(3, "/middle/1", 4, Some("h")),
    ];
    let config = config(&["50=/low/", "100=/high/", "70=/middle/"], DuplicateGroupFilter::All);
    let report = report_all_duplicated_files(&config, files, true).unwrap();
    assert_eq!(shown_ids(&report), vec![vec![1, 3, 2, 0]]);
    assert_eq!(deleted_ids(&report), vec![2, 0]);
    assert!(report.confirm);
    let group = &report.groups[0];
    assert!(group.has_scores && group.has_deletables);
    assert_eq!(group.files[0].score, Some(100));
    assert!(!group.files[1].to_delete);
    assert!(group.files[2].to_delete);
}

#[test]
fn nothing_is_deleted_without_being_asked() {
    let files = vec![file(0, "/low", 4, Some("h")), file(1, "/high", 4, Some("h"))];
    let config = config(&["1=low", "2=high"], DuplicateGroupFilter::All);
    let report = report_all_duplicated_files(&config, files, false).unwrap();
    assert_eq!(deleted_ids(&report), vec![0]);
    assert!(!report.confirm);
}

#[test]
fn nothing_is_deleted_where_a_file_has_no_score() {
    let files = vec![
        file(0, "/low", 4, Some("h")),
        file(1, "/high", 4, Some("h")),
        file(2, "/other", 4, Some("h")),
    ];
    let config = config(&["1=low", "2=high"], DuplicateGroupFilter::All);
    let report = report_all_duplicated_files(&config, files, true).unwrap();
    assert_eq!(shown_ids(&report), vec![vec![2, 1, 0]]);
    assert!(report.groups[0].has_scores);
    assert!(!report.groups[0].has_deletables);
    assert!(report.to_delete.is_empty());
    assert!(!report.confirm);
}

#[test]
fn nothing_is_deleted_where_all_scores_are_equal() {
    for score in ["7=low", "9223372036854775807=low"] {
        let files = vec![file(0, "/low/1", 4, Some("h")), file(1, "/low/2", 4, Some("h"))];
        let config = config(&[score], DuplicateGroupFilter::All);
        let report = report_all_duplicated_files(&config, files, true).unwrap();
        assert_eq!(shown_ids(&report), vec![vec![1, 0]]);
        assert!(report.to_delete.is_empty());
    }
}

fn mixed_files() -> Vec<FileRecord> {
    vec![
        file(0, "/plain/1", 1, Some("a")),
        file(1, "/plain/2", 1, Some("a")),
        file(2, "/low/1", 2, Some("b")),
        file(3, "/plain/3", 2, Some("b")),
        file(4, "/low/2", 3, Some("c")),
        file(5, "/high/1", 3, Some("c")),
    ]
}

#[test]
fn the_filter_selects_the_groups() {
    let scores = ["1=low", "2=high"];
    let all = report_all_duplicated_files(
        &config(&scores, DuplicateGroupFilter::All),
        mixed_files(),
        true,
    )
    .unwrap();
    assert_eq!(all.groups.len(), 3);
    assert_eq!(all.redundant_size, 1 + 2 + 3);
    let scored = report_all_duplicated_files(
        &config(&scores, DuplicateGroupFilter::OnlyGroupsWithScores),
        mixed_files(),
        true,
    )
    .unwrap();
    assert_eq!(shown_ids(&scored), vec![vec![3, 2], vec![5, 4]]);
    assert_eq!(scored.redundant_size, 2 + 3);
    let deletable = report_all_duplicated_files(
        &config(&scores, DuplicateGroupFilter::OnlyGroupsWithDeletables),
        mixed_files(),
        true,
    )
    .unwrap();
    assert_eq!(shown_ids(&deletable), vec![vec![5, 4]]);
    assert_eq!(deletable.redundant_size, 3);
    for report in [&all, &scored, &deletable] {
        assert_eq!(deleted_ids(report), vec![4]);
    }
}

#[test]
fn a_deleted_file_has_a_copy_that_is_kept() {
    let scores = ["1=low", "2=high"];
    let config = config(&scores, DuplicateGroupFilter::All);
    let report = report_all_duplicated_files(&config, mixed_files(), true).unwrap();
    for deleted in &report.to_delete {
        assert!(mixed_files().iter().any(|f| f.hash == deleted.hash
            && f.path.name != deleted.path.name
            && !report.to_delete.contains(f)));
    }
}

#[test]
fn files_with_one_hash_and_two_sizes_are_refused() {
    let files = vec![file(0, "/a", 4, Some("h")), file(1, "/b", 5, Some("h"))];
    let config = config(&[], DuplicateGroupFilter::OnlyGroupsWithScores);
    let error = report_all_duplicated_files(&config, files, false).unwrap_err();
    assert!(error.groups.is_empty());
    assert_eq!(
        error.message(),
        "The hash and size must be identical within the group."
    );
}

#[test]
fn large_files_do_not_overflow_the_redundant_size() {
    let files: Vec<FileRecord> =
        (0..5).map(|id| file(id, "/a", i64::MAX, Some("h"))).collect();
    let config = config(&[], DuplicateGroupFilter::All);
    let report = report_all_duplicated_files(&config, files, false).unwrap();
    assert_eq!(report.redundant_size, 4 * (i64::MAX as i128));
}

#[test]
fn a_group_is_shown_with_its_scores() {
    let group = vec![file(0, "/low", 4, None), file(1, "/none", 9, None)];
    let shown = show_group(&config(&["-5=low"], DuplicateGroupFilter::All), group);
    assert_eq!(shown.size, 4);
    assert_eq!(shown.files[0].score, None);
    assert_eq!(shown.files[1].score, Some(-5));
}

#[test]
fn the_scores_decide_how_a_group_is_shown() {
    let group = || {
        vec![
            file(0, "/c", 4, None),
            file(1, "/a", 4, None),
            file(2, "/b", 4, None),
            file(3, "/d", 4, None),
        ]
    };
    let listed = |scores: Vec<Option<i64>>| -> Vec<(usize, bool)> {
        let shown = show_scored_group(group(), &scores);
        shown.files.iter().map(|f| (f.file.path.id, f.to_delete)).collect()
    };
    assert_eq!(
        listed(vec![None, None, None, None]),
        vec![(1, false), (2, false), (0, false), (3, false)]
    );
    assert_eq!(
        listed(vec![Some(1), Some(2), Some(1), Some(3)]),
        vec![(3, false), (1, false), (2, true), (0, true)]
    );
    assert_eq!(
        listed(vec![Some(1), None, Some(2), Some(1)]),
        vec![(1, false), (2, false), (3, false), (0, false)]
    );
    assert_eq!(
        listed(vec![Some(i64::MAX), Some(i64::MAX), Some(i64::MAX), Some(i64::MAX)]),
        vec![(3, false), (2, false), (1, false), (0, false)]
    );
    let shown = show_scored_group(group(), &vec![Some(1), Some(2), Some(1), Some(3)]);
    assert!(shown.has_scores && shown.has_deletables);
}

#[test]
fn the_groups_before_a_size_mismatch_are_handed_back() {
    let files = || {
        vec![
            file(0, "/big1", 9, Some("a")),
            file(1, "/big2", 9, Some("a")),
            file(2, "/low", 2, Some("b")),
            file(3, "/none", 2, Some("b")),
            file(4, "/x", 4, Some("c")),
            file(5, "/y", 5, Some("c")),
            file(6, "/small1", 1, Some("d")),
            file(7, "/small2", 1, Some("d")),
        ]
    };
    let before = |filter| -> Vec<Vec<usize>> {
        report_all_duplicated_files(&config(&["3=low"], filter), files(), false)
            .unwrap_err()
            .groups
            .iter()
            .map(|g| g.files.iter().map(|f| f.file.path.id).collect())
            .collect()
    };
    assert_eq!(before(DuplicateGroupFilter::All), vec![vec![6, 7], vec![3, 2]]);
    assert_eq!(before(DuplicateGroupFilter::OnlyGroupsWithScores), vec![vec![3, 2]]);
    assert!(before(DuplicateGroupFilter::OnlyGroupsWithDeletables).is_empty());
}

#[test]
fn the_path_of_a_kept_file_is_not_deleted() {
    let files = vec![
        file(0, "/high", 4, Some("h")),
        file(1, "/low", 4, Some("h")),
        file(2, "/high", 4, Some("h")),
        file(3, "/low", 4, Some("h")),
    ];
    let config = config(&["1=low", "2=high"], DuplicateGroupFilter::All);
    let report = report_all_duplicated_files(&config, files, true).unwrap();
    assert_eq!(deleted_ids(&report), vec![3, 1]);
    assert!(report.to_delete.iter().all(|f| f.path.name == "/low"));
}
