use dedupe::config::{compile_all, Config, DuplicateGroupFilter, Score, ScoreError};
use dedupe::path::{FilePath, PathComponent};

fn file_path(text: &str) -> FilePath {
    let mut components = vec![];
    if text.starts_with('/') {
        components.push(PathComponent::RootDir);
    }
    for part in text.split('/') {
        if !part.is_empty() {
            components.push(PathComponent::Normal(part.as_bytes().to_vec()));
        }
    }
    FilePath {
        id: 0,
        name: text.to_string(),
        unicode: true,
        components,
    }
}

fn strings(texts: &[&str]) -> Vec<String> {
    texts.iter().map(|t| t.to_string()).collect()
}

fn config(includes: &[&str], excludes: &[&str], scores: &[&str]) -> Config {
    Config {
        includes: includes.iter().map(|t| file_path(t)).collect(),
        exclude_regex: match compile_all(&strings(excludes)) {
            Ok(patterns) => patterns,
            Err(failed) => panic!("{}", failed.error),
        },
        min_size: 0,
        scores: Score::parse_all(&strings(scores)).unwrap(),
        groups_filter: DuplicateGroupFilter::All,
    }
}

#[test]
fn a_score_is_a_number_and_a_pattern() {
    let score = Score::parse("10=/duplicates/").unwrap();
    assert_eq!(score.score, 10);
    assert_eq!(score.pattern.as_str(), "/duplicates/");
    let score = Score::parse("-3=a=b").unwrap();
    assert_eq!(score.score, -3);
    assert_eq!(score.pattern.as_str(), "a=b");
    let score = Score::parse("+7=").unwrap();
    assert_eq!(score.score, 7);
    assert_eq!(score.pattern.as_str(), "");
}

#[test]
fn a_score_without_equals_is_refused() {
    let error = Score::parse("10").unwrap_err();
    assert_eq!(error, ScoreError::MissingEquals);
    assert_eq!(error.message(), "Does does not contain =");
}

#[test]
fn a_score_without_number_is_refused() {
    for text in ["=a", "x=a", "1.5=a", " 1=a", "9223372036854775808=a"] {
        let error = Score::parse(text).unwrap_err();
        assert_eq!(error, ScoreError::NotANumber);
        assert_eq!(error.message(), "Score is not a number");
    }
    assert_eq!(Score::parse("x=(").unwrap_err(), ScoreError::NotANumber);
}

#[test]
fn a_score_with_a_bad_pattern_is_refused() {
    let error = Score::parse("1=(").unwrap_err();
    assert_eq!(error, ScoreError::BadRegex);
    assert_eq!(error.message(), "Bad regex");
}

#[test]
fn a_compiled_pattern_decides_what_a_score_becomes() {
    let score = Score::with_pattern(4, regex::Regex::new("a")).unwrap();
    assert_eq!((score.score, score.pattern.as_str()), (4, "a"));
    assert_eq!(
        Score::with_pattern(4, regex::Regex::new("[")).unwrap_err(),
        ScoreError::BadRegex
    );
}

#[test]
fn the_first_bad_score_is_reported() {
    let scores = Score::parse_all(&strings(&["1=a", "2=b"])).unwrap();
    assert_eq!(scores.len(), 2);
    assert_eq!(scores[1].score, 2);
    assert_eq!(
        Score::parse_all(&strings(&["1=a", "2=(", "3"])).unwrap_err(),
        ScoreError::BadRegex
    );
    assert_eq!(
        Score::parse_all(&strings(&["1=a", "3", "2=("])).unwrap_err(),
        ScoreError::MissingEquals
    );
}

#[test]
fn the_first_bad_pattern_is_reported() {
    match compile_all(&strings(&["a", "(", "["])) {
        Ok(_) => panic!("a bad pattern was compiled"),
        Err(failed) => assert_eq!(failed.position, 1),
    }
    match compile_all(&strings(&["a", "b+"])) {
        Ok(patterns) => assert_eq!(patterns[1].as_str(), "b+"),
        Err(failed) => panic!("{}", failed.error),
    }
}

#[test]
fn a_path_has_the_score_of_the_first_pattern_that_matches() {
    let config = config(&[], &[], &["50=photos", "100=^/backup/", "7=jpg$"]);
    assert_eq!(config.get_score("/backup/photos/a.jpg"), Some(50));
    assert_eq!(config.get_score("/backup/a.jpg"), Some(100));
    assert_eq!(config.get_score("/home/a.jpg"), Some(7));
    assert_eq!(config.get_score("/home/a.png"), None);
}

#[test]
fn without_patterns_there_is_no_score() {
    assert_eq!(config(&[], &[], &[]).get_score("/a"), None);
}

#[test]
fn files_in_the_folders_are_included() {
    let config = config(&["/a/b", "/c"], &[], &[]);
    assert!(config.is_included(&file_path("/a/b/x"), false));
    assert!(config.is_included(&file_path("/c/x/y"), false));
    assert!(!config.is_included(&file_path("/a/bc/x"), false));
    assert!(!config.is_included(&file_path("/d/x"), false));
}

#[test]
fn symbolic_links_are_not_included() {
    let config = config(&["/a"], &[], &[]);
    assert!(config.is_included(&file_path("/a/x"), false));
    assert!(!config.is_included(&file_path("/a/x"), true));
}

#[test]
fn excluded_paths_are_not_included() {
    let config = config(&["/a"], &["node_modules", "\\.tmp$"], &[]);
    assert!(config.is_included(&file_path("/a/x.txt"), false));
    assert!(!config.is_included(&file_path("/a/node_modules/x.txt"), false));
    assert!(!config.is_included(&file_path("/a/x.tmp"), false));
    assert!(config.is_included(&file_path("/a/x.tmp2"), false));
}

#[test]
fn exclusions_do_not_see_paths_that_are_not_unicode() {
    let config = config(&["/a"], &["x"], &[]);
    let mut path = file_path("/a/x");
    assert!(!config.is_included(&path, false));
    path.unicode = false;
    assert!(config.is_included(&path, false));
}

#[test]
fn the_filter_follows_the_number_of_options() {
    assert_eq!(DuplicateGroupFilter::from_count(0), DuplicateGroupFilter::All);
    assert_eq!(
        DuplicateGroupFilter::from_count(1),
        DuplicateGroupFilter::OnlyGroupsWithScores
    );
    for count in [2, 3, 255] {
        assert_eq!(
            DuplicateGroupFilter::from_count(count),
            DuplicateGroupFilter::OnlyGroupsWithDeletables
        );
    }
}

#[test]
fn the_first_mark_decides_the_score() {
    let config = config(&[], &[], &["50=a", "100=b", "7=c"]);
    assert_eq!(config.score_of_first(&vec![false, true, true]), Some(100));
    assert_eq!(config.score_of_first(&vec![true, false, false]), Some(50));
    assert_eq!(config.score_of_first(&vec![false, false, false]), None);
    assert_eq!(config.score_of_first(&vec![false, false]), None);
    assert_eq!(config.score_of_first(&vec![false, false, false, true]), None);
}

#[test]
fn inclusion_follows_the_folder_the_link_and_the_exclusion() {
    let config = config(&["/a"], &["x"], &[]);
    let inside = file_path("/a/x");
    assert!(config.in_folders(&inside));
    assert!(!config.in_folders(&file_path("/b/x")));
    assert!(config.is_excluded(&inside));
    assert!(!config.is_excluded(&file_path("/a/y")));
    assert!(config.is_included_unless(&inside, false, false));
    assert!(!config.is_included_unless(&inside, true, false));
    assert!(!config.is_included_unless(&inside, false, true));
    assert!(!config.is_included_unless(&file_path("/b/x"), false, false));
}

#[test]
fn a_filter_lets_groups_through() {
    let all = DuplicateGroupFilter::All;
    let scored = DuplicateGroupFilter::OnlyGroupsWithScores;
    let deletable = DuplicateGroupFilter::OnlyGroupsWithDeletables;
    assert!(all.lets_through(false, false));
    assert!(!scored.lets_through(false, false));
    assert!(scored.lets_through(true, false));
    assert!(!deletable.lets_through(true, false));
    assert!(deletable.lets_through(true, true));
}

#[test]
fn a_bad_pattern_is_explained() {
    for (good, bad) in [("a", "("), ("b", "[a"), ("c", "a{2,1}"), ("", "\\w{9999}{9999}")] {
        let failed = match compile_all(&strings(&[good, bad, "x**("])) {
            Ok(_) => panic!("a bad pattern was compiled"),
            Err(failed) => failed,
        };
        assert_eq!(failed.position, 1);
        assert_eq!(failed.message(), regex::Regex::new(bad).unwrap_err().to_string());
        assert_eq!(failed.message(), failed.error.to_string());
    }
    let failed = compile_all(&strings(&["("])).err().unwrap();
    assert!(failed.message().contains("unclosed group"));
}
