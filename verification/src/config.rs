//! What the user asks for.
use crate::number;
use crate::number::parse_i64;
use crate::path;
use crate::path::FilePath;
use crate::pattern;
use crate::pattern::error_words;
use crate::text::characters;
use regex::Regex;
use vstd::prelude::*;
use vstd::slice::slice_subrange;

verus! {

/// Which groups of duplicated files are shown.
#[derive(Debug, Clone, Copy, PartialEq, Eq, Structural)]
pub enum DuplicateGroupFilter {
    /// All groups.
    All,
    /// The groups with a file that has a score.
    OnlyGroupsWithScores,
    /// The groups with a file that may be deleted.
    OnlyGroupsWithDeletables,
}

impl DuplicateGroupFilter {
    /// The filter that a user asks for who gives the option `count` times.
    pub open spec fn asked(count: int) -> DuplicateGroupFilter {
        if count == 0 {
            DuplicateGroupFilter::All
        } else if count == 1 {
            DuplicateGroupFilter::OnlyGroupsWithScores
        } else {
            DuplicateGroupFilter::OnlyGroupsWithDeletables
        }
    }

    /// The filter that a user asks for who gives the option `count` times.
    pub fn from_count(count: u8) -> (filter: DuplicateGroupFilter)
        ensures
            filter == DuplicateGroupFilter::asked(count as int),
    {
        match count {
            0 => DuplicateGroupFilter::All,
            1 => DuplicateGroupFilter::OnlyGroupsWithScores,
            _ => DuplicateGroupFilter::OnlyGroupsWithDeletables,
        }
    }

    /// The filter lets a group through.
    pub open spec fn shows(self, has_scores: bool, has_deletables: bool) -> bool {
        match self {
            DuplicateGroupFilter::All => true,
            DuplicateGroupFilter::OnlyGroupsWithScores => has_scores,
            DuplicateGroupFilter::OnlyGroupsWithDeletables => has_deletables,
        }
    }

    /// Whether the filter lets a group through.
    pub fn lets_through(&self, has_scores: bool, has_deletables: bool) -> (shown: bool)
        ensures
            shown == self.shows(has_scores, has_deletables),
    {
        match self {
            DuplicateGroupFilter::All => true,
            DuplicateGroupFilter::OnlyGroupsWithScores => has_scores,
            DuplicateGroupFilter::OnlyGroupsWithDeletables => has_deletables,
        }
    }
}

/// A score for the paths that match a pattern.
#[derive(Debug)]
pub struct Score {
    pub score: i64,
    pub pattern: Regex,
}

/// What a score stands for.
pub struct ScoreModel {
    pub score: i64,
    pub pattern: Seq<char>,
}

impl View for Score {
    type V = ScoreModel;

    open spec fn view(&self) -> ScoreModel {
        ScoreModel { score: self.score, pattern: pattern::pattern_text(self.pattern) }
    }
}

/// What the scores stand for.
pub open spec fn score_models(scores: Seq<Score>) -> Seq<ScoreModel> {
    scores.map_values(|s: Score| s@)
}

/// Why a text is not a score.
#[derive(Debug, Clone, Copy, PartialEq, Eq, Structural)]
pub enum ScoreError {
    /// There is no `=`.
    MissingEquals,
    /// What stands before the first `=` is not a number.
    NotANumber,
    /// What stands behind the first `=` is not a regular expression.
    BadRegex,
}

impl ScoreError {
    /// The error in words.
    pub fn message(&self) -> (words: &'static str)
        ensures
            words@ == match *self {
                ScoreError::MissingEquals => "Does does not contain ="@,
                ScoreError::NotANumber => "Score is not a number"@,
                ScoreError::BadRegex => "Bad regex"@,
            },
    {
        match self {
            ScoreError::MissingEquals => "Does does not contain =",
            ScoreError::NotANumber => "Score is not a number",
            ScoreError::BadRegex => "Bad regex",
        }
    }
}

/// `k` is the position of the first `=`.
pub open spec fn first_equals(text: Seq<char>, k: int) -> bool {
    &&& 0 <= k < text.len()
    &&& text[k] == '='
    &&& forall|i: int| 0 <= i < k ==> #[trigger] text[i] != '='
}

/// The score that a text writes: a number, `=` and a pattern.
pub open spec fn parsed_score(text: Seq<char>) -> Result<ScoreModel, ScoreError> {
    if !text.contains('=') {
        Err(ScoreError::MissingEquals)
    } else {
        let k = choose|k: int| first_equals(text, k);
        match number::decimal_i64(text.take(k)) {
            None => Err(ScoreError::NotANumber),
            Some(score) => if pattern::compiles(text.skip(k + 1), usize::BITS as nat) {
                Ok(ScoreModel { score, pattern: text.skip(k + 1) })
            } else {
                Err(ScoreError::BadRegex)
            },
        }
    }
}

impl Score {
    /// The score that `compiled` gives together with the number `score`.
    pub fn with_pattern(score: i64, compiled: Result<Regex, regex::Error>) -> (result: Result<
        Score,
        ScoreError,
    >)
        ensures
            match compiled {
                Ok(regex) => result == Ok::<Score, ScoreError>(Score { score, pattern: regex }),
                Err(_) => result == Err::<Score, ScoreError>(ScoreError::BadRegex),
            },
    {
        match compiled {
            Ok(pattern) => Ok(Score { score, pattern }),
            Err(_) => Err(ScoreError::BadRegex),
        }
    }

    /// Reads a score that is written as a number, `=` and a pattern.
    pub fn parse(s: &str) -> (result: Result<Score, ScoreError>)
        ensures
            match result {
                Ok(score) => parsed_score(s@) == Ok::<ScoreModel, ScoreError>(score@),
                Err(error) => parsed_score(s@) == Err::<ScoreModel, ScoreError>(error),
            },
    {
        let chars = characters(s);
        let n = chars.len();
        let mut k: usize = 0;
        while k < n && chars[k] != '='
            invariant
                n == chars@.len(),
                k <= n,
                forall|i: int| 0 <= i < k ==> #[trigger] chars@[i] != '=',
            decreases n - k,
        {
            k = k + 1;
        }
        if k == n {
            return Err(ScoreError::MissingEquals);
        }
        proof {
            assert(first_equals(s@, k as int));
            assert(s@.contains('='));
            let j = choose|j: int| first_equals(s@, j);
            assert(j == k) by {
                if j < k {
                    assert(s@[j] == '=');
                } else if k < j {
                    assert(s@[k as int] == '=');
                }
            }
        }
        let score = match parse_i64(slice_subrange(chars.as_slice(), 0, k)) {
            Some(score) => score,
            None => {
                return Err(ScoreError::NotANumber);
            },
        };
        let written = s.substring_char(k + 1, n);
        proof {
            assert(written@ =~= s@.skip(k + 1));
        }
        Score::with_pattern(score, Regex::new(written))
    }

    /// Reads a list of scores; the first text that is not a score gives the error.
    pub fn parse_all(texts: &Vec<String>) -> (result: Result<Vec<Score>, ScoreError>)
        ensures
            match result {
                Ok(scores) => scores@.len() == texts@.len() && forall|i: int|
                    0 <= i < texts@.len() ==> parsed_score(#[trigger] texts@[i]@) == Ok::<
                        ScoreModel,
                        ScoreError,
                    >(scores@[i]@),
                Err(error) => exists|k: int|
                    {
                        &&& 0 <= k < texts@.len()
                        &&& parsed_score(#[trigger] texts@[k]@) == Err::<ScoreModel, ScoreError>(error)
                        &&& forall|i: int| 0 <= i < k ==> parsed_score(#[trigger] texts@[i]@) is Ok
                    },
            },
    {
        let mut scores: Vec<Score> = Vec::new();
        let mut i: usize = 0;
        while i < texts.len()
            invariant
                i <= texts@.len(),
                scores@.len() == i,
                forall|j: int|
                    0 <= j < i ==> parsed_score(#[trigger] texts@[j]@) == Ok::<ScoreModel, ScoreError>(
                        scores@[j]@,
                    ),
            decreases texts@.len() - i,
        {
            match Score::parse(texts[i].as_str()) {
                Ok(score) => {
                    scores.push(score);
                },
                Err(error) => {
                    return Err(error);
                },
            }
            i = i + 1;
        }
        Ok(scores)
    }
}

/// A pattern that does not compile: its position in the list, and the reason.
pub struct PatternError {
    pub position: usize,
    pub error: regex::Error,
}

impl PatternError {
    /// The error in words.
    pub fn message(&self) -> (words: String)
        ensures
            words@ == pattern::error_text(self.error),
    {
        error_words(&self.error)
    }
}

/// Compiles a list of patterns; the first that does not compile gives the error.
pub fn compile_all(texts: &Vec<String>) -> (result: Result<Vec<Regex>, PatternError>)
    ensures
        match result {
            Ok(patterns) => {
                &&& patterns@.len() == texts@.len()
                &&& forall|i: int|
                    0 <= i < texts@.len() ==> pattern::compiles(
                        #[trigger] texts@[i]@,
                        usize::BITS as nat,
                    ) && pattern::pattern_text(patterns@[i]) == texts@[i]@
            },
            Err(failed) => {
                &&& failed.position < texts@.len()
                &&& !pattern::compiles(texts@[failed.position as int]@, usize::BITS as nat)
                &&& pattern::error_text(failed.error) == pattern::refusal(
                    texts@[failed.position as int]@,
                    usize::BITS as nat,
                )
                &&& forall|i: int|
                    0 <= i < failed.position ==> pattern::compiles(
                        #[trigger] texts@[i]@,
                        usize::BITS as nat,
                    )
            },
        },
{
    let mut patterns: Vec<Regex> = Vec::new();
    let mut i: usize = 0;
    while i < texts.len()
        invariant
            i <= texts@.len(),
            patterns@.len() == i,
            forall|j: int|
                0 <= j < i ==> pattern::compiles(#[trigger] texts@[j]@, usize::BITS as nat)
                    && pattern::pattern_text(patterns@[j]) == texts@[j]@,
        decreases texts@.len() - i,
    {
        match Regex::new(texts[i].as_str()) {
            Ok(regex) => {
                patterns.push(regex);
            },
            Err(error) => {
                return Err(PatternError { position: i, error });
            },
        }
        i = i + 1;
    }
    Ok(patterns)
}

/// What the user asks for.
#[derive(Debug)]
pub struct Config {
    /// The folders in which files are looked for.
    pub includes: Vec<FilePath>,
    /// A file is left out where one of these matches its path.
    pub exclude_regex: Vec<Regex>,
    /// Files with fewer bytes are left out.
    pub min_size: u64,
    /// The scores, the first that matches first.
    pub scores: Vec<Score>,
    /// Which groups are shown.
    pub groups_filter: DuplicateGroupFilter,
}

/// What a configuration stands for.
pub struct ConfigModel {
    pub includes: Seq<path::PathModel>,
    pub excludes: Seq<Seq<char>>,
    pub min_size: u64,
    pub scores: Seq<ScoreModel>,
    pub groups_filter: DuplicateGroupFilter,
}

impl View for Config {
    type V = ConfigModel;

    open spec fn view(&self) -> ConfigModel {
        ConfigModel {
            includes: self.includes@.map_values(|p: FilePath| p@),
            excludes: pattern::pattern_texts(self.exclude_regex@),
            min_size: self.min_size,
            scores: score_models(self.scores@),
            groups_filter: self.groups_filter,
        }
    }
}

/// The score of the first entry that is marked as matched.
pub open spec fn first_score(scores: Seq<ScoreModel>, matched: Seq<bool>) -> Option<i64>
    decreases scores.len(),
{
    if scores.len() == 0 || matched.len() == 0 {
        None
    } else if matched[0] {
        Some(scores[0].score)
    } else {
        first_score(scores.skip(1), matched.skip(1))
    }
}

/// Which of the patterns match `text`.
pub open spec fn matches_of(scores: Seq<ScoreModel>, text: Seq<char>) -> Seq<bool> {
    scores.map_values(|s: ScoreModel| pattern::matches_text(s.pattern, text))
}

impl ConfigModel {
    /// The path lies in one of the folders.
    pub open spec fn in_folders(self, path: path::PathModel) -> bool {
        exists|i: int|
            0 <= i < self.includes.len() && path.starts_with(#[trigger] self.includes[i])
    }

    /// One of the exclusions matches the path; they do not match a path that is not
    /// valid Unicode.
    pub open spec fn is_excluded(self, path: path::PathModel) -> bool {
        path.unicode && exists|i: int|
            0 <= i < self.excludes.len() && pattern::matches_text(
                #[trigger] self.excludes[i],
                path.name,
            )
    }

    /// A file with this path is looked at: it is no symbolic link, it lies in one
    /// of the folders, and no exclusion matches its path.
    pub open spec fn is_included(self, path: path::PathModel, is_symlink: bool) -> bool {
        !is_symlink && self.in_folders(path) && !self.is_excluded(path)
    }

    /// The score of a path: that of the first pattern that matches it.
    pub open spec fn score(self, path: Seq<char>) -> Option<i64> {
        first_score(self.scores, matches_of(self.scores, path))
    }
}

impl Config {
    /// Whether the path lies in one of the folders.
    pub fn in_folders(&self, path: &FilePath) -> (inside: bool)
        ensures
            inside == self@.in_folders(path@),
    {
        let mut i: usize = 0;
        while i < self.includes.len()
            invariant
                i <= self.includes@.len(),
                forall|j: int| 0 <= j < i ==> !path@.starts_with(#[trigger] self@.includes[j]),
            decreases self.includes@.len() - i,
        {
            if path.starts_with(&self.includes[i]) {
                proof {
                    assert(path@.starts_with(self@.includes[i as int]));
                }
                return true;
            }
            i = i + 1;
        }
        false
    }

    /// Whether one of the exclusions matches the path.
    pub fn is_excluded(&self, path: &FilePath) -> (excluded: bool)
        ensures
            excluded == self@.is_excluded(path@),
    {
        if !path.unicode {
            return false;
        }
        let mut i: usize = 0;
        while i < self.exclude_regex.len()
            invariant
                i <= self.exclude_regex@.len(),
                path.unicode,
                forall|j: int|
                    0 <= j < i ==> !pattern::matches_text(
                        #[trigger] self@.excludes[j],
                        path@.name,
                    ),
            decreases self.exclude_regex@.len() - i,
        {
            if self.exclude_regex[i].is_match(path.name.as_str()) {
                proof {
                    assert(pattern::matches_text(self@.excludes[i as int], path@.name));
                }
                return true;
            }
            i = i + 1;
        }
        false
    }

    /// Whether a file with this path is looked at, where `excluded` says whether an
    /// exclusion matches the path.
    pub fn is_included_unless(&self, path: &FilePath, is_symlink: bool, excluded: bool) -> (included:
        bool)
        ensures
            included == (!is_symlink && self@.in_folders(path@) && !excluded),
    {
        !is_symlink && self.in_folders(path) && !excluded
    }

    /// Whether a file with this path is looked at.
    pub fn is_included(&self, path: &FilePath, is_symlink: bool) -> (included: bool)
        ensures
            included == self@.is_included(path@, is_symlink),
    {
        self.is_included_unless(path, is_symlink, self.is_excluded(path))
    }

    /// The score of the first pattern that is marked as matched.
    pub fn score_of_first(&self, matched: &Vec<bool>) -> (score: Option<i64>)
        ensures
            score == first_score(self@.scores, matched@),
    {
        let ghost all = self@.scores;
        let mut i: usize = 0;
        proof {
            assert(all.skip(0) =~= all);
            assert(matched@.skip(0) =~= matched@);
        }
        while i < self.scores.len() && i < matched.len()
            invariant
                i <= self.scores@.len(),
                i <= matched@.len(),
                all == score_models(self.scores@),
                first_score(all, matched@) == first_score(
                    all.skip(i as int),
                    matched@.skip(i as int),
                ),
            decreases self.scores@.len() - i,
        {
            proof {
                assert(all.skip(i as int)[0] == self.scores@[i as int]@);
                assert(all.skip(i as int).skip(1) =~= all.skip(i + 1));
                assert(matched@.skip(i as int).skip(1) =~= matched@.skip(i + 1));
            }
            if matched[i] {
                return Some(self.scores[i].score);
            }
            i = i + 1;
        }
        None
    }

    /// The score of the first pattern that matches `path`.
    pub fn get_score(&self, path: &str) -> (score: Option<i64>)
        ensures
            score == self@.score(path@),
    {
        let mut matched: Vec<bool> = Vec::new();
        let mut i: usize = 0;
        while i < self.scores.len()
            invariant
                i <= self.scores@.len(),
                matched@.len() == i,
                forall|j: int|
                    0 <= j < i ==> #[trigger] matched@[j] == pattern::matches_text(
                        self@.scores[j].pattern,
                        path@,
                    ),
            decreases self.scores@.len() - i,
        {
            matched.push(self.scores[i].pattern.is_match(path));
            i = i + 1;
        }
        proof {
            assert(matched@ =~= matches_of(self@.scores, path@));
        }
        self.score_of_first(&matched)
    }
}

/// The score is that of the entry `k` where that is the first that is matched, and
/// there is none where no entry is matched.
pub proof fn score_is_that_of_the_first_match(scores: Seq<ScoreModel>, matched: Seq<bool>, k: int)
    requires
        matched.len() == scores.len(),
        0 <= k <= scores.len(),
        forall|i: int| 0 <= i < k ==> !#[trigger] matched[i],
    ensures
        k == scores.len() ==> first_score(scores, matched) is None,
        k < scores.len() && matched[k] ==> first_score(scores, matched) == Some(scores[k].score),
    decreases k,
{
    if k > 0 {
        assert(!matched[0]);
        assert forall|i: int| 0 <= i < k - 1 implies !#[trigger] matched.skip(1)[i] by {
            assert(!matched[i + 1]);
        }
        score_is_that_of_the_first_match(scores.skip(1), matched.skip(1), k - 1);
    }
}

} // verus!
