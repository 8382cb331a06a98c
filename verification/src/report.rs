//! Reporting the groups of duplicated files, and which files may be deleted.
use crate::config;
use crate::config::Config;
use crate::file_record;
use crate::file_record::{ByHash, FileRecord};
use crate::filter_duplicates;
use crate::filter_duplicates::HasHash;
use crate::grouping;
use crate::grouping::find_duplicates_by;
use crate::path;
use crate::selection::retain;
use crate::sorting;
use crate::sorting::{reversed, sort_by, Order};
use crate::text;
use crate::text::{characters, white_space};
use vstd::prelude::*;

verus! {

/// A file of a group, with its score and whether it may be deleted.
#[derive(Debug)]
pub struct ScoredFile {
    pub file: FileRecord,
    pub score: Option<i64>,
    pub to_delete: bool,
}

/// A group of duplicated files, as it is shown.
#[derive(Debug)]
pub struct DuplicateGroup {
    /// The size of each of the files.
    pub size: i64,
    /// Some file of the group has a score.
    pub has_scores: bool,
    /// Some file of the group may be deleted.
    pub has_deletables: bool,
    /// The files in the order in which they are shown.
    pub files: Vec<ScoredFile>,
}

/// What a group stands for.
#[verifier::ext_equal]
pub struct GroupModel {
    pub size: i64,
    pub has_scores: bool,
    pub has_deletables: bool,
    pub files: Seq<ScoredFile>,
}

impl View for DuplicateGroup {
    type V = GroupModel;

    open spec fn view(&self) -> GroupModel {
        GroupModel {
            size: self.size,
            has_scores: self.has_scores,
            has_deletables: self.has_deletables,
            files: self.files@,
        }
    }
}

/// What the groups stand for.
pub open spec fn group_models(groups: Seq<DuplicateGroup>) -> Seq<GroupModel> {
    groups.map_values(|g: DuplicateGroup| g@)
}

/// Some file has a score.
pub open spec fn any_scored(scores: Seq<Option<i64>>) -> bool {
    exists|i: int| 0 <= i < scores.len() && #[trigger] scores[i] is Some
}

/// All files have a score.
pub open spec fn all_scored(scores: Seq<Option<i64>>) -> bool {
    forall|i: int| 0 <= i < scores.len() ==> #[trigger] scores[i] is Some
}

/// Files may be deleted: all files have a score, and not all have the same.
pub open spec fn any_deletable(scores: Seq<Option<i64>>) -> bool {
    &&& all_scored(scores)
    &&& exists|i: int, j: int|
        0 <= i < scores.len() && 0 <= j < scores.len() && #[trigger] scores[i]
            != #[trigger] scores[j]
}

/// No score of the group is lower than `score`.
pub open spec fn is_lowest(scores: Seq<Option<i64>>, score: Option<i64>) -> bool {
    &&& score is Some
    &&& forall|i: int|
        0 <= i < scores.len() ==> ((#[trigger] scores[i]) matches Some(other) ==> score->0 <= other)
}

/// The scores of the files.
pub open spec fn scores_of(config: config::ConfigModel, group: Seq<FileRecord>) -> Seq<Option<i64>> {
    group.map_values(|f: FileRecord| config.score(f@.path.name))
}

/// The files with their scores; those with the lowest score may be deleted, where
/// files may be deleted at all.
pub open spec fn scored_files(group: Seq<FileRecord>, scores: Seq<Option<i64>>) -> Seq<ScoredFile> {
    Seq::new(
        group.len(),
        |i: int|
            ScoredFile {
                file: group[i],
                score: scores[i],
                to_delete: any_deletable(scores) && is_lowest(scores, scores[i]),
            },
    )
}

/// The place of a score among others; a missing score counts as the highest.
pub open spec fn score_rank(score: Option<i64>) -> int {
    match score {
        Some(score) => score as int,
        None => i64::MAX as int,
    }
}

/// The order of files by score.
pub open spec fn by_score() -> spec_fn(ScoredFile, ScoredFile) -> bool {
    |a: ScoredFile, b: ScoredFile| score_rank(a.score) < score_rank(b.score)
}

/// The order of files by path.
pub open spec fn by_path() -> spec_fn(ScoredFile, ScoredFile) -> bool {
    |a: ScoredFile, b: ScoredFile| path::path_order()(a.file@.path, b.file@.path)
}

/// Orders files by score.
pub struct ByScore;

/// Orders files by path.
pub struct ByPath;

impl Order<ScoredFile> for ByScore {
    open spec fn lt(&self) -> spec_fn(ScoredFile, ScoredFile) -> bool {
        by_score()
    }

    proof fn order_laws(&self) {
    }

    fn before(&self, a: &ScoredFile, b: &ScoredFile) -> (before: bool) {
        let a: i64 = match a.score {
            Some(score) => score,
            None => i64::MAX,
        };
        let b: i64 = match b.score {
            Some(score) => score,
            None => i64::MAX,
        };
        a < b
    }
}

impl Order<ScoredFile> for ByPath {
    open spec fn lt(&self) -> spec_fn(ScoredFile, ScoredFile) -> bool {
        by_path()
    }

    proof fn order_laws(&self) {
        path::components_order_is_strict_total();
        let o = path::components_order();
        let lt = self.lt();
        assert forall|x: ScoredFile, y: ScoredFile| #[trigger] lt(x, y) implies !lt(y, x) by {
            assert(!o(x.file@.path.components, x.file@.path.components));
        }
        assert forall|x: ScoredFile, y: ScoredFile, z: ScoredFile| #[trigger]
            lt(x, z) implies #[trigger] lt(x, y) || lt(y, z) by {
            let a = x.file@.path.components;
            let b = y.file@.path.components;
            assert(o(a, b) || a == b || o(b, a));
        }
    }

    fn before(&self, a: &ScoredFile, b: &ScoredFile) -> (before: bool) {
        a.file.path.before(&b.file.path)
    }
}

/// The files of a group as they are shown: with scores, the highest first and
/// those without a score before them; without scores, by path.
pub open spec fn listed(group: Seq<FileRecord>, scores: Seq<Option<i64>>) -> Seq<ScoredFile> {
    if any_scored(scores) {
        sorting::sorted(by_score(), scored_files(group, scores)).reverse()
    } else {
        sorting::sorted(by_path(), scored_files(group, scores))
    }
}

/// The group as it is shown.
pub open spec fn group_shown(group: Seq<FileRecord>, scores: Seq<Option<i64>>) -> GroupModel {
    GroupModel {
        size: group[0].size,
        has_scores: any_scored(scores),
        has_deletables: any_deletable(scores),
        files: listed(group, scores),
    }
}

fn scores_of_group(config: &Config, group: &Vec<FileRecord>) -> (scores: Vec<Option<i64>>)
    ensures
        scores@ == scores_of(config@, group@),
{
    let mut scores: Vec<Option<i64>> = Vec::new();
    let mut i: usize = 0;
    while i < group.len()
        invariant
            i <= group@.len(),
            scores@ == scores_of(config@, group@.take(i as int)),
        decreases group@.len() - i,
    {
        let score = config.get_score(group[i].path_name().as_str());
        scores.push(score);
        proof {
            assert(scores@ =~= scores_of(config@, group@.take(i + 1)));
        }
        i = i + 1;
    }
    proof {
        assert(group@.take(i as int) =~= group@);
    }
    scores
}

/// What is asked of the scores of a group.
struct ScoreSummary {
    has_scores: bool,
    has_deletables: bool,
    lowest_score: i64,
}

fn summarize(scores: &Vec<Option<i64>>) -> (summary: ScoreSummary)
    ensures
        summary.has_scores == any_scored(scores@),
        summary.has_deletables == any_deletable(scores@),
        summary.has_deletables ==> forall|i: int|
            0 <= i < scores@.len() ==> (is_lowest(scores@, #[trigger] scores@[i]) <==> scores@[i]
                == Some(summary.lowest_score)),
{
    let n = scores.len();
    let mut lowest_score: i64 = i64::MAX;
    let mut scored_files: usize = 0;
    let mut i: usize = 0;
    while i < n
        invariant
            n == scores@.len(),
            i <= n,
            scored_files <= i,
            scored_files == i <==> all_scored(scores@.take(i as int)),
            scored_files > 0 <==> any_scored(scores@.take(i as int)),
            forall|j: int|
                0 <= j < i ==> ((#[trigger] scores@[j]) matches Some(s) ==> lowest_score <= s),
            scored_files == 0 ==> lowest_score == i64::MAX,
            scored_files > 0 ==> exists|j: int|
                0 <= j < i && #[trigger] scores@[j] == Some(lowest_score),
        decreases n - i,
    {
        let ghost before = scores@.take(i as int);
        let ghost after = scores@.take(i + 1);
        proof {
            assert(after =~= before.push(scores@[i as int]));
            lemma_push_score(before, scores@[i as int]);
        }
        if let Some(score) = scores[i] {
            scored_files = scored_files + 1;
            if score < lowest_score {
                lowest_score = score;
            }
            proof {
                assert(scores@[i as int] == Some(score));
            }
        }
        i = i + 1;
    }
    let mut files_with_lowest_score: usize = 0;
    let mut i: usize = 0;
    while i < n
        invariant
            n == scores@.len(),
            i <= n,
            files_with_lowest_score <= i,
            files_with_lowest_score == i <==> forall|j: int|
                0 <= j < i ==> #[trigger] scores@[j] == Some(lowest_score),
        decreases n - i,
    {
        let is_lowest = match scores[i] {
            Some(score) => score == lowest_score,
            None => false,
        };
        if is_lowest {
            files_with_lowest_score = files_with_lowest_score + 1;
        }
        i = i + 1;
    }
    let has_deletables = scored_files == n && files_with_lowest_score != scored_files;
    proof {
        assert(scores@.take(n as int) =~= scores@);
        if has_deletables {
            let k = choose|k: int| 0 <= k < n && #[trigger] scores@[k] != Some(lowest_score);
            let j = choose|j: int| 0 <= j < n && #[trigger] scores@[j] == Some(lowest_score);
            assert(scores@[k] != scores@[j]);
        } else if scored_files == n {
            assert forall|i: int, j: int| 0 <= i < n && 0 <= j < n implies #[trigger] scores@[i]
                == #[trigger] scores@[j] by {
                assert(scores@[i] == Some(lowest_score));
                assert(scores@[j] == Some(lowest_score));
            }
        }
    }
    ScoreSummary { has_scores: scored_files > 0, has_deletables, lowest_score }
}

proof fn lemma_push_score(scores: Seq<Option<i64>>, score: Option<i64>)
    ensures
        all_scored(scores.push(score)) <==> all_scored(scores) && score is Some,
        any_scored(scores.push(score)) <==> any_scored(scores) || score is Some,
{
    let more = scores.push(score);
    if all_scored(more) {
        assert(more[scores.len() as int] is Some);
        assert forall|i: int| 0 <= i < scores.len() implies #[trigger] scores[i] is Some by {
            assert(more[i] is Some);
        }
    }
    if any_scored(scores) {
        let i = choose|i: int| 0 <= i < scores.len() && #[trigger] scores[i] is Some;
        assert(more[i] is Some);
    }
    if score is Some {
        assert(more[scores.len() as int] is Some);
    }
    if any_scored(more) && score is None {
        let i = choose|i: int| 0 <= i < more.len() && #[trigger] more[i] is Some;
        assert(scores[i] is Some);
    }
}

fn with_scores(group: Vec<FileRecord>, scores: &Vec<Option<i64>>, summary: &ScoreSummary) -> (files:
    Vec<ScoredFile>)
    requires
        scores@.len() == group@.len(),
        summary.has_deletables == any_deletable(scores@),
        summary.has_deletables ==> forall|i: int|
            0 <= i < scores@.len() ==> (is_lowest(scores@, #[trigger] scores@[i]) <==> scores@[i]
                == Some(summary.lowest_score)),
    ensures
        files@ == scored_files(group@, scores@),
{
    let ghost whole = group@;
    let mut rest = reversed(group);
    let mut files: Vec<ScoredFile> = Vec::new();
    proof {
        assert(whole.skip(0) =~= whole);
    }
    while rest.len() > 0
        invariant
            scores@.len() == whole.len(),
            files@.len() + rest@.len() == whole.len(),
            rest@ == whole.skip(files@.len() as int).reverse(),
            summary.has_deletables == any_deletable(scores@),
            summary.has_deletables ==> forall|i: int|
                0 <= i < scores@.len() ==> (is_lowest(scores@, #[trigger] scores@[i])
                    <==> scores@[i] == Some(summary.lowest_score)),
            forall|i: int|
                0 <= i < files@.len() ==> #[trigger] files@[i] == scored_files(whole, scores@)[i],
        decreases rest@.len(),
    {
        let ghost k = files@.len() as int;
        if let Some(file) = rest.pop() {
            proof {
                assert(file == whole[k]);
                assert(rest@ =~= whole.skip(k + 1).reverse());
            }
            let score = scores[files.len()];
            let is_lowest = match score {
                Some(score) => score == summary.lowest_score,
                None => false,
            };
            files.push(ScoredFile { file, score, to_delete: summary.has_deletables && is_lowest });
        }
    }
    proof {
        assert(files@ =~= scored_files(whole, scores@));
    }
    files
}

/// The group as it is shown, where its files have these scores.
pub fn show_scored_group(group: Vec<FileRecord>, scores: &Vec<Option<i64>>) -> (shown:
    DuplicateGroup)
    requires
        group@.len() > 0,
        scores@.len() == group@.len(),
    ensures
        shown@ == group_shown(group@, scores@),
{
    let size = group[0].size;
    let summary = summarize(scores);
    let files = with_scores(group, scores, &summary);
    let files = if summary.has_scores {
        reversed(sort_by(&ByScore, files))
    } else {
        sort_by(&ByPath, files)
    };
    DuplicateGroup {
        size,
        has_scores: summary.has_scores,
        has_deletables: summary.has_deletables,
        files,
    }
}

/// The group as it is shown.
pub fn show_group(config: &Config, group: Vec<FileRecord>) -> (shown: DuplicateGroup)
    requires
        group@.len() > 0,
    ensures
        shown@ == group_shown(group@, scores_of(config@, group@)),
{
    let scores = scores_of_group(config, &group);
    show_scored_group(group, &scores)
}

/// The size of the files of a group.
pub open spec fn group_size(group: Seq<FileRecord>) -> int {
    if group.len() == 0 {
        0
    } else {
        group[0].size as int
    }
}

/// The order of groups by the size of their files.
pub open spec fn by_group_size() -> spec_fn(Seq<FileRecord>, Seq<FileRecord>) -> bool {
    |a: Seq<FileRecord>, b: Seq<FileRecord>| group_size(a) < group_size(b)
}

/// Orders groups by the size of their files.
pub struct ByGroupSize;

impl Order<Vec<FileRecord>> for ByGroupSize {
    open spec fn lt(&self) -> spec_fn(Vec<FileRecord>, Vec<FileRecord>) -> bool {
        |a: Vec<FileRecord>, b: Vec<FileRecord>| by_group_size()(a@, b@)
    }

    proof fn order_laws(&self) {
    }

    fn before(&self, a: &Vec<FileRecord>, b: &Vec<FileRecord>) -> (before: bool) {
        let a: i64 = if a.len() == 0 {
            0
        } else {
            a[0].size
        };
        let b: i64 = if b.len() == 0 {
            0
        } else {
            b[0].size
        };
        a < b
    }
}

/// The groups of files with the same hash, the smallest files first.
pub open spec fn hash_groups(files: Seq<FileRecord>) -> Seq<Seq<FileRecord>> {
    sorting::sorted(
        by_group_size(),
        grouping::duplicate_groups(
            file_record::by_hash(),
            files.filter(filter_duplicates::has_hash()),
        ),
    )
}

/// Files with the same hash have the same size.
pub open spec fn sizes_agree(files: Seq<FileRecord>) -> bool {
    forall|a: FileRecord, b: FileRecord| #[trigger]
        files.contains(a) && #[trigger] files.contains(b) && a.hash is Some && a@.hash == b@.hash
            ==> a.size == b.size
}

/// All files of the group have the same size.
pub open spec fn one_size(group: Seq<FileRecord>) -> bool {
    forall|i: int| 0 <= i < group.len() ==> (#[trigger] group[i]).size == group[0].size
}

/// The group `k` is the first whose files differ in size.
pub open spec fn first_mismatch(groups: Seq<Seq<FileRecord>>, k: int) -> bool {
    &&& 0 <= k < groups.len()
    &&& !one_size(groups[k])
    &&& forall|i: int| 0 <= i < k ==> one_size(#[trigger] groups[i])
}

/// The groups that the filter lets through.
pub open spec fn passes_filter(config: config::ConfigModel) -> spec_fn(Seq<FileRecord>) -> bool {
    |group: Seq<FileRecord>|
        config.groups_filter.shows(
            any_scored(scores_of(config, group)),
            any_deletable(scores_of(config, group)),
        )
}

/// The groups that are shown.
pub open spec fn shown_groups(config: config::ConfigModel, files: Seq<FileRecord>) -> Seq<
    Seq<FileRecord>,
> {
    hash_groups(files).filter(passes_filter(config))
}

/// The size of all files of the groups but one of each group.
pub open spec fn redundant_size(groups: Seq<Seq<FileRecord>>) -> int
    decreases groups.len(),
{
    if groups.len() == 0 {
        0
    } else {
        redundant_size(groups.drop_last()) + group_size(groups.last()) * (groups.last().len() - 1)
    }
}

/// The files among those listed that may be deleted.
pub open spec fn deletable(files: Seq<ScoredFile>) -> Seq<FileRecord> {
    files.filter(|f: ScoredFile| f.to_delete).map_values(|f: ScoredFile| f.file)
}

/// The files of the groups that may be deleted.
pub open spec fn deletions(config: config::ConfigModel, groups: Seq<Seq<FileRecord>>) -> Seq<
    FileRecord,
> {
    groups.map_values(|g: Seq<FileRecord>| deletable(listed(g, scores_of(config, g)))).flatten()
}

/// The groups of duplicated files, as they are reported.
#[derive(Debug)]
pub struct DuplicateReport {
    /// The groups that are shown.
    pub groups: Vec<DuplicateGroup>,
    /// How many bytes the files take that are copies of another file.
    pub redundant_size: i128,
    /// The files that may be deleted.
    pub to_delete: Vec<FileRecord>,
    /// Whether the user is asked to confirm that the files are deleted.
    pub confirm: bool,
}

/// Files with the same hash differ in size.
#[derive(Debug)]
pub struct SizeMismatch {
    /// The groups that are shown before the first group in which the sizes differ.
    pub groups: Vec<DuplicateGroup>,
}

impl SizeMismatch {
    /// The error in words.
    pub fn message(&self) -> (words: &'static str)
        ensures
            words@ == "The hash and size must be identical within the group."@,
    {
        "The hash and size must be identical within the group."
    }
}

/// The groups are the classes of files with the same hash that have at least two
/// members.
pub proof fn lemma_hash_groups(files: Seq<FileRecord>)
    ensures
        forall|i: int|
            0 <= i < hash_groups(files).len() ==> {
                let g = #[trigger] hash_groups(files)[i];
                &&& g.len() >= 2
                &&& g == sorting::class_of(
                    file_record::by_hash(),
                    files.filter(filter_duplicates::has_hash()),
                    g[0],
                )
            },
        forall|x: FileRecord|
            files.contains(x) && x.hash is Some && (#[trigger] sorting::class_of(
                file_record::by_hash(),
                files.filter(filter_duplicates::has_hash()),
                x,
            )).len() >= 2 ==> hash_groups(files).contains(
                sorting::class_of(
                    file_record::by_hash(),
                    files.filter(filter_duplicates::has_hash()),
                    x,
                ),
            ),
{
    let lt = file_record::by_hash();
    let known = files.filter(filter_duplicates::has_hash());
    let groups = grouping::duplicate_groups(lt, known);
    let all = hash_groups(files);
    let some: FileRecord = arbitrary();
    file_record::tied_by_hash(some, some);
    grouping::duplicate_groups_are_the_classes(lt, known);
    sorting::sorted_is_stable(by_group_size(), groups);
    sorting::lemma_filter_holds(files, filter_duplicates::has_hash());
    assert forall|i: int| 0 <= i < all.len() implies {
        let g = #[trigger] all[i];
        &&& g.len() >= 2
        &&& g == sorting::class_of(lt, known, g[0])
    } by {
        sorting::lemma_sorted_holds(by_group_size(), groups, all[i]);
        assert(all.contains(all[i]));
        let k = choose|k: int| 0 <= k < groups.len() && groups[k] == all[i];
    }
    assert forall|x: FileRecord|
        files.contains(x) && x.hash is Some && (#[trigger] sorting::class_of(lt, known, x)).len()
            >= 2 implies all.contains(sorting::class_of(lt, known, x)) by {
        assert(known.contains(x));
        sorting::lemma_sorted_holds(by_group_size(), groups, sorting::class_of(lt, known, x));
    }
}

proof fn lemma_sizes_agree(files: Seq<FileRecord>)
    ensures
        sizes_agree(files) <==> forall|i: int|
            0 <= i < hash_groups(files).len() ==> one_size(#[trigger] hash_groups(files)[i]),
{
    let lt = file_record::by_hash();
    let known = files.filter(filter_duplicates::has_hash());
    let all = hash_groups(files);
    lemma_hash_groups(files);
    sorting::lemma_filter_holds(files, filter_duplicates::has_hash());
    if sizes_agree(files) {
        assert forall|i: int| 0 <= i < all.len() implies one_size(#[trigger] all[i]) by {
            let g = all[i];
            sorting::lemma_filter_holds(known, |y: FileRecord| sorting::tied(lt, g[0], y));
            assert forall|j: int| 0 <= j < g.len() implies (#[trigger] g[j]).size == g[0].size by {
                assert(g.contains(g[j]));
                assert(g.contains(g[0]));
                file_record::tied_by_hash(g[0], g[j]);
                assert(files.contains(g[j]) && files.contains(g[0]));
            }
        }
    }
    if forall|i: int| 0 <= i < all.len() ==> one_size(#[trigger] all[i]) {
        assert forall|a: FileRecord, b: FileRecord| #[trigger]
            files.contains(a) && #[trigger] files.contains(b) && a.hash is Some && a@.hash
                == b@.hash implies a.size == b.size by {
            if a != b {
                let g = sorting::class_of(lt, known, a);
                sorting::lemma_filter_holds(known, |y: FileRecord| sorting::tied(lt, a, y));
                file_record::tied_by_hash(a, a);
                file_record::tied_by_hash(a, b);
                assert(b.hash is Some);
                assert(known.contains(a) && known.contains(b));
                assert(g.contains(a) && g.contains(b));
                let i = choose|i: int| 0 <= i < g.len() && g[i] == a;
                let j = choose|j: int| 0 <= j < g.len() && g[j] == b;
                assert(all.contains(g));
                let k = choose|k: int| 0 <= k < all.len() && all[k] == g;
                assert(one_size(all[k]));
                assert(g[i].size == g[0].size);
                assert(g[j].size == g[0].size);
            }
        }
    }
}

fn has_one_size(group: &Vec<FileRecord>) -> (same: bool)
    ensures
        same == one_size(group@),
{
    let mut i: usize = 0;
    while i < group.len()
        invariant
            i <= group@.len(),
            forall|j: int| 0 <= j < i ==> (#[trigger] group@[j]).size == group@[0].size,
        decreases group@.len() - i,
    {
        if group[i].size != group[0].size {
            return false;
        }
        i = i + 1;
    }
    true
}

/// Adds the files that may be deleted to `to_delete`.
fn collect_deletable(files: &Vec<ScoredFile>, to_delete: &mut Vec<FileRecord>)
    ensures
        file_record::models(final(to_delete)@) == file_record::models(old(to_delete)@)
            + file_record::models(deletable(files@)),
{
    let ghost before = to_delete@;
    let ghost pred = |f: ScoredFile| f.to_delete;
    let mut i: usize = 0;
    proof {
        reveal(Seq::filter);
        assert(deletable(files@.take(0)) =~= Seq::<FileRecord>::empty());
        assert(file_record::models(to_delete@) =~= file_record::models(before)
            + file_record::models(deletable(files@.take(0))));
    }
    while i < files.len()
        invariant
            i <= files@.len(),
            pred == |f: ScoredFile| f.to_delete,
            file_record::models(to_delete@) == file_record::models(before) + file_record::models(
                deletable(files@.take(i as int)),
            ),
        decreases files@.len() - i,
    {
        let ghost low = files@.take(i as int);
        let ghost high = files@.take(i + 1);
        let ghost to_delete0 = to_delete@;
        proof {
            reveal(Seq::filter);
            assert(high.drop_last() =~= low);
            assert(high.last() == files@[i as int]);
        }
        if files[i].to_delete {
            to_delete.push(files[i].file.clone());
            proof {
                assert(high.filter(pred) == low.filter(pred).push(files@[i as int]));
                assert(deletable(high) =~= deletable(low).push(files@[i as int].file));
                assert(file_record::models(to_delete@) =~= file_record::models(to_delete0).push(
                    files@[i as int].file@,
                ));
                assert(file_record::models(to_delete@) =~= file_record::models(before)
                    + file_record::models(deletable(high)));
            }
        }
        i = i + 1;
    }
    proof {
        assert(files@.take(i as int) =~= files@);
    }
}

/// Finds the files with the same hash and says how they are shown and which of
/// them may be deleted; `delete` says whether the user wants that. Where files with
/// the same hash differ in size, the groups that are shown before these are handed
/// back.
pub fn report_all_duplicated_files(config: &Config, files: Vec<FileRecord>, delete: bool) -> (result:
    Result<DuplicateReport, SizeMismatch>)
    ensures
        result is Ok <==> sizes_agree(files@),
        result matches Ok(report) ==> {
            let shown = shown_groups(config@, files@);
            &&& group_models(report.groups@) == shown.map_values(
                |g: Seq<FileRecord>| group_shown(g, scores_of(config@, g)),
            )
            &&& report.redundant_size == redundant_size(shown)
            &&& file_record::models(report.to_delete@) == file_record::models(
                deletions(config@, shown),
            )
            &&& report.confirm == (delete && deletions(config@, shown).len() > 0)
        },
        result matches Err(mismatch) ==> exists|k: int|
            {
                &&& #[trigger] first_mismatch(hash_groups(files@), k)
                &&& group_models(mismatch.groups@) == hash_groups(files@).take(k).filter(
                    passes_filter(config@),
                ).map_values(|g: Seq<FileRecord>| group_shown(g, scores_of(config@, g)))
            },
{
    let ghost files0 = files@;
    let ghost all = hash_groups(files0);
    let ghost pred = passes_filter(config@);
    let ghost show = |g: Seq<FileRecord>| group_shown(g, scores_of(config@, g));
    let hashed = retain(&HasHash, files);
    let num_files = hashed.len();
    let found = find_duplicates_by(&ByHash, hashed);
    let ghost found0 = found@;
    let found = sort_by(&ByGroupSize, found);
    proof {
        let view = |g: Vec<FileRecord>| g@;
        sorting::sorted_of_mapped(ByGroupSize.lt(), by_group_size(), view, found0);
        assert(grouping::contents(found@) == all);
        grouping::lemma_total_len(grouping::contents(found0));
        grouping::lemma_total_len_sorted(by_group_size(), grouping::contents(found0));
        lemma_hash_groups(files0);
        lemma_sizes_agree(files0);
    }
    let mut rest = reversed(found);
    let mut groups: Vec<DuplicateGroup> = Vec::new();
    let mut redundant: i128 = 0;
    let mut to_delete: Vec<FileRecord> = Vec::new();
    let ghost mut done: int = 0;
    proof {
        reveal(Seq::filter);
        assert(all.skip(0) =~= all);
        assert(grouping::contents(rest@) =~= all.skip(0).reverse());
        assert(all.take(0) =~= Seq::<Seq<FileRecord>>::empty());
        assert(all.take(0).filter(pred) =~= Seq::<Seq<FileRecord>>::empty());
        assert(group_models(groups@) =~= all.take(0).filter(pred).map_values(show));
        assert(all.take(0).filter(pred).map_values(
            |g: Seq<FileRecord>| deletable(listed(g, scores_of(config@, g))),
        ) =~= Seq::<Seq<FileRecord>>::empty());
        assert(file_record::models(to_delete@) =~= file_record::models(
            deletions(config@, all.take(0).filter(pred)),
        ));
    }
    while rest.len() > 0
        invariant
            0 <= done <= all.len(),
            files0 == files@,
            all == hash_groups(files0),
            pred == passes_filter(config@),
            show == |g: Seq<FileRecord>| group_shown(g, scores_of(config@, g)),
            grouping::contents(rest@) == all.skip(done).reverse(),
            forall|i: int| 0 <= i < all.len() ==> (#[trigger] all[i]).len() >= 2,
            forall|i: int| 0 <= i < done ==> one_size(#[trigger] all[i]),
            sizes_agree(files0) <==> forall|i: int|
                0 <= i < all.len() ==> one_size(#[trigger] all[i]),
            group_models(groups@) == all.take(done).filter(pred).map_values(show),
            redundant == redundant_size(all.take(done).filter(pred)),
            file_record::models(to_delete@) == file_record::models(
                deletions(config@, all.take(done).filter(pred)),
            ),
            grouping::total_len(all) <= num_files,
            -(0x8000_0000_0000_0000 * grouping::total_len(all.take(done))) <= redundant
                <= 0x8000_0000_0000_0000 * grouping::total_len(all.take(done)),
        decreases rest@.len(),
    {
        let ghost rest0 = rest@;
        let ghost low = all.take(done).filter(pred);
        let ghost high = all.take(done + 1).filter(pred);
        if let Some(group) = rest.pop() {
            let ghost g = group@;
            proof {
                reveal(Seq::filter);
                assert(grouping::contents(rest0)[rest0.len() - 1] == g);
                assert(grouping::contents(rest0).len() == rest0.len());
                assert(all.skip(done).reverse()[rest0.len() - 1] == all[done]);
                assert(g == all[done]);
                assert(grouping::contents(rest@) =~= grouping::contents(rest0).drop_last());
                assert(grouping::contents(rest@) =~= all.skip(done + 1).reverse());
                assert(all.take(done + 1).drop_last() =~= all.take(done));
                assert(all.take(done + 1).last() == g);
                grouping::lemma_total_len_take(all, done + 1);
            }
            if !has_one_size(&group) {
                proof {
                    assert(first_mismatch(all, done));
                }
                return Err(SizeMismatch { groups });
            }
            let num_copies = group.len() - 1;
            let size = group[0].size;
            let shown = show_group(config, group);
            let should_show = config.groups_filter.lets_through(
                shown.has_scores,
                shown.has_deletables,
            );
            proof {
                lemma_redundant_fits(
                    redundant as int,
                    size as int,
                    g.len() as int,
                    grouping::total_len(all.take(done)) as int,
                    num_files as int,
                );
                done = done + 1;
            }
            if should_show {
                let ghost groups0 = groups@;
                redundant = redundant + size as i128 * num_copies as i128;
                collect_deletable(&shown.files, &mut to_delete);
                groups.push(shown);
                proof {
                    let del = |g: Seq<FileRecord>| deletable(listed(g, scores_of(config@, g)));
                    assert(high == low.push(g));
                    assert(high.drop_last() =~= low);
                    assert(group_models(groups@) =~= group_models(groups0).push(shown@));
                    assert(high.map_values(show) =~= low.map_values(show).push(show(g)));
                    assert(high.map_values(del) =~= low.map_values(del).push(del(g)));
                    low.map_values(del).lemma_flatten_push(del(g));
                    assert(file_record::models(to_delete@) =~= file_record::models(
                        deletions(config@, high),
                    ));
                }
            }
        }
    }
    proof {
        assert(all.take(done) =~= all);
    }
    let confirm = delete && to_delete.len() > 0;
    Ok(DuplicateReport { groups, redundant_size: redundant, to_delete, confirm })
}

proof fn lemma_redundant_fits(redundant: int, size: int, len: int, total: int, num_files: int)
    requires
        -0x8000_0000_0000_0000 <= size < 0x8000_0000_0000_0000,
        2 <= len,
        0 <= total,
        total + len <= num_files <= usize::MAX,
        -(0x8000_0000_0000_0000 * total) <= redundant <= 0x8000_0000_0000_0000 * total,
    ensures
        -(0x8000_0000_0000_0000 * (total + len)) <= redundant + size * (len - 1)
            <= 0x8000_0000_0000_0000 * (total + len),
        i128::MIN <= size * (len - 1) <= i128::MAX,
        i128::MIN <= redundant + size * (len - 1) <= i128::MAX,
{
    assert(-(0x8000_0000_0000_0000 * (len - 1)) <= size * (len - 1) <= 0x8000_0000_0000_0000 * (len
        - 1)) by (nonlinear_arith)
        requires
            -0x8000_0000_0000_0000 <= size < 0x8000_0000_0000_0000,
            2 <= len,
    ;
}

/// The size of the files together.
pub open spec fn sum_of_sizes(files: Seq<FileRecord>) -> int
    decreases files.len(),
{
    if files.len() == 0 {
        0
    } else {
        sum_of_sizes(files.drop_last()) + files.last().size
    }
}

/// The size of the files together.
pub fn total_size(files: &Vec<FileRecord>) -> (size: i128)
    ensures
        size == sum_of_sizes(files@),
{
    let mut size: i128 = 0;
    let mut i: usize = 0;
    while i < files.len()
        invariant
            i <= files@.len(),
            size == sum_of_sizes(files@.take(i as int)),
            -(0x8000_0000_0000_0000 * i) <= size <= 0x8000_0000_0000_0000 * i,
        decreases files@.len() - i,
    {
        proof {
            assert(files@.take(i + 1).drop_last() =~= files@.take(i as int));
        }
        size = size + files[i].size as i128;
        i = i + 1;
    }
    proof {
        assert(files@.take(i as int) =~= files@);
    }
    size
}

/// `response` is the letter y, small or capital, with white space around it.
pub open spec fn says_yes(response: Seq<char>) -> bool {
    exists|k: int|
        {
            &&& 0 <= k < response.len()
            &&& #[trigger] response[k] == 'y' || response[k] == 'Y'
            &&& forall|i: int|
                0 <= i < response.len() && i != k ==> text::is_white_space(#[trigger] response[i])
        }
}

/// Whether the user confirms.
pub fn confirms(response: &str) -> (yes: bool)
    ensures
        yes == says_yes(response@),
{
    let chars = characters(response);
    let mut yes = false;
    let mut i: usize = 0;
    let ghost mut at: int = 0;
    while i < chars.len()
        invariant
            chars@ == response@,
            i <= chars@.len(),
            yes ==> 0 <= at < i && (chars@[at] == 'y' || chars@[at] == 'Y') && forall|j: int|
                0 <= j < i && j != at ==> text::is_white_space(#[trigger] chars@[j]),
            !yes ==> forall|j: int| 0 <= j < i ==> text::is_white_space(#[trigger] chars@[j]),
        decreases chars@.len() - i,
    {
        let c = chars[i];
        if !white_space(c) {
            if yes || (c != 'y' && c != 'Y') {
                proof {
                    if says_yes(response@) {
                        let k = choose|k: int|
                            {
                                &&& 0 <= k < response@.len()
                                &&& #[trigger] response@[k] == 'y' || response@[k] == 'Y'
                                &&& forall|i: int|
                                    0 <= i < response@.len() && i != k ==> text::is_white_space(
                                        #[trigger] response@[i],
                                    )
                            };
                        assert(chars@[i as int] == c);
                        assert(k == i);
                        assert(!text::is_white_space(chars@[at]));
                    }
                }
                return false;
            }
            yes = true;
            proof {
                at = i as int;
            }
        }
        i = i + 1;
    }
    proof {
        if yes {
            assert(response@[at] == 'y' || response@[at] == 'Y');
        } else if says_yes(response@) {
            let k = choose|k: int|
                {
                    &&& 0 <= k < response@.len()
                    &&& #[trigger] response@[k] == 'y' || response@[k] == 'Y'
                    &&& forall|i: int|
                        0 <= i < response@.len() && i != k ==> text::is_white_space(
                            #[trigger] response@[i],
                        )
                };
            assert(text::is_white_space(chars@[k]));
        }
    }
    yes
}

} // verus!
