//! Which groups are reported, what they take, and which files are deleted.
use crate::config::{Config, DuplicateGroupFilter};
use crate::file_record;
use crate::file_record::FileRecord;
use crate::filter_duplicates;
use crate::grouping;
use crate::laws;
use crate::outcomes::folder;
use crate::outcomes::groups;
use crate::outcomes::intake;
use crate::outcomes::lists;
use crate::report;
use crate::report::{
    report_all_duplicated_files, DuplicateGroup, DuplicateReport, ScoredFile, SizeMismatch,
};
use crate::sorting;
use vstd::prelude::*;

verus! {

/// The files with this hash.
pub open spec fn of_hash(hash: Seq<char>) -> spec_fn(FileRecord) -> bool {
    |f: FileRecord| lists::text_of(f.hash) == Some(hash)
}

/// A group whose files have these scores is shown.
pub open spec fn lets_through(config: Config, scores: Seq<Option<i64>>) -> bool {
    match config.groups_filter {
        DuplicateGroupFilter::All => true,
        DuplicateGroupFilter::OnlyGroupsWithScores => exists|i: int|
            0 <= i < scores.len() && #[trigger] scores[i] is Some,
        DuplicateGroupFilter::OnlyGroupsWithDeletables => groups::may_delete(scores),
    }
}

/// `shown` is the group of the files with this hash: they are two or more, all of them
/// as they stand among `files`, and of one size; the filter lets them through; and they
/// are shown as their scores say.
pub open spec fn is_group_of(
    config: Config,
    files: Seq<FileRecord>,
    shown: DuplicateGroup,
    hash: Seq<char>,
    scores: Seq<Option<i64>>,
) -> bool {
    let sharing = files.filter(of_hash(hash));
    &&& sharing.len() >= 2
    &&& forall|i: int| 0 <= i < sharing.len() ==> (#[trigger] sharing[i]).size == shown.size
    &&& groups::are_scores_of(config, sharing, scores)
    &&& lets_through(config, scores)
    &&& groups::shown_as(shown, sharing, scores)
    &&& forall|m: int|
        0 <= m < shown.files@.len() ==> lists::text_of((#[trigger] shown.files@[m]).file.hash)
            == Some(hash)
}

/// Two files have one hash and two sizes.
pub open spec fn disagree(a: FileRecord, b: FileRecord) -> bool {
    lists::text_of(a.hash) is Some && lists::text_of(a.hash) == lists::text_of(b.hash) && a.size
        != b.size
}

/// A report is made exactly where files with one hash have one size.
pub proof fn files_with_one_hash_have_one_size(
    config: &Config,
    files: Vec<FileRecord>,
    delete: bool,
    result: Result<DuplicateReport, SizeMismatch>,
)
    requires
        call_ensures(report_all_duplicated_files, (config, files, delete), result),
    ensures
        result is Ok <==> forall|i: int, j: int|
            0 <= i < files@.len() && 0 <= j < files@.len() ==> !disagree(
                #[trigger] files@[i],
                #[trigger] files@[j],
            ),
{
    let s = files@;
    if report::sizes_agree(s) {
        assert forall|i: int, j: int| 0 <= i < s.len() && 0 <= j < s.len() implies !disagree(
            #[trigger] s[i],
            #[trigger] s[j],
        ) by {
            assert(s.contains(s[i]) && s.contains(s[j]));
        }
    }
    if forall|i: int, j: int|
        0 <= i < s.len() && 0 <= j < s.len() ==> !disagree(#[trigger] s[i], #[trigger] s[j]) {
        assert forall|a: FileRecord, b: FileRecord| #[trigger]
            s.contains(a) && #[trigger] s.contains(b) && a.hash is Some && a@.hash
                == b@.hash implies a.size == b.size by {
            let i = choose|i: int| 0 <= i < s.len() && s[i] == a;
            let j = choose|j: int| 0 <= j < s.len() && s[j] == b;
            assert(!disagree(s[i], s[j]));
        }
    }
}

proof fn lemma_class_is_filter(files: Seq<FileRecord>, x: FileRecord, hash: Seq<char>)
    requires
        lists::text_of(x.hash) == Some(hash),
    ensures
        sorting::class_of(
            file_record::by_hash(),
            files.filter(filter_duplicates::has_hash()),
            x,
        ) == files.filter(of_hash(hash)),
{
    let lt = file_record::by_hash();
    let tie = |y: FileRecord| sorting::tied(lt, x, y);
    assert forall|i: int| 0 <= i < files.len() implies of_hash(hash)(#[trigger] files[i]) == (
    filter_duplicates::has_hash()(files[i]) && tie(files[i])) by {
        file_record::tied_by_hash(x, files[i]);
    }
    folder::lemma_filter_twice(files, filter_duplicates::has_hash(), tie, of_hash(hash));
}

/// A group of files with one hash holds all files with that hash.
proof fn lemma_group_is_filter(files: Seq<FileRecord>, k: int) -> (hash: Seq<char>)
    requires
        0 <= k < report::hash_groups(files).len(),
    ensures
        report::hash_groups(files)[k] == files.filter(of_hash(hash)),
        report::hash_groups(files)[k].len() >= 2,
        lists::text_of(report::hash_groups(files)[k][0].hash) == Some(hash),
{
    let g = report::hash_groups(files)[k];
    report::lemma_hash_groups(files);
    laws::groups_hold_equal_hashes(files, k);
    assert(g.contains(g[0]));
    let hash = lists::text_of(g[0].hash)->0;
    lemma_class_is_filter(files, g[0], hash);
    hash
}

proof fn lemma_passes(config: Config, group: Seq<FileRecord>)
    ensures
        report::passes_filter(config@)(group) == lets_through(
            config,
            report::scores_of(config@, group),
        ),
{
    let scores = report::scores_of(config@, group);
    assert(report::any_deletable(scores) == groups::may_delete(scores));
    assert(report::any_scored(scores) == exists|i: int|
        0 <= i < scores.len() && #[trigger] scores[i] is Some);
}

proof fn lemma_is_group(config: Config, files: Seq<FileRecord>, k: int, shown: DuplicateGroup) -> (hash:
    Seq<char>)
    requires
        0 <= k < report::hash_groups(files).len(),
        report::one_size(report::hash_groups(files)[k]),
        report::passes_filter(config@)(report::hash_groups(files)[k]),
        shown@ == report::group_shown(
            report::hash_groups(files)[k],
            report::scores_of(config@, report::hash_groups(files)[k]),
        ),
    ensures
        lists::text_of(report::hash_groups(files)[k][0].hash) == Some(hash),
        is_group_of(
            config,
            files,
            shown,
            hash,
            report::scores_of(config@, report::hash_groups(files)[k]),
        ),
{
    let g = report::hash_groups(files)[k];
    let scores = report::scores_of(config@, g);
    let hash = lemma_group_is_filter(files, k);
    groups::lemma_scores(config, g);
    groups::lemma_shown_as(shown, g, scores);
    lemma_passes(config, g);
    let marked = groups::marked_files(g, scores);
    sorting::lemma_filter_holds(files, of_hash(hash));
    assert forall|m: int| 0 <= m < shown.files@.len() implies lists::text_of(
        (#[trigger] shown.files@[m]).file.hash,
    ) == Some(hash) by {
        let x = shown.files@[m];
        vstd::seq_lib::to_multiset_contains(shown.files@, x);
        vstd::seq_lib::to_multiset_contains(marked, x);
        assert(shown.files@.contains(x));
        assert(marked.contains(x));
        let i = choose|i: int| 0 <= i < marked.len() && marked[i] == x;
        assert(g[i] == x.file);
        assert(g.contains(g[i]));
    }
    assert forall|i: int| 0 <= i < g.len() implies (#[trigger] g[i]).size == shown.size by {}
    hash
}

/// The groups that are shown of the first `n` groups, as they are listed.
proof fn lemma_shown_at(
    config: Config,
    files: Seq<FileRecord>,
    n: int,
    shown: Seq<DuplicateGroup>,
    k: int,
) -> (at: int)
    requires
        0 <= n <= report::hash_groups(files).len(),
        forall|i: int| 0 <= i < n ==> report::one_size(#[trigger] report::hash_groups(files)[i]),
        report::group_models(shown) == report::hash_groups(files).take(n).filter(
            report::passes_filter(config@),
        ).map_values(
            |g: Seq<FileRecord>| report::group_shown(g, report::scores_of(config@, g)),
        ),
        0 <= k < shown.len(),
    ensures
        0 <= at < n,
        report::hash_groups(files).take(n).filter(report::passes_filter(config@))[k]
            == report::hash_groups(files)[at],
        report::passes_filter(config@)(report::hash_groups(files)[at]),
        shown[k]@ == report::group_shown(
            report::hash_groups(files)[at],
            report::scores_of(config@, report::hash_groups(files)[at]),
        ),
{
    let part = report::hash_groups(files).take(n);
    let pred = report::passes_filter(config@);
    let kept = part.filter(pred);
    assert(report::group_models(shown).len() == shown.len());
    assert(kept.len() == shown.len());
    assert(report::group_models(shown)[k] == shown[k]@);
    sorting::lemma_filter_holds(part, pred);
    assert(kept.contains(kept[k]));
    let at = choose|at: int| 0 <= at < part.len() && part[at] == kept[k];
    at
}

proof fn lemma_one_sizes(files: Seq<FileRecord>)
    requires
        report::sizes_agree(files),
    ensures
        forall|i: int|
            0 <= i < report::hash_groups(files).len() ==> report::one_size(
                #[trigger] report::hash_groups(files)[i],
            ),
{
    let all = report::hash_groups(files);
    assert forall|i: int| 0 <= i < all.len() implies report::one_size(#[trigger] all[i]) by {
        laws::groups_hold_equal_hashes(files, i);
        assert forall|j: int| 0 <= j < all[i].len() implies (#[trigger] all[i][j]).size
            == all[i][0].size by {
            assert(all[i].contains(all[i][j]) && all[i].contains(all[i][0]));
        }
    }
}

/// Each group that is shown is that of the files with some hash.
pub proof fn a_shown_group_holds_the_files_with_one_hash(
    config: &Config,
    files: Vec<FileRecord>,
    delete: bool,
    report: DuplicateReport,
    k: int,
)
    requires
        call_ensures(
            report_all_duplicated_files,
            (config, files, delete),
            Ok::<DuplicateReport, SizeMismatch>(report),
        ),
        0 <= k < report.groups@.len(),
    ensures
        exists|hash: Seq<char>, scores: Seq<Option<i64>>| #[trigger]
            is_group_of(*config, files@, report.groups@[k], hash, scores),
{
    let all = report::hash_groups(files@);
    lemma_one_sizes(files@);
    assert(all.take(all.len() as int) =~= all);
    let at = lemma_shown_at(*config, files@, all.len() as int, report.groups@, k);
    let hash = lemma_is_group(*config, files@, at, report.groups@[k]);
    assert(is_group_of(
        *config,
        files@,
        report.groups@[k],
        hash,
        report::scores_of(config@, all[at]),
    ));
}

/// The files with a hash have a place among the groups, where they are two or more.
proof fn lemma_hash_has_group(files: Seq<FileRecord>, hash: Seq<char>) -> (at: int)
    requires
        files.filter(of_hash(hash)).len() >= 2,
    ensures
        0 <= at < report::hash_groups(files).len(),
        report::hash_groups(files)[at] == files.filter(of_hash(hash)),
{
    let sharing = files.filter(of_hash(hash));
    let all = report::hash_groups(files);
    let x = sharing[0];
    sorting::lemma_filter_holds(files, of_hash(hash));
    assert(sharing.contains(x));
    lemma_class_is_filter(files, x, hash);
    report::lemma_hash_groups(files);
    assert(all.contains(sharing));
    choose|at: int| 0 <= at < all.len() && all[at] == sharing
}

proof fn lemma_shown_where(
    config: Config,
    files: Seq<FileRecord>,
    n: int,
    shown: Seq<DuplicateGroup>,
    at: int,
) -> (k: int)
    requires
        0 <= at < n <= report::hash_groups(files).len(),
        report::passes_filter(config@)(report::hash_groups(files)[at]),
        report::group_models(shown) == report::hash_groups(files).take(n).filter(
            report::passes_filter(config@),
        ).map_values(
            |g: Seq<FileRecord>| report::group_shown(g, report::scores_of(config@, g)),
        ),
    ensures
        0 <= k < shown.len(),
        shown[k]@ == report::group_shown(
            report::hash_groups(files)[at],
            report::scores_of(config@, report::hash_groups(files)[at]),
        ),
{
    let part = report::hash_groups(files).take(n);
    let pred = report::passes_filter(config@);
    let kept = part.filter(pred);
    let g = report::hash_groups(files)[at];
    assert(part[at] == g);
    assert(part.contains(g));
    sorting::lemma_filter_holds(part, pred);
    assert(kept.contains(g));
    assert(report::group_models(shown).len() == shown.len());
    assert(kept.len() == shown.len());
    let k = choose|k: int| 0 <= k < kept.len() && kept[k] == g;
    assert(report::group_models(shown)[k] == shown[k]@);
    k
}

/// No group is passed over: the files with a hash are shown as a group wherever they
/// are two or more and the filter lets them through.
pub proof fn the_files_with_one_hash_are_shown(
    config: &Config,
    files: Vec<FileRecord>,
    delete: bool,
    report: DuplicateReport,
    hash: Seq<char>,
    scores: Seq<Option<i64>>,
)
    requires
        call_ensures(
            report_all_duplicated_files,
            (config, files, delete),
            Ok::<DuplicateReport, SizeMismatch>(report),
        ),
        files@.filter(of_hash(hash)).len() >= 2,
        groups::are_scores_of(*config, files@.filter(of_hash(hash)), scores),
        lets_through(*config, scores),
    ensures
        exists|k: int|
            0 <= k < report.groups@.len() && is_group_of(
                *config,
                files@,
                #[trigger] report.groups@[k],
                hash,
                scores,
            ),
{
    let all = report::hash_groups(files@);
    lemma_one_sizes(files@);
    assert(all.take(all.len() as int) =~= all);
    let at = lemma_hash_has_group(files@, hash);
    groups::lemma_scores_are_unique(*config, all[at], scores);
    lemma_passes(*config, all[at]);
    let k = lemma_shown_where(*config, files@, all.len() as int, report.groups@, at);
    let h = lemma_is_group(*config, files@, at, report.groups@[k]);
    sorting::lemma_filter_holds(files@, of_hash(hash));
    assert(all[at].contains(all[at][0]));
    assert(h == hash);
}

proof fn lemma_filter_no_duplicates<T>(s: Seq<T>, p: spec_fn(T) -> bool)
    requires
        s.no_duplicates(),
    ensures
        s.filter(p).no_duplicates(),
    decreases s.len(),
{
    reveal(Seq::filter);
    if s.len() > 0 {
        let rest = s.drop_last();
        lemma_filter_no_duplicates(rest, p);
        sorting::lemma_filter_holds(rest, p);
        let kept = s.filter(p);
        let kept0 = rest.filter(p);
        assert forall|i: int, j: int| 0 <= i < j < kept.len() implies kept[i] != kept[j] by {
            if j == kept0.len() {
                assert(kept0.contains(kept0[i]));
                let m = choose|m: int| 0 <= m < rest.len() && rest[m] == kept0[i];
                assert(s[m] != s[s.len() - 1]);
            }
        }
    }
}

proof fn lemma_groups_differ(files: Seq<FileRecord>)
    ensures
        report::hash_groups(files).no_duplicates(),
{
    let lt = file_record::by_hash();
    let known = files.filter(filter_duplicates::has_hash());
    let found = grouping::duplicate_groups(lt, known);
    let some: FileRecord = arbitrary();
    file_record::tied_by_hash(some, some);
    grouping::duplicate_groups_are_the_classes(lt, known);
    assert forall|i: int, j: int| 0 <= i < j < found.len() implies found[i] != found[j] by {
        assert(lt(found[i][0], found[j][0]));
    }
    groups::lemma_sorted_multiset(report::by_group_size(), found);
    found.lemma_multiset_has_no_duplicates();
    report::hash_groups(files).lemma_multiset_has_no_duplicates_conv();
}

/// No two groups that are shown have the same hash, and those with smaller files come
/// first.
pub proof fn each_group_is_shown_once_the_smaller_first(
    config: &Config,
    files: Vec<FileRecord>,
    delete: bool,
    report: DuplicateReport,
    j: int,
    k: int,
)
    requires
        call_ensures(
            report_all_duplicated_files,
            (config, files, delete),
            Ok::<DuplicateReport, SizeMismatch>(report),
        ),
        0 <= j < k < report.groups@.len(),
    ensures
        report.groups@[j].size <= report.groups@[k].size,
        lists::text_of(report.groups@[j].files@[0].file.hash) != lists::text_of(
            report.groups@[k].files@[0].file.hash,
        ),
{
    let all = report::hash_groups(files@);
    let n = all.len() as int;
    lemma_one_sizes(files@);
    assert(all.take(n) =~= all);
    let a = lemma_shown_at(*config, files@, n, report.groups@, j);
    let b = lemma_shown_at(*config, files@, n, report.groups@, k);
    let h = lemma_is_group(*config, files@, a, report.groups@[j]);
    let i = lemma_is_group(*config, files@, b, report.groups@[k]);
    laws::groups_are_shown_smallest_first(config@, files@);
    let shown = report::shown_groups(config@, files@);
    assert(shown == all.take(n).filter(report::passes_filter(config@)));
    assert(report::group_models(report.groups@).len() == report.groups@.len());
    assert(shown.len() == report.groups@.len());
    assert(report::group_size(shown[j]) <= report::group_size(shown[k]));
    lemma_groups_differ(files@);
    lemma_filter_no_duplicates(all, report::passes_filter(config@));
    if h == i {
        let x = lemma_group_is_filter(files@, a);
        let y = lemma_group_is_filter(files@, b);
        assert(x == h && y == i);
        assert(shown[j] == shown[k]);
    }
}

/// The sum of the numbers.
pub open spec fn sum(numbers: Seq<int>) -> int {
    numbers.fold_left(0, |a: int, b: int| a + b)
}

/// What a group takes that need not be: the size of its files, for all but one.
pub open spec fn redundant_in(group: DuplicateGroup) -> int {
    group.size * (group.files@.len() - 1)
}

proof fn lemma_redundant(shown: Seq<Seq<FileRecord>>, groups: Seq<DuplicateGroup>)
    requires
        shown.len() == groups.len(),
        forall|k: int|
            0 <= k < groups.len() ==> (#[trigger] groups[k]).size == report::group_size(shown[k])
                && groups[k].files@.len() == shown[k].len(),
    ensures
        report::redundant_size(shown) == sum(
            groups.map_values(|g: DuplicateGroup| redundant_in(g)),
        ),
    decreases groups.len(),
{
    let each = |g: DuplicateGroup| redundant_in(g);
    let numbers = groups.map_values(each);
    if groups.len() > 0 {
        assert forall|k: int| 0 <= k < groups.drop_last().len() implies (
        #[trigger] groups.drop_last()[k]).size == report::group_size(shown.drop_last()[k])
            && groups.drop_last()[k].files@.len() == shown.drop_last()[k].len() by {
            assert(groups.drop_last()[k] == groups[k]);
        }
        lemma_redundant(shown.drop_last(), groups.drop_last());
        assert(groups.drop_last().map_values(each) =~= numbers.drop_last());
        assert(numbers.last() == redundant_in(groups.last()));
        assert(groups[groups.len() - 1].size == report::group_size(shown[shown.len() - 1]));
    }
}

proof fn lemma_shown_pairwise(
    config: Config,
    files: Seq<FileRecord>,
    shown: Seq<DuplicateGroup>,
)
    requires
        report::group_models(shown) == report::shown_groups(config@, files).map_values(
            |g: Seq<FileRecord>| report::group_shown(g, report::scores_of(config@, g)),
        ),
    ensures
        shown.len() == report::shown_groups(config@, files).len(),
        forall|k: int|
            0 <= k < shown.len() ==> {
                let g = report::shown_groups(config@, files)[k];
                &&& (#[trigger] shown[k]).size == report::group_size(g)
                &&& shown[k].files@ == report::listed(g, report::scores_of(config@, g))
                &&& shown[k].files@.len() == g.len()
            },
{
    let kept = report::shown_groups(config@, files);
    assert(report::group_models(shown).len() == shown.len());
    assert forall|k: int| 0 <= k < shown.len() implies {
        let g = kept[k];
        &&& (#[trigger] shown[k]).size == report::group_size(g)
        &&& shown[k].files@ == report::listed(g, report::scores_of(config@, g))
        &&& shown[k].files@.len() == g.len()
    } by {
        let g = kept[k];
        assert(report::group_models(shown)[k] == shown[k]@);
        laws::lemma_shown_group(config@, files, k);
        groups::lemma_shown_as(shown[k], g, report::scores_of(config@, g));
    }
}

/// The redundant size is what all groups that are shown take that need not be, each
/// counted on its own.
pub proof fn the_redundant_size_is_that_of_all_groups(
    config: &Config,
    files: Vec<FileRecord>,
    delete: bool,
    report: DuplicateReport,
)
    requires
        call_ensures(
            report_all_duplicated_files,
            (config, files, delete),
            Ok::<DuplicateReport, SizeMismatch>(report),
        ),
    ensures
        report.redundant_size == sum(
            report.groups@.map_values(|g: DuplicateGroup| redundant_in(g)),
        ),
{
    lemma_shown_pairwise(*config, files@, report.groups@);
    lemma_redundant(report::shown_groups(config@, files@), report.groups@);
}

/// The files of a group that are marked to be deleted, in the order of the listing.
pub open spec fn marked_in(group: DuplicateGroup) -> Seq<FileRecord> {
    group.files@.filter(|f: ScoredFile| f.to_delete).map_values(|f: ScoredFile| f.file)
}

proof fn lemma_in_flattened<T>(lists: Seq<Seq<T>>, k: int, x: T)
    requires
        0 <= k < lists.len(),
        lists[k].contains(x),
    ensures
        lists.flatten().contains(x),
    decreases lists.len(),
{
    let first = lists.first();
    let rest = lists.drop_first();
    let flat = lists.flatten();
    assert(flat == first + rest.flatten());
    if k == 0 {
        let i = choose|i: int| 0 <= i < first.len() && first[i] == x;
        assert(flat[i] == x);
    } else {
        assert(rest[k - 1] == lists[k]);
        lemma_in_flattened(rest, k - 1, x);
        let i = choose|i: int| 0 <= i < rest.flatten().len() && rest.flatten()[i] == x;
        assert(flat[first.len() + i] == x);
    }
}

proof fn lemma_flattened_len<T>(lists: Seq<Seq<T>>)
    ensures
        lists.flatten().len() == sum(lists.map_values(|l: Seq<T>| l.len() as int)),
    decreases lists.len(),
{
    let len = |l: Seq<T>| l.len() as int;
    if lists.len() > 0 {
        lemma_flattened_len(lists.drop_last());
        lists.drop_last().lemma_flatten_push(lists.last());
        assert(lists.drop_last().push(lists.last()) =~= lists);
        assert(lists.map_values(len).drop_last() =~= lists.drop_last().map_values(len));
    }
}

proof fn lemma_deleted(config: &Config, files: Vec<FileRecord>, report: DuplicateReport)
    requires
        report::group_models(report.groups@) == report::shown_groups(config@, files@).map_values(
            |g: Seq<FileRecord>| report::group_shown(g, report::scores_of(config@, g)),
        ),
        file_record::models(report.to_delete@) == file_record::models(
            report::deletions(config@, report::shown_groups(config@, files@)),
        ),
    ensures
        ({
            let marked = report.groups@.map_values(|g: DuplicateGroup| marked_in(g)).flatten();
            &&& report.to_delete@.len() == marked.len()
            &&& forall|i: int|
                0 <= i < marked.len() ==> intake::same_fields(
                    #[trigger] report.to_delete@[i],
                    marked[i],
                )
            &&& marked == report::deletions(config@, report::shown_groups(config@, files@))
        }),
{
    let shown = report::shown_groups(config@, files@);
    let del = |g: Seq<FileRecord>|
        report::deletable(report::listed(g, report::scores_of(config@, g)));
    let mark = |g: DuplicateGroup| marked_in(g);
    lemma_shown_pairwise(*config, files@, report.groups@);
    assert forall|k: int| 0 <= k < shown.len() implies shown.map_values(del)[k]
        == report.groups@.map_values(mark)[k] by {
        let listed = report.groups@[k].files@;
        assert(listed == report::listed(shown[k], report::scores_of(config@, shown[k])));
        lists::lemma_same_filter(
            listed,
            |f: ScoredFile| f.to_delete,
            |f: ScoredFile| f.to_delete,
        );
        assert(report::deletable(listed) =~= marked_in(report.groups@[k]));
    }
    assert(shown.map_values(del) =~= report.groups@.map_values(mark));
    let marked = report.groups@.map_values(mark).flatten();
    let a = file_record::models(report.to_delete@);
    let b = file_record::models(marked);
    assert(a.len() == report.to_delete@.len() && b.len() == marked.len());
    assert forall|i: int| 0 <= i < marked.len() implies intake::same_fields(
        #[trigger] report.to_delete@[i],
        marked[i],
    ) by {
        assert(a[i] == b[i]);
        intake::lemma_same_fields(report.to_delete@[i], marked[i]);
    }
}

/// What is deleted are the marked files of all groups that are shown, group by group,
/// and nothing else; the user is asked exactly where that is wanted and there are any.
pub proof fn what_is_deleted_are_the_marked_files(
    config: &Config,
    files: Vec<FileRecord>,
    delete: bool,
    report: DuplicateReport,
)
    requires
        call_ensures(
            report_all_duplicated_files,
            (config, files, delete),
            Ok::<DuplicateReport, SizeMismatch>(report),
        ),
    ensures
        ({
            let marked = report.groups@.map_values(|g: DuplicateGroup| marked_in(g)).flatten();
            &&& report.to_delete@.len() == marked.len()
            &&& forall|i: int|
                0 <= i < marked.len() ==> intake::same_fields(
                    #[trigger] report.to_delete@[i],
                    marked[i],
                )
        }),
        report.confirm <==> delete && report.to_delete@.len() > 0,
{
    lemma_deleted(config, files, report);
}

/// Deletion is complete: each file that is marked in some group is deleted, and there
/// are as many deletions as marks in all groups together.
pub proof fn every_marked_file_is_deleted(
    config: &Config,
    files: Vec<FileRecord>,
    delete: bool,
    report: DuplicateReport,
)
    requires
        call_ensures(
            report_all_duplicated_files,
            (config, files, delete),
            Ok::<DuplicateReport, SizeMismatch>(report),
        ),
    ensures
        forall|k: int, m: int|
            0 <= k < report.groups@.len() && 0 <= m < report.groups@[k].files@.len()
                && (#[trigger] report.groups@[k].files@[m]).to_delete ==> exists|i: int|
                0 <= i < report.to_delete@.len() && intake::same_fields(
                    #[trigger] report.to_delete@[i],
                    report.groups@[k].files@[m].file,
                ),
        report.to_delete@.len() == sum(
            report.groups@.map_values(
                |g: DuplicateGroup| g.files@.filter(|f: ScoredFile| f.to_delete).len() as int,
            ),
        ),
{
    lemma_deleted(config, files, report);
    let mark = |g: DuplicateGroup| marked_in(g);
    let lists = report.groups@.map_values(mark);
    let marked = lists.flatten();
    assert forall|k: int, m: int|
        0 <= k < report.groups@.len() && 0 <= m < report.groups@[k].files@.len()
            && (#[trigger] report.groups@[k].files@[m]).to_delete implies exists|i: int|
        0 <= i < report.to_delete@.len() && intake::same_fields(
            #[trigger] report.to_delete@[i],
            report.groups@[k].files@[m].file,
        ) by {
        let listed = report.groups@[k].files@;
        let pred = |f: ScoredFile| f.to_delete;
        let x = listed[m];
        sorting::lemma_filter_holds(listed, pred);
        assert(listed.contains(x));
        assert(listed.filter(pred).contains(x));
        let p = choose|p: int| 0 <= p < listed.filter(pred).len() && listed.filter(pred)[p] == x;
        lists::lemma_same_filter(listed, pred, |f: ScoredFile| f.to_delete);
        assert(marked_in(report.groups@[k])[p] == x.file);
        assert(lists[k].contains(x.file));
        lemma_in_flattened(lists, k, x.file);
        let i = choose|i: int| 0 <= i < marked.len() && marked[i] == x.file;
        assert(intake::same_fields(report.to_delete@[i], marked[i]));
    }
    lemma_flattened_len(lists);
    assert(lists.map_values(|l: Seq<FileRecord>| l.len() as int) =~= report.groups@.map_values(
        |g: DuplicateGroup| g.files@.filter(|f: ScoredFile| f.to_delete).len() as int,
    ));
}

/// Where no report is made, some hash has files of two sizes. The groups that are
/// handed back are those of hashes whose files have one size, no larger than that of
/// the first file with the hash in question, and none with a smaller one is passed
/// over.
pub proof fn a_mismatch_hands_back_the_groups_before_it(
    config: &Config,
    files: Vec<FileRecord>,
    delete: bool,
    mismatch: SizeMismatch,
)
    requires
        call_ensures(
            report_all_duplicated_files,
            (config, files, delete),
            Err::<DuplicateReport, SizeMismatch>(mismatch),
        ),
    ensures
        exists|bad: Seq<char>|
            {
                let culprits = files@.filter(#[trigger] of_hash(bad));
                &&& culprits.len() >= 2
                &&& exists|i: int|
                    0 <= i < culprits.len() && (#[trigger] culprits[i]).size != culprits[0].size
                &&& forall|k: int|
                    0 <= k < mismatch.groups@.len() ==> {
                        &&& (#[trigger] mismatch.groups@[k]).size <= culprits[0].size
                        &&& exists|hash: Seq<char>, scores: Seq<Option<i64>>| #[trigger]
                            is_group_of(*config, files@, mismatch.groups@[k], hash, scores)
                    }
                &&& forall|hash: Seq<char>, scores: Seq<Option<i64>>|
                    files@.filter(of_hash(hash)).len() >= 2 && files@.filter(of_hash(hash))[0].size
                        < culprits[0].size && #[trigger] groups::are_scores_of(
                        *config,
                        files@.filter(of_hash(hash)),
                        scores,
                    ) && lets_through(*config, scores) ==> exists|k: int|
                        0 <= k < mismatch.groups@.len() && is_group_of(
                            *config,
                            files@,
                            #[trigger] mismatch.groups@[k],
                            hash,
                            scores,
                        )
            },
{
    let all = report::hash_groups(files@);
    let shown = mismatch.groups@;
    let n = choose|n: int|
        {
            &&& #[trigger] report::first_mismatch(all, n)
            &&& report::group_models(shown) == all.take(n).filter(
                report::passes_filter(config@),
            ).map_values(
                |g: Seq<FileRecord>| report::group_shown(g, report::scores_of(config@, g)),
            )
        };
    let bad = lemma_group_is_filter(files@, n);
    let culprits = files@.filter(of_hash(bad));
    sorting::sorted_is_stable(
        report::by_group_size(),
        grouping::duplicate_groups(
            file_record::by_hash(),
            files@.filter(filter_duplicates::has_hash()),
        ),
    );
    assert(exists|i: int|
        0 <= i < culprits.len() && (#[trigger] culprits[i]).size != culprits[0].size);
    assert forall|k: int| 0 <= k < shown.len() implies {
        &&& (#[trigger] shown[k]).size <= culprits[0].size
        &&& exists|hash: Seq<char>, scores: Seq<Option<i64>>| #[trigger]
            is_group_of(*config, files@, shown[k], hash, scores)
    } by {
        let at = lemma_shown_at(*config, files@, n, shown, k);
        let hash = lemma_is_group(*config, files@, at, shown[k]);
        assert(is_group_of(
            *config,
            files@,
            shown[k],
            hash,
            report::scores_of(config@, all[at]),
        ));
        assert(!report::by_group_size()(all[n], all[at]));
    }
    assert forall|hash: Seq<char>, scores: Seq<Option<i64>>|
        files@.filter(of_hash(hash)).len() >= 2 && files@.filter(of_hash(hash))[0].size
            < culprits[0].size && #[trigger] groups::are_scores_of(
            *config,
            files@.filter(of_hash(hash)),
            scores,
        ) && lets_through(*config, scores) implies exists|k: int|
        0 <= k < shown.len() && is_group_of(*config, files@, #[trigger] shown[k], hash, scores) by {
        let at = lemma_hash_has_group(files@, hash);
        if n <= at {
            if n < at {
                assert(!report::by_group_size()(all[at], all[n]));
            }
        } else {
            groups::lemma_scores_are_unique(*config, all[at], scores);
            lemma_passes(*config, all[at]);
            let k = lemma_shown_where(*config, files@, n, shown, at);
            let h = lemma_is_group(*config, files@, at, shown[k]);
            sorting::lemma_filter_holds(files@, of_hash(hash));
            assert(all[at].contains(all[at][0]));
            assert(h == hash);
            assert(is_group_of(*config, files@, shown[k], hash, scores));
        }
    }
    assert(culprits == files@.filter(of_hash(bad)));
}

} // verus!
