//! How the files of a group are marked and listed.
use crate::config::Config;
use crate::file_record::FileRecord;
use crate::outcomes::choice;
use crate::outcomes::lists;
use crate::path;
use crate::path::FilePath;
use crate::report;
use crate::report::{show_group, show_scored_group, DuplicateGroup, ScoredFile};
use crate::sorting;
use vstd::prelude::*;

verus! {

/// Files of the group may be deleted: all have a score, and not all the same.
pub open spec fn may_delete(scores: Seq<Option<i64>>) -> bool {
    &&& forall|i: int| 0 <= i < scores.len() ==> #[trigger] scores[i] is Some
    &&& exists|i: int, j: int|
        0 <= i < scores.len() && 0 <= j < scores.len() && #[trigger] scores[i]
            != #[trigger] scores[j]
}

/// The score `i` is one, and no score is lower.
pub open spec fn none_lower(scores: Seq<Option<i64>>, i: int) -> bool {
    scores[i] is Some && forall|j: int|
        0 <= j < scores.len() && #[trigger] scores[j] is Some ==> scores[i]->0 <= scores[j]->0
}

/// The files with their scores and marks.
pub open spec fn marked_files(group: Seq<FileRecord>, scores: Seq<Option<i64>>) -> Seq<ScoredFile> {
    Seq::new(
        group.len(),
        |i: int|
            ScoredFile {
                file: group[i],
                score: scores[i],
                to_delete: may_delete(scores) && none_lower(scores, i),
            },
    )
}

/// A score as it is ranked: a missing one with the highest.
pub open spec fn rank(score: Option<i64>) -> int {
    match score {
        Some(number) => number as int,
        None => 0x7fff_ffff_ffff_ffff,
    }
}

/// The files of one rank.
pub open spec fn of_rank(r: int) -> spec_fn(ScoredFile) -> bool {
    |f: ScoredFile| rank(f.score) == r
}

/// The files whose path is not told from this one.
pub open spec fn of_place(place: FilePath) -> spec_fn(ScoredFile) -> bool {
    |f: ScoredFile|
        !choice::path_before(place, f.file.path) && !choice::path_before(f.file.path, place)
}

/// The group is shown as its files and scores say. It has the size of its first file;
/// it says whether there are scores, and whether files may be deleted. It lists each
/// file once, with its score and mark: where there are scores, the higher first and of
/// one rank the later first; where there are none, by path.
pub open spec fn shown_as(
    shown: DuplicateGroup,
    group: Seq<FileRecord>,
    scores: Seq<Option<i64>>,
) -> bool {
    let files = shown.files@;
    let marked = marked_files(group, scores);
    &&& shown.size == group[0].size
    &&& shown.has_scores <==> exists|i: int| 0 <= i < scores.len() && #[trigger] scores[i] is Some
    &&& shown.has_deletables <==> may_delete(scores)
    &&& files.to_multiset() == marked.to_multiset()
    &&& files.len() == group.len()
    &&& shown.has_scores ==> {
        &&& forall|m: int, n: int|
            0 <= m < n < files.len() ==> rank((#[trigger] files[m]).score) >= rank(
                (#[trigger] files[n]).score,
            )
        &&& forall|r: int|
            #![trigger of_rank(r)]
            files.filter(of_rank(r)) == marked.filter(of_rank(r)).reverse()
    }
    &&& !shown.has_scores ==> {
        &&& forall|m: int, n: int|
            0 <= m < n < files.len() ==> !choice::path_before(
                (#[trigger] files[n]).file.path,
                (#[trigger] files[m]).file.path,
            )
        &&& forall|place: FilePath|
            #![trigger of_place(place)]
            files.filter(of_place(place)) == marked.filter(of_place(place))
    }
}

/// Sorting keeps the items.
pub proof fn lemma_sorted_multiset<T>(lt: spec_fn(T, T) -> bool, s: Seq<T>)
    ensures
        sorting::sorted(lt, s).to_multiset() == s.to_multiset(),
    decreases s.len(),
{
    if s.len() > 0 {
        let rest = s.drop_last();
        let x = s.last();
        lemma_sorted_multiset(lt, rest);
        let t = sorting::sorted(lt, rest);
        sorting::lemma_slot_range(lt, t, x);
        vstd::seq_lib::to_multiset_insert(t, sorting::slot(lt, t, x), x);
        vstd::seq_lib::to_multiset_build(rest, x);
        assert(rest.push(x) =~= s);
    }
}

proof fn lemma_filter_reversed<T>(s: Seq<T>, p: spec_fn(T) -> bool)
    ensures
        s.reverse().filter(p) == s.filter(p).reverse(),
    decreases s.len(),
{
    reveal(Seq::filter);
    if s.len() > 0 {
        let rest = s.drop_last();
        let x = s.last();
        lemma_filter_reversed(rest, p);
        assert(s.reverse() =~= seq![x] + rest.reverse());
        Seq::filter_distributes_over_add(seq![x], rest.reverse(), p);
        if p(x) {
            sorting::lemma_filter_all(seq![x], p);
            assert(s.filter(p).reverse() =~= seq![x] + rest.filter(p).reverse());
        } else {
            sorting::lemma_filter_none(seq![x], p);
            assert(seq![x].filter(p) + rest.reverse().filter(p) =~= rest.reverse().filter(p));
        }
    } else {
        assert(s.reverse().filter(p) =~= s.filter(p).reverse());
    }
}

proof fn lemma_marked(group: Seq<FileRecord>, scores: Seq<Option<i64>>)
    requires
        group.len() == scores.len(),
    ensures
        report::scored_files(group, scores) == marked_files(group, scores),
        report::any_deletable(scores) == may_delete(scores),
{
    assert(report::any_deletable(scores) == may_delete(scores));
    assert forall|i: int| 0 <= i < scores.len() implies report::is_lowest(
        scores,
        #[trigger] scores[i],
    ) == none_lower(scores, i) by {}
    assert forall|i: int| 0 <= i < group.len() implies report::scored_files(group, scores)[i]
        == marked_files(group, scores)[i] by {
        assert(report::is_lowest(scores, scores[i]) == none_lower(scores, i));
    }
    assert(report::scored_files(group, scores) =~= marked_files(group, scores));
}

/// A group is shown as its files and scores say.
pub proof fn lemma_shown_as(
    shown: DuplicateGroup,
    group: Seq<FileRecord>,
    scores: Seq<Option<i64>>,
)
    requires
        group.len() > 0,
        group.len() == scores.len(),
        shown@ == report::group_shown(group, scores),
    ensures
        shown_as(shown, group, scores),
{
    let files = shown.files@;
    let marked = marked_files(group, scores);
    lemma_marked(group, scores);
    assert(files == report::listed(group, scores));
    assert(shown.has_scores == report::any_scored(scores));
    if shown.has_scores {
        let lt = report::by_score();
        let s = sorting::sorted(lt, marked);
        sorting::sorted_is_stable(lt, marked);
        lemma_sorted_multiset(lt, marked);
        s.lemma_reverse_to_multiset();
        assert forall|m: int, n: int| 0 <= m < n < files.len() implies rank(
            (#[trigger] files[m]).score,
        ) >= rank((#[trigger] files[n]).score) by {
            assert(!lt(s[s.len() - 1 - m], s[s.len() - 1 - n]));
        }
        assert forall|r: int|
            #![trigger of_rank(r)]
            files.filter(of_rank(r)) == marked.filter(of_rank(r)).reverse() by {
            lemma_filter_reversed(s, of_rank(r));
            if exists|i: int| 0 <= i < marked.len() && of_rank(r)(#[trigger] marked[i]) {
                let i = choose|i: int| 0 <= i < marked.len() && of_rank(r)(#[trigger] marked[i]);
                let x = marked[i];
                let tie = |y: ScoredFile| sorting::tied(lt, x, y);
                lists::lemma_same_filter(s, of_rank(r), tie);
                lists::lemma_same_filter(marked, of_rank(r), tie);
                assert(sorting::class_of(lt, s, x) == sorting::class_of(lt, marked, x));
            } else {
                sorting::lemma_filter_none(marked, of_rank(r));
                assert forall|j: int| 0 <= j < s.len() implies !of_rank(r)(#[trigger] s[j]) by {
                    assert(s.contains(s[j]));
                    sorting::lemma_sorted_holds(lt, marked, s[j]);
                    let i = choose|i: int| 0 <= i < marked.len() && marked[i] == s[j];
                    assert(!of_rank(r)(marked[i]));
                }
                sorting::lemma_filter_none(s, of_rank(r));
            }
        }
    } else {
        let lt = report::by_path();
        sorting::Order::<ScoredFile>::order_laws(&report::ByPath);
        sorting::sorted_is_stable(lt, marked);
        lemma_sorted_multiset(lt, marked);
        assert forall|m: int, n: int| 0 <= m < n < files.len() implies !choice::path_before(
            (#[trigger] files[n]).file.path,
            (#[trigger] files[m]).file.path,
        ) by {
            assert(!lt(files[n], files[m]));
            choice::paths_are_ordered_by_components(files[n].file.path, files[m].file.path);
        }
        assert forall|place: FilePath|
            #![trigger of_place(place)]
            files.filter(of_place(place)) == marked.filter(of_place(place)) by {
            let some: ScoredFile = arbitrary();
            let x = ScoredFile { file: FileRecord { path: place, ..some.file }, ..some };
            let tie = |y: ScoredFile| sorting::tied(lt, x, y);
            assert forall|j: int| 0 <= j < files.len() implies of_place(place)(
                #[trigger] files[j],
            ) == tie(files[j]) by {
                choice::paths_are_ordered_by_components(place, files[j].file.path);
                choice::paths_are_ordered_by_components(files[j].file.path, place);
            }
            assert forall|j: int| 0 <= j < marked.len() implies of_place(place)(
                #[trigger] marked[j],
            ) == tie(marked[j]) by {
                choice::paths_are_ordered_by_components(place, marked[j].file.path);
                choice::paths_are_ordered_by_components(marked[j].file.path, place);
            }
            lists::lemma_same_filter(files, of_place(place), tie);
            lists::lemma_same_filter(marked, of_place(place), tie);
            assert(sorting::class_of(lt, files, x) == sorting::class_of(lt, marked, x));
        }
    }
}

/// How a group is shown whose scores are given.
pub proof fn given_scores_decide_how_a_group_is_shown(
    group: Vec<FileRecord>,
    scores: &Vec<Option<i64>>,
    shown: DuplicateGroup,
)
    requires
        group@.len() > 0,
        group@.len() == scores@.len(),
        call_ensures(show_scored_group, (group, scores), shown),
    ensures
        shown_as(shown, group@, scores@),
{
    lemma_shown_as(shown, group@, scores@);
}

/// The scores of the files are those of their paths.
pub open spec fn are_scores_of(
    config: Config,
    group: Seq<FileRecord>,
    scores: Seq<Option<i64>>,
) -> bool {
    &&& scores.len() == group.len()
    &&& forall|i: int|
        0 <= i < group.len() ==> choice::has_score(
            config,
            (#[trigger] group[i]).path.name@,
            scores[i],
        )
}

/// The scores that the configuration gives are those of the paths.
pub proof fn lemma_scores(config: Config, group: Seq<FileRecord>)
    ensures
        are_scores_of(config, group, report::scores_of(config@, group)),
{
    let scores = report::scores_of(config@, group);
    assert forall|i: int| 0 <= i < group.len() implies choice::has_score(
        config,
        (#[trigger] group[i]).path.name@,
        scores[i],
    ) by {
        choice::lemma_score(config, group[i].path.name@, scores[i]);
    }
}

/// How a group is shown: by the scores that its paths have.
pub proof fn paths_decide_how_a_group_is_shown(
    config: &Config,
    group: Vec<FileRecord>,
    shown: DuplicateGroup,
    scores: Seq<Option<i64>>,
)
    requires
        group@.len() > 0,
        call_ensures(show_group, (config, group), shown),
        are_scores_of(*config, group@, scores),
    ensures
        shown_as(shown, group@, scores),
{
    lemma_scores_are_unique(*config, group@, scores);
    lemma_shown_as(shown, group@, scores);
}

/// Files have one list of scores.
pub proof fn lemma_scores_are_unique(
    config: Config,
    group: Seq<FileRecord>,
    scores: Seq<Option<i64>>,
)
    requires
        are_scores_of(config, group, scores),
    ensures
        scores == report::scores_of(config@, group),
{
    assert forall|i: int| 0 <= i < group.len() implies scores[i] == report::scores_of(
        config@,
        group,
    )[i] by {
        choice::lemma_score(config, group[i].path.name@, scores[i]);
        assert(choice::has_score(config, group[i].path.name@, scores[i]));
    }
    assert(scores =~= report::scores_of(config@, group));
}

} // verus!
