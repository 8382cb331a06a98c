//! What holds of the search as a whole: no duplicate is lost, what is reported as
//! duplicated has the same hash, and no file loses its last copy.
use crate::config;
use crate::config::DuplicateGroupFilter;
use crate::dir_report;
use crate::file_record;
use crate::file_record::FileRecord;
use crate::filter_duplicates;
use crate::filter_duplicates::HashStage;
use crate::grouping;
use crate::number;
use crate::path;
use crate::pattern;
use crate::report;
use crate::report::ScoredFile;
use crate::scan;
use crate::scan::CacheCommand;
use crate::sorting;
use vstd::prelude::*;

verus! {

/// `x` and `y` stand at two different places of `s`.
pub open spec fn both_in<T>(s: Seq<T>, x: T, y: T) -> bool {
    exists|i: int, j: int|
        0 <= i < s.len() && 0 <= j < s.len() && i != j && #[trigger] s[i] == x && #[trigger] s[j]
            == y
}

pub proof fn lemma_both_at<T>(s: Seq<T>, i: int, j: int)
    requires
        0 <= i < s.len(),
        0 <= j < s.len(),
        i != j,
    ensures
        both_in(s, s[i], s[j]),
{
}

proof fn lemma_both_in_filtered<T>(s: Seq<T>, pred: spec_fn(T) -> bool, x: T, y: T)
    requires
        both_in(s, x, y),
        pred(x),
        pred(y),
    ensures
        both_in(s.filter(pred), x, y),
    decreases s.len(),
{
    reveal(Seq::filter);
    let (i, j) = choose|i: int, j: int|
        0 <= i < s.len() && 0 <= j < s.len() && i != j && #[trigger] s[i] == x && #[trigger] s[j]
            == y;
    let rest = s.drop_last();
    let kept = s.filter(pred);
    let kept0 = rest.filter(pred);
    if i < rest.len() && j < rest.len() {
        assert(rest[i] == x && rest[j] == y);
        lemma_both_in_filtered(rest, pred, x, y);
        let (a, b) = choose|a: int, b: int|
            0 <= a < kept0.len() && 0 <= b < kept0.len() && a != b && #[trigger] kept0[a] == x
                && #[trigger] kept0[b] == y;
        assert(kept[a] == x && kept[b] == y);
    } else {
        sorting::lemma_filter_holds(rest, pred);
        let other = if i < rest.len() {
            i
        } else {
            j
        };
        assert(rest.contains(rest[other]));
        assert(kept0.contains(s[other]));
        let a = choose|a: int| 0 <= a < kept0.len() && kept0[a] == s[other];
        assert(kept[a] == s[other]);
        assert(kept[kept0.len() as int] == s.last());
    }
}

proof fn lemma_both_in_flattened<T>(groups: Seq<Seq<T>>, k: int, x: T, y: T)
    requires
        0 <= k < groups.len(),
        both_in(groups[k], x, y),
    ensures
        both_in(groups.flatten(), x, y),
    decreases groups.len(),
{
    let first = groups.first();
    let rest = groups.drop_first();
    let flat = groups.flatten();
    assert(flat == first + rest.flatten());
    if k == 0 {
        let (a, b) = choose|a: int, b: int|
            0 <= a < first.len() && 0 <= b < first.len() && a != b && #[trigger] first[a] == x
                && #[trigger] first[b] == y;
        assert(flat[a] == x && flat[b] == y);
    } else {
        assert(rest[k - 1] == groups[k]);
        lemma_both_in_flattened(rest, k - 1, x, y);
        let tail = rest.flatten();
        let (a, b) = choose|a: int, b: int|
            0 <= a < tail.len() && 0 <= b < tail.len() && a != b && #[trigger] tail[a] == x
                && #[trigger] tail[b] == y;
        assert(flat[first.len() + a] == x && flat[first.len() + b] == y);
    }
}

proof fn lemma_flattened_holds<T>(groups: Seq<Seq<T>>, x: T)
    requires
        groups.flatten().contains(x),
    ensures
        exists|k: int| 0 <= k < groups.len() && (#[trigger] groups[k]).contains(x),
    decreases groups.len(),
{
    if groups.len() > 0 {
        let first = groups.first();
        let rest = groups.drop_first();
        let flat = groups.flatten();
        assert(flat == first + rest.flatten());
        let i = choose|i: int| 0 <= i < flat.len() && flat[i] == x;
        if i < first.len() {
            assert(groups[0][i] == x);
            assert(groups[0].contains(x));
        } else {
            assert(rest.flatten()[i - first.len()] == x);
            lemma_flattened_holds(rest, x);
            let k = choose|k: int| 0 <= k < rest.len() && (#[trigger] rest[k]).contains(x);
            assert(groups[k + 1].contains(x));
        }
    }
}

/// Two items that are tied stand in one group, and the group holds all items that
/// are tied with them.
pub proof fn tied_items_share_a_group<T>(lt: spec_fn(T, T) -> bool, items: Seq<T>, x: T, y: T)
    requires
        sorting::strict_weak_order(lt),
        both_in(items, x, y),
        sorting::tied(lt, x, y),
    ensures
        grouping::duplicate_groups(lt, items).contains(sorting::class_of(lt, items, x)),
        both_in(sorting::class_of(lt, items, x), x, y),
{
    grouping::duplicate_groups_are_the_classes(lt, items);
    sorting::lemma_tied(lt, x, x, x);
    let class = sorting::class_of(lt, items, x);
    lemma_both_in_filtered(items, |z: T| sorting::tied(lt, x, z), x, y);
    assert(items.contains(x)) by {
        let (i, j) = choose|i: int, j: int|
            0 <= i < items.len() && 0 <= j < items.len() && i != j && #[trigger] items[i] == x
                && #[trigger] items[j] == y;
        assert(items[i] == x);
    }
    assert(class.len() >= 2) by {
        let (a, b) = choose|a: int, b: int|
            0 <= a < class.len() && 0 <= b < class.len() && a != b && #[trigger] class[a] == x
                && #[trigger] class[b] == y;
    }
}

/// Two tied items are both kept when the items that are tied with no other are
/// dropped.
pub proof fn tied_items_are_kept<T>(lt: spec_fn(T, T) -> bool, items: Seq<T>, x: T, y: T)
    requires
        sorting::strict_weak_order(lt),
        both_in(items, x, y),
        sorting::tied(lt, x, y),
    ensures
        both_in(grouping::duplicate_groups(lt, items).flatten(), x, y),
{
    tied_items_share_a_group(lt, items, x, y);
    let groups = grouping::duplicate_groups(lt, items);
    let class = sorting::class_of(lt, items, x);
    let k = choose|k: int| 0 <= k < groups.len() && groups[k] == class;
    lemma_both_in_flattened(groups, k, x, y);
}

/// What is kept when the items that are tied with no other are dropped are items,
/// and no more than there were.
pub proof fn kept_items_are_items<T>(lt: spec_fn(T, T) -> bool, items: Seq<T>)
    requires
        sorting::strict_weak_order(lt),
    ensures
        forall|x: T| #[trigger]
            grouping::duplicate_groups(lt, items).flatten().contains(x) ==> items.contains(x),
        grouping::duplicate_groups(lt, items).flatten().len() <= items.len(),
{
    let groups = grouping::duplicate_groups(lt, items);
    grouping::duplicate_groups_are_the_classes(lt, items);
    assert forall|x: T| #[trigger] groups.flatten().contains(x) implies items.contains(x) by {
        lemma_flattened_holds(groups, x);
        let k = choose|k: int| 0 <= k < groups.len() && (#[trigger] groups[k]).contains(x);
        sorting::lemma_filter_holds(items, |y: T| sorting::tied(lt, groups[k][0], y));
    }
}

/// Two files of the same size, other than empty ones, both pass the first step.
pub proof fn equal_sizes_pass_the_first_step(files: Seq<FileRecord>, x: FileRecord, y: FileRecord)
    requires
        both_in(files, x, y),
        x.size == y.size,
        x.size > 0,
    ensures
        both_in(filter_duplicates::size_candidates(files), x, y),
{
    file_record::tied_by_size(x, y);
    lemma_both_in_filtered(files, filter_duplicates::not_empty(), x, y);
    tied_items_are_kept(
        file_record::by_size(),
        files.filter(filter_duplicates::not_empty()),
        x,
        y,
    );
}

/// The files that pass the first step pass it again.
pub proof fn the_first_step_keeps_what_it_kept(files: Seq<FileRecord>)
    ensures
        filter_duplicates::size_candidates(filter_duplicates::size_candidates(files))
            == filter_duplicates::size_candidates(files),
{
    let lt = file_record::by_size();
    let kept = files.filter(filter_duplicates::not_empty());
    let candidates = filter_duplicates::size_candidates(files);
    grouping::grouping_again_changes_nothing(lt, kept);
    lemma_size_candidates(files);
    sorting::lemma_filter_all(candidates, filter_duplicates::not_empty());
}

/// The files that pass the second step pass it again.
pub proof fn the_second_step_keeps_what_it_kept(files: Seq<FileRecord>)
    ensures
        filter_duplicates::prefix_candidates(filter_duplicates::prefix_candidates(files))
            == filter_duplicates::prefix_candidates(files),
{
    let lt = file_record::by_hash_4096();
    let kept = files.filter(filter_duplicates::has_hash_4096());
    let candidates = filter_duplicates::prefix_candidates(files);
    let some: FileRecord = arbitrary();
    file_record::tied_by_hash_4096(some, some);
    grouping::grouping_again_changes_nothing(lt, kept);
    lemma_prefix_candidates(files);
    sorting::lemma_filter_all(candidates, filter_duplicates::has_hash_4096());
}

pub proof fn lemma_size_candidates(files: Seq<FileRecord>)
    ensures
        forall|i: int|
            0 <= i < filter_duplicates::size_candidates(files).len()
                ==> filter_duplicates::not_empty()(
                #[trigger] filter_duplicates::size_candidates(files)[i],
            ),
        filter_duplicates::size_candidates(files).len() <= files.len(),
{
    let kept = files.filter(filter_duplicates::not_empty());
    let candidates = filter_duplicates::size_candidates(files);
    files.lemma_filter_len(filter_duplicates::not_empty());
    kept_items_are_items(file_record::by_size(), kept);
    sorting::lemma_filter_holds(files, filter_duplicates::not_empty());
    assert forall|i: int| 0 <= i < candidates.len() implies filter_duplicates::not_empty()(
        #[trigger] candidates[i],
    ) by {
        assert(candidates.contains(candidates[i]));
        assert(kept.contains(candidates[i]));
    }
}

pub proof fn lemma_prefix_candidates(files: Seq<FileRecord>)
    ensures
        forall|i: int|
            0 <= i < filter_duplicates::prefix_candidates(files).len()
                ==> filter_duplicates::has_hash_4096()(
                #[trigger] filter_duplicates::prefix_candidates(files)[i],
            ),
        filter_duplicates::prefix_candidates(files).len() <= files.len(),
{
    let kept = files.filter(filter_duplicates::has_hash_4096());
    let candidates = filter_duplicates::prefix_candidates(files);
    let some: FileRecord = arbitrary();
    file_record::tied_by_hash_4096(some, some);
    files.lemma_filter_len(filter_duplicates::has_hash_4096());
    kept_items_are_items(file_record::by_hash_4096(), kept);
    sorting::lemma_filter_holds(files, filter_duplicates::has_hash_4096());
    assert forall|i: int| 0 <= i < candidates.len() implies filter_duplicates::has_hash_4096()(
        #[trigger] candidates[i],
    ) by {
        assert(candidates.contains(candidates[i]));
        assert(kept.contains(candidates[i]));
    }
}

/// Two files with the same hash of their first bytes both pass the second step.
pub proof fn equal_prefixes_pass_the_second_step(
    files: Seq<FileRecord>,
    x: FileRecord,
    y: FileRecord,
)
    requires
        both_in(files, x, y),
        x.hash_4096 is Some,
        x@.hash_4096 == y@.hash_4096,
    ensures
        both_in(filter_duplicates::prefix_candidates(files), x, y),
{
    file_record::tied_by_hash_4096(x, y);
    assert(y.hash_4096 is Some);
    lemma_both_in_filtered(files, filter_duplicates::has_hash_4096(), x, y);
    tied_items_are_kept(
        file_record::by_hash_4096(),
        files.filter(filter_duplicates::has_hash_4096()),
        x,
        y,
    );
}

/// Two files with the same hash stand in one of the reported groups.
pub proof fn equal_hashes_share_a_group(files: Seq<FileRecord>, x: FileRecord, y: FileRecord)
    requires
        both_in(files, x, y),
        x.hash is Some,
        x@.hash == y@.hash,
    ensures
        exists|k: int|
            0 <= k < report::hash_groups(files).len() && both_in(
                #[trigger] report::hash_groups(files)[k],
                x,
                y,
            ),
{
    let lt = file_record::by_hash();
    let known = files.filter(filter_duplicates::has_hash());
    file_record::tied_by_hash(x, y);
    assert(y.hash is Some);
    lemma_both_in_filtered(files, filter_duplicates::has_hash(), x, y);
    tied_items_share_a_group(lt, known, x, y);
    let class = sorting::class_of(lt, known, x);
    sorting::lemma_sorted_holds(
        report::by_group_size(),
        grouping::duplicate_groups(lt, known),
        class,
    );
    let groups = report::hash_groups(files);
    let k = choose|k: int| 0 <= k < groups.len() && groups[k] == class;
    assert(both_in(groups[k], x, y));
}

/// A reported group holds at least two files; they all have the same hash, and they
/// are files that were handed in.
pub proof fn groups_hold_equal_hashes(files: Seq<FileRecord>, k: int)
    requires
        0 <= k < report::hash_groups(files).len(),
    ensures
        report::hash_groups(files)[k].len() >= 2,
        forall|x: FileRecord| #[trigger]
            report::hash_groups(files)[k].contains(x) ==> files.contains(x) && x.hash is Some
                && x@.hash == report::hash_groups(files)[k][0]@.hash,
{
    let lt = file_record::by_hash();
    let known = files.filter(filter_duplicates::has_hash());
    let groups = grouping::duplicate_groups(lt, known);
    let g = report::hash_groups(files)[k];
    file_record::tied_by_hash(g[0], g[0]);
    grouping::duplicate_groups_are_the_classes(lt, known);
    sorting::lemma_sorted_holds(report::by_group_size(), groups, g);
    assert(report::hash_groups(files).contains(g));
    let m = choose|m: int| 0 <= m < groups.len() && groups[m] == g;
    sorting::lemma_filter_holds(known, |y: FileRecord| sorting::tied(lt, g[0], y));
    sorting::lemma_filter_holds(files, filter_duplicates::has_hash());
    assert forall|x: FileRecord| #[trigger] g.contains(x) implies files.contains(x) && x.hash is Some
        && x@.hash == g[0]@.hash by {
        file_record::tied_by_hash(g[0], x);
    }
}

/// The first bytes of a content.
pub open spec fn prefix(content: Seq<u8>) -> Seq<u8> {
    if content.len() <= filter_duplicates::PREFIX_SIZE {
        content
    } else {
        content.take(filter_duplicates::PREFIX_SIZE as int)
    }
}

/// What is hashed of a content.
pub open spec fn hashed_part(stage: HashStage, content: Seq<u8>) -> Seq<u8> {
    match stage {
        HashStage::Short => prefix(content),
        HashStage::Full => content,
    }
}

/// The record says of the file what is true of it: its size is the length of its
/// content, and the hashes that are known are those of its content.
pub open spec fn faithful(
    content: spec_fn(path::PathModel) -> Seq<u8>,
    digest: spec_fn(Seq<u8>) -> Seq<char>,
    file: FileRecord,
) -> bool {
    &&& file.size == content(file@.path).len()
    &&& file@.hash_4096 matches Some(hash) ==> hash == digest(prefix(content(file@.path)))
    &&& file@.hash matches Some(hash) ==> hash == digest(content(file@.path))
}

/// One of the two paths.
pub open spec fn either(x: path::PathModel, y: path::PathModel) -> spec_fn(path::PathModel) -> bool {
    |p: path::PathModel| p == x || p == y
}

/// Of the files at the positions `at` whose paths are among `paths`, the hashes are
/// those of their contents.
pub open spec fn honest(
    content: spec_fn(path::PathModel) -> Seq<u8>,
    digest: spec_fn(Seq<u8>) -> Seq<char>,
    paths: spec_fn(path::PathModel) -> bool,
    stage: HashStage,
    files: Seq<FileRecord>,
    at: Seq<usize>,
    hashes: Seq<Option<String>>,
) -> bool {
    forall|k: int|
        0 <= k < hashes.len() && paths(files[at[k] as int]@.path) ==> ((#[trigger] hashes[k]) matches Some(
            hash,
        ) ==> hash@ == digest(hashed_part(stage, content(files[at[k] as int]@.path))))
}

/// A record that is faithful remains so when it gets the hash that was read: of a
/// file with no more than the first bytes, the hash of these is that of the content.
pub proof fn hashing_keeps_records_faithful(
    content: spec_fn(path::PathModel) -> Seq<u8>,
    digest: spec_fn(Seq<u8>) -> Seq<char>,
    stage: HashStage,
    file: FileRecord,
    hash: String,
)
    requires
        faithful(content, digest, file),
        hash@ == digest(hashed_part(stage, content(file@.path))),
    ensures
        faithful(content, digest, stage.with_hash(file, hash)),
        !stage.is_missing(stage.with_hash(file, hash)),
        stage.with_hash(file, hash)@.path == file@.path,
        stage.with_hash(file, hash).size == file.size,
{
}

/// A pass keeps the number of files, their order, paths and sizes, and the hashes
/// that were known; a file whose hash was read has one afterwards.
pub proof fn a_pass_keeps_paths_and_sizes(
    stage: HashStage,
    files: Seq<FileRecord>,
    at: Seq<usize>,
    hashes: Seq<Option<String>>,
)
    requires
        hashes.len() <= at.len(),
        forall|k: int| 0 <= k < at.len() ==> #[trigger] at[k] < files.len(),
    ensures
        ({
            let after = filter_duplicates::hashed_all(stage, files, at, hashes);
            &&& after.len() == files.len()
            &&& forall|i: int|
                0 <= i < files.len() ==> (#[trigger] after[i])@.path == files[i]@.path
                    && after[i].size == files[i].size && (!stage.is_missing(files[i])
                    ==> !stage.is_missing(after[i]))
            &&& forall|k: int|
                0 <= k < hashes.len() && (#[trigger] hashes[k]) is Some ==> !stage.is_missing(
                    after[at[k] as int],
                )
        }),
    decreases hashes.len(),
{
    if hashes.len() > 0 {
        a_pass_keeps_paths_and_sizes(stage, files, at, hashes.drop_last());
        let after = filter_duplicates::hashed_all(stage, files, at, hashes);
        assert(at[hashes.len() - 1] < files.len());
        assert forall|k: int| 0 <= k < hashes.len() && (#[trigger] hashes[k])
            is Some implies !stage.is_missing(after[at[k] as int]) by {
            assert(at[k] < files.len());
            if k < hashes.len() - 1 {
                assert(hashes.drop_last()[k] is Some);
            }
        }
    }
}

/// A pass in which a file is hashed as it is keeps a faithful record of it faithful,
/// whatever is read of the others.
pub proof fn a_pass_keeps_records_faithful(
    content: spec_fn(path::PathModel) -> Seq<u8>,
    digest: spec_fn(Seq<u8>) -> Seq<char>,
    paths: spec_fn(path::PathModel) -> bool,
    stage: HashStage,
    files: Seq<FileRecord>,
    at: Seq<usize>,
    hashes: Seq<Option<String>>,
    i: int,
)
    requires
        hashes.len() <= at.len(),
        forall|k: int| 0 <= k < at.len() ==> #[trigger] at[k] < files.len(),
        honest(content, digest, paths, stage, files, at, hashes),
        0 <= i < files.len(),
        paths(files[i]@.path),
        faithful(content, digest, files[i]),
    ensures
        faithful(content, digest, filter_duplicates::hashed_all(stage, files, at, hashes)[i]),
    decreases hashes.len(),
{
    if hashes.len() > 0 {
        let fewer = hashes.drop_last();
        assert forall|k: int|
            0 <= k < fewer.len() && paths(files[at[k] as int]@.path) implies ((
        #[trigger] fewer[k]) matches Some(hash) ==> hash@ == digest(
            hashed_part(stage, content(files[at[k] as int]@.path)),
        )) by {
            assert(fewer[k] == hashes[k]);
        }
        a_pass_keeps_records_faithful(content, digest, paths, stage, files, at, fewer, i);
        a_pass_keeps_paths_and_sizes(stage, files, at, fewer);
        let before = filter_duplicates::hashed_all(stage, files, at, fewer);
        let p = at[hashes.len() - 1] as int;
        assert(at[hashes.len() - 1] < files.len());
        assert(before[i]@.path == files[i]@.path);
        if let Some(hash) = hashes.last() {
            assert(hashes[hashes.len() - 1] == Some(hash));
            if p == i {
                hashing_keeps_records_faithful(content, digest, stage, before[p], hash);
            }
        }
    }
}

/// The files with these paths could be read in a pass.
pub open spec fn readable(
    files: Seq<FileRecord>,
    at: Seq<usize>,
    hashes: Seq<Option<String>>,
    x: path::PathModel,
    y: path::PathModel,
) -> bool {
    &&& hashes.len() == at.len()
    &&& forall|k: int|
        0 <= k < at.len() && (files[#[trigger] at[k] as int]@.path == x || files[at[k] as int]@.path
            == y) ==> hashes[k] is Some
}

proof fn lemma_pass_hashes(
    stage: HashStage,
    files: Seq<FileRecord>,
    hashes: Seq<Option<String>>,
    x: path::PathModel,
    y: path::PathModel,
    i: int,
)
    requires
        files.len() <= usize::MAX,
        readable(files, filter_duplicates::missing(stage, files), hashes, x, y),
        0 <= i < files.len(),
        files[i]@.path == x || files[i]@.path == y,
    ensures
        !stage.is_missing(
            filter_duplicates::hashed_all(
                stage,
                files,
                filter_duplicates::missing(stage, files),
                hashes,
            )[i],
        ),
{
    let at = filter_duplicates::missing(stage, files);
    filter_duplicates::missing_are_the_files_without_hash(stage, files);
    lemma_positions(stage, files);
    a_pass_keeps_paths_and_sizes(stage, files, at, hashes);
    let after = filter_duplicates::hashed_all(stage, files, at, hashes);
    assert(after[i]@.path == files[i]@.path);
    if stage.is_missing(files[i]) {
        assert(at.contains(i as usize));
        let k = choose|k: int| 0 <= k < at.len() && at[k] == i as usize;
        assert(hashes[k] is Some);
    }
}

proof fn lemma_positions(stage: HashStage, files: Seq<FileRecord>)
    requires
        files.len() <= usize::MAX,
    ensures
        forall|k: int|
            0 <= k < filter_duplicates::missing(stage, files).len()
                ==> (#[trigger] filter_duplicates::missing(stage, files)[k]) < files.len(),
{
    let at = filter_duplicates::missing(stage, files);
    filter_duplicates::missing_are_the_files_without_hash(stage, files);
    assert forall|k: int| 0 <= k < at.len() implies (#[trigger] at[k]) < files.len() by {
        assert(at.contains(at[k]));
    }
}

/// The files after the first step, in which `short` was read of the files whose
/// first bytes had to be hashed.
pub open spec fn after_first_step(files: Seq<FileRecord>, short: Seq<Option<String>>) -> Seq<
    FileRecord,
> {
    let candidates = filter_duplicates::size_candidates(files);
    filter_duplicates::hashed_all(
        HashStage::Short,
        candidates,
        filter_duplicates::missing(HashStage::Short, candidates),
        short,
    )
}

/// The files after the second step, in which `full` was read of the files whose
/// content had to be hashed.
pub open spec fn after_second_step(files: Seq<FileRecord>, full: Seq<Option<String>>) -> Seq<
    FileRecord,
> {
    let candidates = filter_duplicates::prefix_candidates(files);
    filter_duplicates::hashed_all(
        HashStage::Full,
        candidates,
        filter_duplicates::missing(HashStage::Full, candidates),
        full,
    )
}

/// What was read in the first step of the files with one of the paths are their
/// hashes.
pub open spec fn first_step_is_honest(
    content: spec_fn(path::PathModel) -> Seq<u8>,
    digest: spec_fn(Seq<u8>) -> Seq<char>,
    paths: spec_fn(path::PathModel) -> bool,
    files: Seq<FileRecord>,
    short: Seq<Option<String>>,
) -> bool {
    let candidates = filter_duplicates::size_candidates(files);
    let at = filter_duplicates::missing(HashStage::Short, candidates);
    short.len() == at.len() && honest(
        content,
        digest,
        paths,
        HashStage::Short,
        candidates,
        at,
        short,
    )
}

/// What was read in the second step of the files with one of the paths are their
/// hashes.
pub open spec fn second_step_is_honest(
    content: spec_fn(path::PathModel) -> Seq<u8>,
    digest: spec_fn(Seq<u8>) -> Seq<char>,
    paths: spec_fn(path::PathModel) -> bool,
    files: Seq<FileRecord>,
    full: Seq<Option<String>>,
) -> bool {
    let candidates = filter_duplicates::prefix_candidates(files);
    let at = filter_duplicates::missing(HashStage::Full, candidates);
    full.len() == at.len() && honest(
        content,
        digest,
        paths,
        HashStage::Full,
        candidates,
        at,
        full,
    )
}

/// The files with these paths could be read in the first step.
pub open spec fn first_step_reads(
    files: Seq<FileRecord>,
    short: Seq<Option<String>>,
    x: path::PathModel,
    y: path::PathModel,
) -> bool {
    let candidates = filter_duplicates::size_candidates(files);
    readable(candidates, filter_duplicates::missing(HashStage::Short, candidates), short, x, y)
}

/// The files with these paths could be read in the second step.
pub open spec fn second_step_reads(
    files: Seq<FileRecord>,
    full: Seq<Option<String>>,
    x: path::PathModel,
    y: path::PathModel,
) -> bool {
    let candidates = filter_duplicates::prefix_candidates(files);
    readable(candidates, filter_duplicates::missing(HashStage::Full, candidates), full, x, y)
}

proof fn lemma_first_step(files: Seq<FileRecord>, short: Seq<Option<String>>)
    requires
        files.len() <= usize::MAX,
        short.len() <= filter_duplicates::missing(
            HashStage::Short,
            filter_duplicates::size_candidates(files),
        ).len(),
    ensures
        after_first_step(files, short).len() == filter_duplicates::size_candidates(files).len(),
        after_first_step(files, short).len() <= files.len(),
        forall|i: int|
            0 <= i < after_first_step(files, short).len() ==> (#[trigger] after_first_step(
                files,
                short,
            )[i])@.path == filter_duplicates::size_candidates(files)[i]@.path && files.contains(
                filter_duplicates::size_candidates(files)[i],
            ),
{
    let kept = files.filter(filter_duplicates::not_empty());
    let candidates = filter_duplicates::size_candidates(files);
    let at = filter_duplicates::missing(HashStage::Short, candidates);
    files.lemma_filter_len(filter_duplicates::not_empty());
    sorting::lemma_filter_holds(files, filter_duplicates::not_empty());
    let some: FileRecord = arbitrary();
    file_record::tied_by_size(some, some);
    kept_items_are_items(file_record::by_size(), kept);
    lemma_positions(HashStage::Short, candidates);
    a_pass_keeps_paths_and_sizes(HashStage::Short, candidates, at, short);
    assert forall|i: int| 0 <= i < candidates.len() implies files.contains(
        #[trigger] candidates[i],
    ) by {
        assert(candidates.contains(candidates[i]));
        assert(kept.contains(candidates[i]));
    }
}

/// A faithful record that passes the first step comes out of it faithful.
proof fn lemma_first_step_faithful(
    content: spec_fn(path::PathModel) -> Seq<u8>,
    digest: spec_fn(Seq<u8>) -> Seq<char>,
    paths: spec_fn(path::PathModel) -> bool,
    files: Seq<FileRecord>,
    short: Seq<Option<String>>,
    i: int,
)
    requires
        files.len() <= usize::MAX,
        first_step_is_honest(content, digest, paths, files, short),
        0 <= i < filter_duplicates::size_candidates(files).len(),
        paths(filter_duplicates::size_candidates(files)[i]@.path),
        faithful(content, digest, filter_duplicates::size_candidates(files)[i]),
    ensures
        faithful(content, digest, after_first_step(files, short)[i]),
{
    lemma_first_step(files, short);
    let candidates = filter_duplicates::size_candidates(files);
    lemma_positions(HashStage::Short, candidates);
    a_pass_keeps_records_faithful(
        content,
        digest,
        paths,
        HashStage::Short,
        candidates,
        filter_duplicates::missing(HashStage::Short, candidates),
        short,
        i,
    );
}

proof fn lemma_second_step(files: Seq<FileRecord>, full: Seq<Option<String>>)
    requires
        files.len() <= usize::MAX,
        full.len() <= filter_duplicates::missing(
            HashStage::Full,
            filter_duplicates::prefix_candidates(files),
        ).len(),
    ensures
        after_second_step(files, full).len() == filter_duplicates::prefix_candidates(files).len(),
        after_second_step(files, full).len() <= files.len(),
        forall|i: int|
            0 <= i < after_second_step(files, full).len() ==> (#[trigger] after_second_step(
                files,
                full,
            )[i])@.path == filter_duplicates::prefix_candidates(files)[i]@.path && files.contains(
                filter_duplicates::prefix_candidates(files)[i],
            ),
{
    let kept = files.filter(filter_duplicates::has_hash_4096());
    let candidates = filter_duplicates::prefix_candidates(files);
    let at = filter_duplicates::missing(HashStage::Full, candidates);
    files.lemma_filter_len(filter_duplicates::has_hash_4096());
    sorting::lemma_filter_holds(files, filter_duplicates::has_hash_4096());
    let some: FileRecord = arbitrary();
    file_record::tied_by_hash_4096(some, some);
    kept_items_are_items(file_record::by_hash_4096(), kept);
    lemma_positions(HashStage::Full, candidates);
    a_pass_keeps_paths_and_sizes(HashStage::Full, candidates, at, full);
    assert forall|i: int| 0 <= i < candidates.len() implies files.contains(
        #[trigger] candidates[i],
    ) by {
        assert(candidates.contains(candidates[i]));
        assert(kept.contains(candidates[i]));
    }
}

/// A faithful record that passes the second step comes out of it faithful.
proof fn lemma_second_step_faithful(
    content: spec_fn(path::PathModel) -> Seq<u8>,
    digest: spec_fn(Seq<u8>) -> Seq<char>,
    paths: spec_fn(path::PathModel) -> bool,
    files: Seq<FileRecord>,
    full: Seq<Option<String>>,
    i: int,
)
    requires
        files.len() <= usize::MAX,
        second_step_is_honest(content, digest, paths, files, full),
        0 <= i < filter_duplicates::prefix_candidates(files).len(),
        paths(filter_duplicates::prefix_candidates(files)[i]@.path),
        faithful(content, digest, filter_duplicates::prefix_candidates(files)[i]),
    ensures
        faithful(content, digest, after_second_step(files, full)[i]),
{
    lemma_second_step(files, full);
    let candidates = filter_duplicates::prefix_candidates(files);
    lemma_positions(HashStage::Full, candidates);
    a_pass_keeps_records_faithful(
        content,
        digest,
        paths,
        HashStage::Full,
        candidates,
        filter_duplicates::missing(HashStage::Full, candidates),
        full,
        i,
    );
}

/// The files that come out of the first step, with what was read of them, pass the
/// size test of that step again, all of them and in the same order.
pub proof fn the_first_step_keeps_what_it_hashed(files: Seq<FileRecord>, short: Seq<Option<String>>)
    requires
        files.len() <= usize::MAX,
        short.len() <= filter_duplicates::missing(
            HashStage::Short,
            filter_duplicates::size_candidates(files),
        ).len(),
    ensures
        filter_duplicates::size_candidates(after_first_step(files, short)) == after_first_step(
            files,
            short,
        ),
{
    let lt = file_record::by_size();
    let candidates = filter_duplicates::size_candidates(files);
    let after = after_first_step(files, short);
    lemma_size_candidates(files);
    lemma_positions(HashStage::Short, candidates);
    a_pass_keeps_paths_and_sizes(
        HashStage::Short,
        candidates,
        filter_duplicates::missing(HashStage::Short, candidates),
        short,
    );
    assert forall|i: int| 0 <= i < after.len() implies filter_duplicates::not_empty()(
        #[trigger] after[i],
    ) by {
        assert(filter_duplicates::not_empty()(candidates[i]));
    }
    sorting::lemma_filter_all(after, filter_duplicates::not_empty());
    grouping::grouping_what_is_ordered_alike_changes_nothing(
        lt,
        files.filter(filter_duplicates::not_empty()),
        after,
    );
}

/// After a pass in which all files could be read, nothing is left to be hashed.
pub proof fn a_complete_pass_leaves_nothing_to_hash(
    stage: HashStage,
    files: Seq<FileRecord>,
    hashes: Seq<Option<String>>,
)
    requires
        files.len() <= usize::MAX,
        hashes.len() == filter_duplicates::missing(stage, files).len(),
        forall|k: int| 0 <= k < hashes.len() ==> #[trigger] hashes[k] is Some,
    ensures
        filter_duplicates::missing(
            stage,
            filter_duplicates::hashed_all(
                stage,
                files,
                filter_duplicates::missing(stage, files),
                hashes,
            ),
        ).len() == 0,
{
    let at = filter_duplicates::missing(stage, files);
    let after = filter_duplicates::hashed_all(stage, files, at, hashes);
    lemma_positions(stage, files);
    filter_duplicates::missing_are_the_files_without_hash(stage, files);
    a_pass_keeps_paths_and_sizes(stage, files, at, hashes);
    filter_duplicates::missing_are_the_files_without_hash(stage, after);
    let again = filter_duplicates::missing(stage, after);
    if again.len() > 0 {
        assert(again.contains(again[0]));
        let i = again[0];
        assert(stage.is_missing(after[i as int]));
        assert(after[i as int]@.path == files[i as int]@.path);
        assert(at.contains(i));
        let k = choose|k: int| 0 <= k < at.len() && at[k] == i;
        assert(hashes[k] is Some);
    }
}

/// A pass over the whole contents leaves the hashes of the first bytes as they were.
proof fn lemma_full_pass_keeps_prefixes(
    files: Seq<FileRecord>,
    at: Seq<usize>,
    hashes: Seq<Option<String>>,
)
    requires
        hashes.len() <= at.len(),
        forall|k: int| 0 <= k < at.len() ==> #[trigger] at[k] < files.len(),
    ensures
        ({
            let after = filter_duplicates::hashed_all(HashStage::Full, files, at, hashes);
            &&& after.len() == files.len()
            &&& forall|i: int|
                0 <= i < files.len() ==> (#[trigger] after[i]).hash_4096 == files[i].hash_4096
        }),
    decreases hashes.len(),
{
    if hashes.len() > 0 {
        lemma_full_pass_keeps_prefixes(files, at, hashes.drop_last());
        assert(at[hashes.len() - 1] < files.len());
    }
}

/// The files that come out of the second step, with what was read of them, pass the
/// test of that step on the first bytes again, all of them and in the same order.
pub proof fn the_second_step_keeps_what_it_hashed(files: Seq<FileRecord>, full: Seq<Option<String>>)
    requires
        files.len() <= usize::MAX,
        full.len() <= filter_duplicates::missing(
            HashStage::Full,
            filter_duplicates::prefix_candidates(files),
        ).len(),
    ensures
        filter_duplicates::prefix_candidates(after_second_step(files, full)) == after_second_step(
            files,
            full,
        ),
{
    let lt = file_record::by_hash_4096();
    let candidates = filter_duplicates::prefix_candidates(files);
    let after = after_second_step(files, full);
    let some: FileRecord = arbitrary();
    file_record::tied_by_hash_4096(some, some);
    lemma_prefix_candidates(files);
    lemma_positions(HashStage::Full, candidates);
    lemma_full_pass_keeps_prefixes(
        candidates,
        filter_duplicates::missing(HashStage::Full, candidates),
        full,
    );
    assert forall|i: int| 0 <= i < after.len() implies filter_duplicates::has_hash_4096()(
        #[trigger] after[i],
    ) by {
        assert(filter_duplicates::has_hash_4096()(candidates[i]));
    }
    sorting::lemma_filter_all(after, filter_duplicates::has_hash_4096());
    grouping::grouping_what_is_ordered_alike_changes_nothing(
        lt,
        files.filter(filter_duplicates::has_hash_4096()),
        after,
    );
}

/// No duplicate is lost: of two files with the same content, other than empty
/// ones, that could be read, both are in one reported group. What the cache knew of
/// these two and what was read of them has to be true; nothing is asked of the other
/// files, and the hash may be any function of the bytes.
pub proof fn files_with_equal_content_are_reported_together(
    content: spec_fn(path::PathModel) -> Seq<u8>,
    digest: spec_fn(Seq<u8>) -> Seq<char>,
    files: Seq<FileRecord>,
    short: Seq<Option<String>>,
    full: Seq<Option<String>>,
    i: int,
    j: int,
)
    requires
        files.len() <= usize::MAX,
        0 <= i < files.len(),
        0 <= j < files.len(),
        i != j,
        faithful(content, digest, files[i]),
        faithful(content, digest, files[j]),
        first_step_is_honest(
            content,
            digest,
            either(files[i]@.path, files[j]@.path),
            files,
            short,
        ),
        second_step_is_honest(
            content,
            digest,
            either(files[i]@.path, files[j]@.path),
            after_first_step(files, short),
            full,
        ),
        content(files[i]@.path) == content(files[j]@.path),
        content(files[i]@.path).len() > 0,
        first_step_reads(files, short, files[i]@.path, files[j]@.path),
        second_step_reads(after_first_step(files, short), full, files[i]@.path, files[j]@.path),
    ensures
        ({
            let groups = report::hash_groups(
                after_second_step(after_first_step(files, short), full),
            );
            exists|k: int, a: int, b: int|
                0 <= k < groups.len() && 0 <= a < groups[k].len() && 0 <= b < groups[k].len() && a
                    != b && #[trigger] groups[k][a]@.path == files[i]@.path
                    && #[trigger] groups[k][b]@.path == files[j]@.path
        }),
{
    let x = files[i];
    let y = files[j];
    let px = x@.path;
    let py = y@.path;
    let both = either(px, py);
    lemma_both_at(files, i, j);
    equal_sizes_pass_the_first_step(files, x, y);
    let c1 = filter_duplicates::size_candidates(files);
    let f1 = after_first_step(files, short);
    lemma_first_step(files, short);
    let (a1, b1) = choose|a: int, b: int|
        0 <= a < c1.len() && 0 <= b < c1.len() && a != b && #[trigger] c1[a] == x && #[trigger] c1[b]
            == y;
    lemma_pass_hashes(HashStage::Short, c1, short, px, py, a1);
    lemma_pass_hashes(HashStage::Short, c1, short, px, py, b1);
    lemma_first_step_faithful(content, digest, both, files, short, a1);
    lemma_first_step_faithful(content, digest, both, files, short, b1);
    let x1 = f1[a1];
    let y1 = f1[b1];
    assert(x1@.path == px && y1@.path == py);
    lemma_both_at(f1, a1, b1);
    equal_prefixes_pass_the_second_step(f1, x1, y1);
    let c2 = filter_duplicates::prefix_candidates(f1);
    let f2 = after_second_step(f1, full);
    lemma_second_step(f1, full);
    let (a2, b2) = choose|a: int, b: int|
        0 <= a < c2.len() && 0 <= b < c2.len() && a != b && #[trigger] c2[a] == x1
            && #[trigger] c2[b] == y1;
    lemma_pass_hashes(HashStage::Full, c2, full, px, py, a2);
    lemma_pass_hashes(HashStage::Full, c2, full, px, py, b2);
    lemma_second_step_faithful(content, digest, both, f1, full, a2);
    lemma_second_step_faithful(content, digest, both, f1, full, b2);
    let x2 = f2[a2];
    let y2 = f2[b2];
    assert(x2@.path == px && y2@.path == py);
    lemma_both_at(f2, a2, b2);
    equal_hashes_share_a_group(f2, x2, y2);
    let groups = report::hash_groups(f2);
    let k = choose|k: int| 0 <= k < groups.len() && both_in(#[trigger] groups[k], x2, y2);
    let g = groups[k];
    let (a, b) = choose|a: int, b: int|
        0 <= a < g.len() && 0 <= b < g.len() && a != b && #[trigger] g[a] == x2 && #[trigger] g[b]
            == y2;
    assert(groups[k][a]@.path == px && groups[k][b]@.path == py);
}

/// The place of a reported file: it is what became of a record that was handed in.
proof fn lemma_reported_file(
    files: Seq<FileRecord>,
    short: Seq<Option<String>>,
    full: Seq<Option<String>>,
    k: int,
    a: int,
) -> (place: (int, int, int))
    requires
        files.len() <= usize::MAX,
        short.len() <= filter_duplicates::missing(
            HashStage::Short,
            filter_duplicates::size_candidates(files),
        ).len(),
        full.len() <= filter_duplicates::missing(
            HashStage::Full,
            filter_duplicates::prefix_candidates(after_first_step(files, short)),
        ).len(),
        0 <= k < report::hash_groups(
            after_second_step(after_first_step(files, short), full),
        ).len(),
        0 <= a < report::hash_groups(
            after_second_step(after_first_step(files, short), full),
        )[k].len(),
    ensures
        ({
            let f1 = after_first_step(files, short);
            let f2 = after_second_step(f1, full);
            let c1 = filter_duplicates::size_candidates(files);
            let c2 = filter_duplicates::prefix_candidates(f1);
            let (q, p, m) = place;
            &&& 0 <= q < files.len() && 0 <= p < f1.len() && 0 <= m < f2.len()
            &&& f1.len() == c1.len() && f2.len() == c2.len() && f1.len() <= usize::MAX
            &&& c1[p] == files[q] && c2[m] == f1[p] && f2[m] == report::hash_groups(f2)[k][a]
            &&& f1[p]@.path == files[q]@.path && f2[m]@.path == files[q]@.path
        }),
{
    let f1 = after_first_step(files, short);
    let f2 = after_second_step(f1, full);
    let g = report::hash_groups(f2)[k];
    lemma_first_step(files, short);
    lemma_second_step(f1, full);
    groups_hold_equal_hashes(f2, k);
    assert(g.contains(g[a]));
    let m = choose|m: int| 0 <= m < f2.len() && f2[m] == g[a];
    let c2 = filter_duplicates::prefix_candidates(f1);
    assert(f2[m]@.path == c2[m]@.path);
    assert(f1.contains(c2[m]));
    let p = choose|p: int| 0 <= p < f1.len() && f1[p] == c2[m];
    let c1 = filter_duplicates::size_candidates(files);
    assert(f1[p]@.path == c1[p]@.path);
    assert(files.contains(c1[p]));
    let q = choose|q: int| 0 <= q < files.len() && files[q] == c1[p];
    (q, p, m)
}

/// The files of a reported group are files that were handed in, whatever was read.
pub proof fn reported_files_were_handed_in(
    files: Seq<FileRecord>,
    short: Seq<Option<String>>,
    full: Seq<Option<String>>,
    k: int,
    a: int,
)
    requires
        files.len() <= usize::MAX,
        short.len() <= filter_duplicates::missing(
            HashStage::Short,
            filter_duplicates::size_candidates(files),
        ).len(),
        full.len() <= filter_duplicates::missing(
            HashStage::Full,
            filter_duplicates::prefix_candidates(after_first_step(files, short)),
        ).len(),
        0 <= k < report::hash_groups(
            after_second_step(after_first_step(files, short), full),
        ).len(),
        0 <= a < report::hash_groups(
            after_second_step(after_first_step(files, short), full),
        )[k].len(),
    ensures
        exists|i: int|
            0 <= i < files.len() && (#[trigger] files[i])@.path == report::hash_groups(
                after_second_step(after_first_step(files, short), full),
            )[k][a]@.path,
{
    let (q, p, m) = lemma_reported_file(files, short, full, k, a);
    assert(files[q]@.path == report::hash_groups(
        after_second_step(after_first_step(files, short), full),
    )[k][a]@.path);
}

/// What is reported is duplicated as far as the hash can tell: the hashes of the
/// contents of two files of a reported group are the same. What the cache knew of
/// these two and what was read of them has to be true; nothing is asked of the other
/// files.
pub proof fn reported_files_have_equal_hashes(
    content: spec_fn(path::PathModel) -> Seq<u8>,
    digest: spec_fn(Seq<u8>) -> Seq<char>,
    files: Seq<FileRecord>,
    short: Seq<Option<String>>,
    full: Seq<Option<String>>,
    k: int,
    a: int,
    b: int,
    x: path::PathModel,
    y: path::PathModel,
)
    requires
        files.len() <= usize::MAX,
        0 <= k < report::hash_groups(
            after_second_step(after_first_step(files, short), full),
        ).len(),
        0 <= a < report::hash_groups(
            after_second_step(after_first_step(files, short), full),
        )[k].len(),
        0 <= b < report::hash_groups(
            after_second_step(after_first_step(files, short), full),
        )[k].len(),
        x == report::hash_groups(after_second_step(after_first_step(files, short), full))[k][a]@.path,
        y == report::hash_groups(after_second_step(after_first_step(files, short), full))[k][b]@.path,
        forall|i: int|
            0 <= i < files.len() && either(x, y)((#[trigger] files[i])@.path) ==> faithful(
                content,
                digest,
                files[i],
            ),
        first_step_is_honest(content, digest, either(x, y), files, short),
        second_step_is_honest(
            content,
            digest,
            either(x, y),
            after_first_step(files, short),
            full,
        ),
    ensures
        digest(content(x)) == digest(content(y)),
{
    let both = either(x, y);
    let f1 = after_first_step(files, short);
    let f2 = after_second_step(f1, full);
    let g = report::hash_groups(f2)[k];
    let (q, p, m) = lemma_reported_file(files, short, full, k, a);
    lemma_first_step_faithful(content, digest, both, files, short, p);
    lemma_second_step_faithful(content, digest, both, f1, full, m);
    let (q2, p2, m2) = lemma_reported_file(files, short, full, k, b);
    lemma_first_step_faithful(content, digest, both, files, short, p2);
    lemma_second_step_faithful(content, digest, both, f1, full, m2);
    groups_hold_equal_hashes(f2, k);
    assert(g.contains(g[a]) && g.contains(g[b]));
}

proof fn lemma_listed_holds(
    config: config::ConfigModel,
    group: Seq<FileRecord>,
    file: ScoredFile,
)
    ensures
        report::listed(group, report::scores_of(config, group)).contains(file)
            <==> report::scored_files(group, report::scores_of(config, group)).contains(file),
{
    let files = report::scored_files(group, report::scores_of(config, group));
    if report::any_scored(report::scores_of(config, group)) {
        let s = sorting::sorted(report::by_score(), files);
        sorting::lemma_sorted_holds(report::by_score(), files, file);
        let r = s.reverse();
        if s.contains(file) {
            let i = choose|i: int| 0 <= i < s.len() && s[i] == file;
            assert(r[s.len() - 1 - i] == file);
        }
        if r.contains(file) {
            let i = choose|i: int| 0 <= i < r.len() && r[i] == file;
            assert(s[s.len() - 1 - i] == file);
        }
    } else {
        sorting::lemma_sorted_holds(report::by_path(), files, file);
    }
}

/// Where a group has scores, its files are listed with the highest score first, and
/// those without a score count as the highest; otherwise they are listed by path.
pub proof fn files_are_listed_in_order(config: config::ConfigModel, group: Seq<FileRecord>)
    ensures
        ({
            let scores = report::scores_of(config, group);
            let listed = report::listed(group, scores);
            &&& listed.len() == group.len()
            &&& forall|i: int, j: int|
                0 <= i < j < listed.len() ==> if report::any_scored(scores) {
                    report::score_rank((#[trigger] listed[i]).score) >= report::score_rank(
                        (#[trigger] listed[j]).score,
                    )
                } else {
                    !path::path_order()(listed[j].file@.path, listed[i].file@.path)
                }
        }),
{
    let files = report::scored_files(group, report::scores_of(config, group));
    let listed = report::listed(group, report::scores_of(config, group));
    if report::any_scored(report::scores_of(config, group)) {
        let lt = report::by_score();
        let s = sorting::sorted(lt, files);
        sorting::sorted_is_stable(lt, files);
        assert forall|i: int, j: int| 0 <= i < j < listed.len() implies report::score_rank(
            (#[trigger] listed[i]).score,
        ) >= report::score_rank((#[trigger] listed[j]).score) by {
            assert(!lt(s[s.len() - 1 - i], s[s.len() - 1 - j]));
        }
    } else {
        let lt = report::by_path();
        sorting::Order::<ScoredFile>::order_laws(&report::ByPath);
        sorting::sorted_is_stable(lt, files);
    }
}

/// A file may be deleted exactly where all files of its group have a score, not all
/// have the same, and none has a lower one.
pub proof fn only_the_lowest_score_is_deleted(
    config: config::ConfigModel,
    group: Seq<FileRecord>,
    file: ScoredFile,
)
    requires
        report::listed(group, report::scores_of(config, group)).contains(file),
    ensures
        group.contains(file.file),
        file.score == config.score(file.file@.path.name),
        file.to_delete <==> {
            &&& forall|x: FileRecord| #[trigger]
                group.contains(x) ==> (config.score(x@.path.name) matches Some(score)
                    && file.score->0 <= score)
            &&& exists|x: FileRecord| #[trigger]
                group.contains(x) && config.score(x@.path.name) != file.score
        },
{
    lemma_listed_holds(config, group, file);
    let files = report::scored_files(group, report::scores_of(config, group));
    let scores = report::scores_of(config, group);
    let i = choose|i: int| 0 <= i < files.len() && files[i] == file;
    assert(group[i] == file.file);
    assert(scores[i] == file.score);
    if file.to_delete {
        assert forall|x: FileRecord| #[trigger] group.contains(x) implies (config.score(
            x@.path.name,
        ) matches Some(score) && file.score->0 <= score) by {
            let k = choose|k: int| 0 <= k < group.len() && group[k] == x;
            assert(scores[k] == config.score(x@.path.name));
        }
        let (p, q) = choose|p: int, q: int|
            0 <= p < scores.len() && 0 <= q < scores.len() && #[trigger] scores[p]
                != #[trigger] scores[q];
        let m = if scores[p] != scores[i] {
            p
        } else {
            q
        };
        assert(group.contains(group[m]));
        assert(scores[m] == config.score(group[m]@.path.name));
    }
    if (forall|x: FileRecord| #[trigger]
        group.contains(x) ==> (config.score(x@.path.name) matches Some(score) && file.score->0
            <= score)) && (exists|x: FileRecord| #[trigger]
        group.contains(x) && config.score(x@.path.name) != file.score) {
        assert forall|k: int| 0 <= k < scores.len() implies #[trigger] scores[k] is Some
            && file.score->0 <= scores[k]->0 by {
            assert(group.contains(group[k]));
        }
        let x = choose|x: FileRecord| #[trigger]
            group.contains(x) && config.score(x@.path.name) != file.score;
        let k = choose|k: int| 0 <= k < group.len() && group[k] == x;
        assert(scores[k] != scores[i]);
    }
}

/// A file that is deleted, at its place in its group.
proof fn lemma_deletion(
    config: config::ConfigModel,
    groups: Seq<Seq<FileRecord>>,
    file: FileRecord,
)
    requires
        report::deletions(config, groups).contains(file),
    ensures
        exists|k: int, i: int|
            {
                &&& 0 <= k < groups.len()
                &&& 0 <= i < groups[k].len()
                &&& #[trigger] groups[k][i] == file
                &&& report::any_deletable(report::scores_of(config, groups[k]))
                &&& report::is_lowest(
                    report::scores_of(config, groups[k]),
                    config.score(file@.path.name),
                )
            },
{
    let del = |g: Seq<FileRecord>| report::deletable(report::listed(g, report::scores_of(config, g)));
    let lists = groups.map_values(del);
    lemma_flattened_holds(lists, file);
    let k = choose|k: int| 0 <= k < lists.len() && (#[trigger] lists[k]).contains(file);
    let listed = report::listed(groups[k], report::scores_of(config, groups[k]));
    let pred = |f: ScoredFile| f.to_delete;
    let kept = listed.filter(pred);
    assert(lists[k] == report::deletable(listed));
    let m = choose|m: int| 0 <= m < lists[k].len() && lists[k][m] == file;
    assert(kept[m].file == file);
    sorting::lemma_filter_holds(listed, pred);
    assert(kept.contains(kept[m]));
    lemma_listed_holds(config, groups[k], kept[m]);
    let files = report::scored_files(groups[k], report::scores_of(config, groups[k]));
    let i = choose|i: int| 0 <= i < files.len() && files[i] == kept[m];
    assert(groups[k][i] == file);
}

/// No file loses its last copy: of each file that may be deleted there is another
/// one with the same hash and another path that may not be deleted. Nor may another
/// record with that hash and the path of the kept file, such as there is where the
/// folders overlap.
pub proof fn every_deleted_file_has_a_kept_copy(
    config: config::ConfigModel,
    files: Seq<FileRecord>,
    file: FileRecord,
)
    requires
        report::deletions(config, report::shown_groups(config, files)).contains(file),
    ensures
        file.hash is Some,
        exists|kept: FileRecord|
            {
                &&& #[trigger] files.contains(kept)
                &&& kept@.hash == file@.hash
                &&& kept@.path.name != file@.path.name
                &&& !report::deletions(config, report::shown_groups(config, files)).contains(kept)
                &&& forall|deleted: FileRecord| #[trigger]
                    report::deletions(config, report::shown_groups(config, files)).contains(deleted)
                        && deleted@.hash == kept@.hash ==> deleted@.path.name != kept@.path.name
            },
{
    let lt = file_record::by_hash();
    let known = files.filter(filter_duplicates::has_hash());
    let groups = report::shown_groups(config, files);
    lemma_deletion(config, groups, file);
    let (k, i) = choose|k: int, i: int|
        {
            &&& 0 <= k < groups.len()
            &&& 0 <= i < groups[k].len()
            &&& #[trigger] groups[k][i] == file
            &&& report::any_deletable(report::scores_of(config, groups[k]))
            &&& report::is_lowest(
                report::scores_of(config, groups[k]),
                config.score(file@.path.name),
            )
        };
    let g = groups[k];
    let scores = report::scores_of(config, g);
    let (p, q) = choose|p: int, q: int|
        0 <= p < scores.len() && 0 <= q < scores.len() && #[trigger] scores[p]
            != #[trigger] scores[q];
    let m = if scores[p] != scores[i] {
        p
    } else {
        q
    };
    let kept = g[m];
    assert(scores[i] == config.score(file@.path.name));
    assert(scores[m] == config.score(kept@.path.name));
    lemma_shown_group(config, files, k);
    assert(g.contains(g[i]) && g.contains(g[m]));
    assert forall|deleted: FileRecord| #[trigger]
        report::deletions(config, groups).contains(deleted) && deleted@.hash
            == kept@.hash implies deleted@.path.name != kept@.path.name by {
        lemma_deletion(config, groups, deleted);
        let (k2, i2) = choose|k2: int, i2: int|
            {
                &&& 0 <= k2 < groups.len()
                &&& 0 <= i2 < groups[k2].len()
                &&& #[trigger] groups[k2][i2] == deleted
                &&& report::any_deletable(report::scores_of(config, groups[k2]))
                &&& report::is_lowest(
                    report::scores_of(config, groups[k2]),
                    config.score(deleted@.path.name),
                )
            };
        lemma_shown_group(config, files, k2);
        assert(groups[k2].contains(groups[k2][i2]));
        assert(deleted@.hash == groups[k2][0]@.hash);
        file_record::tied_by_hash(g[0], groups[k2][0]);
        sorting::lemma_class_of_tied(lt, known, g[0], groups[k2][0]);
        assert(groups[k2] == g);
        if deleted@.path.name == kept@.path.name {
            assert(scores[i] is Some && scores[m] is Some);
            assert(scores[m]->0 <= scores[i]->0);
            assert(scores[i]->0 <= scores[m]->0);
        }
    }
}

pub proof fn lemma_shown_group(config: config::ConfigModel, files: Seq<FileRecord>, k: int)
    requires
        0 <= k < report::shown_groups(config, files).len(),
    ensures
        ({
            let g = report::shown_groups(config, files)[k];
            &&& g.len() >= 2
            &&& g == sorting::class_of(
                file_record::by_hash(),
                files.filter(filter_duplicates::has_hash()),
                g[0],
            )
            &&& forall|x: FileRecord| #[trigger]
                g.contains(x) ==> files.contains(x) && x.hash is Some && x@.hash == g[0]@.hash
        }),
{
    let all = report::hash_groups(files);
    let groups = report::shown_groups(config, files);
    let g = groups[k];
    sorting::lemma_filter_holds(all, report::passes_filter(config));
    assert(groups.contains(g));
    let j = choose|j: int| 0 <= j < all.len() && all[j] == g;
    report::lemma_hash_groups(files);
    groups_hold_equal_hashes(files, j);
}

/// No group is shown twice and no file is shown in two groups: the files of
/// different groups have different hashes.
pub proof fn groups_have_different_hashes(files: Seq<FileRecord>, x: Seq<FileRecord>, y: Seq<
    FileRecord,
>)
    requires
        report::hash_groups(files).contains(x),
        report::hash_groups(files).contains(y),
        x[0]@.hash == y[0]@.hash,
    ensures
        x == y,
{
    let lt = file_record::by_hash();
    let known = files.filter(filter_duplicates::has_hash());
    let all = report::hash_groups(files);
    report::lemma_hash_groups(files);
    let i = choose|i: int| 0 <= i < all.len() && all[i] == x;
    let j = choose|j: int| 0 <= j < all.len() && all[j] == y;
    assert(all[i] == x && all[j] == y);
    file_record::tied_by_hash(x[0], y[0]);
    sorting::lemma_class_of_tied(lt, known, x[0], y[0]);
}

/// A group with files that may be deleted has files with scores, so that a group
/// that a filter lets through passes the weaker filters.
pub proof fn filters_are_nested(config: config::ConfigModel, group: Seq<FileRecord>)
    requires
        group.len() > 0,
    ensures
        ({
            let all = config::ConfigModel { groups_filter: DuplicateGroupFilter::All, ..config };
            let scored = config::ConfigModel {
                groups_filter: DuplicateGroupFilter::OnlyGroupsWithScores,
                ..config
            };
            let deletable = config::ConfigModel {
                groups_filter: DuplicateGroupFilter::OnlyGroupsWithDeletables,
                ..config
            };
            &&& report::passes_filter(deletable)(group) ==> report::passes_filter(scored)(group)
            &&& report::passes_filter(scored)(group) ==> report::passes_filter(all)(group)
        }),
{
    let scores = report::scores_of(config, group);
    let deletable = config::ConfigModel {
        groups_filter: DuplicateGroupFilter::OnlyGroupsWithDeletables,
        ..config
    };
    let scored = config::ConfigModel {
        groups_filter: DuplicateGroupFilter::OnlyGroupsWithScores,
        ..config
    };
    assert(report::scores_of(deletable, group) =~= scores);
    assert(report::scores_of(scored, group) =~= scores);
    if report::any_deletable(scores) {
        assert(scores[0] is Some);
    }
}

proof fn lemma_nothing_deletable(config: config::ConfigModel, group: Seq<FileRecord>)
    requires
        !report::any_deletable(report::scores_of(config, group)),
    ensures
        report::deletable(report::listed(group, report::scores_of(config, group))) == Seq::<FileRecord>::empty(),
{
    let listed = report::listed(group, report::scores_of(config, group));
    let pred = |f: ScoredFile| f.to_delete;
    assert forall|i: int| 0 <= i < listed.len() implies !pred(#[trigger] listed[i]) by {
        assert(listed.contains(listed[i]));
        lemma_listed_holds(config, group, listed[i]);
        let files = report::scored_files(group, report::scores_of(config, group));
        let k = choose|k: int| 0 <= k < files.len() && files[k] == listed[i];
        assert(!files[k].to_delete);
    }
    sorting::lemma_filter_none(listed, pred);
    assert(report::deletable(listed) =~= Seq::<FileRecord>::empty());
}

proof fn lemma_deletions_of_filtered(
    config: config::ConfigModel,
    groups: Seq<Seq<FileRecord>>,
    pred: spec_fn(Seq<FileRecord>) -> bool,
)
    requires
        forall|i: int|
            0 <= i < groups.len() && !pred(#[trigger] groups[i]) ==> !report::any_deletable(
                report::scores_of(config, groups[i]),
            ),
    ensures
        report::deletions(config, groups.filter(pred)) == report::deletions(config, groups),
    decreases groups.len(),
{
    reveal(Seq::filter);
    let del = |g: Seq<FileRecord>| report::deletable(report::listed(g, report::scores_of(config, g)));
    if groups.len() > 0 {
        let rest = groups.drop_last();
        let last = groups.last();
        assert forall|i: int| 0 <= i < rest.len() && !pred(
            #[trigger] rest[i],
        ) implies !report::any_deletable(report::scores_of(config, rest[i])) by {
            assert(rest[i] == groups[i]);
        }
        lemma_deletions_of_filtered(config, rest, pred);
        assert(groups.map_values(del) =~= rest.map_values(del).push(del(last)));
        rest.map_values(del).lemma_flatten_push(del(last));
        if pred(last) {
            assert(groups.filter(pred) == rest.filter(pred).push(last));
            assert(groups.filter(pred).map_values(del) =~= rest.filter(pred).map_values(del).push(
                del(last),
            ));
            rest.filter(pred).map_values(del).lemma_flatten_push(del(last));
        } else {
            assert(groups[groups.len() - 1] == last);
            lemma_nothing_deletable(config, last);
            assert(report::deletions(config, groups) =~= report::deletions(config, rest));
        }
    } else {
        assert(groups.filter(pred) =~= groups);
    }
}

/// Which groups are shown does not change what may be deleted: whatever the filter,
/// it is the same as without one.
pub proof fn the_filter_does_not_change_what_is_deleted(
    config: config::ConfigModel,
    files: Seq<FileRecord>,
)
    ensures
        report::deletions(config, report::shown_groups(config, files)) == report::deletions(
            config,
            report::hash_groups(files),
        ),
{
    let all = report::hash_groups(files);
    let pred = report::passes_filter(config);
    report::lemma_hash_groups(files);
    assert forall|i: int| 0 <= i < all.len() && !pred(
        #[trigger] all[i],
    ) implies !report::any_deletable(report::scores_of(config, all[i])) by {
        let scores = report::scores_of(config, all[i]);
        assert(scores.len() >= 2);
        if report::any_deletable(scores) {
            assert(scores[0] is Some);
        }
    }
    lemma_deletions_of_filtered(config, all, pred);
}

/// The files of a folder are all accounted for: an entry that is not a directory has
/// copies elsewhere, has none, or is left out.
pub proof fn every_entry_is_counted(statuses: Seq<dir_report::StatusModel>)
    ensures
        dir_report::how_many(statuses, |s: dir_report::StatusModel| s is Copies)
            + dir_report::how_many(statuses, |s: dir_report::StatusModel| s is OnlyCopy)
            + dir_report::how_many(statuses, |s: dir_report::StatusModel| s is Ignored)
            + dir_report::how_many(statuses, |s: dir_report::StatusModel| s is Directory)
            == statuses.len(),
    decreases statuses.len(),
{
    reveal(Seq::filter);
    if statuses.len() > 0 {
        every_entry_is_counted(statuses.drop_last());
    }
}

/// The positions that the commands insert, in their order.
pub open spec fn inserted(commands: Seq<CacheCommand>) -> Seq<usize>
    decreases commands.len(),
{
    if commands.len() == 0 {
        Seq::empty()
    } else {
        let rest = inserted(commands.drop_last());
        match commands.last() {
            CacheCommand::Insert(position) => rest.push(position),
            CacheCommand::Commit => rest,
        }
    }
}

/// How many files the commands insert behind the last commit.
pub open spec fn uncommitted(commands: Seq<CacheCommand>) -> nat
    decreases commands.len(),
{
    if commands.len() == 0 {
        0
    } else {
        match commands.last() {
            CacheCommand::Insert(_) => uncommitted(commands.drop_last()) + 1,
            CacheCommand::Commit => 0,
        }
    }
}

proof fn lemma_insert_commands(positions: Seq<usize>)
    ensures
        inserted(scan::insert_commands(positions)) == positions,
        uncommitted(scan::insert_commands(positions)) == positions.len()
            % (scan::INSERT_COMMIT_LIMIT as nat),
        forall|n: int|
            0 <= n <= scan::insert_commands(positions).len() ==> uncommitted(
                #[trigger] scan::insert_commands(positions).take(n),
            ) <= scan::INSERT_COMMIT_LIMIT,
    decreases positions.len(),
{
    let commands = scan::insert_commands(positions);
    if positions.len() > 0 {
        let fewer = positions.drop_last();
        lemma_insert_commands(fewer);
        let before = scan::insert_commands(fewer);
        let with_insert = before.push(CacheCommand::Insert(positions.last()));
        assert(with_insert.drop_last() =~= before);
        assert(inserted(with_insert) =~= positions);
        if positions.len() % (scan::INSERT_COMMIT_LIMIT as nat) == 0 {
            assert(commands.drop_last() =~= with_insert);
        }
        assert forall|n: int| 0 <= n <= commands.len() implies uncommitted(
            #[trigger] commands.take(n),
        ) <= scan::INSERT_COMMIT_LIMIT by {
            if n <= before.len() {
                assert(commands.take(n) =~= before.take(n));
            } else if n == before.len() + 1 {
                assert(commands.take(n) =~= with_insert);
            } else {
                assert(commands.take(n) =~= commands);
            }
        }
    } else {
        assert(commands =~= Seq::<CacheCommand>::empty());
        assert forall|n: int| 0 <= n <= commands.len() implies uncommitted(
            #[trigger] commands.take(n),
        ) <= scan::INSERT_COMMIT_LIMIT by {
            assert(commands.take(n) =~= commands);
        }
    }
}

/// Each new file of a folder is inserted once, in order, and committed; no more
/// files than the limit wait for a commit.
pub proof fn new_files_are_inserted_once_and_committed(positions: Seq<usize>)
    ensures
        ({
            let commands = scan::insert_commands(positions).push(CacheCommand::Commit);
            &&& inserted(commands) == positions
            &&& uncommitted(commands) == 0
            &&& forall|n: int|
                0 <= n <= commands.len() ==> uncommitted(#[trigger] commands.take(n))
                    <= scan::INSERT_COMMIT_LIMIT
        }),
{
    lemma_insert_commands(positions);
    let before = scan::insert_commands(positions);
    let commands = before.push(CacheCommand::Commit);
    assert(commands.drop_last() =~= before);
    assert forall|n: int| 0 <= n <= commands.len() implies uncommitted(#[trigger] commands.take(n))
        <= scan::INSERT_COMMIT_LIMIT by {
        if n <= before.len() {
            assert(commands.take(n) =~= before.take(n));
        } else {
            assert(commands.take(n) =~= commands);
        }
    }
}

/// The files that are inserted are those without a known record, and no others.
pub proof fn new_positions_are_the_unknown_files(
    known: Seq<file_record::RecordModel>,
    taken: Seq<scan::EntryModel>,
)
    requires
        taken.len() <= usize::MAX,
    ensures
        forall|i: usize| #[trigger]
            scan::new_positions(known, taken).contains(i) <==> i < taken.len()
                && scan::last_named(known, taken[i as int].path.name) is None,
    decreases taken.len(),
{
    let all = scan::new_positions(known, taken);
    if taken.len() > 0 {
        let fewer = taken.drop_last();
        new_positions_are_the_unknown_files(known, fewer);
        let rest = scan::new_positions(known, fewer);
        let n = (taken.len() - 1) as usize;
        assert forall|i: usize| #[trigger] all.contains(i) <==> i < taken.len() && scan::last_named(
            known,
            taken[i as int].path.name,
        ) is None by {
            assert(rest.contains(i) <==> i < fewer.len() && scan::last_named(
                known,
                fewer[i as int].path.name,
            ) is None);
            if i < fewer.len() {
                assert(fewer[i as int] == taken[i as int]);
            }
            if rest.contains(i) {
                let k = choose|k: int| 0 <= k < rest.len() && rest[k] == i;
                assert(all[k] == i);
            }
            if all.contains(i) {
                let k = choose|k: int| 0 <= k < all.len() && all[k] == i;
                if k < rest.len() {
                    assert(rest[k] == i);
                }
            }
            if i == n && scan::last_named(known, taken.last().path.name) is None {
                assert(all[rest.len() as int] == i);
            }
        }
    }
}

/// A score is read as it is written: what stands before the first `=` is the number
/// and all that follows is the pattern, whether or not it holds a `=` itself.
pub proof fn written_scores_are_read_back(number: Seq<char>, score: i64, pattern: Seq<char>)
    requires
        number::decimal_i64(number) == Some(score),
    ensures
        config::parsed_score(number.push('=') + pattern) == if pattern::compiles(
            pattern,
            usize::BITS as nat,
        ) {
            Ok::<config::ScoreModel, config::ScoreError>(config::ScoreModel { score, pattern })
        } else {
            Err(config::ScoreError::BadRegex)
        },
{
    let text = number.push('=') + pattern;
    let n = number.len() as int;
    assert forall|i: int| 0 <= i < n implies #[trigger] text[i] != '=' by {
        assert(text[i] == number[i]);
        if number::is_digits(number) {
            assert(number::is_digit(number[i]));
        } else if i > 0 {
            assert(number.skip(1)[i - 1] == number[i]);
            assert(number::is_digit(number.skip(1)[i - 1]));
        }
    }
    assert(text[n] == '=');
    assert(config::first_equals(text, n));
    assert(text.contains('='));
    let k = choose|k: int| config::first_equals(text, k);
    assert(k == n) by {
        if k < n {
            assert(text[k] == '=');
        } else if n < k {
            assert(text[n] == '=');
        }
    }
    assert(text.take(n) =~= number);
    assert(text.skip(n + 1) =~= pattern);
}

proof fn lemma_filter_keeps_order<T>(
    lt: spec_fn(T, T) -> bool,
    s: Seq<T>,
    pred: spec_fn(T) -> bool,
)
    requires
        sorting::ascending(lt, s),
    ensures
        sorting::ascending(lt, s.filter(pred)),
    decreases s.len(),
{
    reveal(Seq::filter);
    if s.len() > 0 {
        let rest = s.drop_last();
        lemma_filter_keeps_order(lt, rest, pred);
        let kept = s.filter(pred);
        let kept0 = rest.filter(pred);
        sorting::lemma_filter_holds(rest, pred);
        assert forall|i: int, j: int| 0 <= i < j < kept.len() implies !lt(
            #[trigger] kept[j],
            #[trigger] kept[i],
        ) by {
            assert(kept[i] == kept0[i]);
            if j < kept0.len() {
                assert(kept[j] == kept0[j]);
            } else {
                assert(kept0.contains(kept0[i]));
                let k = choose|k: int| 0 <= k < rest.len() && rest[k] == kept0[i];
                assert(!lt(s[s.len() - 1], s[k]));
            }
        }
    }
}

/// The groups are shown with the smallest files first.
pub proof fn groups_are_shown_smallest_first(config: config::ConfigModel, files: Seq<FileRecord>)
    ensures
        forall|i: int, j: int|
            0 <= i < j < report::shown_groups(config, files).len() ==> report::group_size(
                #[trigger] report::shown_groups(config, files)[i],
            ) <= report::group_size(#[trigger] report::shown_groups(config, files)[j]),
{
    let lt = report::by_group_size();
    let groups = grouping::duplicate_groups(
        file_record::by_hash(),
        files.filter(filter_duplicates::has_hash()),
    );
    let shown = report::shown_groups(config, files);
    sorting::sorted_is_stable(lt, groups);
    lemma_filter_keeps_order(lt, report::hash_groups(files), report::passes_filter(config));
    assert forall|i: int, j: int| 0 <= i < j < shown.len() implies report::group_size(
        #[trigger] shown[i],
    ) <= report::group_size(#[trigger] shown[j]) by {
        assert(!lt(shown[j], shown[i]));
    }
}

/// The name is that of a file outside the folder that has this hash.
pub open spec fn names_a_copy_outside(
    folder: path::PathModel,
    files: Seq<FileRecord>,
    hash: Seq<char>,
    name: Seq<char>,
) -> bool {
    exists|f: FileRecord|
        {
            &&& #[trigger] files.contains(f)
            &&& f@.path.name == name
            &&& f@.hash == Some(hash)
            &&& !f@.path.starts_with(folder)
        }
}

/// The copies that are listed of a file are files outside the folder with the same
/// hash, and there are some.
pub proof fn listed_copies_are_copies(
    config: config::ConfigModel,
    folder: path::PathModel,
    files: Seq<FileRecord>,
    entry: scan::EntryModel,
    names: Seq<Seq<char>>,
)
    requires
        dir_report::status_of(config, folder, files)(entry) == dir_report::StatusModel::Copies(
            names,
        ),
    ensures
        names.len() > 0,
        dir_report::hash_of_named(files, entry.path.name) is Some,
        forall|i: int|
            0 <= i < names.len() ==> names_a_copy_outside(
                folder,
                files,
                dir_report::hash_of_named(files, entry.path.name)->0,
                #[trigger] names[i],
            ),
{
    let hash = dir_report::hash_of_named(files, entry.path.name)->0;
    let same = dir_report::with_hash(files, hash);
    let copies = dir_report::copies_outside(files, folder, hash);
    sorting::lemma_filter_holds(files, |f: FileRecord| f@.hash == Some(hash));
    sorting::lemma_filter_holds(same, |f: FileRecord| !f@.path.starts_with(folder));
    assert forall|i: int| 0 <= i < names.len() implies names_a_copy_outside(
        folder,
        files,
        hash,
        #[trigger] names[i],
    ) by {
        let f = copies[i];
        assert(copies.contains(f));
        assert(same.contains(f));
        assert(files.contains(f));
    }
}

/// No copy is passed over: where a file of the folder is looked at and its hash is
/// known, each file outside the folder with the same hash is listed.
pub proof fn every_copy_outside_is_listed(
    config: config::ConfigModel,
    folder: path::PathModel,
    files: Seq<FileRecord>,
    entry: scan::EntryModel,
    k: int,
    f: FileRecord,
)
    requires
        !entry.is_dir,
        entry.size > 0,
        entry.size >= config.min_size,
        config.is_included(entry.path, entry.is_symlink),
        scan::last_named(file_record::models(files), entry.path.name) == Some(k),
        files[k].hash is Some,
        files[k]@.path.starts_with(folder),
        files.contains(f),
        f@.hash == files[k]@.hash,
        !f@.path.starts_with(folder),
    ensures
        dir_report::status_of(config, folder, files)(entry) matches dir_report::StatusModel::Copies(
            names,
        ) && names.contains(f@.path.name),
{
    let hash = files[k]@.hash->0;
    let same = dir_report::with_hash(files, hash);
    let copies = dir_report::copies_outside(files, folder, hash);
    scan::lemma_last_named(file_record::models(files), entry.path.name);
    sorting::lemma_filter_holds(files, |f: FileRecord| f@.hash == Some(hash));
    sorting::lemma_filter_holds(same, |f: FileRecord| !f@.path.starts_with(folder));
    assert(files.contains(files[k]));
    assert(same.contains(files[k]) && same.contains(f));
    let a = choose|a: int| 0 <= a < same.len() && same[a] == files[k];
    let b = choose|b: int| 0 <= b < same.len() && same[b] == f;
    assert(a != b);
    assert(copies.contains(f));
    let i = choose|i: int| 0 <= i < copies.len() && copies[i] == f;
    assert(dir_report::names_of(copies)[i] == f@.path.name);
}

/// The record that is shown under the name lies outside the folder, and no other
/// record has its hash.
pub open spec fn alone_outside(
    folder: path::PathModel,
    files: Seq<FileRecord>,
    name: Seq<char>,
) -> bool {
    match scan::last_named(file_record::models(files), name) {
        Some(k) => {
            &&& files[k].hash is Some
            &&& !files[k]@.path.starts_with(folder)
            &&& dir_report::with_hash(files, files[k]@.hash->0).len() == 1
        },
        None => false,
    }
}

/// A further record under another name does not change what is shown under a name.
proof fn lemma_hash_of_named_kept(
    front: Seq<FileRecord>,
    further: FileRecord,
    back: Seq<FileRecord>,
    name: Seq<char>,
)
    requires
        further@.path.name != name,
    ensures
        dir_report::hash_of_named(front.push(further) + back, name) == dir_report::hash_of_named(
            front + back,
            name,
        ),
{
    let files = front + back;
    let more = front.push(further) + back;
    let n = front.len() as int;
    let m1 = file_record::models(files);
    let m2 = file_record::models(more);
    scan::lemma_last_named(m1, name);
    scan::lemma_last_named(m2, name);
    assert forall|i: int| 0 <= i < files.len() implies (#[trigger] files[i]) == more[if i < n {
        i
    } else {
        i + 1
    }] by {}
    assert(more[n] == further);
    if let Some(k) = scan::last_named(m1, name) {
        let k1 = if k < n {
            k
        } else {
            k + 1
        };
        assert(m1[k].path.name == name);
        assert(m2[k1] == m1[k]);
        if let Some(k2) = scan::last_named(m2, name) {
            assert(k2 >= k1);
            assert(m2[n] == further@);
            if k2 > k1 {
                let j = if k2 < n {
                    k2
                } else {
                    k2 - 1
                };
                assert(m1[j] == m2[k2]);
                assert(m1[j].path.name != name);
            }
        }
    } else if let Some(k2) = scan::last_named(m2, name) {
        assert(m2[n] == further@);
        let j = if k2 < n {
            k2
        } else {
            k2 - 1
        };
        assert(m1[j] == m2[k2]);
        assert(m1[j].path.name != name);
    }
}

/// What passes a test of items with a further one between them.
proof fn lemma_filter_around<T>(front: Seq<T>, x: T, back: Seq<T>, pred: spec_fn(T) -> bool)
    ensures
        (front + back).filter(pred) == front.filter(pred) + back.filter(pred),
        (front.push(x) + back).filter(pred) == if pred(x) {
            front.filter(pred).push(x) + back.filter(pred)
        } else {
            front.filter(pred) + back.filter(pred)
        },
{
    Seq::filter_distributes_over_add(front, back, pred);
    Seq::filter_distributes_over_add(front.push(x), back, pred);
    reveal(Seq::filter);
    assert(front.push(x).drop_last() =~= front);
}

/// A further copy inside the folder changes nothing of what is said of an entry that
/// is not that copy: it never turns a file without copies into one with copies. Left
/// out is an entry whose record, against its name, lies outside the folder and is the
/// only one with the hash of the further record.
pub proof fn a_record_inside_the_folder_changes_no_status(
    config: config::ConfigModel,
    folder: path::PathModel,
    front: Seq<FileRecord>,
    further: FileRecord,
    back: Seq<FileRecord>,
    entry: scan::EntryModel,
)
    requires
        further@.path.starts_with(folder),
        further@.path.name != entry.path.name,
        dir_report::status_of(config, folder, front + back)(entry) is OnlyCopy && further@.hash
            == dir_report::hash_of_named(front + back, entry.path.name) ==> !alone_outside(
            folder,
            front + back,
            entry.path.name,
        ),
    ensures
        dir_report::status_of(config, folder, front.push(further) + back)(entry)
            == dir_report::status_of(config, folder, front + back)(entry),
{
    let files = front + back;
    let more = front.push(further) + back;
    let name = entry.path.name;
    lemma_hash_of_named_kept(front, further, back, name);
    if let Some(hash) = dir_report::hash_of_named(files, name) {
        let same = |f: FileRecord| f@.hash == Some(hash);
        let outside = |f: FileRecord| !f@.path.starts_with(folder);
        let s1 = dir_report::with_hash(files, hash);
        let s2 = dir_report::with_hash(more, hash);
        let low = front.filter(same);
        let high = back.filter(same);
        lemma_filter_around(front, further, back, same);
        if same(further) {
            lemma_filter_around(low, further, high, outside);
            assert(s2.filter(outside) == s1.filter(outside));
            let k = scan::last_named(file_record::models(files), name)->0;
            scan::lemma_last_named(file_record::models(files), name);
            sorting::lemma_filter_holds(files, same);
            assert(files.contains(files[k]));
            assert(s1.contains(files[k]));
            if s1.len() == 1 {
                assert(s1[0] == files[k]);
                if !outside(files[k]) {
                    sorting::lemma_filter_none(s1, outside);
                }
            }
        }
    }
}

/// A further copy inside the folder that is none of the entries changes nothing of
/// the report, and so none of its counts.
pub proof fn a_record_inside_the_folder_changes_no_report(
    config: config::ConfigModel,
    folder: path::PathModel,
    front: Seq<FileRecord>,
    further: FileRecord,
    back: Seq<FileRecord>,
    entries: Seq<scan::EntryModel>,
)
    requires
        further@.path.starts_with(folder),
        forall|i: int|
            0 <= i < entries.len() ==> (#[trigger] entries[i]).path.name != further@.path.name,
        forall|i: int|
            0 <= i < entries.len() && dir_report::status_of(config, folder, front + back)(
                #[trigger] entries[i],
            ) is OnlyCopy && further@.hash == dir_report::hash_of_named(
                front + back,
                entries[i].path.name,
            ) ==> !alone_outside(folder, front + back, entries[i].path.name),
    ensures
        entries.map_values(dir_report::status_of(config, folder, front.push(further) + back))
            == entries.map_values(dir_report::status_of(config, folder, front + back)),
{
    let before = dir_report::status_of(config, folder, front + back);
    let after = dir_report::status_of(config, folder, front.push(further) + back);
    assert forall|i: int| 0 <= i < entries.len() implies after(#[trigger] entries[i]) == before(
        entries[i],
    ) by {
        a_record_inside_the_folder_changes_no_status(
            config,
            folder,
            front,
            further,
            back,
            entries[i],
        );
    }
    assert(entries.map_values(after) =~= entries.map_values(before));
}

/// No two of the records are shown under the same name.
pub open spec fn names_differ(known: Seq<file_record::RecordModel>) -> bool {
    forall|i: int, j: int|
        0 <= i < j < known.len() ==> (#[trigger] known[i]).path.name != (
        #[trigger] known[j]).path.name
}

/// No two of the entries are shown under the same name.
pub open spec fn entry_names_differ(entries: Seq<scan::EntryModel>) -> bool {
    forall|i: int, j: int|
        0 <= i < j < entries.len() ==> (#[trigger] entries[i]).path.name != (
        #[trigger] entries[j]).path.name
}

/// Some of the known records is shown under the name.
pub open spec fn is_known(known: Seq<file_record::RecordModel>, name: Seq<char>) -> bool {
    exists|k: int| 0 <= k < known.len() && (#[trigger] known[k]).path.name == name
}

/// The cache has the record: some known one has its name and says the same.
pub open spec fn gives_back(
    known: Seq<file_record::RecordModel>,
    record: file_record::RecordModel,
) -> bool {
    exists|k: int|
        {
            &&& 0 <= k < known.len()
            &&& (#[trigger] known[k]).path.name == record.path.name
            &&& known[k].same_record(record)
        }
}

/// Where all files that are taken in are known, none is inserted.
proof fn lemma_nothing_new(known: Seq<file_record::RecordModel>, taken: Seq<scan::EntryModel>)
    requires
        forall|i: int| 0 <= i < taken.len() ==> is_known(known, (#[trigger] taken[i]).path.name),
    ensures
        scan::new_positions(known, taken) == Seq::<usize>::empty(),
    decreases taken.len(),
{
    if taken.len() > 0 {
        let fewer = taken.drop_last();
        assert forall|i: int| 0 <= i < fewer.len() implies is_known(
            known,
            (#[trigger] fewer[i]).path.name,
        ) by {
            assert(fewer[i] == taken[i]);
        }
        lemma_nothing_new(known, fewer);
        assert(taken[taken.len() - 1] == taken.last());
        scan::lemma_last_named(known, taken.last().path.name);
    }
}

/// A second scan of an unchanged folder gives the same files and inserts none of
/// them, where the cache gives back what it had and what the first scan inserted.
/// The cache may give the records back in another order, and the paths under other
/// numbers.
pub proof fn a_second_scan_inserts_nothing(
    config: config::ConfigModel,
    known: Seq<file_record::RecordModel>,
    entries: Seq<scan::EntryModel>,
    later: Seq<file_record::RecordModel>,
)
    requires
        entries.len() <= usize::MAX,
        names_differ(later),
        forall|k: int| 0 <= k < known.len() ==> gives_back(later, #[trigger] known[k]),
        forall|k: int|
            0 <= k < scan::new_positions(known, entries.filter(scan::is_taken(config))).len()
                ==> gives_back(
                later,
                scan::folder_files(config, known, entries)[#[trigger] scan::new_positions(
                    known,
                    entries.filter(scan::is_taken(config)),
                )[k] as int],
            ),
    ensures
        scan::new_positions(later, entries.filter(scan::is_taken(config))) == Seq::<usize>::empty(),
        scan::folder_files(config, later, entries).len() == scan::folder_files(
            config,
            known,
            entries,
        ).len(),
        forall|i: int|
            0 <= i < scan::folder_files(config, later, entries).len() ==> {
                let first = scan::folder_files(config, known, entries)[i];
                let second = #[trigger] scan::folder_files(config, later, entries)[i];
                second.path.name == first.path.name && second.same_record(first)
            },
{
    let taken = entries.filter(scan::is_taken(config));
    let first = scan::folder_files(config, known, entries);
    let second = scan::folder_files(config, later, entries);
    entries.lemma_filter_len(scan::is_taken(config));
    new_positions_are_the_unknown_files(known, taken);
    assert forall|i: int| 0 <= i < taken.len() implies gives_back(later, #[trigger] first[i])
        && first[i].path.name == taken[i].path.name by {
        scan::lemma_last_named(known, taken[i].path.name);
        if let Some(k) = scan::last_named(known, taken[i].path.name) {
            assert(first[i] == known[k]);
        } else {
            let at = scan::new_positions(known, taken);
            assert(at.contains(i as usize));
            let k = choose|k: int| 0 <= k < at.len() && at[k] == i as usize;
            assert(gives_back(later, first[at[k] as int]));
        }
    }
    assert forall|i: int| 0 <= i < second.len() implies {
        let one = first[i];
        let two = #[trigger] second[i];
        two.path.name == one.path.name && two.same_record(one)
    } by {
        assert(gives_back(later, first[i]));
        let j = choose|j: int|
            {
                &&& 0 <= j < later.len()
                &&& (#[trigger] later[j]).path.name == first[i].path.name
                &&& later[j].same_record(first[i])
            };
        scan::lemma_last_named(later, taken[i].path.name);
        let k = scan::last_named(later, taken[i].path.name)->0;
        assert(later[k].path.name == later[j].path.name);
        assert(k == j);
        assert(second[i] == later[k]);
    }
    assert forall|i: int| 0 <= i < taken.len() implies is_known(
        later,
        (#[trigger] taken[i]).path.name,
    ) by {
        assert(gives_back(later, first[i]));
    }
    lemma_nothing_new(later, taken);
}

/// A second scan that also knows what the scan before inserted, at the end of what
/// was known, gives exactly the same records and inserts none, where the files have
/// different names.
pub proof fn a_scan_knows_what_the_scan_before_inserted(
    config: config::ConfigModel,
    known: Seq<file_record::RecordModel>,
    entries: Seq<scan::EntryModel>,
)
    requires
        entries.len() <= usize::MAX,
        entry_names_differ(entries.filter(scan::is_taken(config))),
    ensures
        ({
            let taken = entries.filter(scan::is_taken(config));
            let first = scan::folder_files(config, known, entries);
            let inserted = scan::new_positions(known, taken).map_values(
                |at: usize| first[at as int],
            );
            &&& scan::folder_files(config, known + inserted, entries) == first
            &&& scan::new_positions(known + inserted, taken) == Seq::<usize>::empty()
        }),
{
    let taken = entries.filter(scan::is_taken(config));
    let first = scan::folder_files(config, known, entries);
    let at = scan::new_positions(known, taken);
    let inserted = at.map_values(|at: usize| first[at as int]);
    let later = known + inserted;
    let second = scan::folder_files(config, later, entries);
    entries.lemma_filter_len(scan::is_taken(config));
    new_positions_are_the_unknown_files(known, taken);
    assert forall|k: int| 0 <= k < at.len() implies (#[trigger] at[k]) < taken.len()
        && inserted[k] == scan::new_record(taken[at[k] as int])
        && inserted[k].path.name == taken[at[k] as int].path.name by {
        assert(at.contains(at[k]));
        assert(first[at[k] as int] == scan::record_of(known)(taken[at[k] as int]));
    }
    assert forall|i: int| 0 <= i < second.len() implies (#[trigger] second[i]) == first[i]
        && is_known(later, taken[i].path.name) by {
        let name = taken[i].path.name;
        scan::lemma_last_named(known, name);
        scan::lemma_last_named(later, name);
        if let Some(k) = scan::last_named(known, name) {
            assert(later[k] == known[k]);
            assert(later[k].path.name == name);
            let m = scan::last_named(later, name)->0;
            if m >= known.len() {
                let p = m - known.len();
                assert(later[m] == inserted[p]);
                assert(at.contains(at[p]));
                assert(taken[at[p] as int].path.name == name);
            } else {
                assert(later[m] == known[m]);
                assert(later[k].path.name == name);
                if m < k {
                    assert(later[k].path.name != name);
                } else if k < m {
                    assert(known[m].path.name != name);
                }
            }
        } else {
            assert(at.contains(i as usize));
            let k = choose|k: int| 0 <= k < at.len() && at[k] == i as usize;
            assert(later[known.len() + k] == inserted[k]);
            assert(later[known.len() + k].path.name == name);
            let m = scan::last_named(later, name)->0;
            assert(later[m].path.name == name);
            if m < known.len() {
                assert(later[m] == known[m]);
            } else {
                let p = m - known.len();
                assert(later[m] == inserted[p]);
                assert(taken[at[p] as int].path.name == name);
                if at[p] as int != i {
                    if at[p] < i {
                        assert(taken[at[p] as int].path.name != taken[i].path.name);
                    } else {
                        assert(taken[i].path.name != taken[at[p] as int].path.name);
                    }
                }
                assert(inserted[p] == first[i]);
            }
        }
    }
    assert forall|i: int| 0 <= i < taken.len() implies is_known(
        later,
        (#[trigger] taken[i]).path.name,
    ) by {
        assert(second[i] == first[i]);
    }
    lemma_nothing_new(later, taken);
    assert(second =~= first);
}

} // verus!
