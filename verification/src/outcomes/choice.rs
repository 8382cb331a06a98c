//! Which files are looked at, and which scores they have.
use crate::config;
use crate::config::{Config, DuplicateGroupFilter, Score};
use crate::lex;
use crate::lex::bytes_before;
use crate::path;
use crate::path::{FilePath, PathComponent};
use crate::pattern;
use regex::Regex;
use vstd::prelude::*;

verus! {

/// The components are of the same kind and have the same name.
pub open spec fn same_component(a: PathComponent, b: PathComponent) -> bool {
    match (a, b) {
        (PathComponent::Prefix(x), PathComponent::Prefix(y)) => x@ == y@,
        (PathComponent::RootDir, PathComponent::RootDir) => true,
        (PathComponent::CurDir, PathComponent::CurDir) => true,
        (PathComponent::ParentDir, PathComponent::ParentDir) => true,
        (PathComponent::Normal(x), PathComponent::Normal(y)) => x@ == y@,
        _ => false,
    }
}

/// The path lies in the folder: it begins with the components of the folder.
pub open spec fn lies_in(path: FilePath, folder: FilePath) -> bool {
    &&& folder.components@.len() <= path.components@.len()
    &&& forall|i: int|
        0 <= i < folder.components@.len() ==> same_component(
            #[trigger] folder.components@[i],
            path.components@[i],
        )
}

/// Components stand for the same where they are of one kind and have one name.
pub proof fn lemma_same_component(a: PathComponent, b: PathComponent)
    ensures
        a@ == b@ <==> same_component(a, b),
{
    if a@ == b@ {
        assert(a@[0] == a.kind() && b@[0] == b.kind());
        assert(a@.skip(1) =~= a.name());
        assert(b@.skip(1) =~= b.name());
    }
    if same_component(a, b) {
        assert(a.name() =~= b.name());
    }
}

pub proof fn lemma_lies_in(path: FilePath, folder: FilePath)
    ensures
        path@.starts_with(folder@) <==> lies_in(path, folder),
{
    let a = path@.components;
    let b = folder@.components;
    if path@.starts_with(folder@) {
        assert forall|i: int| 0 <= i < folder.components@.len() implies same_component(
            #[trigger] folder.components@[i],
            path.components@[i],
        ) by {
            lemma_same_component(folder.components@[i], path.components@[i]);
            assert(a.subrange(0, b.len() as int)[i] == b[i]);
        }
    }
    if lies_in(path, folder) {
        assert forall|i: int| 0 <= i < b.len() implies a[i] == b[i] by {
            lemma_same_component(folder.components@[i], path.components@[i]);
        }
        assert(a.subrange(0, b.len() as int) =~= b);
    }
}

/// A path starts with a base exactly where it lies in that folder.
pub proof fn a_path_starts_with_its_folders(path: &FilePath, base: &FilePath, within: bool)
    requires
        call_ensures(FilePath::starts_with, (path, base), within),
    ensures
        within <==> lies_in(*path, *base),
{
    lemma_lies_in(*path, *base);
}

/// Two paths are equal exactly where each begins with the other.
pub proof fn equal_paths_lie_in_each_other(a: &FilePath, b: &FilePath, equal: bool)
    requires
        call_ensures(<FilePath as PartialEq>::eq, (a, b), equal),
    ensures
        equal <==> lies_in(*a, *b) && lies_in(*b, *a),
{
    lemma_lies_in(*a, *b);
    lemma_lies_in(*b, *a);
    let x = a@.components;
    let y = b@.components;
    if lies_in(*a, *b) && lies_in(*b, *a) {
        assert(x.subrange(0, y.len() as int) =~= x);
    }
    if x == y {
        assert(x.subrange(0, y.len() as int) =~= y);
        assert(y.subrange(0, x.len() as int) =~= x);
    }
}

/// The place of a kind of component among the kinds.
pub open spec fn kind_place(c: PathComponent) -> int {
    match c {
        PathComponent::Prefix(_) => 0,
        PathComponent::RootDir => 1,
        PathComponent::CurDir => 2,
        PathComponent::ParentDir => 3,
        PathComponent::Normal(_) => 4,
    }
}

/// The name of a component; empty where the kind says all.
pub open spec fn component_name(c: PathComponent) -> Seq<u8> {
    match c {
        PathComponent::Prefix(name) => name@,
        PathComponent::Normal(name) => name@,
        _ => Seq::empty(),
    }
}

/// The byte strings agree up to `k`, and there `a` ends or has the smaller byte.
pub open spec fn bytes_part_at(a: Seq<u8>, b: Seq<u8>, k: int) -> bool {
    &&& 0 <= k <= a.len()
    &&& k < b.len()
    &&& forall|i: int| 0 <= i < k ==> a[i] == b[i]
    &&& k == a.len() || a[k] < b[k]
}

/// `a` comes before `b`: by kind, and within a kind by the bytes of the name.
pub open spec fn component_before(a: PathComponent, b: PathComponent) -> bool {
    ||| kind_place(a) < kind_place(b)
    ||| kind_place(a) == kind_place(b) && exists|k: int|
        bytes_part_at(component_name(a), component_name(b), k)
}

pub proof fn lemma_bytes_before(a: Seq<u8>, b: Seq<u8>)
    ensures
        lex::bytes_order()(a, b) <==> exists|k: int| bytes_part_at(a, b, k),
{
    let lt = lex::byte_order();
    if lex::bytes_order()(a, b) {
        let k = choose|k: int| lex::parts_at(lt, a, b, k);
        assert(bytes_part_at(a, b, k));
    }
    if exists|k: int| bytes_part_at(a, b, k) {
        let k = choose|k: int| bytes_part_at(a, b, k);
        assert(lex::parts_at(lt, a, b, k));
    }
}

proof fn lemma_component_before(a: PathComponent, b: PathComponent)
    ensures
        lex::bytes_order()(a@, b@) <==> component_before(a, b),
{
    path::lemma_headed(a.kind(), a.name(), b.kind(), b.name());
    lemma_bytes_before(a.name(), b.name());
    assert(a.name() =~= component_name(a));
    assert(b.name() =~= component_name(b));
}

/// What a comparison of byte strings gives: the first byte that differs decides, and a
/// string comes before one that goes on.
pub proof fn the_first_differing_byte_decides(a: &[u8], b: &[u8], before: bool)
    requires
        call_ensures(bytes_before, (a, b), before),
    ensures
        before <==> exists|k: int| bytes_part_at(a@, b@, k),
{
    lemma_bytes_before(a@, b@);
}

/// What a comparison of components gives.
pub proof fn a_component_comes_before_another(a: &PathComponent, b: &PathComponent, before: bool)
    requires
        call_ensures(PathComponent::before, (a, b), before),
    ensures
        before <==> component_before(*a, *b),
{
    lemma_component_before(*a, *b);
}

/// A copy of a component is the same component.
pub proof fn a_component_is_copied_as_it_is(component: &PathComponent, copy: PathComponent)
    requires
        call_ensures(<PathComponent as Clone>::clone, (component,), copy),
    ensures
        same_component(copy, *component),
{
    lemma_same_component(copy, *component);
}

/// The paths agree up to component `k`, and there `a` ends or has the component that
/// comes first.
pub open spec fn paths_part_at(a: FilePath, b: FilePath, k: int) -> bool {
    &&& 0 <= k <= a.components@.len()
    &&& k < b.components@.len()
    &&& forall|i: int| 0 <= i < k ==> same_component(#[trigger] a.components@[i], b.components@[i])
    &&& k == a.components@.len() || component_before(a.components@[k], b.components@[k])
}

/// `a` comes before `b` among the paths.
pub open spec fn path_before(a: FilePath, b: FilePath) -> bool {
    exists|k: int| paths_part_at(a, b, k)
}

/// The order of paths is that of their components, the first that differs first.
pub proof fn paths_are_ordered_by_components(a: FilePath, b: FilePath)
    ensures
        path::path_order()(a@, b@) <==> path_before(a, b),
{
    let lt = lex::bytes_order();
    let x = a@.components;
    let y = b@.components;
    if path::path_order()(a@, b@) {
        let k = choose|k: int| lex::parts_at(lt, x, y, k);
        assert forall|i: int| 0 <= i < k implies same_component(
            #[trigger] a.components@[i],
            b.components@[i],
        ) by {
            lemma_same_component(a.components@[i], b.components@[i]);
            assert(x[i] == y[i]);
        }
        if k < x.len() {
            lemma_component_before(a.components@[k], b.components@[k]);
        }
        assert(paths_part_at(a, b, k));
    }
    if path_before(a, b) {
        let k = choose|k: int| paths_part_at(a, b, k);
        assert forall|i: int| 0 <= i < k implies #[trigger] x[i] == y[i] by {
            lemma_same_component(a.components@[i], b.components@[i]);
        }
        if k < x.len() {
            lemma_component_before(a.components@[k], b.components@[k]);
        }
        assert(lex::parts_at(lt, x, y, k));
    }
}

/// What a comparison of paths gives.
pub proof fn a_path_comes_before_another(a: &FilePath, b: &FilePath, before: bool)
    requires
        call_ensures(FilePath::before, (a, b), before),
    ensures
        before <==> path_before(*a, *b),
{
    paths_are_ordered_by_components(*a, *b);
}

/// The pattern matches the path, letter for letter from its first to its last; a path
/// that is not valid Unicode is not matched.
pub open spec fn matched(path: FilePath, regex: Regex) -> bool {
    path.unicode && pattern::matches_text(pattern::pattern_text(regex), path.name@)
}

/// The file is looked at: it is no symbolic link, it lies in a folder that was asked
/// for, and no exclusion matches it.
pub open spec fn looked_at(config: Config, path: FilePath, is_symlink: bool) -> bool {
    &&& !is_symlink
    &&& exists|i: int|
        0 <= i < config.includes@.len() && lies_in(path, #[trigger] config.includes@[i])
    &&& forall|i: int|
        0 <= i < config.exclude_regex@.len() ==> !matched(path, #[trigger] config.exclude_regex@[i])
}

/// A path lies in the folders exactly where it lies in one of them.
pub proof fn a_path_lies_in_one_of_the_folders(config: &Config, path: &FilePath, inside: bool)
    requires
        call_ensures(Config::in_folders, (config, path), inside),
    ensures
        inside <==> exists|i: int|
            0 <= i < config.includes@.len() && lies_in(*path, #[trigger] config.includes@[i]),
{
    lemma_in_folders(*config, *path);
}

proof fn lemma_in_folders(config: Config, path: FilePath)
    ensures
        config@.in_folders(path@) <==> exists|i: int|
            0 <= i < config.includes@.len() && lies_in(path, #[trigger] config.includes@[i]),
{
    if config@.in_folders(path@) {
        let i = choose|i: int|
            0 <= i < config@.includes.len() && path@.starts_with(#[trigger] config@.includes[i]);
        lemma_lies_in(path, config.includes@[i]);
        assert(lies_in(path, config.includes@[i]));
    }
    if exists|i: int|
        0 <= i < config.includes@.len() && lies_in(path, #[trigger] config.includes@[i]) {
        let i = choose|i: int|
            0 <= i < config.includes@.len() && lies_in(path, #[trigger] config.includes@[i]);
        lemma_lies_in(path, config.includes@[i]);
        assert(path@.starts_with(config@.includes[i]));
    }
}

proof fn lemma_excluded(config: Config, path: FilePath)
    ensures
        config@.is_excluded(path@) <==> exists|i: int|
            0 <= i < config.exclude_regex@.len() && matched(
                path,
                #[trigger] config.exclude_regex@[i],
            ),
{
    if config@.is_excluded(path@) {
        let i = choose|i: int|
            0 <= i < config@.excludes.len() && pattern::matches_text(
                #[trigger] config@.excludes[i],
                path@.name,
            );
        assert(matched(path, config.exclude_regex@[i]));
    }
    if exists|i: int|
        0 <= i < config.exclude_regex@.len() && matched(path, #[trigger] config.exclude_regex@[i]) {
        let i = choose|i: int|
            0 <= i < config.exclude_regex@.len() && matched(
                path,
                #[trigger] config.exclude_regex@[i],
            );
        assert(config@.excludes[i] == pattern::pattern_text(config.exclude_regex@[i]));
    }
}

/// A path is excluded exactly where some exclusion matches the whole of it.
pub proof fn an_exclusion_sees_the_whole_path(config: &Config, path: &FilePath, excluded: bool)
    requires
        call_ensures(Config::is_excluded, (config, path), excluded),
    ensures
        excluded <==> exists|i: int|
            0 <= i < config.exclude_regex@.len() && matched(
                *path,
                #[trigger] config.exclude_regex@[i],
            ),
{
    lemma_excluded(*config, *path);
}

/// Which files are looked at.
pub proof fn included_files_are_those_looked_at(
    config: &Config,
    path: &FilePath,
    is_symlink: bool,
    included: bool,
)
    requires
        call_ensures(Config::is_included, (config, path, is_symlink), included),
    ensures
        included <==> looked_at(*config, *path, is_symlink),
{
    lemma_looked_at(*config, *path, is_symlink);
}

/// The files that are looked at are those that the configuration takes for such.
pub proof fn lemma_looked_at(config: Config, path: FilePath, is_symlink: bool)
    ensures
        config@.is_included(path@, is_symlink) <==> looked_at(config, path, is_symlink),
{
    lemma_in_folders(config, path);
    lemma_excluded(config, path);
}

/// Where the exclusions are decided already, the link, the folder and that decision
/// count.
pub proof fn inclusion_follows_the_decision(
    config: &Config,
    path: &FilePath,
    is_symlink: bool,
    excluded: bool,
    included: bool,
)
    requires
        call_ensures(Config::is_included_unless, (config, path, is_symlink, excluded), included),
    ensures
        included <==> !is_symlink && !excluded && exists|i: int|
            0 <= i < config.includes@.len() && lies_in(*path, #[trigger] config.includes@[i]),
{
    lemma_in_folders(*config, *path);
}

/// The pattern of the score matches the whole text.
pub open spec fn scores_text(score: Score, text: Seq<char>) -> bool {
    pattern::matches_text(pattern::pattern_text(score.pattern), text)
}

/// The score of a text: that of the first pattern that matches it, and none where no
/// pattern does.
pub open spec fn has_score(config: Config, text: Seq<char>, score: Option<i64>) -> bool {
    match score {
        Some(number) => exists|i: int|
            {
                &&& 0 <= i < config.scores@.len()
                &&& scores_text(#[trigger] config.scores@[i], text)
                &&& config.scores@[i].score == number
                &&& forall|j: int| 0 <= j < i ==> !scores_text(#[trigger] config.scores@[j], text)
            },
        None => forall|i: int|
            0 <= i < config.scores@.len() ==> !scores_text(#[trigger] config.scores@[i], text),
    }
}

proof fn lemma_first_at(scores: Seq<config::ScoreModel>, matched: Seq<bool>, n: int) -> (k: int)
    requires
        scores.len() == matched.len(),
        0 <= n <= scores.len(),
        forall|i: int| 0 <= i < n ==> !#[trigger] matched[i],
    ensures
        n <= k <= scores.len(),
        forall|i: int| 0 <= i < k ==> !#[trigger] matched[i],
        k < scores.len() ==> matched[k],
    decreases scores.len() - n,
{
    if n == scores.len() || matched[n] {
        n
    } else {
        lemma_first_at(scores, matched, n + 1)
    }
}

/// A text has one score, and it is the one that the configuration gives.
pub proof fn lemma_score(config: Config, text: Seq<char>, score: Option<i64>)
    ensures
        has_score(config, text, score) <==> config@.score(text) == score,
{
    let scores = config@.scores;
    let matched = config::matches_of(scores, text);
    let k = lemma_first_at(scores, matched, 0);
    config::score_is_that_of_the_first_match(scores, matched, k);
    assert forall|i: int| 0 <= i < scores.len() implies #[trigger] matched[i] == scores_text(
        config.scores@[i],
        text,
    ) by {}
    assert forall|i: int| 0 <= i < k implies !scores_text(#[trigger] config.scores@[i], text) by {
        assert(!matched[i]);
    }
    if k < scores.len() {
        assert(matched[k]);
        assert(scores_text(config.scores@[k], text));
        assert(scores[k].score == config.scores@[k].score);
    }
}

/// What a lookup of a score gives.
pub proof fn the_first_matching_pattern_gives_the_score(
    config: &Config,
    text: &str,
    score: Option<i64>,
)
    requires
        call_ensures(Config::get_score, (config, text), score),
    ensures
        has_score(*config, text@, score),
{
    lemma_score(*config, text@, score);
}

/// Where the matches are known already, the first of them gives the score.
pub proof fn the_first_mark_gives_the_score(
    config: &Config,
    matched: &Vec<bool>,
    score: Option<i64>,
)
    requires
        matched@.len() == config.scores@.len(),
        call_ensures(Config::score_of_first, (config, matched), score),
    ensures
        match score {
            Some(number) => exists|i: int|
                {
                    &&& 0 <= i < matched@.len()
                    &&& #[trigger] matched@[i]
                    &&& config.scores@[i].score == number
                    &&& forall|j: int| 0 <= j < i ==> !#[trigger] matched@[j]
                },
            None => forall|i: int| 0 <= i < matched@.len() ==> !#[trigger] matched@[i],
        },
{
    let k = lemma_first_at(config@.scores, matched@, 0);
    config::score_is_that_of_the_first_match(config@.scores, matched@, k);
    if k < matched@.len() {
        assert(config@.scores[k].score == config.scores@[k].score);
    }
}

/// The filter grows stronger with each time that the option is given, twice at most.
pub proof fn the_option_strengthens_the_filter(count: u8, filter: DuplicateGroupFilter)
    requires
        call_ensures(DuplicateGroupFilter::from_count, (count,), filter),
    ensures
        filter is All <==> count == 0,
        filter is OnlyGroupsWithScores <==> count == 1,
        filter is OnlyGroupsWithDeletables <==> count >= 2,
{
}

/// Which groups a filter lets through.
pub proof fn a_filter_lets_its_groups_through(
    filter: &DuplicateGroupFilter,
    has_scores: bool,
    has_deletables: bool,
    shown: bool,
)
    requires
        call_ensures(
            DuplicateGroupFilter::lets_through,
            (filter, has_scores, has_deletables),
            shown,
        ),
    ensures
        *filter is All ==> shown,
        *filter is OnlyGroupsWithScores ==> shown == has_scores,
        *filter is OnlyGroupsWithDeletables ==> shown == has_deletables,
{
}

} // verus!
