//! Finding the items of a list that are equal in some respect.
use crate::sorting;
use crate::sorting::{reversed, sort_by, Order};
use vstd::prelude::*;

verus! {

/// What each of the vectors holds.
pub open spec fn contents<T>(groups: Seq<Vec<T>>) -> Seq<Seq<T>> {
    groups.map_values(|g: Vec<T>| g@)
}

/// Where the last run of tied elements of an ascending sequence starts.
pub open spec fn run_start<T>(lt: spec_fn(T, T) -> bool, s: Seq<T>) -> int
    decreases s.len(),
{
    if s.len() <= 1 {
        0
    } else if lt(s[s.len() - 2], s.last()) {
        s.len() - 1
    } else {
        run_start(lt, s.drop_last())
    }
}

proof fn lemma_run_start<T>(lt: spec_fn(T, T) -> bool, s: Seq<T>)
    ensures
        0 <= run_start(lt, s),
        s.len() > 0 ==> run_start(lt, s) < s.len(),
    decreases s.len(),
{
    if s.len() > 1 && !lt(s[s.len() - 2], s.last()) {
        lemma_run_start(lt, s.drop_last());
    }
}

/// The runs of at least two tied elements of an ascending sequence.
pub open spec fn long_runs<T>(lt: spec_fn(T, T) -> bool, s: Seq<T>) -> Seq<Seq<T>>
    decreases s.len(),
{
    if s.len() == 0 {
        Seq::empty()
    } else {
        let k = run_start(lt, s);
        if 0 <= k < s.len() {
            let rest = long_runs(lt, s.take(k));
            if s.len() - k >= 2 {
                rest.push(s.skip(k))
            } else {
                rest
            }
        } else {
            Seq::empty()
        }
    }
}

/// The groups of at least two tied items: the groups ascend, and within a group
/// the items stand in the order in which they stand in `items`.
pub open spec fn duplicate_groups<T>(lt: spec_fn(T, T) -> bool, items: Seq<T>) -> Seq<Seq<T>> {
    long_runs(lt, sorting::sorted(lt, items))
}

/// `groups` are the classes of `items` with at least two members, in ascending order.
pub open spec fn groups_classes<T>(
    lt: spec_fn(T, T) -> bool,
    items: Seq<T>,
    groups: Seq<Seq<T>>,
) -> bool {
    &&& forall|i: int|
        0 <= i < groups.len() ==> (#[trigger] groups[i]).len() >= 2 && groups[i]
            == sorting::class_of(lt, items, groups[i][0])
    &&& forall|i: int, j: int|
        0 <= i < j < groups.len() ==> lt((#[trigger] groups[i])[0], (#[trigger] groups[j])[0])
    &&& forall|x: T|
        items.contains(x) && (#[trigger] sorting::class_of(lt, items, x)).len() >= 2
            ==> groups.contains(sorting::class_of(lt, items, x))
}

/// In an ascending sequence, the last run is tied and the elements before it are
/// below it.
proof fn lemma_run<T>(lt: spec_fn(T, T) -> bool, s: Seq<T>)
    requires
        sorting::strict_weak_order(lt),
        sorting::ascending(lt, s),
        s.len() > 0,
    ensures
        0 <= run_start(lt, s) < s.len(),
        forall|i: int| run_start(lt, s) <= i < s.len() ==> sorting::tied(lt, s.last(), #[trigger] s[i]),
        forall|i: int| 0 <= i < run_start(lt, s) ==> lt(#[trigger] s[i], s.last()),
    decreases s.len(),
{
    let last = s.last();
    sorting::lemma_tied(lt, last, last, last);
    if s.len() > 1 {
        let prev = s[s.len() - 2];
        if lt(prev, last) {
            assert forall|i: int| 0 <= i < s.len() - 1 implies lt(#[trigger] s[i], last) by {
                if i < s.len() - 2 {
                    assert(!lt(s[s.len() - 2], s[i]));
                    assert(lt(prev, s[i]) || lt(s[i], last));
                }
            }
        } else {
            let s0 = s.drop_last();
            assert(s0.last() == prev);
            assert(!lt(s[s.len() - 1], s[s.len() - 2]));
            lemma_run(lt, s0);
            assert forall|i: int| run_start(lt, s) <= i < s.len() implies sorting::tied(
                lt,
                last,
                #[trigger] s[i],
            ) by {
                if i < s.len() - 1 {
                    assert(s0[i] == s[i]);
                    sorting::lemma_tied(lt, last, prev, s[i]);
                }
            }
            assert forall|i: int| 0 <= i < run_start(lt, s) implies lt(#[trigger] s[i], last) by {
                assert(s0[i] == s[i]);
                sorting::lemma_tied(lt, prev, last, s[i]);
            }
        }
    }
}

/// The class of `x` in an ascending sequence: the last run where `x` is tied with
/// it, and otherwise the class in what stands before that run.
proof fn lemma_class_in_run<T>(lt: spec_fn(T, T) -> bool, s: Seq<T>, x: T)
    requires
        sorting::strict_weak_order(lt),
        sorting::ascending(lt, s),
        s.len() > 0,
    ensures
        sorting::tied(lt, x, s.last()) ==> sorting::class_of(lt, s, x) == s.skip(run_start(lt, s)),
        !sorting::tied(lt, x, s.last()) ==> sorting::class_of(lt, s, x) == sorting::class_of(
            lt,
            s.take(run_start(lt, s)),
            x,
        ),
{
    lemma_run(lt, s);
    let k = run_start(lt, s);
    let low = s.take(k);
    let run = s.skip(k);
    let pred = |y: T| sorting::tied(lt, x, y);
    assert(s =~= low + run);
    Seq::filter_distributes_over_add(low, run, pred);
    if sorting::tied(lt, x, s.last()) {
        assert forall|i: int| 0 <= i < low.len() implies !pred(#[trigger] low[i]) by {
            assert(lt(s[i], s.last()));
            sorting::lemma_tied(lt, x, s.last(), s[i]);
        }
        sorting::lemma_filter_none(low, pred);
        assert forall|i: int| 0 <= i < run.len() implies pred(#[trigger] run[i]) by {
            sorting::lemma_tied(lt, x, s.last(), s[k + i]);
        }
        sorting::lemma_filter_all(run, pred);
        assert(low.filter(pred) + run =~= run);
    } else {
        assert forall|i: int| 0 <= i < run.len() implies !pred(#[trigger] run[i]) by {
            if pred(run[i]) {
                sorting::lemma_tied(lt, s.last(), s[k + i], x);
                sorting::lemma_tied(lt, x, s[k + i], s.last());
            }
        }
        sorting::lemma_filter_none(run, pred);
        assert(low.filter(pred) + run.filter(pred) =~= low.filter(pred));
    }
}

proof fn lemma_long_runs<T>(lt: spec_fn(T, T) -> bool, s: Seq<T>)
    requires
        sorting::strict_weak_order(lt),
        sorting::ascending(lt, s),
    ensures
        groups_classes(lt, s, long_runs(lt, s)),
        forall|i: int|
            0 <= i < long_runs(lt, s).len() ==> s.contains((#[trigger] long_runs(lt, s)[i])[0]),
        long_runs(lt, s).flatten().len() <= s.len(),
    decreases s.len(),
{
    if s.len() == 0 {
    } else {
        lemma_run(lt, s);
        let k = run_start(lt, s);
        let low = s.take(k);
        let run = s.skip(k);
        let rest = long_runs(lt, low);
        let groups = long_runs(lt, s);
        assert(sorting::ascending(lt, low));
        lemma_long_runs(lt, low);
        rest.lemma_flatten_push(run);
        assert forall|i: int| 0 <= i < groups.len() implies (#[trigger] groups[i]).len() >= 2
            && groups[i] == sorting::class_of(lt, s, groups[i][0]) && s.contains(groups[i][0]) by {
            let x = groups[i][0];
            if i < rest.len() {
                assert(groups[i] == rest[i]);
                assert(low.contains(rest[i][0]));
                let j = choose|j: int| 0 <= j < low.len() && low[j] == x;
                assert(s[j] == x);
                assert(lt(s[j], s.last()));
                lemma_class_in_run(lt, s, x);
            } else {
                assert(groups[i] == run);
                assert(run[0] == s[k]);
                sorting::lemma_tied(lt, s.last(), s[k], s.last());
                lemma_class_in_run(lt, s, x);
            }
        }
        assert forall|i: int, j: int| 0 <= i < j < groups.len() implies lt(
            (#[trigger] groups[i])[0],
            (#[trigger] groups[j])[0],
        ) by {
            assert(groups[i] == rest[i]);
            if j < rest.len() {
                assert(groups[j] == rest[j]);
            } else {
                assert(low.contains(rest[i][0]));
                let m = choose|m: int| 0 <= m < low.len() && low[m] == rest[i][0];
                assert(lt(s[m], s.last()));
                assert(sorting::tied(lt, s.last(), s[k]));
                sorting::lemma_tied(lt, s.last(), s[k], s[m]);
            }
        }
        assert forall|x: T|
            s.contains(x) && (#[trigger] sorting::class_of(lt, s, x)).len() >= 2 implies groups.contains(
            sorting::class_of(lt, s, x),
        ) by {
            lemma_class_in_run(lt, s, x);
            if sorting::tied(lt, x, s.last()) {
                assert(groups[groups.len() - 1] == run);
            } else {
                let m = choose|m: int| 0 <= m < s.len() && s[m] == x;
                if m >= k {
                    sorting::lemma_tied(lt, s.last(), s[m], s.last());
                }
                assert(low[m] == x);
                assert(rest.contains(sorting::class_of(lt, low, x)));
                let i = choose|i: int|
                    0 <= i < rest.len() && rest[i] == sorting::class_of(lt, low, x);
                assert(groups[i] == rest[i]);
            }
        }
    }
}

/// The groups of duplicates are exactly the classes with at least two members,
/// in ascending order, and hold together no more items than there are.
pub proof fn duplicate_groups_are_the_classes<T>(lt: spec_fn(T, T) -> bool, items: Seq<T>)
    requires
        sorting::strict_weak_order(lt),
    ensures
        groups_classes(lt, items, duplicate_groups(lt, items)),
        duplicate_groups(lt, items).flatten().len() <= items.len(),
{
    let s = sorting::sorted(lt, items);
    sorting::sorted_is_stable(lt, items);
    lemma_long_runs(lt, s);
    let groups = duplicate_groups(lt, items);
    assert forall|i: int| 0 <= i < groups.len() implies (#[trigger] groups[i]).len() >= 2
        && groups[i] == sorting::class_of(lt, items, groups[i][0]) by {
        assert(sorting::class_of(lt, s, groups[i][0]) == sorting::class_of(
            lt,
            items,
            groups[i][0],
        ));
    }
    assert forall|x: T|
        items.contains(x) && (#[trigger] sorting::class_of(lt, items, x)).len()
            >= 2 implies groups.contains(sorting::class_of(lt, items, x)) by {
        assert(sorting::class_of(lt, s, x) == sorting::class_of(lt, items, x));
        sorting::lemma_filter_holds(items, |y: T| sorting::tied(lt, x, y));
        sorting::lemma_filter_holds(s, |y: T| sorting::tied(lt, x, y));
        sorting::lemma_tied(lt, x, x, x);
        assert(sorting::class_of(lt, items, x).contains(x));
        assert(s.contains(x));
    }
}

/// Groups the items that are tied in `order`, and drops those that are tied with
/// no other.
pub fn find_duplicates_by<T, O: Order<T>>(order: &O, items: Vec<T>) -> (groups: Vec<Vec<T>>)
    ensures
        contents(groups@) == duplicate_groups(order.lt(), items@),
        contents(groups@).flatten().len() <= items@.len(),
{
    let ghost lt = order.lt();
    let ghost items0 = items@;
    let mut rest = sort_by(order, items);
    let ghost whole = rest@;
    let mut back: Vec<Vec<T>> = Vec::new();
    proof {
        order.order_laws();
        assert(contents(back@).reverse() =~= Seq::<Seq<T>>::empty());
        assert(long_runs(lt, whole) + Seq::<Seq<T>>::empty() =~= long_runs(lt, whole));
    }
    while rest.len() > 0
        invariant
            lt == order.lt(),
            long_runs(lt, whole) == long_runs(lt, rest@) + contents(back@).reverse(),
        decreases rest@.len(),
    {
        let ghost rest0 = rest@;
        let ghost back0 = back@;
        let mut start: usize = rest.len() - 1;
        proof {
            assert(rest@.take(start + 1) =~= rest@);
        }
        while start > 0 && !order.before(&rest[start - 1], &rest[start])
            invariant
                lt == order.lt(),
                start < rest@.len(),
                run_start(lt, rest@) == run_start(lt, rest@.take(start + 1)),
            ensures
                start == run_start(lt, rest@),
            decreases start,
        {
            proof {
                let s = rest@.take(start + 1);
                assert(s.drop_last() =~= rest@.take(start as int));
            }
            start = start - 1;
        }
        let group = rest.split_off(start);
        proof {
            lemma_run_start(lt, rest0);
            assert(rest@ =~= rest0.take(start as int));
            assert(group@ =~= rest0.skip(start as int));
        }
        if group.len() >= 2 {
            back.push(group);
            proof {
                assert(contents(back@) =~= contents(back0).push(group@));
                assert(contents(back@).reverse() =~= seq![group@] + contents(back0).reverse());
                assert(long_runs(lt, whole) =~= long_runs(lt, rest@) + contents(back@).reverse());
            }
        }
    }
    let groups = reversed(back);
    proof {
        assert(contents(groups@) =~= contents(back@).reverse());
        assert(long_runs(lt, rest@) + contents(groups@) =~= contents(groups@));
        duplicate_groups_are_the_classes(lt, items0);
    }
    groups
}

proof fn lemma_runs_of_runs<T>(lt: spec_fn(T, T) -> bool, s: Seq<T>)
    requires
        sorting::strict_weak_order(lt),
        sorting::ascending(lt, s),
    ensures
        sorting::ascending(lt, long_runs(lt, s).flatten()),
        long_runs(lt, long_runs(lt, s).flatten()) == long_runs(lt, s),
        forall|i: int|
            0 <= i < long_runs(lt, s).flatten().len() ==> s.contains(
                #[trigger] long_runs(lt, s).flatten()[i],
            ),
    decreases s.len(),
{
    if s.len() > 0 {
        lemma_run(lt, s);
        let k = run_start(lt, s);
        let low = s.take(k);
        let run = s.skip(k);
        let rest = long_runs(lt, low);
        assert(sorting::ascending(lt, low));
        lemma_runs_of_runs(lt, low);
        rest.lemma_flatten_push(run);
        let below = rest.flatten();
        let flat = long_runs(lt, s).flatten();
        assert forall|i: int| 0 <= i < below.len() implies s.contains(#[trigger] below[i]) && lt(
            below[i],
            s.last(),
        ) by {
            let j = choose|j: int| 0 <= j < low.len() && low[j] == below[i];
            assert(s[j] == below[i]);
        }
        if run.len() >= 2 {
            assert(flat == below + run);
            let n = below.len() as int;
            assert forall|i: int| 0 <= i < run.len() implies s.contains(#[trigger] run[i])
                && sorting::tied(lt, s.last(), run[i]) by {
                assert(s[k + i] == run[i]);
            }
            assert forall|i: int, j: int| 0 <= i < j < flat.len() implies !lt(
                #[trigger] flat[j],
                #[trigger] flat[i],
            ) by {
                if j < n {
                    assert(!lt(below[j], below[i]));
                } else if i < n {
                    assert(lt(below[i], s.last()));
                    assert(sorting::tied(lt, s.last(), run[j - n]));
                    sorting::lemma_tied(lt, s.last(), run[j - n], below[i]);
                } else {
                    assert(!lt(s[k + (j - n)], s[k + (i - n)]));
                }
            }
            lemma_run(lt, flat);
            assert(flat.last() == s.last());
            let m = run_start(lt, flat);
            assert(m == n) by {
                if m < n {
                    assert(sorting::tied(lt, flat.last(), flat[m]));
                    assert(flat[m] == below[m]);
                    assert(lt(below[m], s.last()));
                } else if n < m {
                    assert(lt(flat[n], flat.last()));
                    assert(flat[n] == run[0]);
                    assert(sorting::tied(lt, s.last(), run[0]));
                }
            }
            assert(flat.take(n) =~= below);
            assert(flat.skip(n) =~= run);
            assert forall|i: int| 0 <= i < flat.len() implies s.contains(#[trigger] flat[i]) by {
                if i < n {
                    assert(flat[i] == below[i]);
                } else {
                    assert(flat[i] == run[i - n]);
                }
            }
        }
    }
}

proof fn lemma_runs_keep_classes<T>(lt: spec_fn(T, T) -> bool, s: Seq<T>, x: T)
    requires
        sorting::strict_weak_order(lt),
        sorting::ascending(lt, s),
    ensures
        sorting::class_of(lt, long_runs(lt, s).flatten(), x) == if sorting::class_of(
            lt,
            s,
            x,
        ).len() >= 2 {
            sorting::class_of(lt, s, x)
        } else {
            Seq::<T>::empty()
        },
    decreases s.len(),
{
    let pred = |y: T| sorting::tied(lt, x, y);
    if s.len() == 0 {
        assert(long_runs(lt, s).flatten() =~= Seq::<T>::empty());
        sorting::lemma_filter_none(s, pred);
        sorting::lemma_filter_none(long_runs(lt, s).flatten(), pred);
    } else {
        lemma_run(lt, s);
        lemma_class_in_run(lt, s, x);
        let k = run_start(lt, s);
        let low = s.take(k);
        let run = s.skip(k);
        let rest = long_runs(lt, low);
        assert(sorting::ascending(lt, low));
        lemma_runs_keep_classes(lt, low, x);
        rest.lemma_flatten_push(run);
        Seq::filter_distributes_over_add(rest.flatten(), run, pred);
        if sorting::tied(lt, x, s.last()) {
            assert forall|i: int| 0 <= i < low.len() implies !pred(#[trigger] low[i]) by {
                assert(lt(s[i], s.last()));
                sorting::lemma_tied(lt, x, s.last(), s[i]);
            }
            sorting::lemma_filter_none(low, pred);
            assert forall|i: int| 0 <= i < run.len() implies pred(#[trigger] run[i]) by {
                sorting::lemma_tied(lt, x, s.last(), s[k + i]);
            }
            sorting::lemma_filter_all(run, pred);
            assert(rest.flatten().filter(pred) + run =~= run);
        } else {
            assert forall|i: int| 0 <= i < run.len() implies !pred(#[trigger] run[i]) by {
                if pred(run[i]) {
                    sorting::lemma_tied(lt, s.last(), s[k + i], x);
                    sorting::lemma_tied(lt, x, s[k + i], s.last());
                }
            }
            sorting::lemma_filter_none(run, pred);
            assert(rest.flatten().filter(pred) + run.filter(pred) =~= rest.flatten().filter(pred));
        }
    }
}

/// What is kept of the items when those that are tied with no other are dropped
/// ascends, and of the items that are tied with `x` it holds all, as they stood, where
/// they are two or more, and none otherwise.
pub proof fn a_class_is_kept_whole_or_not_at_all<T>(
    lt: spec_fn(T, T) -> bool,
    items: Seq<T>,
    x: T,
)
    requires
        sorting::strict_weak_order(lt),
    ensures
        sorting::ascending(lt, duplicate_groups(lt, items).flatten()),
        sorting::class_of(lt, duplicate_groups(lt, items).flatten(), x) == if sorting::class_of(
            lt,
            items,
            x,
        ).len() >= 2 {
            sorting::class_of(lt, items, x)
        } else {
            Seq::<T>::empty()
        },
{
    let s = sorting::sorted(lt, items);
    sorting::sorted_is_stable(lt, items);
    lemma_runs_of_runs(lt, s);
    lemma_runs_keep_classes(lt, s, x);
    assert(sorting::class_of(lt, s, x) == sorting::class_of(lt, items, x));
}

/// Grouping the items that were grouped gives the same groups.
pub proof fn grouping_again_changes_nothing<T>(lt: spec_fn(T, T) -> bool, items: Seq<T>)
    requires
        sorting::strict_weak_order(lt),
    ensures
        duplicate_groups(lt, duplicate_groups(lt, items).flatten()) == duplicate_groups(lt, items),
{
    let s = sorting::sorted(lt, items);
    let flat = duplicate_groups(lt, items).flatten();
    sorting::sorted_is_stable(lt, items);
    lemma_runs_of_runs(lt, s);
    sorting::sorted_is_stable(lt, flat);
    sorting::stable_sort_is_unique(lt, flat, flat, sorting::sorted(lt, flat));
}

/// The runs of sequences that are ordered alike start at the same places.
proof fn lemma_run_start_alike<T>(lt: spec_fn(T, T) -> bool, s: Seq<T>, t: Seq<T>)
    requires
        s.len() == t.len(),
        forall|i: int, j: int|
            0 <= i < s.len() && 0 <= j < s.len() ==> lt(#[trigger] t[i], #[trigger] t[j]) == lt(
                s[i],
                s[j],
            ),
    ensures
        run_start(lt, s) == run_start(lt, t),
    decreases s.len(),
{
    if s.len() > 1 {
        let n = s.len() as int;
        assert(lt(t[n - 2], t[n - 1]) == lt(s[n - 2], s[n - 1]));
        let s0 = s.drop_last();
        let t0 = t.drop_last();
        assert forall|i: int, j: int| 0 <= i < s0.len() && 0 <= j < s0.len() implies lt(
            #[trigger] t0[i],
            #[trigger] t0[j],
        ) == lt(s0[i], s0[j]) by {
            assert(lt(t[i], t[j]) == lt(s[i], s[j]));
        }
        lemma_run_start_alike(lt, s0, t0);
    }
}

/// Where all items of an ascending sequence stand in long runs, the last run is one,
/// and all items before it stand in long runs.
proof fn lemma_all_in_runs<T>(lt: spec_fn(T, T) -> bool, s: Seq<T>)
    requires
        sorting::strict_weak_order(lt),
        sorting::ascending(lt, s),
        s.len() > 0,
        long_runs(lt, s).flatten() == s,
    ensures
        0 <= run_start(lt, s) <= s.len() - 2,
        sorting::ascending(lt, s.take(run_start(lt, s))),
        long_runs(lt, s.take(run_start(lt, s))).flatten() == s.take(run_start(lt, s)),
{
    lemma_run_start(lt, s);
    let k = run_start(lt, s);
    let s0 = s.take(k);
    let run = s.skip(k);
    let below = long_runs(lt, s0).flatten();
    assert(sorting::ascending(lt, s0));
    lemma_long_runs(lt, s0);
    long_runs(lt, s0).lemma_flatten_push(run);
    assert(s.len() - k >= 2);
    assert(below + run == s);
    assert(below =~= s0) by {
        assert forall|i: int| 0 <= i < k implies below[i] == s0[i] by {
            assert((below + run)[i] == below[i]);
        }
    }
}

proof fn lemma_runs_alike<T>(lt: spec_fn(T, T) -> bool, s: Seq<T>, t: Seq<T>)
    requires
        sorting::strict_weak_order(lt),
        sorting::ascending(lt, s),
        s.len() == t.len(),
        forall|i: int, j: int|
            0 <= i < s.len() && 0 <= j < s.len() ==> lt(#[trigger] t[i], #[trigger] t[j]) == lt(
                s[i],
                s[j],
            ),
        long_runs(lt, s).flatten() == s,
    ensures
        long_runs(lt, t).flatten() == t,
    decreases s.len(),
{
    if s.len() == 0 {
        assert(long_runs(lt, t).flatten() =~= t);
    } else {
        lemma_all_in_runs(lt, s);
        lemma_run_start_alike(lt, s, t);
        let k = run_start(lt, s);
        let s0 = s.take(k);
        let t0 = t.take(k);
        assert forall|i: int, j: int| 0 <= i < s0.len() && 0 <= j < s0.len() implies lt(
            #[trigger] t0[i],
            #[trigger] t0[j],
        ) == lt(s0[i], s0[j]) by {
            assert(lt(t[i], t[j]) == lt(s[i], s[j]));
        }
        lemma_runs_alike(lt, s0, t0);
        long_runs(lt, t0).lemma_flatten_push(t.skip(k));
        assert(t0 + t.skip(k) =~= t);
    }
}

/// Items that stand in the order of items that were grouped, and are tied where
/// these are, are all kept when they are grouped, in the same order.
pub proof fn grouping_what_is_ordered_alike_changes_nothing<T>(
    lt: spec_fn(T, T) -> bool,
    items: Seq<T>,
    alike: Seq<T>,
)
    requires
        sorting::strict_weak_order(lt),
        alike.len() == duplicate_groups(lt, items).flatten().len(),
        forall|i: int, j: int|
            0 <= i < alike.len() && 0 <= j < alike.len() ==> lt(
                #[trigger] alike[i],
                #[trigger] alike[j],
            ) == lt(
                duplicate_groups(lt, items).flatten()[i],
                duplicate_groups(lt, items).flatten()[j],
            ),
    ensures
        duplicate_groups(lt, alike).flatten() == alike,
{
    let s = sorting::sorted(lt, items);
    let flat = duplicate_groups(lt, items).flatten();
    sorting::sorted_is_stable(lt, items);
    lemma_runs_of_runs(lt, s);
    lemma_runs_alike(lt, flat, alike);
    assert(sorting::ascending(lt, alike)) by {
        assert forall|i: int, j: int| 0 <= i < j < alike.len() implies !lt(
            #[trigger] alike[j],
            #[trigger] alike[i],
        ) by {
            assert(!lt(flat[j], flat[i]));
        }
    }
    sorting::sorted_is_stable(lt, alike);
    sorting::stable_sort_is_unique(lt, alike, alike, sorting::sorted(lt, alike));
}

/// How many items the groups hold together.
pub open spec fn total_len<T>(groups: Seq<Seq<T>>) -> nat
    decreases groups.len(),
{
    if groups.len() == 0 {
        0
    } else {
        total_len(groups.drop_last()) + groups.last().len()
    }
}

/// The groups hold together as many items as stand in them one after the other.
pub proof fn lemma_total_len<T>(groups: Seq<Seq<T>>)
    ensures
        total_len(groups) == groups.flatten().len(),
    decreases groups.len(),
{
    if groups.len() > 0 {
        lemma_total_len(groups.drop_last());
        groups.drop_last().lemma_flatten_push(groups.last());
        assert(groups.drop_last().push(groups.last()) =~= groups);
    }
}

proof fn lemma_total_len_insert<T>(groups: Seq<Seq<T>>, k: int, group: Seq<T>)
    requires
        0 <= k <= groups.len(),
    ensures
        total_len(groups.insert(k, group)) == total_len(groups) + group.len(),
    decreases groups.len(),
{
    let more = groups.insert(k, group);
    if k == groups.len() {
        assert(more.drop_last() =~= groups);
    } else {
        lemma_total_len_insert(groups.drop_last(), k, group);
        assert(more.drop_last() =~= groups.drop_last().insert(k, group));
        assert(more.last() == groups.last());
    }
}

/// Sorted groups hold together as many items as before.
pub proof fn lemma_total_len_sorted<T>(lt: spec_fn(Seq<T>, Seq<T>) -> bool, groups: Seq<Seq<T>>)
    ensures
        total_len(sorting::sorted(lt, groups)) == total_len(groups),
    decreases groups.len(),
{
    if groups.len() > 0 {
        let rest = sorting::sorted(lt, groups.drop_last());
        lemma_total_len_sorted(lt, groups.drop_last());
        sorting::lemma_slot_range(lt, rest, groups.last());
        lemma_total_len_insert(rest, sorting::slot(lt, rest, groups.last()), groups.last());
    }
}

/// The first groups hold no more items than all groups.
pub proof fn lemma_total_len_take<T>(groups: Seq<Seq<T>>, k: int)
    requires
        0 <= k <= groups.len(),
    ensures
        total_len(groups.take(k)) <= total_len(groups),
    decreases groups.len(),
{
    if k == groups.len() {
        assert(groups.take(k) =~= groups);
    } else {
        lemma_total_len_take(groups.drop_last(), k);
        assert(groups.drop_last().take(k) =~= groups.take(k));
    }
}

/// The items of all groups, one group after the other.
pub fn flattened<T>(groups: Vec<Vec<T>>) -> (out: Vec<T>)
    ensures
        out@ == contents(groups@).flatten(),
{
    let ghost whole = contents(groups@);
    let mut rest = reversed(groups);
    let mut out: Vec<T> = Vec::new();
    let ghost mut done: int = 0;
    proof {
        assert(whole.take(0) =~= Seq::<Seq<T>>::empty());
    }
    while rest.len() > 0
        invariant
            0 <= done <= whole.len(),
            rest@.len() == whole.len() - done,
            contents(rest@) == whole.skip(done).reverse(),
            out@ == whole.take(done).flatten(),
        decreases rest@.len(),
    {
        let ghost rest0 = rest@;
        if let Some(group) = rest.pop() {
            let mut group = group;
            proof {
                assert(contents(rest0)[rest0.len() - 1] == group@);
                assert(whole.skip(done).reverse()[rest0.len() - 1] == whole[done]);
                whole.take(done).lemma_flatten_push(whole[done]);
                assert(whole.take(done).push(whole[done]) =~= whole.take(done + 1));
                assert(contents(rest@) =~= contents(rest0).drop_last());
                assert(whole.skip(done).reverse().drop_last() =~= whole.skip(done + 1).reverse());
                done = done + 1;
            }
            out.append(&mut group);
        }
    }
    proof {
        assert(whole.take(done) =~= whole);
    }
    out
}

} // verus!
