//! Sorting, grouping and selecting.
use crate::file_record;
use crate::file_record::{ByHash, ByHash4096, BySize, FileRecord};
use crate::filter_duplicates::{HasHash, HasHash4096, NotEmpty};
use crate::grouping;
use crate::grouping::{find_duplicates_by, flattened};
use crate::laws;
use crate::outcomes::choice;
use crate::selection::{retain, Test};
use crate::sorting;
use crate::sorting::{reversed, sort_by, Order};
use vstd::prelude::*;

verus! {

/// What passes one of two tests that agree on the items passes the other.
pub proof fn lemma_same_filter<T>(s: Seq<T>, p: spec_fn(T) -> bool, q: spec_fn(T) -> bool)
    requires
        forall|i: int| 0 <= i < s.len() ==> p(#[trigger] s[i]) == q(s[i]),
    ensures
        s.filter(p) == s.filter(q),
    decreases s.len(),
{
    reveal(Seq::filter);
    if s.len() > 0 {
        let rest = s.drop_last();
        assert forall|i: int| 0 <= i < rest.len() implies p(#[trigger] rest[i]) == q(rest[i]) by {
            assert(p(s[i]) == q(s[i]));
        }
        lemma_same_filter(rest, p, q);
        assert(p(s[s.len() - 1]) == q(s[s.len() - 1]));
    }
}

/// Sorting gives as many items, none below one before it, and leaves the items that
/// the order does not tell from `x` as they stood to each other, whatever `x` is.
pub proof fn sorting_orders_and_keeps_ties<T, O: Order<T>>(
    order: &O,
    items: Vec<T>,
    out: Vec<T>,
    x: T,
)
    requires
        call_ensures(sort_by::<T, O>, (order, items), out),
    ensures
        out@.len() == items@.len(),
        forall|i: int, j: int|
            0 <= i < j < out@.len() ==> !(order.lt())(#[trigger] out@[j], #[trigger] out@[i]),
        out@.filter(|y: T| !(order.lt())(x, y) && !(order.lt())(y, x)) == items@.filter(
            |y: T| !(order.lt())(x, y) && !(order.lt())(y, x),
        ),
{
    order.order_laws();
    let lt = order.lt();
    sorting::sorted_is_stable(lt, items@);
    let p = |y: T| !(order.lt())(x, y) && !(order.lt())(y, x);
    let q = |y: T| sorting::tied(lt, x, y);
    lemma_same_filter(out@, p, q);
    lemma_same_filter(items@, p, q);
    assert(sorting::class_of(lt, out@, x) == sorting::class_of(lt, items@, x));
}

/// The groups are those of the items that the order does not tell apart: each has at
/// least two items, namely all that it does not tell from the first, as they stood;
/// they ascend; and an item that is not told from another one is in a group.
pub proof fn grouping_gives_the_items_that_are_not_told_apart<T, O: Order<T>>(
    order: &O,
    items: Vec<T>,
    groups: Vec<Vec<T>>,
)
    requires
        call_ensures(find_duplicates_by::<T, O>, (order, items), groups),
    ensures
        forall|k: int|
            0 <= k < groups@.len() ==> (#[trigger] groups@[k])@.len() >= 2 && groups@[k]@
                == items@.filter(
                |y: T| !(order.lt())(groups@[k]@[0], y) && !(order.lt())(y, groups@[k]@[0]),
            ),
        forall|j: int, k: int|
            0 <= j < k < groups@.len() ==> (order.lt())(
                (#[trigger] groups@[j])@[0],
                (#[trigger] groups@[k])@[0],
            ),
        forall|i: int, j: int|
            0 <= i < items@.len() && 0 <= j < items@.len() && i != j && !(order.lt())(
                #[trigger] items@[i],
                #[trigger] items@[j],
            ) && !(order.lt())(items@[j], items@[i]) ==> exists|k: int|
                0 <= k < groups@.len() && (#[trigger] groups@[k])@.contains(items@[i]),
{
    order.order_laws();
    let lt = order.lt();
    let s = items@;
    let found = grouping::contents(groups@);
    grouping::duplicate_groups_are_the_classes(lt, s);
    assert forall|k: int| 0 <= k < groups@.len() implies (#[trigger] groups@[k])@.len() >= 2
        && groups@[k]@ == s.filter(
        |y: T| !(order.lt())(groups@[k]@[0], y) && !(order.lt())(y, groups@[k]@[0]),
    ) by {
        assert(found[k] == groups@[k]@);
        lemma_same_filter(
            s,
            |y: T| sorting::tied(lt, found[k][0], y),
            |y: T| !(order.lt())(groups@[k]@[0], y) && !(order.lt())(y, groups@[k]@[0]),
        );
    }
    assert forall|j: int, k: int| 0 <= j < k < groups@.len() implies (order.lt())(
        (#[trigger] groups@[j])@[0],
        (#[trigger] groups@[k])@[0],
    ) by {
        assert(found[j] == groups@[j]@ && found[k] == groups@[k]@);
    }
    assert forall|i: int, j: int|
        0 <= i < s.len() && 0 <= j < s.len() && i != j && !lt(#[trigger] s[i], #[trigger] s[j])
            && !lt(s[j], s[i]) implies exists|k: int|
        0 <= k < groups@.len() && (#[trigger] groups@[k])@.contains(s[i]) by {
        laws::lemma_both_at(s, i, j);
        laws::tied_items_share_a_group(lt, s, s[i], s[j]);
        let class = sorting::class_of(lt, s, s[i]);
        let k = choose|k: int| 0 <= k < found.len() && found[k] == class;
        assert(groups@[k]@ == class);
        let (a, b) = choose|a: int, b: int|
            0 <= a < class.len() && 0 <= b < class.len() && a != b && #[trigger] class[a] == s[i]
                && #[trigger] class[b] == s[j];
        assert(class.contains(s[i]));
    }
}

/// Groups are laid out one behind the other: a further group comes behind the others.
pub proof fn groups_are_laid_out_one_by_one<T>(
    groups: Vec<Vec<T>>,
    longer: Vec<Vec<T>>,
    out: Vec<T>,
    more: Vec<T>,
)
    requires
        call_ensures(flattened::<T>, (groups,), out),
        call_ensures(flattened::<T>, (longer,), more),
        longer@.len() == groups@.len() + 1,
        longer@.drop_last() == groups@,
    ensures
        more@ == out@ + longer@.last()@,
        groups@.len() == 0 ==> out@.len() == 0,
{
    let a = grouping::contents(groups@);
    let b = grouping::contents(longer@);
    assert(b =~= a.push(longer@.last()@)) by {
        assert forall|i: int| 0 <= i < a.len() implies a[i] == b[i] by {
            assert(longer@.drop_last()[i] == longer@[i]);
        }
    }
    a.lemma_flatten_push(longer@.last()@);
}

/// Reversing turns the order round.
pub proof fn reversing_turns_round<T>(items: Vec<T>, out: Vec<T>)
    requires
        call_ensures(reversed::<T>, (items,), out),
    ensures
        out@.len() == items@.len(),
        forall|i: int|
            0 <= i < out@.len() ==> #[trigger] out@[i] == items@[items@.len() - 1 - i],
{
}

/// Selecting keeps the items that pass, in their order: a further item comes behind
/// the others where it passes, and changes nothing where it does not.
pub proof fn selecting_keeps_what_passes<T, P: Test<T>>(
    test: &P,
    items: Vec<T>,
    longer: Vec<T>,
    x: T,
    out: Vec<T>,
    more: Vec<T>,
)
    requires
        call_ensures(retain::<T, P>, (test, items), out),
        call_ensures(retain::<T, P>, (test, longer), more),
        longer@ == items@.push(x),
    ensures
        more@ == if (test.passing())(x) {
            out@.push(x)
        } else {
            out@
        },
        items@.len() == 0 ==> out@.len() == 0,
{
    reveal(Seq::filter);
    assert(longer@.drop_last() =~= items@);
}

/// Which files the tests pass.
pub proof fn the_tests_pass_their_files(file: FileRecord)
    ensures
        (NotEmpty.passing())(file) <==> file.size > 0,
        (Test::<FileRecord>::passing(&HasHash4096))(file) <==> file.hash_4096 is Some,
        (Test::<FileRecord>::passing(&HasHash))(file) <==> file.hash is Some,
{
}

/// The text of a hash, where there is one.
pub open spec fn text_of(hash: Option<String>) -> Option<Seq<char>> {
    match hash {
        Some(text) => Some(text@),
        None => None,
    }
}

/// `a` is missing and `b` is not, or the bytes of `a` come first.
pub open spec fn hash_comes_first(a: Option<String>, b: Option<String>) -> bool {
    match (a, b) {
        (None, Some(_)) => true,
        (Some(x), Some(y)) => exists|k: int|
            choice::bytes_part_at(
                vstd::utf8::encode_utf8(x@),
                vstd::utf8::encode_utf8(y@),
                k,
            ),
        _ => false,
    }
}

pub proof fn lemma_hash_order(a: Option<String>, b: Option<String>)
    ensures
        file_record::hash_order()(file_record::hash_text(a), file_record::hash_text(b))
            <==> hash_comes_first(a, b),
{
    if let (Some(x), Some(y)) = (a, b) {
        choice::lemma_bytes_before(
            vstd::utf8::encode_utf8(x@),
            vstd::utf8::encode_utf8(y@),
        );
    }
}

/// Files are ordered by what their order names, the smaller first.
pub proof fn files_are_ordered_by_size_and_hashes(a: FileRecord, b: FileRecord)
    ensures
        (BySize.lt())(a, b) <==> a.size < b.size,
        (ByHash4096.lt())(a, b) <==> hash_comes_first(a.hash_4096, b.hash_4096),
        (Order::<FileRecord>::lt(&ByHash))(a, b) <==> hash_comes_first(a.hash, b.hash),
{
    lemma_hash_order(a.hash_4096, b.hash_4096);
    lemma_hash_order(a.hash, b.hash);
}

/// The orders tell files apart exactly where the sizes or hashes differ.
pub proof fn files_are_told_apart_by_size_and_hashes(a: FileRecord, b: FileRecord)
    ensures
        !(BySize.lt())(a, b) && !(BySize.lt())(b, a) <==> a.size == b.size,
        !(ByHash4096.lt())(a, b) && !(ByHash4096.lt())(b, a) <==> text_of(a.hash_4096) == text_of(
            b.hash_4096,
        ),
        !(Order::<FileRecord>::lt(&ByHash))(a, b) && !(Order::<FileRecord>::lt(&ByHash))(b, a)
            <==> text_of(a.hash) == text_of(b.hash),
{
    file_record::tied_by_size(a, b);
    file_record::tied_by_hash_4096(a, b);
    file_record::tied_by_hash(a, b);
}

} // verus!
