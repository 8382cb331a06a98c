//! Stable sorting by an order.
use vstd::prelude::*;

verus! {

/// `lt` is a strict weak order: of two elements at most one is below the other,
/// and an element below a third one is below every second one or that one is
/// below the third.
pub open spec fn strict_weak_order<T>(lt: spec_fn(T, T) -> bool) -> bool {
    &&& forall|a: T, b: T| #[trigger] lt(a, b) ==> !lt(b, a)
    &&& forall|a: T, b: T, c: T| #[trigger] lt(a, c) ==> #[trigger] lt(a, b) || lt(b, c)
}

/// An order of the values of a type, with a way to compare two of them.
pub trait Order<T> {
    /// `lt(a, b)` says that `a` is below `b`.
    spec fn lt(&self) -> spec_fn(T, T) -> bool;

    /// The order is a strict weak order.
    proof fn order_laws(&self)
        ensures
            strict_weak_order(self.lt()),
    ;

    /// Whether `a` is below `b`.
    fn before(&self, a: &T, b: &T) -> (before: bool)
        ensures
            before == (self.lt())(*a, *b),
    ;
}

/// Neither of the two is below the other.
pub open spec fn tied<T>(lt: spec_fn(T, T) -> bool, a: T, b: T) -> bool {
    !lt(a, b) && !lt(b, a)
}

/// The elements that are tied with `x`, in the order in which they stand in `s`.
pub open spec fn class_of<T>(lt: spec_fn(T, T) -> bool, s: Seq<T>, x: T) -> Seq<T> {
    s.filter(|y: T| tied(lt, x, y))
}

/// No element of `s` is below one that stands before it.
pub open spec fn ascending<T>(lt: spec_fn(T, T) -> bool, s: Seq<T>) -> bool {
    forall|i: int, j: int| 0 <= i < j < s.len() ==> !lt(#[trigger] s[j], #[trigger] s[i])
}

/// `t` is `s` sorted stably: it ascends, and tied elements stand in the same
/// order in both.
pub open spec fn stably_sorted<T>(lt: spec_fn(T, T) -> bool, s: Seq<T>, t: Seq<T>) -> bool {
    &&& ascending(lt, t)
    &&& forall|x: T| #[trigger] class_of(lt, t, x) == class_of(lt, s, x)
}

/// The position in `s` behind the last element that `x` is not below.
pub open spec fn slot<T>(lt: spec_fn(T, T) -> bool, s: Seq<T>, x: T) -> int
    decreases s.len(),
{
    if s.len() == 0 || !lt(x, s.last()) {
        s.len() as int
    } else {
        slot(lt, s.drop_last(), x)
    }
}

/// `s` sorted stably.
pub open spec fn sorted<T>(lt: spec_fn(T, T) -> bool, s: Seq<T>) -> Seq<T>
    decreases s.len(),
{
    if s.len() == 0 {
        s
    } else {
        let rest = sorted(lt, s.drop_last());
        rest.insert(slot(lt, rest, s.last()), s.last())
    }
}

proof fn lemma_filter_push<T>(s: Seq<T>, x: T, pred: spec_fn(T) -> bool)
    ensures
        s.push(x).filter(pred) == if pred(x) {
            s.filter(pred).push(x)
        } else {
            s.filter(pred)
        },
{
    reveal(Seq::filter);
    assert(s.push(x).drop_last() =~= s);
}

/// Where no element fulfils `pred`, the filtered sequence is empty.
pub proof fn lemma_filter_none<T>(s: Seq<T>, pred: spec_fn(T) -> bool)
    requires
        forall|i: int| 0 <= i < s.len() ==> !pred(#[trigger] s[i]),
    ensures
        s.filter(pred) == Seq::<T>::empty(),
    decreases s.len(),
{
    reveal(Seq::filter);
    if s.len() > 0 {
        lemma_filter_none(s.drop_last(), pred);
    }
}

/// Where all elements fulfil `pred`, the filtered sequence is the sequence itself.
pub proof fn lemma_filter_all<T>(s: Seq<T>, pred: spec_fn(T) -> bool)
    requires
        forall|i: int| 0 <= i < s.len() ==> pred(#[trigger] s[i]),
    ensures
        s.filter(pred) == s,
    decreases s.len(),
{
    reveal(Seq::filter);
    if s.len() > 0 {
        lemma_filter_all(s.drop_last(), pred);
        assert(s.drop_last().push(s.last()) =~= s);
    }
}

/// What a filtered sequence holds.
pub proof fn lemma_filter_holds<T>(s: Seq<T>, pred: spec_fn(T) -> bool)
    ensures
        forall|x: T| #[trigger] s.filter(pred).contains(x) <==> s.contains(x) && pred(x),
    decreases s.len(),
{
    reveal(Seq::filter);
    if s.len() > 0 {
        let rest = s.drop_last();
        lemma_filter_holds(rest, pred);
        assert(s =~= rest.push(s.last()));
        assert forall|x: T| #[trigger]
            s.filter(pred).contains(x) <==> s.contains(x) && pred(x) by {
            lemma_filter_push(rest, s.last(), pred);
            lemma_contains_push(rest, s.last(), x);
            lemma_contains_push(rest.filter(pred), s.last(), x);
            assert(rest.filter(pred).contains(x) <==> rest.contains(x) && pred(x));
        }
    } else {
        assert(s.filter(pred) =~= s);
    }
}

proof fn lemma_contains_push<T>(s: Seq<T>, y: T, x: T)
    ensures
        s.push(y).contains(x) <==> s.contains(x) || x == y,
{
    if s.contains(x) {
        let i = choose|i: int| 0 <= i < s.len() && s[i] == x;
        assert(s.push(y)[i] == x);
    }
    if x == y {
        assert(s.push(y)[s.len() as int] == x);
    }
}

/// Being tied is an equivalence.
pub proof fn lemma_tied<T>(lt: spec_fn(T, T) -> bool, a: T, b: T, c: T)
    requires
        strict_weak_order(lt),
    ensures
        tied(lt, a, a),
        tied(lt, a, b) ==> tied(lt, b, a),
        tied(lt, a, b) && tied(lt, b, c) ==> tied(lt, a, c),
        tied(lt, a, b) ==> lt(a, c) == lt(b, c) && lt(c, a) == lt(c, b),
{
    if tied(lt, a, b) {
        if lt(a, c) {
            assert(lt(a, b) || lt(b, c));
        }
        if lt(b, c) {
            assert(lt(b, a) || lt(a, c));
        }
        if lt(c, a) {
            assert(lt(c, b) || lt(b, a));
        }
        if lt(c, b) {
            assert(lt(c, a) || lt(a, b));
        }
    }
}

/// Tied elements have the same class.
pub proof fn lemma_class_of_tied<T>(lt: spec_fn(T, T) -> bool, s: Seq<T>, x: T, y: T)
    requires
        strict_weak_order(lt),
        tied(lt, x, y),
    ensures
        class_of(lt, s, x) == class_of(lt, s, y),
    decreases s.len(),
{
    reveal(Seq::filter);
    if s.len() > 0 {
        lemma_class_of_tied(lt, s.drop_last(), x, y);
        lemma_tied(lt, x, y, s.last());
    }
}

/// At most one sequence is a given one sorted stably.
pub proof fn stable_sort_is_unique<T>(lt: spec_fn(T, T) -> bool, s: Seq<T>, t: Seq<T>, u: Seq<T>)
    requires
        strict_weak_order(lt),
        stably_sorted(lt, s, t),
        stably_sorted(lt, s, u),
    ensures
        t == u,
{
    assert forall|x: T| #[trigger] class_of(lt, t, x) == class_of(lt, u, x) by {
        assert(class_of(lt, t, x) == class_of(lt, s, x));
        assert(class_of(lt, u, x) == class_of(lt, s, x));
    }
    lemma_same_classes(lt, t, u);
}

proof fn lemma_same_classes<T>(lt: spec_fn(T, T) -> bool, t: Seq<T>, u: Seq<T>)
    requires
        strict_weak_order(lt),
        ascending(lt, t),
        ascending(lt, u),
        forall|x: T| #[trigger] class_of(lt, t, x) == class_of(lt, u, x),
    ensures
        t == u,
    decreases t.len(),
{
    if t.len() == 0 {
        if u.len() > 0 {
            lemma_class_last(lt, u);
            lemma_filter_none(t, |y: T| tied(lt, u.last(), y));
            assert(class_of(lt, t, u.last()) == class_of(lt, u, u.last()));
        }
        assert(t =~= u);
    } else {
        let x = t.last();
        lemma_class_last(lt, t);
        assert(class_of(lt, t, x) == class_of(lt, u, x));
        lemma_filter_holds(u, |y: T| tied(lt, x, y));
        assert(class_of(lt, u, x).contains(x)) by {
            assert(class_of(lt, t, x).last() == x);
            assert(class_of(lt, u, x)[class_of(lt, u, x).len() - 1] == x);
        }
        assert(u.contains(x));
        let y = u.last();
        lemma_class_last(lt, u);
        assert(class_of(lt, t, y) == class_of(lt, u, y));
        lemma_filter_holds(t, |z: T| tied(lt, y, z));
        assert(class_of(lt, t, y).contains(y)) by {
            assert(class_of(lt, t, y)[class_of(lt, t, y).len() - 1] == y);
        }
        assert(t.contains(y));
        let i = choose|i: int| 0 <= i < u.len() && u[i] == x;
        let j = choose|j: int| 0 <= j < t.len() && t[j] == y;
        assert(!lt(y, x)) by {
            if i < u.len() - 1 {
                assert(!lt(u[u.len() - 1], u[i]));
            }
        }
        assert(!lt(x, y)) by {
            if j < t.len() - 1 {
                assert(!lt(t[t.len() - 1], t[j]));
            }
        }
        lemma_class_of_tied(lt, u, x, y);
        assert(x == y);
        let t0 = t.drop_last();
        let u0 = u.drop_last();
        assert(t =~= t0.push(x));
        assert(u =~= u0.push(x));
        assert forall|z: T| #[trigger] class_of(lt, t0, z) == class_of(lt, u0, z) by {
            let pred = |w: T| tied(lt, z, w);
            lemma_filter_push(t0, x, pred);
            lemma_filter_push(u0, x, pred);
            assert(class_of(lt, t, z) == class_of(lt, u, z));
            if pred(x) {
                assert(t0.filter(pred) =~= t0.filter(pred).push(x).drop_last());
                assert(u0.filter(pred) =~= u0.filter(pred).push(x).drop_last());
            }
        }
        lemma_same_classes(lt, t0, u0);
    }
}

proof fn lemma_class_last<T>(lt: spec_fn(T, T) -> bool, s: Seq<T>)
    requires
        strict_weak_order(lt),
        s.len() > 0,
    ensures
        class_of(lt, s, s.last()).len() > 0,
        class_of(lt, s, s.last()).last() == s.last(),
{
    let pred = |y: T| tied(lt, s.last(), y);
    lemma_tied(lt, s.last(), s.last(), s.last());
    lemma_filter_push(s.drop_last(), s.last(), pred);
    assert(s =~= s.drop_last().push(s.last()));
}

proof fn lemma_slot<T>(lt: spec_fn(T, T) -> bool, s: Seq<T>, x: T)
    requires
        strict_weak_order(lt),
        ascending(lt, s),
    ensures
        0 <= slot(lt, s, x) <= s.len(),
        forall|i: int| 0 <= i < slot(lt, s, x) ==> !lt(x, #[trigger] s[i]),
        forall|i: int| slot(lt, s, x) <= i < s.len() ==> lt(x, #[trigger] s[i]),
    decreases s.len(),
{
    if s.len() == 0 {
    } else if !lt(x, s.last()) {
        assert forall|i: int| 0 <= i < s.len() implies !lt(x, #[trigger] s[i]) by {
            if lt(x, s[i]) && i < s.len() - 1 {
                assert(!lt(s[s.len() - 1], s[i]));
                assert(lt(x, s.last()) || lt(s.last(), s[i]));
            }
        }
    } else {
        lemma_slot(lt, s.drop_last(), x);
        assert forall|i: int| 0 <= i < slot(lt, s, x) implies !lt(x, #[trigger] s[i]) by {
            assert(s[i] == s.drop_last()[i]);
        }
        assert forall|i: int| slot(lt, s, x) <= i < s.len() implies lt(x, #[trigger] s[i]) by {
            if i < s.len() - 1 {
                assert(s[i] == s.drop_last()[i]);
            }
        }
    }
}

/// `sorted` sorts stably.
pub proof fn sorted_is_stable<T>(lt: spec_fn(T, T) -> bool, s: Seq<T>)
    requires
        strict_weak_order(lt),
    ensures
        stably_sorted(lt, s, sorted(lt, s)),
        sorted(lt, s).len() == s.len(),
    decreases s.len(),
{
    if s.len() > 0 {
        let s0 = s.drop_last();
        let x = s.last();
        sorted_is_stable(lt, s0);
        let rest = sorted(lt, s0);
        lemma_slot(lt, rest, x);
        let k = slot(lt, rest, x);
        let t = rest.insert(k, x);
        assert(t == sorted(lt, s));
        assert(ascending(lt, t)) by {
            assert forall|i: int, j: int| 0 <= i < j < t.len() implies !lt(
                #[trigger] t[j],
                #[trigger] t[i],
            ) by {
                if j < k {
                    assert(!lt(rest[j], rest[i]));
                } else if j == k {
                } else if i < k {
                    assert(!lt(rest[j - 1], rest[i]));
                } else if i == k {
                    assert(lt(x, rest[j - 1]));
                } else {
                    assert(!lt(rest[j - 1], rest[i - 1]));
                }
            }
        }
        let low = rest.take(k);
        let high = rest.skip(k);
        assert(rest =~= low + high);
        assert(t =~= low.push(x) + high);
        assert(s =~= s0.push(x));
        assert forall|z: T| #[trigger] class_of(lt, t, z) == class_of(lt, s, z) by {
            let pred = |y: T| tied(lt, z, y);
            Seq::filter_distributes_over_add(low, high, pred);
            Seq::filter_distributes_over_add(low.push(x), high, pred);
            lemma_filter_push(low, x, pred);
            lemma_filter_push(s0, x, pred);
            assert(class_of(lt, rest, z) == class_of(lt, s0, z));
            if pred(x) {
                assert forall|i: int| 0 <= i < high.len() implies !pred(#[trigger] high[i]) by {
                    assert(lt(x, rest[k + i]));
                    lemma_tied(lt, z, x, rest[k + i]);
                }
                lemma_filter_none(high, pred);
                assert(low.filter(pred).push(x) + high.filter(pred) =~= (low.filter(pred)
                    + high.filter(pred)).push(x));
            }
        }
    }
}

/// Sorting neither adds nor loses an element.
pub proof fn lemma_sorted_holds<T>(lt: spec_fn(T, T) -> bool, s: Seq<T>, x: T)
    ensures
        sorted(lt, s).contains(x) <==> s.contains(x),
    decreases s.len(),
{
    if s.len() > 0 {
        let rest = sorted(lt, s.drop_last());
        let y = s.last();
        let k = slot(lt, rest, y);
        lemma_sorted_holds(lt, s.drop_last(), x);
        lemma_slot_range(lt, rest, y);
        let t = rest.insert(k, y);
        assert(s =~= s.drop_last().push(y));
        lemma_contains_push(s.drop_last(), y, x);
        if rest.contains(x) {
            let i = choose|i: int| 0 <= i < rest.len() && rest[i] == x;
            assert(t[if i < k { i } else { i + 1 }] == x);
        }
        if x == y {
            assert(t[k] == x);
        }
        if t.contains(x) && x != y {
            let i = choose|i: int| 0 <= i < t.len() && t[i] == x;
            assert(rest[if i < k { i } else { i - 1 }] == x);
        }
    }
}

/// The place of an element lies within the sequence or at its end.
pub proof fn lemma_slot_range<T>(lt: spec_fn(T, T) -> bool, s: Seq<T>, x: T)
    ensures
        0 <= slot(lt, s, x) <= s.len(),
    decreases s.len(),
{
    if s.len() > 0 && lt(x, s.last()) {
        lemma_slot_range(lt, s.drop_last(), x);
    }
}

proof fn lemma_slot_of_mapped<A, B>(
    lt: spec_fn(A, A) -> bool,
    mt: spec_fn(B, B) -> bool,
    f: spec_fn(A) -> B,
    s: Seq<A>,
    x: A,
)
    requires
        forall|a: A, b: A| #[trigger] lt(a, b) == mt(f(a), f(b)),
    ensures
        slot(mt, s.map_values(f), f(x)) == slot(lt, s, x),
    decreases s.len(),
{
    if s.len() > 0 {
        assert(lt(x, s.last()) == mt(f(x), f(s.last())));
        assert(s.map_values(f).last() == f(s.last()));
        assert(s.map_values(f).drop_last() =~= s.drop_last().map_values(f));
        lemma_slot_of_mapped(lt, mt, f, s.drop_last(), x);
    }
}

/// Sorting what a map gives is the same as mapping what is sorted, where the map
/// keeps the order.
pub proof fn sorted_of_mapped<A, B>(
    lt: spec_fn(A, A) -> bool,
    mt: spec_fn(B, B) -> bool,
    f: spec_fn(A) -> B,
    s: Seq<A>,
)
    requires
        forall|a: A, b: A| #[trigger] lt(a, b) == mt(f(a), f(b)),
    ensures
        sorted(mt, s.map_values(f)) == sorted(lt, s).map_values(f),
    decreases s.len(),
{
    let t = s.map_values(f);
    if s.len() > 0 {
        let rest = sorted(lt, s.drop_last());
        sorted_of_mapped(lt, mt, f, s.drop_last());
        assert(t.drop_last() =~= s.drop_last().map_values(f));
        lemma_slot_of_mapped(lt, mt, f, rest, s.last());
        lemma_slot_range(lt, rest, s.last());
        let k = slot(lt, rest, s.last());
        assert(rest.insert(k, s.last()).map_values(f) =~= rest.map_values(f).insert(
            k,
            f(s.last()),
        ));
    } else {
        assert(t =~= Seq::<B>::empty());
        assert(s.map_values(f) =~= Seq::<B>::empty());
        assert(sorted(lt, s).map_values(f) =~= Seq::<B>::empty());
    }
}

/// The elements of `v` in the opposite order.
pub fn reversed<T>(v: Vec<T>) -> (out: Vec<T>)
    ensures
        out@ == v@.reverse(),
{
    let ghost whole = v@;
    let mut rest = v;
    let mut out: Vec<T> = Vec::new();
    while rest.len() > 0
        invariant
            rest@.len() + out@.len() == whole.len(),
            rest@ == whole.take(rest@.len() as int),
            out@ == whole.skip(rest@.len() as int).reverse(),
        decreases rest@.len(),
    {
        let ghost n = rest@.len() as int;
        if let Some(x) = rest.pop() {
            out.push(x);
            proof {
                assert(rest@ =~= whole.take(n - 1));
                assert(out@ =~= whole.skip(n - 1).reverse());
            }
        }
    }
    proof {
        assert(whole.skip(0) =~= whole);
    }
    out
}

/// What merging keeps: the unmerged rests `left` and `right` and the merged `tail`
/// ascend, nothing in `tail` is below what is unmerged, and together they hold
/// the classes of `left0` followed by `right0`.
spec fn merging<T>(
    lt: spec_fn(T, T) -> bool,
    left0: Seq<T>,
    right0: Seq<T>,
    left: Seq<T>,
    right: Seq<T>,
    tail: Seq<T>,
) -> bool {
    &&& ascending(lt, left)
    &&& ascending(lt, right)
    &&& ascending(lt, tail)
    &&& forall|i: int, j: int|
        0 <= i < tail.len() && 0 <= j < left.len() ==> !lt(#[trigger] tail[i], #[trigger] left[j])
    &&& forall|i: int, j: int|
        0 <= i < tail.len() && 0 <= j < right.len() ==> !lt(#[trigger] tail[i], #[trigger] right[j])
    &&& forall|x: T| #[trigger]
        class_of(lt, left + right + tail, x) == class_of(lt, left0 + right0, x)
}

proof fn lemma_merge_left<T>(
    lt: spec_fn(T, T) -> bool,
    left0: Seq<T>,
    right0: Seq<T>,
    left: Seq<T>,
    right: Seq<T>,
    tail: Seq<T>,
)
    requires
        strict_weak_order(lt),
        merging(lt, left0, right0, left, right, tail),
        left.len() > 0,
        forall|j: int| 0 <= j < right.len() ==> lt(#[trigger] right[j], left.last()),
    ensures
        merging(lt, left0, right0, left.drop_last(), right, seq![left.last()] + tail),
{
    let l = left.last();
    let left1 = left.drop_last();
    let tail1 = seq![l] + tail;
    assert(ascending(lt, tail1)) by {
        assert forall|i: int, j: int| 0 <= i < j < tail1.len() implies !lt(
            #[trigger] tail1[j],
            #[trigger] tail1[i],
        ) by {
            assert(tail1[j] == tail[j - 1]);
            if i == 0 {
                assert(!lt(tail[j - 1], left[left.len() - 1]));
            } else {
                assert(!lt(tail[j - 1], tail[i - 1]));
            }
        }
    }
    assert forall|i: int, j: int| 0 <= i < tail1.len() && 0 <= j < left1.len() implies !lt(
        #[trigger] tail1[i],
        #[trigger] left1[j],
    ) by {
        if i == 0 {
            assert(!lt(left[left.len() - 1], left[j]));
        } else {
            assert(!lt(tail[i - 1], left[j]));
        }
    }
    assert forall|i: int, j: int| 0 <= i < tail1.len() && 0 <= j < right.len() implies !lt(
        #[trigger] tail1[i],
        #[trigger] right[j],
    ) by {
        if i == 0 {
            assert(lt(right[j], l));
        } else {
            assert(!lt(tail[i - 1], right[j]));
        }
    }
    assert forall|x: T| #[trigger]
        class_of(lt, left1 + right + tail1, x) == class_of(lt, left0 + right0, x) by {
        assert(class_of(lt, left + right + tail, x) == class_of(lt, left0 + right0, x));
        let pred = |y: T| tied(lt, x, y);
        let one = seq![l];
        assert(left =~= left1 + one);
        lemma_filter_parts(left1 + one, right, tail, pred);
        lemma_filter_parts(left1, right, one + tail, pred);
        Seq::filter_distributes_over_add(left1, one, pred);
        Seq::filter_distributes_over_add(one, tail, pred);
        if pred(l) {
            assert forall|j: int| 0 <= j < right.len() implies !pred(#[trigger] right[j]) by {
                lemma_tied(lt, x, l, right[j]);
            }
            lemma_filter_none(right, pred);
        } else {
            lemma_filter_none(one, pred);
        }
        assert(left1.filter(pred) + one.filter(pred) + right.filter(pred) + tail.filter(pred)
            =~= left1.filter(pred) + right.filter(pred) + (one.filter(pred) + tail.filter(pred)));
    }
}

proof fn lemma_merge_right<T>(
    lt: spec_fn(T, T) -> bool,
    left0: Seq<T>,
    right0: Seq<T>,
    left: Seq<T>,
    right: Seq<T>,
    tail: Seq<T>,
)
    requires
        strict_weak_order(lt),
        merging(lt, left0, right0, left, right, tail),
        right.len() > 0,
        forall|j: int| 0 <= j < left.len() ==> !lt(right.last(), #[trigger] left[j]),
    ensures
        merging(lt, left0, right0, left, right.drop_last(), seq![right.last()] + tail),
{
    let r = right.last();
    let right1 = right.drop_last();
    let tail1 = seq![r] + tail;
    assert(ascending(lt, tail1)) by {
        assert forall|i: int, j: int| 0 <= i < j < tail1.len() implies !lt(
            #[trigger] tail1[j],
            #[trigger] tail1[i],
        ) by {
            assert(tail1[j] == tail[j - 1]);
            if i == 0 {
                assert(!lt(tail[j - 1], right[right.len() - 1]));
            } else {
                assert(!lt(tail[j - 1], tail[i - 1]));
            }
        }
    }
    assert forall|i: int, j: int| 0 <= i < tail1.len() && 0 <= j < left.len() implies !lt(
        #[trigger] tail1[i],
        #[trigger] left[j],
    ) by {
        if i > 0 {
            assert(!lt(tail[i - 1], left[j]));
        }
    }
    assert forall|i: int, j: int| 0 <= i < tail1.len() && 0 <= j < right1.len() implies !lt(
        #[trigger] tail1[i],
        #[trigger] right1[j],
    ) by {
        if i == 0 {
            assert(!lt(right[right.len() - 1], right[j]));
        } else {
            assert(!lt(tail[i - 1], right[j]));
        }
    }
    assert forall|x: T| #[trigger]
        class_of(lt, left + right1 + tail1, x) == class_of(lt, left0 + right0, x) by {
        assert(class_of(lt, left + right + tail, x) == class_of(lt, left0 + right0, x));
        assert(left + right1 + tail1 =~= left + right + tail);
    }
}

proof fn lemma_filter_parts<T>(a: Seq<T>, b: Seq<T>, c: Seq<T>, pred: spec_fn(T) -> bool)
    ensures
        (a + b + c).filter(pred) == a.filter(pred) + b.filter(pred) + c.filter(pred),
{
    Seq::filter_distributes_over_add(a + b, c, pred);
    Seq::filter_distributes_over_add(a, b, pred);
}

/// Merges two ascending vectors; what is tied stands in the order of `left`
/// followed by `right`.
fn merge<T, O: Order<T>>(order: &O, left: Vec<T>, right: Vec<T>) -> (merged: Vec<T>)
    requires
        ascending(order.lt(), left@),
        ascending(order.lt(), right@),
    ensures
        stably_sorted(order.lt(), left@ + right@, merged@),
{
    let ghost lt = order.lt();
    let ghost left0 = left@;
    let ghost right0 = right@;
    let mut left = left;
    let mut right = right;
    let mut tail: Vec<T> = Vec::new();
    proof {
        order.order_laws();
        assert(tail@.reverse() =~= Seq::<T>::empty());
        assert(left0 + right0 + Seq::<T>::empty() =~= left0 + right0);
    }
    while left.len() > 0 || right.len() > 0
        invariant
            lt == order.lt(),
            strict_weak_order(lt),
            merging(lt, left0, right0, left@, right@, tail@.reverse()),
        decreases left@.len() + right@.len(),
    {
        let ghost l0 = left@;
        let ghost r0 = right@;
        let ghost t0 = tail@;
        let take_left = if left.len() == 0 {
            false
        } else if right.len() == 0 {
            true
        } else {
            order.before(&right[right.len() - 1], &left[left.len() - 1])
        };
        if take_left {
            proof {
                assert forall|j: int| 0 <= j < r0.len() implies lt(
                    #[trigger] r0[j],
                    l0.last(),
                ) by {
                    assert(lt(r0[r0.len() - 1], l0.last()));
                    if j < r0.len() - 1 {
                        assert(!lt(r0[r0.len() - 1], r0[j]));
                        assert(lt(r0.last(), r0[j]) || lt(r0[j], l0.last()));
                    }
                }
                lemma_merge_left(lt, left0, right0, l0, r0, t0.reverse());
            }
            if let Some(x) = left.pop() {
                tail.push(x);
                proof {
                    assert(left@ =~= l0.drop_last());
                    assert(tail@.reverse() =~= seq![x] + t0.reverse());
                }
            }
        } else {
            proof {
                assert forall|j: int| 0 <= j < l0.len() implies !lt(
                    r0.last(),
                    #[trigger] l0[j],
                ) by {
                    if j < l0.len() - 1 && lt(r0.last(), l0[j]) {
                        assert(!lt(l0[l0.len() - 1], l0[j]));
                        assert(lt(r0.last(), l0.last()) || lt(l0.last(), l0[j]));
                    }
                }
                lemma_merge_right(lt, left0, right0, l0, r0, t0.reverse());
            }
            if let Some(x) = right.pop() {
                tail.push(x);
                proof {
                    assert(right@ =~= r0.drop_last());
                    assert(tail@.reverse() =~= seq![x] + t0.reverse());
                }
            }
        }
    }
    let merged = reversed(tail);
    proof {
        assert(left@ + right@ + merged@ =~= merged@);
        assert forall|x: T| #[trigger]
            class_of(lt, merged@, x) == class_of(lt, left0 + right0, x) by {
            assert(class_of(lt, left@ + right@ + merged@, x) == class_of(lt, left0 + right0, x));
        }
    }
    merged
}

/// Sorts `items` stably.
pub fn sort_by<T, O: Order<T>>(order: &O, items: Vec<T>) -> (out: Vec<T>)
    ensures
        out@ == sorted(order.lt(), items@),
    decreases items@.len(),
{
    let ghost lt = order.lt();
    let ghost whole = items@;
    proof {
        order.order_laws();
        sorted_is_stable(lt, whole);
    }
    if items.len() <= 1 {
        proof {
            stable_sort_is_unique(lt, whole, whole, sorted(lt, whole));
        }
        return items;
    }
    let mut low = items;
    let middle = low.len() / 2;
    let high = low.split_off(middle);
    let ghost a = low@;
    let ghost b = high@;
    let low = sort_by(order, low);
    let high = sort_by(order, high);
    proof {
        sorted_is_stable(lt, a);
        sorted_is_stable(lt, b);
    }
    let out = merge(order, low, high);
    proof {
        assert(whole =~= a + b);
        assert forall|x: T| #[trigger] class_of(lt, out@, x) == class_of(lt, whole, x) by {
            let pred = |y: T| tied(lt, x, y);
            assert(class_of(lt, out@, x) == class_of(lt, low@ + high@, x));
            Seq::filter_distributes_over_add(low@, high@, pred);
            Seq::filter_distributes_over_add(a, b, pred);
            assert(class_of(lt, low@, x) == class_of(lt, a, x));
            assert(class_of(lt, high@, x) == class_of(lt, b, x));
        }
        stable_sort_is_unique(lt, whole, out@, sorted(lt, whole));
    }
    out
}

} // verus!
