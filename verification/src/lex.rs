//! Lexicographic order of sequences.
use vstd::prelude::*;

verus! {

/// `lt` is a strict total order: no element is below itself, it is transitive,
/// and of two different elements one is below the other.
pub open spec fn strict_total_order<T>(lt: spec_fn(T, T) -> bool) -> bool {
    &&& forall|a: T| !#[trigger] lt(a, a)
    &&& forall|a: T, b: T, c: T| #[trigger] lt(a, b) && #[trigger] lt(b, c) ==> lt(a, c)
    &&& forall|a: T, b: T| #[trigger] lt(a, b) || a == b || lt(b, a)
}

/// `a` and `b` agree before position `k`, and there `a` ends or is below `b`.
pub open spec fn parts_at<T>(lt: spec_fn(T, T) -> bool, a: Seq<T>, b: Seq<T>, k: int) -> bool {
    &&& 0 <= k <= a.len()
    &&& k < b.len()
    &&& forall|i: int| 0 <= i < k ==> #[trigger] a[i] == b[i]
    &&& k == a.len() || lt(a[k], b[k])
}

/// `a` comes before `b` in the lexicographic order over `lt`.
pub open spec fn lex_before<T>(lt: spec_fn(T, T) -> bool, a: Seq<T>, b: Seq<T>) -> bool {
    exists|k: int| parts_at(lt, a, b, k)
}

/// The lexicographic order over `lt`.
pub open spec fn lex<T>(lt: spec_fn(T, T) -> bool) -> spec_fn(Seq<T>, Seq<T>) -> bool {
    |a: Seq<T>, b: Seq<T>| lex_before(lt, a, b)
}

/// The order of bytes by value.
pub open spec fn byte_order() -> spec_fn(u8, u8) -> bool {
    |a: u8, b: u8| a < b
}

/// The lexicographic order of byte strings.
pub open spec fn bytes_order() -> spec_fn(Seq<u8>, Seq<u8>) -> bool {
    lex(byte_order())
}

proof fn lemma_lex_connected<T>(lt: spec_fn(T, T) -> bool, a: Seq<T>, b: Seq<T>, k: int)
    requires
        strict_total_order(lt),
        0 <= k <= a.len(),
        k <= b.len(),
        forall|i: int| 0 <= i < k ==> #[trigger] a[i] == b[i],
    ensures
        lex_before(lt, a, b) || a == b || lex_before(lt, b, a),
    decreases a.len() - k,
{
    if k == a.len() {
        if k == b.len() {
            assert(a =~= b);
        } else {
            assert(parts_at(lt, a, b, k));
        }
    } else if k == b.len() {
        assert(parts_at(lt, b, a, k));
    } else if lt(a[k], b[k]) {
        assert(parts_at(lt, a, b, k));
    } else if lt(b[k], a[k]) {
        assert(parts_at(lt, b, a, k));
    } else {
        assert(a[k] == b[k]);
        lemma_lex_connected(lt, a, b, k + 1);
    }
}

/// The lexicographic order over a strict total order is a strict total order.
pub proof fn lex_is_strict_total_order<T>(lt: spec_fn(T, T) -> bool)
    requires
        strict_total_order(lt),
    ensures
        strict_total_order(lex(lt)),
{
    let l = lex(lt);
    assert forall|a: Seq<T>| !#[trigger] l(a, a) by {
        if lex_before(lt, a, a) {
            let k = choose|k: int| parts_at(lt, a, a, k);
            assert(lt(a[k], a[k]));
        }
    }
    assert forall|a: Seq<T>, b: Seq<T>, c: Seq<T>| #[trigger]
        l(a, b) && #[trigger] l(b, c) implies l(a, c) by {
        let j = choose|k: int| parts_at(lt, a, b, k);
        let k = choose|k: int| parts_at(lt, b, c, k);
        if j < k {
            assert(parts_at(lt, a, c, j));
        } else {
            assert(parts_at(lt, a, c, k));
        }
    }
    assert forall|a: Seq<T>, b: Seq<T>| #[trigger] l(a, b) || a == b || l(b, a) by {
        lemma_lex_connected(lt, a, b, 0);
    }
}

/// The lexicographic order of byte strings is a strict total order.
pub proof fn bytes_order_is_strict_total()
    ensures
        strict_total_order(bytes_order()),
{
    lex_is_strict_total_order(byte_order());
}

/// Whether `a` comes before `b` in the lexicographic order of byte strings.
pub fn bytes_before(a: &[u8], b: &[u8]) -> (before: bool)
    ensures
        before == bytes_order()(a@, b@),
{
    proof {
        bytes_order_is_strict_total();
    }
    let mut k: usize = 0;
    while k < a.len() && k < b.len()
        invariant
            k <= a@.len(),
            k <= b@.len(),
            forall|i: int| 0 <= i < k ==> #[trigger] a@[i] == b@[i],
            strict_total_order(bytes_order()),
        decreases a@.len() - k,
    {
        if a[k] < b[k] {
            proof {
                assert(parts_at(byte_order(), a@, b@, k as int));
            }
            return true;
        }
        if b[k] < a[k] {
            proof {
                assert(parts_at(byte_order(), b@, a@, k as int));
                assert(bytes_order()(b@, a@));
                assert(!bytes_order()(a@, a@));
            }
            return false;
        }
        k = k + 1;
    }
    proof {
        if k < b.len() {
            assert(parts_at(byte_order(), a@, b@, k as int));
        } else if k < a.len() {
            assert(parts_at(byte_order(), b@, a@, k as int));
            assert(bytes_order()(b@, a@));
            assert(!bytes_order()(a@, a@));
        } else {
            assert(a@ =~= b@);
            assert(!bytes_order()(a@, a@));
        }
    }
    k < b.len()
}

} // verus!
