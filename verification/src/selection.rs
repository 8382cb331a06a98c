//! Keeping the items of a list that pass a test.
use crate::sorting::reversed;
use vstd::prelude::*;

verus! {

/// A test on the values of a type.
pub trait Test<T> {
    /// What passes the test.
    spec fn passing(&self) -> spec_fn(T) -> bool;

    /// Whether `item` passes the test.
    fn passes(&self, item: &T) -> (passed: bool)
        ensures
            passed == (self.passing())(*item),
    ;
}

/// The items that pass the test, in their order.
pub fn retain<T, P: Test<T>>(test: &P, items: Vec<T>) -> (out: Vec<T>)
    ensures
        out@ == items@.filter(test.passing()),
{
    let ghost whole = items@;
    let ghost pred = test.passing();
    let mut rest = reversed(items);
    let mut out: Vec<T> = Vec::new();
    let ghost mut done: int = 0;
    proof {
        reveal(Seq::filter);
        assert(whole.skip(0) =~= whole);
        assert(out@ =~= whole.take(0).filter(pred));
    }
    while rest.len() > 0
        invariant
            pred == test.passing(),
            0 <= done <= whole.len(),
            rest@ == whole.skip(done).reverse(),
            out@ == whole.take(done).filter(pred),
        decreases rest@.len(),
    {
        if let Some(item) = rest.pop() {
            proof {
                reveal(Seq::filter);
                assert(item == whole[done]);
                assert(rest@ =~= whole.skip(done + 1).reverse());
                assert(whole.take(done + 1).drop_last() =~= whole.take(done));
                done = done + 1;
            }
            if test.passes(&item) {
                out.push(item);
            }
        }
    }
    proof {
        assert(whole.take(done) =~= whole);
    }
    out
}

} // verus!
