//! What the engine asks of vectors beyond what they offer.

use vstd::prelude::*;

verus! {

/// The elements of `v` in reverse order: a vector that hands out, from its
/// end, the elements of `v` from the first on.
pub fn reversed<A>(v: Vec<A>) -> (r: Vec<A>)
    ensures
        r@ == v@.reverse(),
        r@.len() == v@.len(),
        forall|k: int| 0 <= k < r@.len() ==> #[trigger] r@[k] == v@[v@.len() - 1 - k],
{
    let mut v = v;
    let ghost given = v@;
    let mut r: Vec<A> = Vec::new();
    while v.len() > 0
        invariant
            v@.len() <= given.len(),
            v@ == given.take(v@.len() as int),
            r@.len() == given.len() - v@.len(),
            forall|k: int| 0 <= k < r@.len() ==> #[trigger] r@[k] == given[given.len() - 1 - k],
        decreases v.len(),
    {
        let x = v.pop().unwrap();
        r.push(x);
    }
    assert(r@ =~= given.reverse());
    r
}

} // verus!
