//! Lists: taking the items of a vector out in order.
use vstd::prelude::*;

verus! {

/// The items in the opposite order, so that `pop` takes them from the front.
pub fn reversed<T>(items: Vec<T>) -> (r: Vec<T>)
    ensures
        r@ == items@.reverse(),
{
    let mut rest = items;
    let mut out: Vec<T> = Vec::new();
    let ghost n = items@.len();
    while rest.len() > 0
        invariant
            rest@.len() + out@.len() == n,
            n == items@.len(),
            rest@ =~= items@.take(rest@.len() as int),
            forall|i: int| 0 <= i < out@.len() ==> #[trigger] out@[i] == items@[n - 1 - i],
        decreases rest@.len(),
    {
        if let Some(x) = rest.pop() {
            out.push(x);
        }
    }
    assert(out@ =~= items@.reverse());
    out
}

} // verus!
