//! Moving the items of a vector without copying them.

use vstd::prelude::*;

verus! {

/// The same items in the opposite order.
pub fn reversed<T>(items: Vec<T>) -> (turned: Vec<T>)
    ensures
        turned@ == items@.reverse(),
{
    let mut items = items;
    let ghost original = items@;
    let mut turned: Vec<T> = Vec::new();
    while items.len() > 0
        invariant
            items@ == original.take(items.len() as int),
            turned.len() + items.len() == original.len(),
            forall|p: int| 0 <= p < turned.len() ==> turned[p] == original[original.len() - 1 - p],
        decreases items.len(),
    {
        let item = items.pop().unwrap();
        turned.push(item);
    }
    assert(turned@ =~= original.reverse());
    turned
}

} // verus!
