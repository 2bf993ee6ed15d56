//! Vector helpers.
use vstd::prelude::*;

verus! {

/// A vector of `count` clones of `value`.
pub fn filled_with<T: Clone>(value: T, count: usize) -> (r: Vec<T>)
    ensures
        r@.len() == count,
        forall|i: int| 0 <= i < count ==> cloned(value, #[trigger] r@[i]),
{
    let mut v: Vec<T> = Vec::with_capacity(count);
    let mut i: usize = 0;
    while i < count
        invariant
            i <= count,
            v@.len() == i,
            forall|k: int| 0 <= k < i ==> cloned(value, #[trigger] v@[k]),
        decreases count - i,
    {
        v.push(value.clone());
        i += 1;
    }
    v
}

} // verus!
