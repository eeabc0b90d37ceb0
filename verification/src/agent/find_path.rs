//! Which agents a path search may pass through.

use vstd::prelude::*;

verus! {

/// Whether `id` is one of the agents that a search ignores.
pub fn ignore_id(ignore_ids: &[usize], id: usize) -> (res: bool)
    ensures
        res == ignore_ids@.contains(id),
{
    let mut i: usize = 0;
    while i < ignore_ids.len()
        invariant
            i <= ignore_ids.len(),
            forall|j: int| 0 <= j < i ==> ignore_ids@[j] != id,
        decreases ignore_ids.len() - i,
    {
        if ignore_ids[i] == id {
            return true;
        }
        i += 1;
    }
    false
}

} // verus!
