//! Lists.

use vstd::prelude::*;

verus! {

/// Reverses a list in place.
pub(crate) fn reverse<T>(list: &mut Vec<T>)
    ensures
        final(list)@ == old(list)@.reverse(),
{
    let mut turned: Vec<T> = Vec::with_capacity(list.len());
    let ghost before = list@;
    while list.len() > 0
        invariant
            turned.len() + list.len() == before.len(),
            list@ == before.take(list.len() as int),
            forall|j: int|
                0 <= j < turned.len() ==> #[trigger] turned@[j] == before[before.len() - 1 - j],
        decreases list.len(),
    {
        match list.pop() {
            Some(item) => {
                turned.push(item);
            },
            None => {},
        }
        assert(list@ =~= before.take(list.len() as int));
    }
    list.append(&mut turned);
    assert(list@ =~= before.reverse());
}

} // verus!
