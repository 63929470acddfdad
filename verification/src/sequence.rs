//! Lists.

use vstd::prelude::*;

verus! {

/// `v` from its last item to its first.
pub fn reversed<T>(v: Vec<T>) -> (out: Vec<T>)
    ensures
        out@ == v@.reverse(),
{
    let ghost all = v@;
    let mut rest = v;
    let mut out: Vec<T> = Vec::new();
    while rest.len() > 0
        invariant
            rest@.len() <= all.len(),
            rest@ == all.take(rest@.len() as int),
            out@ == all.skip(rest@.len() as int).reverse(),
        decreases rest@.len(),
    {
        match rest.pop() {
            Some(item) => {
                out.push(item);
            },
            None => {},
        }
        assert(rest@ =~= all.take(rest@.len() as int));
        assert(out@ =~= all.skip(rest@.len() as int).reverse());
    }
    assert(out@ =~= all.reverse());
    out
}

/// A reversed list has the same items, the last first.
pub proof fn law_reversed_is_back_to_front<T>(v: Vec<T>, out: Vec<T>)
    requires
        call_ensures(reversed::<T>, (v,), out),
    ensures
        out@.len() == v@.len(),
        forall|i: int| 0 <= i < v@.len() ==> out@[v@.len() - 1 - i] == #[trigger] v@[i],
{
}

} // verus!
