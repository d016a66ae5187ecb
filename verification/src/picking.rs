//! Lists made of what others hold.
use vstd::prelude::*;

verus! {

/// Whether positions pick what is kept out of what there was: in order, each once.
pub open spec fn picks<T>(at: Seq<int>, all: Seq<T>, kept: Seq<T>) -> bool {
    &&& at.len() == kept.len()
    &&& forall|k: int|
        0 <= k < at.len() ==> 0 <= #[trigger] at[k] < all.len() && kept[k] == all[at[k]]
    &&& rises(at)
}

/// Whether positions come in order, each once.
pub open spec fn rises(at: Seq<int>) -> bool {
    forall|j: int, k: int| 0 <= j < k < at.len() ==> at[j] < at[k]
}

/// One more position behind all others.
pub proof fn one_more_is_picked(at: Seq<int>, n: int)
    requires
        rises(at),
        forall|k: int| 0 <= k < at.len() ==> #[trigger] at[k] < n,
    ensures
        rises(at.push(n)),
        forall|i: int| #[trigger] at.push(n).contains(i) <==> at.contains(i) || i == n,
{
    let more = at.push(n);
    assert forall|i: int| #[trigger] more.contains(i) <==> at.contains(i) || i == n by {
        if at.contains(i) {
            let k = choose|k: int| 0 <= k < at.len() && at[k] == i;
            assert(more[k] == i);
        }
        if i == n {
            assert(more[at.len() as int] == i);
        }
        if more.contains(i) && i != n {
            let k = choose|k: int| 0 <= k < more.len() && more[k] == i;
            assert(at[k] == i);
        }
    }
}

} // verus!
