//! What holds of every scan for calls.
use vstd::prelude::*;
use super::scan::{
    calls_of, merged, require_at, require_word, requires_from, scan_moves, shared_at, shared_from,
    shared_word, CallModel,
};
use crate::text::{find_from, find_from_is_first};

verus! {

/// Whether calls come in the order of the places they stand at.
pub open spec fn in_order(calls: Seq<CallModel>) -> bool {
    forall|i: int, j: int|
        0 <= i < j < calls.len() ==> (#[trigger] calls[i]).offset <= (#[trigger] calls[j]).offset
}

spec fn all_from(calls: Seq<CallModel>, from: int) -> bool {
    forall|i: int| 0 <= i < calls.len() ==> (#[trigger] calls[i]).offset >= from
}

proof fn requires_in_order(bytes: Seq<u8>, from: int)
    requires
        0 <= from,
    ensures
        in_order(requires_from(bytes, from)),
        all_from(requires_from(bytes, from), from),
    decreases bytes.len() - from,
{
    find_from_is_first(bytes, require_word(), from);
    if let Some(start) = find_from(bytes, require_word(), from) {
        scan_moves(bytes, start);
        let (call, next) = require_at(bytes, start);
        requires_in_order(bytes, next);
        let rest = requires_from(bytes, next);
        let all = requires_from(bytes, from);
        assert forall|i: int, j: int| 0 <= i < j < all.len() implies (#[trigger] all[i]).offset
            <= (#[trigger] all[j]).offset by {
            if call is Some {
                assert(all[j] == rest[j - 1]);
                if i > 0 {
                    assert(all[i] == rest[i - 1]);
                }
            } else {
                assert(all[i] == rest[i]);
                assert(all[j] == rest[j]);
            }
        }
        assert forall|i: int| 0 <= i < all.len() implies (#[trigger] all[i]).offset >= from by {
            if call is Some {
                if i > 0 {
                    assert(all[i] == rest[i - 1]);
                }
            } else {
                assert(all[i] == rest[i]);
            }
        }
    }
}

proof fn shared_in_order(bytes: Seq<u8>, from: int)
    requires
        0 <= from,
    ensures
        in_order(shared_from(bytes, from)),
        all_from(shared_from(bytes, from), from),
    decreases bytes.len() - from,
{
    find_from_is_first(bytes, shared_word(), from);
    if let Some(start) = find_from(bytes, shared_word(), from) {
        scan_moves(bytes, start);
        let (call, next) = shared_at(bytes, start);
        shared_in_order(bytes, next);
        let rest = shared_from(bytes, next);
        let all = shared_from(bytes, from);
        assert forall|i: int, j: int| 0 <= i < j < all.len() implies (#[trigger] all[i]).offset
            <= (#[trigger] all[j]).offset by {
            if call is Some {
                assert(all[j] == rest[j - 1]);
                if i > 0 {
                    assert(all[i] == rest[i - 1]);
                }
            } else {
                assert(all[i] == rest[i]);
                assert(all[j] == rest[j]);
            }
        }
        assert forall|i: int| 0 <= i < all.len() implies (#[trigger] all[i]).offset >= from by {
            if call is Some {
                if i > 0 {
                    assert(all[i] == rest[i - 1]);
                }
            } else {
                assert(all[i] == rest[i]);
            }
        }
    }
}

proof fn merged_in_order(left: Seq<CallModel>, right: Seq<CallModel>, from: int)
    requires
        in_order(left),
        in_order(right),
        all_from(left, from),
        all_from(right, from),
    ensures
        in_order(merged(left, right)),
        all_from(merged(left, right), from),
        merged(left, right).len() == left.len() + right.len(),
        merged(left, right).to_multiset() == left.to_multiset().add(right.to_multiset()),
    decreases left.len() + right.len(),
{
    broadcast use vstd::seq_lib::group_to_multiset_ensures;

    let all = merged(left, right);
    if left.len() == 0 {
        assert(left =~= Seq::empty());
        assert(all.to_multiset() =~= left.to_multiset().add(right.to_multiset()));
    } else if right.len() == 0 {
        assert(right =~= Seq::empty());
        assert(all.to_multiset() =~= left.to_multiset().add(right.to_multiset()));
    } else if right[0].offset < left[0].offset {
        let tail = right.skip(1);
        let rest = merged(left, tail);
        assert forall|i: int| 0 <= i < left.len() implies (#[trigger] left[i]).offset
            >= right[0].offset by {
            if i > 0 {
                assert(left[0].offset <= left[i].offset);
            }
        }
        assert forall|i: int| 0 <= i < tail.len() implies (#[trigger] tail[i]).offset
            >= right[0].offset by {
            assert(tail[i] == right[i + 1]);
        }
        assert forall|i: int, j: int| 0 <= i < j < tail.len() implies (#[trigger] tail[i]).offset
            <= (#[trigger] tail[j]).offset by {
            assert(tail[i] == right[i + 1]);
            assert(tail[j] == right[j + 1]);
        }
        merged_in_order(left, tail, right[0].offset);
        assert forall|i: int, j: int| 0 <= i < j < all.len() implies (#[trigger] all[i]).offset
            <= (#[trigger] all[j]).offset by {
            assert(all[j] == rest[j - 1]);
            if i > 0 {
                assert(all[i] == rest[i - 1]);
            }
        }
        assert forall|i: int| 0 <= i < all.len() implies (#[trigger] all[i]).offset >= from by {
            if i > 0 {
                assert(all[i] == rest[i - 1]);
            }
        }
        assert(right =~= seq![right[0]] + tail);
        vstd::seq_lib::lemma_multiset_commutative(seq![right[0]], tail);
        vstd::seq_lib::lemma_multiset_commutative(seq![right[0]], rest);
        assert(all.to_multiset() =~= left.to_multiset().add(right.to_multiset()));
    } else {
        let tail = left.skip(1);
        let rest = merged(tail, right);
        assert forall|i: int| 0 <= i < right.len() implies (#[trigger] right[i]).offset
            >= left[0].offset by {
            if i > 0 {
                assert(right[0].offset <= right[i].offset);
            }
        }
        assert forall|i: int| 0 <= i < tail.len() implies (#[trigger] tail[i]).offset
            >= left[0].offset by {
            assert(tail[i] == left[i + 1]);
        }
        assert forall|i: int, j: int| 0 <= i < j < tail.len() implies (#[trigger] tail[i]).offset
            <= (#[trigger] tail[j]).offset by {
            assert(tail[i] == left[i + 1]);
            assert(tail[j] == left[j + 1]);
        }
        merged_in_order(tail, right, left[0].offset);
        assert forall|i: int, j: int| 0 <= i < j < all.len() implies (#[trigger] all[i]).offset
            <= (#[trigger] all[j]).offset by {
            assert(all[j] == rest[j - 1]);
            if i > 0 {
                assert(all[i] == rest[i - 1]);
            }
        }
        assert forall|i: int| 0 <= i < all.len() implies (#[trigger] all[i]).offset >= from by {
            if i > 0 {
                assert(all[i] == rest[i - 1]);
            }
        }
        assert(left =~= seq![left[0]] + tail);
        vstd::seq_lib::lemma_multiset_commutative(seq![left[0]], tail);
        vstd::seq_lib::lemma_multiset_commutative(seq![left[0]], rest);
        assert(all.to_multiset() =~= left.to_multiset().add(right.to_multiset()));
    }
}

/// The calls of a source come in the order they were written, and they are the `require` calls
/// and, where those are asked for, the `shared` calls, none of them lost or added.
pub proof fn calls_come_in_source_order(bytes: Seq<u8>, with_shared: bool)
    ensures
        in_order(calls_of(bytes, with_shared)),
        calls_of(bytes, with_shared).to_multiset() == if with_shared {
            requires_from(bytes, 0).to_multiset().add(shared_from(bytes, 0).to_multiset())
        } else {
            requires_from(bytes, 0).to_multiset()
        },
{
    requires_in_order(bytes, 0);
    shared_in_order(bytes, 0);
    merged_in_order(requires_from(bytes, 0), shared_from(bytes, 0), 0);
}

} // verus!
