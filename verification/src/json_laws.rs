//! When documents say the same, and what an object holds.
use vstd::prelude::*;
use crate::json::{
    member, member_position, member_position_is_first, same_json, same_list, same_members,
    same_number, JsonModel,
};

verus! {

/// An object holds under a key what stands behind it the first time the key does; nothing else holds
/// anything under a key.
pub proof fn an_object_holds_what_stands_first(document: JsonModel, key: Seq<char>)
    ensures
        match member(document, key) {
            Some(held) => document matches JsonModel::Object(members) && exists|i: int|
                {
                    &&& 0 <= i < members.len()
                    &&& #[trigger] members[i] == (key, held)
                    &&& forall|j: int| 0 <= j < i ==> (#[trigger] members[j]).0 != key
                },
            None => document matches JsonModel::Object(members) ==> forall|j: int|
                0 <= j < members.len() ==> (#[trigger] members[j]).0 != key,
        },
{
    if let JsonModel::Object(members) = document {
        member_position_is_first(members, key, 0);
        if let Some(i) = member_position(members, key, 0) {
            assert(members[i] == (key, members[i].1));
        }
    }
}

proof fn lists_say_the_same_item_by_item(a: Seq<JsonModel>, b: Seq<JsonModel>)
    ensures
        same_list(a, b) <==> a.len() == b.len() && forall|k: int|
            0 <= k < a.len() ==> same_json(#[trigger] a[k], b[k]),
    decreases a.len(),
{
    if a.len() > 0 && b.len() > 0 {
        lists_say_the_same_item_by_item(a.skip(1), b.skip(1));
        let x = a.skip(1);
        let y = b.skip(1);
        if same_list(a, b) {
            assert forall|k: int| 0 <= k < a.len() implies same_json(#[trigger] a[k], b[k]) by {
                if k > 0 {
                    assert(same_json(x[k - 1], y[k - 1]));
                }
            }
        }
        if a.len() == b.len() && forall|k: int|
            0 <= k < a.len() ==> same_json(#[trigger] a[k], b[k]) {
            assert forall|k: int| 0 <= k < x.len() implies same_json(#[trigger] x[k], y[k]) by {
                assert(same_json(a[k + 1], b[k + 1]));
            }
            assert(same_json(a[0], b[0]));
        }
    }
}

/// Whether an object says under a key what a value says.
pub open spec fn says_at(members: Seq<(Seq<char>, JsonModel)>, key: Seq<char>, value: JsonModel) -> bool {
    member(JsonModel::Object(members), key) matches Some(held) && same_json(value, held)
}

proof fn members_say_the_same_key_by_key(
    a: Seq<(Seq<char>, JsonModel)>,
    b: Seq<(Seq<char>, JsonModel)>,
)
    ensures
        same_members(a, b) <==> forall|k: int|
            0 <= k < a.len() ==> says_at(b, (#[trigger] a[k]).0, a[k].1),
    decreases a.len(),
{
    if a.len() > 0 {
        let x = a.skip(1);
        members_say_the_same_key_by_key(x, b);
        if same_members(a, b) {
            assert forall|k: int| 0 <= k < a.len() implies says_at(b, (#[trigger] a[k]).0, a[k].1) by {
                if k > 0 {
                    assert(says_at(b, x[k - 1].0, x[k - 1].1));
                }
            }
        }
        if forall|k: int| 0 <= k < a.len() ==> says_at(b, (#[trigger] a[k]).0, a[k].1) {
            assert forall|k: int| 0 <= k < x.len() implies says_at(b, (#[trigger] x[k]).0, x[k].1) by {
                assert(says_at(b, a[k + 1].0, a[k + 1].1));
            }
            assert(says_at(b, a[0].0, a[0].1));
        }
    }
}

/// Documents say the same where they are of one kind and their parts say the same: lists item by item, in
/// order, and objects key by key, in whatever order.
pub proof fn documents_say_the_same_part_by_part(a: JsonModel, b: JsonModel)
    ensures
        same_json(a, b) <==> match a {
            JsonModel::Null => b is Null,
            JsonModel::Bool(x) => b == JsonModel::Bool(x),
            JsonModel::Text(x) => b == JsonModel::Text(x),
            JsonModel::Number(x) => b matches JsonModel::Number(y) && same_number(x, y),
            JsonModel::List(x) => b matches JsonModel::List(y) && x.len() == y.len() && forall|k: int|
                0 <= k < x.len() ==> same_json(#[trigger] x[k], y[k]),
            JsonModel::Object(x) => b matches JsonModel::Object(y) && x.len() == y.len() && forall|
                k: int,
            |
                0 <= k < x.len() ==> says_at(y, (#[trigger] x[k]).0, x[k].1),
        },
{
    match (a, b) {
        (JsonModel::List(x), JsonModel::List(y)) => {
            lists_say_the_same_item_by_item(x, y);
        },
        (JsonModel::Object(x), JsonModel::Object(y)) => {
            members_say_the_same_key_by_key(x, y);
        },
        _ => {},
    }
}

} // verus!
