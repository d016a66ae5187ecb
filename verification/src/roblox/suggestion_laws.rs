//! What is suggested in place of a name that is not there.
use vstd::prelude::*;
use vstd::utf8::*;
use super::api::{
    base_end, enum_container, enum_parts, is_suggested, passes, suggested_before,
    suggested_classes, suggestion_base, suggestions, with_suggestion, SUGGESTIONS,
};
use super::api_definitions::TypeModel;
use crate::text::{
    ascii_lowercase, comes_before, ends_with, holds, lowercase,
    text_order_is_total,
};
use crate::text_laws::{
    a_text_holds_its_parts, a_text_is_split_at_the_first, a_text_without_it_is_not_split, free_of,
};

verus! {

/// Whether a class is near a name in small letters: its own name holds it or, where it is not too short,
/// is held by it. A class that holds the items of an enum is near none.
pub open spec fn is_near(name: Seq<char>, base: Seq<char>) -> bool {
    &&& !ends_with(name, "_INTERNAL"@)
    &&& holds(lowercase(name), base) || (encode_utf8(name).len() >= 3 && holds(base, lowercase(name)))
}

/// Whether names come in the order they are suggested in: shorter ones first, and those of one length in
/// the order of their characters.
pub open spec fn in_suggested_order(names: Seq<Seq<char>>) -> bool {
    forall|i: int, j: int|
        0 <= i < j < names.len() ==> {
            let a = #[trigger] names[i];
            let b = #[trigger] names[j];
            ||| encode_utf8(a).len() < encode_utf8(b).len()
            ||| encode_utf8(a).len() == encode_utf8(b).len() && !comes_before(b, a)
        }
}

proof fn one_more_is_suggested(found: Seq<Seq<char>>, name: Seq<char>)
    requires
        in_suggested_order(found),
    ensures
        in_suggested_order(with_suggestion(found, name)),
        with_suggestion(found, name).len() == found.len() + 1,
        forall|x: Seq<char>| #[trigger]
            with_suggestion(found, name).contains(x) <==> found.contains(x) || x == name,
    decreases found.len(),
{
    let all = with_suggestion(found, name);
    if found.len() > 0 && suggested_before(name, found.last()) {
        let shorter = found.drop_last();
        let last = found.last();
        assert forall|i: int, j: int| 0 <= i < j < shorter.len() implies {
            let a = #[trigger] shorter[i];
            let b = #[trigger] shorter[j];
            ||| encode_utf8(a).len() < encode_utf8(b).len()
            ||| encode_utf8(a).len() == encode_utf8(b).len() && !comes_before(b, a)
        } by {
            assert(shorter[i] == found[i]);
            assert(shorter[j] == found[j]);
        }
        one_more_is_suggested(shorter, name);
        let rest = with_suggestion(shorter, name);
        assert(all == rest.push(last));
        assert forall|i: int, j: int| 0 <= i < j < all.len() implies {
            let a = #[trigger] all[i];
            let b = #[trigger] all[j];
            ||| encode_utf8(a).len() < encode_utf8(b).len()
            ||| encode_utf8(a).len() == encode_utf8(b).len() && !comes_before(b, a)
        } by {
            assert(all[i] == rest[i]);
            if j < rest.len() {
                assert(all[j] == rest[j]);
            } else {
                assert(rest.contains(rest[i]));
                if rest[i] == name {
                    text_order_is_total(name, last, name);
                } else {
                    let m = choose|m: int| 0 <= m < shorter.len() && shorter[m] == rest[i];
                    assert(found[m] == rest[i]);
                    assert(found[found.len() - 1] == last);
                }
            }
        }
        assert forall|x: Seq<char>| #[trigger] all.contains(x) <==> found.contains(x) || x == name by {
            if all.contains(x) {
                let k = choose|k: int| 0 <= k < all.len() && all[k] == x;
                if k < rest.len() {
                    assert(rest[k] == x);
                    assert(rest.contains(x));
                    if shorter.contains(x) {
                        let m = choose|m: int| 0 <= m < shorter.len() && shorter[m] == x;
                        assert(found[m] == x);
                    }
                } else {
                    assert(found[found.len() - 1] == x);
                }
            }
            if found.contains(x) || x == name {
                if x == name {
                    assert(rest.contains(x));
                } else {
                    let m = choose|m: int| 0 <= m < found.len() && found[m] == x;
                    if m < shorter.len() {
                        assert(shorter[m] == x);
                        assert(rest.contains(x));
                    } else {
                        assert(all[rest.len() as int] == x);
                    }
                }
                if rest.contains(x) {
                    let k = choose|k: int| 0 <= k < rest.len() && rest[k] == x;
                    assert(all[k] == x);
                }
            }
        }
    } else {
        assert(all == found.push(name));
        assert forall|i: int, j: int| 0 <= i < j < all.len() implies {
            let a = #[trigger] all[i];
            let b = #[trigger] all[j];
            ||| encode_utf8(a).len() < encode_utf8(b).len()
            ||| encode_utf8(a).len() == encode_utf8(b).len() && !comes_before(b, a)
        } by {
            assert(all[i] == found[i]);
            if j < found.len() {
                assert(all[j] == found[j]);
            } else {
                let last = found[found.len() - 1];
                if i < found.len() - 1 {
                    assert(found[i] == found[i]);
                    text_order_is_total(found[i], last, name);
                }
            }
        }
        assert forall|x: Seq<char>| #[trigger] all.contains(x) <==> found.contains(x) || x == name by {
            if found.contains(x) {
                let m = choose|m: int| 0 <= m < found.len() && found[m] == x;
                assert(all[m] == x);
            }
            if x == name {
                assert(all[found.len() as int] == x);
            }
            if all.contains(x) && x != name {
                let k = choose|k: int| 0 <= k < all.len() && all[k] == x;
                assert(found[k] == x);
            }
        }
    }
}

proof fn near_classes_are_suggested(types: Seq<TypeModel>, base: Seq<char>, n: int)
    requires
        0 <= n <= types.len(),
    ensures
        in_suggested_order(suggested_classes(types, base, n)),
        forall|x: Seq<char>| #[trigger]
            suggested_classes(types, base, n).contains(x) <==> exists|i: int|
                0 <= i < n && (#[trigger] types[i]).name == x && is_near(x, base),
    decreases n,
{
    if n > 0 {
        near_classes_are_suggested(types, base, n - 1);
        let before = suggested_classes(types, base, n - 1);
        let now = suggested_classes(types, base, n);
        let name = types[n - 1].name;
        if is_suggested(name, base) {
            one_more_is_suggested(before, name);
        }
        assert forall|x: Seq<char>| #[trigger] now.contains(x) <==> exists|i: int|
            0 <= i < n && (#[trigger] types[i]).name == x && is_near(x, base) by {
            if before.contains(x) {
                let i = choose|i: int|
                    0 <= i < n - 1 && (#[trigger] types[i]).name == x && is_near(x, base);
                assert(types[i].name == x);
            }
            if x == name && is_near(x, base) {
                assert(types[n - 1].name == x);
            }
            if exists|i: int| 0 <= i < n && (#[trigger] types[i]).name == x && is_near(x, base) {
                let i = choose|i: int|
                    0 <= i < n && (#[trigger] types[i]).name == x && is_near(x, base);
                if i < n - 1 {
                    assert(before.contains(x));
                }
            }
        }
    } else {
        assert forall|x: Seq<char>| !(#[trigger] suggested_classes(types, base, n).contains(x)) by {}
    }
}

/// What is suggested are classes near the name that was asked for, up to a dot or a colon in it and in
/// small letters: the shortest first, no more than a few, and all of them where there are no more. A name
/// that is too short is near none.
pub proof fn what_is_near_is_suggested(types: Seq<TypeModel>, asked: Seq<char>, name: Seq<char>)
    ensures
        ({
            let base = suggestion_base(asked);
            let told = suggestions(types, asked);
            &&& in_suggested_order(told)
            &&& told.len() <= SUGGESTIONS
            &&& encode_utf8(base).len() < 3 ==> told.len() == 0
            &&& told.contains(name) ==> is_near(name, base) && exists|i: int|
                0 <= i < types.len() && (#[trigger] types[i]).name == name
            &&& told.len() < SUGGESTIONS && encode_utf8(base).len() >= 3 && is_near(name, base) && (
            exists|i: int| 0 <= i < types.len() && (#[trigger] types[i]).name == name)
                ==> told.contains(name)
        }),
{
    let base = suggestion_base(asked);
    let told = suggestions(types, asked);
    let n = types.len() as int;
    let all = suggested_classes(types, base, n);
    near_classes_are_suggested(types, base, n);
    if encode_utf8(base).len() >= 3 {
        assert forall|i: int, j: int| 0 <= i < j < told.len() implies {
            let a = #[trigger] told[i];
            let b = #[trigger] told[j];
            ||| encode_utf8(a).len() < encode_utf8(b).len()
            ||| encode_utf8(a).len() == encode_utf8(b).len() && !comes_before(b, a)
        } by {
            assert(told[i] == all[i]);
            assert(told[j] == all[j]);
        }
        if told.contains(name) {
            let k = choose|k: int| 0 <= k < told.len() && told[k] == name;
            assert(all[k] == name);
            assert(all.contains(name));
        }
        if is_near(name, base) && (exists|i: int|
            0 <= i < types.len() && (#[trigger] types[i]).name == name) {
            let i = choose|i: int| 0 <= i < types.len() && (#[trigger] types[i]).name == name;
            assert(types[i].name == name && is_near(name, base));
            assert(all.contains(name));
        }
    }
}

proof fn a_base_ends_at_a_mark(s: Seq<char>, i: int, end: int)
    requires
        0 <= i <= end <= s.len(),
        forall|k: int| i <= k < end ==> #[trigger] s[k] != '.' && s[k] != ':',
        end < s.len() ==> s[end] == '.' || s[end] == ':',
    ensures
        base_end(s, i) == end,
    decreases end - i,
{
    if i < end {
        assert(s[i] != '.');
        a_base_ends_at_a_mark(s, i + 1, end);
    }
}

/// What is looked for is the name that was asked for in small letters, up to the first dot or colon.
pub proof fn a_name_is_looked_for_up_to_a_mark(asked: Seq<char>, front: Seq<char>, tail: Seq<char>)
    requires
        lowercase(asked) == front + tail,
        free_of(front, '.'),
        free_of(front, ':'),
        tail.len() > 0 ==> tail[0] == '.' || tail[0] == ':',
    ensures
        suggestion_base(asked) == front,
{
    let s = lowercase(asked);
    assert forall|k: int| 0 <= k < front.len() implies #[trigger] s[k] != '.' && s[k] != ':' by {
        assert(s[k] == front[k]);
    }
    if tail.len() > 0 {
        assert(s[front.len() as int] == tail[0]);
    }
    a_base_ends_at_a_mark(s, 0, front.len() as int);
    assert(s.take(front.len() as int) =~= front);
}

/// A question about an enum names it and, behind a dot, one of its items.
pub proof fn an_item_is_named_behind_its_enum(name: Seq<char>, item: Seq<char>)
    requires
        free_of(name, '.'),
    ensures
        enum_parts(name) == (name, None::<Seq<char>>),
        enum_parts(name.push('.') + item) == (name, Some(item)),
        enum_container(name) == "Enum"@ + name + "_INTERNAL"@,
{
    a_text_without_it_is_not_split(name, '.');
    a_text_is_split_at_the_first(name, '.', item);
}

/// Capitals do not matter to a filter of names that are ASCII: names that differ in them only pass alike,
/// and so do filters. A name passes every filter that is part of it.
pub proof fn a_filter_passes_names_whatever_their_case(
    name: Seq<char>,
    other: Seq<char>,
    filter: Seq<char>,
    before: Seq<char>,
    after: Seq<char>,
)
    requires
        is_ascii_chars(name),
        is_ascii_chars(other),
        is_ascii_chars(filter),
        is_ascii_chars(before + filter + after),
        ascii_lowercase(name) == ascii_lowercase(other),
    ensures
        passes(name, filter) == passes(other, filter),
        passes(filter, name) == passes(filter, other),
        passes(before + filter + after, filter),
{
    let whole = before + filter + after;
    assert(ascii_lowercase(whole) =~= ascii_lowercase(before) + ascii_lowercase(filter)
        + ascii_lowercase(after));
    a_text_holds_its_parts(ascii_lowercase(before), ascii_lowercase(filter), ascii_lowercase(after));
}

} // verus!
