//! What is documented, and what the metadata names.
use vstd::prelude::*;
use super::api::{
    doc_of, link, outside_brackets, parameters_of, prose, referenced, returns_of, without_markup,
    RawDoc, RawParameter,
};
use super::metadata::{
    blanks_end, item_texts, last_named, members_from, named_in_fields, named_in_list, string_end,
    texts_of, times_named, value_end,
};
use crate::json::JsonModel;
use crate::picking::{one_more_is_picked, rises};
use crate::text::{starts_with, trimmed};
use crate::text_laws::free_of;

verus! {

// ---------------------------------------------------------------------------
// Markup

proof fn plain_text_is_outside(text: Seq<char>, rest: Seq<char>)
    requires
        free_of(text, '<'),
        free_of(text, '>'),
    ensures
        outside_brackets(text + rest, false) == text + outside_brackets(rest, false),
    decreases text.len(),
{
    let whole = text + rest;
    if text.len() > 0 {
        let shorter = text.skip(1);
        assert(whole[0] == text[0]);
        assert(whole.skip(1) =~= shorter + rest);
        assert forall|k: int| 0 <= k < shorter.len() implies #[trigger] shorter[k] != '<' && shorter[k]
            != '>' by {
            assert(shorter[k] == text[k + 1]);
        }
        plain_text_is_outside(shorter, rest);
        assert(seq![text[0]] + (shorter + outside_brackets(rest, false)) =~= text
            + outside_brackets(rest, false));
    } else {
        assert(whole =~= rest);
        assert(text + outside_brackets(rest, false) =~= outside_brackets(rest, false));
    }
}

proof fn a_tag_goes_up_to_its_end(tag: Seq<char>, rest: Seq<char>)
    requires
        free_of(tag, '>'),
    ensures
        outside_brackets(tag.push('>') + rest, true) == outside_brackets(rest, false),
    decreases tag.len(),
{
    let whole = tag.push('>') + rest;
    if tag.len() > 0 {
        let shorter = tag.skip(1);
        assert(whole[0] == tag[0]);
        assert(whole.skip(1) =~= shorter.push('>') + rest);
        assert forall|k: int| 0 <= k < shorter.len() implies #[trigger] shorter[k] != '>' by {
            assert(shorter[k] == tag[k + 1]);
        }
        a_tag_goes_up_to_its_end(shorter, rest);
    } else {
        assert(whole[0] == '>');
        assert(whole.skip(1) =~= rest);
    }
}

/// Text outside of angle brackets stays, and what stands between them goes with them.
pub proof fn markup_goes_and_text_stays(text: Seq<char>, tag: Seq<char>, rest: Seq<char>)
    requires
        free_of(text, '<'),
        free_of(text, '>'),
        free_of(tag, '>'),
    ensures
        without_markup(text) == trimmed(text),
        outside_brackets(text, false) == text,
        outside_brackets(text + (seq!['<'] + tag.push('>') + rest), false) == text
            + outside_brackets(rest, false),
{
    let none = Seq::<char>::empty();
    plain_text_is_outside(text, none);
    assert(text + none =~= text);
    assert(text + outside_brackets(none, false) =~= text);
    let marked = seq!['<'] + tag.push('>') + rest;
    plain_text_is_outside(text, marked);
    assert(marked[0] == '<');
    assert(marked.skip(1) =~= tag.push('>') + rest);
    a_tag_goes_up_to_its_end(tag, rest);
}

// ---------------------------------------------------------------------------
// Documentation

/// A name is documented as a type where it is, and as a value where it is only that.
pub proof fn a_type_is_documented_before_a_value(docs: Map<Seq<char>, RawDoc>, name: Seq<char>)
    ensures
        ({
            let kind = "@roblox/globaltype/"@ + name;
            let value = "@roblox/global/"@ + name;
            &&& docs.contains_key(kind) ==> doc_of(docs, name) == Some(docs[kind])
            &&& !docs.contains_key(kind) && docs.contains_key(value) ==> doc_of(docs, name) == Some(
                docs[value],
            )
            &&& doc_of(docs, name) is None <==> !docs.contains_key(kind) && !docs.contains_key(value)
        }),
{
}

/// Prose is told without its markup, where it is asked for and says anything.
pub proof fn prose_is_told_where_it_is_asked_for(doc: Option<RawDoc>, asked: bool)
    ensures
        match prose(doc, asked) {
            Some(told) => asked && told.len() > 0 && (doc matches Some(held) && told == trimmed(
                outside_brackets(held.documentation@, false),
            )),
            None => asked ==> (doc matches Some(held) ==> trimmed(
                outside_brackets(held.documentation@, false),
            ).len() == 0),
        },
        link(doc) == match doc {
            Some(held) => held.learn_more_link.deep_view(),
            None => None,
        },
{
}

/// A reference to what is documented says what is documented there; any other text says itself.
pub proof fn a_reference_says_what_it_refers_to(docs: Map<Seq<char>, RawDoc>, key: Seq<char>)
    ensures
        match referenced(docs, key) {
            Some(told) => told.len() > 0 && told == trimmed(
                outside_brackets(
                    if starts_with(key, "@roblox/"@) {
                        docs[key].documentation@
                    } else {
                        key
                    },
                    false,
                ),
            ) && (starts_with(key, "@roblox/"@) ==> docs.contains_key(key)),
            None => true,
        },
        starts_with(key, "@roblox/"@) && !docs.contains_key(key) ==> referenced(docs, key) is None,
{
}

/// Whether positions are those of the parameters that are told, in order.
pub open spec fn are_told(params: Seq<RawParameter>, at: Seq<int>, n: int) -> bool {
    &&& rises(at)
    &&& forall|k: int| 0 <= k < at.len() ==> 0 <= #[trigger] at[k] < n
    &&& forall|i: int| 0 <= i < n ==> (#[trigger] at.contains(i) <==> params[i].name@ != "self"@)
}

/// Every parameter is told in order, with what is said of it, but for the receiver.
pub proof fn every_parameter_but_self_is_told(
    docs: Map<Seq<char>, RawDoc>,
    params: Seq<RawParameter>,
    n: int,
) -> (at: Seq<int>)
    requires
        0 <= n <= params.len(),
    ensures
        are_told(params, at, n),
        at.len() == parameters_of(docs, params, n).len(),
        forall|k: int|
            0 <= k < at.len() ==> {
                let told = parameters_of(docs, params, n)[k];
                &&& told.name == params[#[trigger] at[k]].name@
                &&& told.documentation == referenced(docs, params[at[k]].documentation@)
            },
    decreases n,
{
    if n <= 0 {
        Seq::empty()
    } else {
        let before = every_parameter_but_self_is_told(docs, params, n - 1);
        if params[n - 1].name@ != "self"@ {
            one_more_is_picked(before, n - 1);
            let now = before.push(n - 1);
            assert forall|k: int| 0 <= k < now.len() implies {
                let told = parameters_of(docs, params, n)[k];
                &&& told.name == params[#[trigger] now[k]].name@
                &&& told.documentation == referenced(docs, params[now[k]].documentation@)
            } by {
                if k < before.len() {
                    assert(now[k] == before[k]);
                    assert(parameters_of(docs, params, n)[k] == parameters_of(
                        docs,
                        params,
                        n - 1,
                    )[k]);
                }
            }
            now
        } else {
            before
        }
    }
}

/// Every return that says anything is told in order.
pub proof fn every_return_that_speaks_is_told(
    docs: Map<Seq<char>, RawDoc>,
    keys: Seq<Seq<char>>,
    n: int,
) -> (at: Seq<int>)
    requires
        0 <= n <= keys.len(),
    ensures
        rises(at),
        forall|k: int| 0 <= k < at.len() ==> 0 <= #[trigger] at[k] < n,
        forall|i: int|
            0 <= i < n ==> (#[trigger] at.contains(i) <==> referenced(docs, keys[i]) is Some),
        at.len() == returns_of(docs, keys, n).len(),
        forall|k: int|
            0 <= k < at.len() ==> referenced(docs, keys[#[trigger] at[k]]) == Some(
                returns_of(docs, keys, n)[k],
            ),
    decreases n,
{
    if n <= 0 {
        Seq::empty()
    } else {
        let before = every_return_that_speaks_is_told(docs, keys, n - 1);
        if referenced(docs, keys[n - 1]) is Some {
            one_more_is_picked(before, n - 1);
            let now = before.push(n - 1);
            assert forall|k: int| 0 <= k < now.len() implies referenced(docs, keys[#[trigger] now[k]])
                == Some(returns_of(docs, keys, n)[k]) by {
                if k < before.len() {
                    assert(now[k] == before[k]);
                    assert(returns_of(docs, keys, n)[k] == returns_of(docs, keys, n - 1)[k]);
                }
            }
            now
        } else {
            before
        }
    }
}

// ---------------------------------------------------------------------------
// Metadata

/// A field of an object: its name where that is a text, and its texts where it holds a list of them.
pub type Field = (Option<Seq<char>>, Option<Seq<Seq<char>>>);

/// Whether a field is the only one of its name.
pub open spec fn is_only_field(fields: Seq<Field>, i: int, name: Seq<char>) -> bool {
    &&& 0 <= i < fields.len()
    &&& fields[i].0 == Some(name)
    &&& forall|k: int| 0 <= k < fields.len() && k != i ==> (#[trigger] fields[k]).0 != Some(name)
}

proof fn an_only_field_is_counted_once(fields: Seq<Field>, i: int, name: Seq<char>, n: int)
    requires
        is_only_field(fields, i, name),
        0 <= n <= fields.len(),
    ensures
        times_named(fields, name, n) == if i < n {
            1int
        } else {
            0
        },
        i < n ==> last_named(fields, name, n) == fields[i].1,
    decreases n,
{
    if n > 0 {
        an_only_field_is_counted_once(fields, i, name, n - 1);
        if n - 1 != i {
            assert(fields[n - 1].0 != Some(name));
        }
    }
}

/// The services are what the field of that name lists, and the classes that can be created what theirs
/// does.
pub proof fn each_field_names_its_own(fields: Seq<Field>, i: int, j: int)
    requires
        is_only_field(fields, i, "SERVICES"@),
        is_only_field(fields, j, "CREATABLE_INSTANCES"@),
        fields[i].1 is Some,
        fields[j].1 is Some,
        forall|k: int| 0 <= k < fields.len() ==> (#[trigger] fields[k]).0 is Some,
    ensures
        Some(named_in_fields(fields).0) == fields[i].1,
        Some(named_in_fields(fields).1) == fields[j].1,
{
    an_only_field_is_counted_once(fields, i, "SERVICES"@, fields.len() as int);
    an_only_field_is_counted_once(fields, j, "CREATABLE_INSTANCES"@, fields.len() as int);
}

/// A list names the services first and the classes that can be created behind them. Anything that is no
/// list of texts names none of either.
pub proof fn a_list_names_services_first(services: Seq<JsonModel>, creatable: Seq<JsonModel>)
    ensures
        ({
            let told = named_in_list(
                Some(
                    JsonModel::List(
                        seq![JsonModel::List(services), JsonModel::List(creatable)],
                    ),
                ),
            );
            if (forall|k: int| 0 <= k < services.len() ==> (#[trigger] services[k]) is Text) && (
            forall|k: int| 0 <= k < creatable.len() ==> (#[trigger] creatable[k]) is Text) {
                &&& told.0.len() == services.len()
                &&& told.1.len() == creatable.len()
                &&& forall|k: int|
                    0 <= k < services.len() ==> services[k] == JsonModel::Text(
                        #[trigger] told.0[k],
                    )
                &&& forall|k: int|
                    0 <= k < creatable.len() ==> creatable[k] == JsonModel::Text(
                        #[trigger] told.1[k],
                    )
            } else {
                told.0.len() == 0 && told.1.len() == 0
            }
        }),
{
    let list = seq![JsonModel::List(services), JsonModel::List(creatable)];
    assert(item_texts(list, 0) == texts_of(services));
    assert(item_texts(list, 1) == texts_of(creatable));
}

proof fn a_string_ends_at_its_quote(chars: Seq<char>, i: int, end: int)
    requires
        0 <= i <= end < chars.len(),
        chars[end] == '"',
        forall|k: int| i <= k < end ==> #[trigger] chars[k] != '"' && chars[k] != '\\',
    ensures
        string_end(chars, i) == end + 1,
    decreases end - i,
{
    if i < end {
        assert(chars[i] != '"');
        a_string_ends_at_its_quote(chars, i + 1, end);
    }
}

/// Whether characters neither open nor close anything, and part nothing.
pub open spec fn is_plain_run(chars: Seq<char>, i: int, j: int) -> bool {
    forall|k: int|
        i <= k < j ==> #[trigger] chars[k] != '"' && chars[k] != '{' && chars[k] != '[' && chars[k]
            != '}' && chars[k] != ']' && chars[k] != ','
}

proof fn plain_characters_end_no_value(chars: Seq<char>, i: int, j: int, depth: int)
    requires
        0 <= i <= j <= chars.len(),
        is_plain_run(chars, i, j),
    ensures
        value_end(chars, i, depth) == value_end(chars, j, depth),
    decreases j - i,
{
    if i < j {
        assert(chars[i] != '"');
        plain_characters_end_no_value(chars, i + 1, j, depth);
    }
}

/// A member of an object is its key in quotes, a colon, and a value that goes up to the comma or the brace
/// that is not its own. The next member stands behind the comma.
pub proof fn a_member_is_a_key_and_a_value(
    chars: Seq<char>,
    i: int,
    quote: int,
    colon: int,
    end: int,
)
    requires
        0 <= i < quote,
        quote + 1 == colon,
        colon < end < chars.len(),
        chars[i] == '"',
        chars[quote] == '"',
        chars[colon] == ':',
        chars[end] == ',' || chars[end] == '}',
        forall|k: int| i < k < quote ==> #[trigger] chars[k] != '"' && chars[k] != '\\',
        is_plain_run(chars, colon + 1, end),
    ensures
        members_from(chars, i) == seq![
            (chars.subrange(i, quote + 1), chars.subrange(colon + 1, end)),
        ] + members_from(chars, end + 1),
{
    a_string_ends_at_its_quote(chars, i + 1, quote);
    assert(blanks_end(chars, i) == i);
    assert(blanks_end(chars, colon) == colon);
    plain_characters_end_no_value(chars, colon + 1, end, 0);
    assert(value_end(chars, end, 0) == end);
}

/// A list is a value up to behind the bracket that closes it: the commas in it part no members.
pub proof fn a_list_is_one_value(chars: Seq<char>, open: int, close: int)
    requires
        0 <= open < close < chars.len(),
        chars[open] == '[',
        chars[close] == ']',
        forall|k: int|
            open < k < close ==> #[trigger] chars[k] != '"' && chars[k] != '{' && chars[k] != '['
                && chars[k] != '}' && chars[k] != ']',
    ensures
        value_end(chars, open, 0) == value_end(chars, close + 1, 0),
{
    a_list_goes_up_to_its_bracket(chars, open + 1, close);
    assert(value_end(chars, close, 1) == value_end(chars, close + 1, 0));
}

proof fn a_list_goes_up_to_its_bracket(chars: Seq<char>, i: int, close: int)
    requires
        0 <= i <= close < chars.len(),
        forall|k: int|
            i <= k < close ==> #[trigger] chars[k] != '"' && chars[k] != '{' && chars[k] != '['
                && chars[k] != '}' && chars[k] != ']',
    ensures
        value_end(chars, i, 1) == value_end(chars, close, 1),
    decreases close - i,
{
    if i < close {
        assert(chars[i] != '"');
        a_list_goes_up_to_its_bracket(chars, i + 1, close);
    }
}

} // verus!
