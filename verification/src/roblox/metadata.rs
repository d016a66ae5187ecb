//! The metadata line of the Roblox type definitions: which classes are services, and which can be made.
use vstd::prelude::*;
use crate::json::{
    document_in, is_document, is_json, json_model, list_model, list_model_items, parse_json,
    parse_texts, parsed_texts, Json, JsonModel,
};
use crate::text::{owned, owned_list, same_text, slice_text, to_chars};

verus! {

// ---------------------------------------------------------------------------
// The members of an object, as they are written

/// Where the white space of a document that starts at `i` ends.
pub open spec fn blanks_end(chars: Seq<char>, i: int) -> int
    decreases chars.len() - i,
{
    if 0 <= i < chars.len() && (chars[i] == ' ' || chars[i] == '\n' || chars[i] == '\t' || chars[i]
        == '\r') {
        blanks_end(chars, i + 1)
    } else {
        i
    }
}

/// Where the string ends whose contents go on at `i`: behind its closing quote, or with the text. A
/// backslash takes the character behind it along.
pub open spec fn string_end(chars: Seq<char>, i: int) -> int
    decreases chars.len() + 1 - i,
{
    if i < 0 || i >= chars.len() {
        chars.len() as int
    } else if chars[i] == '"' {
        i + 1
    } else if chars[i] == '\\' {
        string_end(chars, i + 2)
    } else {
        string_end(chars, i + 1)
    }
}

pub proof fn string_end_moves(chars: Seq<char>, i: int)
    requires
        0 <= i,
    ensures
        i <= chars.len() ==> i <= string_end(chars, i),
        string_end(chars, i) <= chars.len(),
    decreases chars.len() + 1 - i,
{
    if i < chars.len() && chars[i] != '"' {
        if chars[i] == '\\' {
            string_end_moves(chars, i + 2);
        } else {
            string_end_moves(chars, i + 1);
        }
    }
}

pub proof fn blanks_end_moves(chars: Seq<char>, i: int)
    requires
        0 <= i <= chars.len(),
    ensures
        i <= blanks_end(chars, i) <= chars.len(),
    decreases chars.len() - i,
{
    if i < chars.len() {
        if chars[i] == ' ' || chars[i] == '\n' || chars[i] == '\t' || chars[i] == '\r' {
            blanks_end_moves(chars, i + 1);
        }
    }
}

/// Where the value ends that goes on at `i` inside `depth` brackets: before the comma or the bracket
/// that is not its own, or with the text.
pub open spec fn value_end(chars: Seq<char>, i: int, depth: int) -> int
    decreases chars.len() - i,
{
    if i < 0 || i >= chars.len() {
        chars.len() as int
    } else if chars[i] == '"' {
        proof {
            string_end_moves(chars, i + 1);
        }
        value_end(chars, string_end(chars, i + 1), depth)
    } else if chars[i] == '{' || chars[i] == '[' {
        value_end(chars, i + 1, depth + 1)
    } else if chars[i] == '}' || chars[i] == ']' {
        if depth <= 0 {
            i
        } else {
            value_end(chars, i + 1, depth - 1)
        }
    } else if chars[i] == ',' && depth <= 0 {
        i
    } else {
        value_end(chars, i + 1, depth)
    }
}

pub proof fn value_end_moves(chars: Seq<char>, i: int, depth: int)
    requires
        0 <= i <= chars.len(),
    ensures
        i <= value_end(chars, i, depth) <= chars.len(),
    decreases chars.len() - i,
{
    if i < chars.len() {
        if chars[i] == '"' {
            string_end_moves(chars, i + 1);
            value_end_moves(chars, string_end(chars, i + 1), depth);
        } else if chars[i] == '{' || chars[i] == '[' {
            value_end_moves(chars, i + 1, depth + 1);
        } else if chars[i] == '}' || chars[i] == ']' {
            if depth > 0 {
                value_end_moves(chars, i + 1, depth - 1);
            }
        } else if !(chars[i] == ',' && depth <= 0) {
            value_end_moves(chars, i + 1, depth);
        }
    }
}

/// The key and the value of each member of an object, as they are written, from `i` on.
pub open spec fn members_from(chars: Seq<char>, i: int) -> Seq<(Seq<char>, Seq<char>)>
    decreases chars.len() + 1 - i,
{
    let start = blanks_end(chars, i);
    if i < 0 || i >= chars.len() || start >= chars.len() || chars[start] != '"' {
        Seq::empty()
    } else {
        let key = string_end(chars, start + 1);
        let colon = blanks_end(chars, key);
        if colon >= chars.len() {
            Seq::empty()
        } else {
            let end = value_end(chars, colon + 1, 0);
            proof {
                blanks_end_moves(chars, i);
                string_end_moves(chars, start + 1);
                blanks_end_moves(chars, key);
                value_end_moves(chars, colon + 1, 0);
            }
            seq![(chars.subrange(start, key), chars.subrange(colon + 1, end))] + members_from(
                chars,
                end + 1,
            )
        }
    }
}

/// The members of the object a document is, as they are written.
pub open spec fn written_members(text: Seq<char>) -> Seq<(Seq<char>, Seq<char>)> {
    members_from(text, blanks_end(text, 0) + 1)
}

fn skip_blanks(chars: &Vec<char>, from: usize) -> (r: usize)
    requires
        from <= chars@.len(),
    ensures
        r == blanks_end(chars@, from as int),
        from <= r <= chars@.len(),
{
    let mut i: usize = from;
    while i < chars.len() && (chars[i] == ' ' || chars[i] == '\n' || chars[i] == '\t' || chars[i]
        == '\r')
        invariant
            from <= i <= chars@.len(),
            blanks_end(chars@, from as int) == blanks_end(chars@, i as int),
        decreases chars@.len() - i,
    {
        i = i + 1;
    }
    i
}

fn skip_string(chars: &Vec<char>, from: usize) -> (r: usize)
    requires
        from <= chars@.len(),
    ensures
        r == string_end(chars@, from as int),
        from <= r <= chars@.len(),
{
    let end: usize = chars.len();
    let mut i: usize = from;
    while i < end
        invariant
            end == chars@.len(),
            from <= i <= end,
            string_end(chars@, from as int) == string_end(chars@, i as int),
        decreases end - i,
    {
        if chars[i] == '"' {
            return i + 1;
        }
        if chars[i] == '\\' {
            if end - i < 2 {
                assert(string_end(chars@, i + 2) == end);
                return end;
            }
            i = i + 2;
        } else {
            i = i + 1;
        }
    }
    end
}

fn skip_value(chars: &Vec<char>, from: usize) -> (r: usize)
    requires
        from <= chars@.len(),
    ensures
        r == value_end(chars@, from as int, 0),
        from <= r <= chars@.len(),
{
    let end: usize = chars.len();
    let mut depth: usize = 0;
    let mut i: usize = from;
    while i < end
        invariant
            end == chars@.len(),
            from <= i <= end,
            depth <= i,
            value_end(chars@, from as int, 0) == value_end(chars@, i as int, depth as int),
        decreases end - i,
    {
        let c = chars[i];
        if c == '"' {
            i = skip_string(chars, i + 1);
        } else if c == '{' || c == '[' {
            depth = depth + 1;
            i = i + 1;
        } else if c == '}' || c == ']' {
            if depth == 0 {
                return i;
            }
            depth = depth - 1;
            i = i + 1;
        } else if c == ',' && depth == 0 {
            return i;
        } else {
            i = i + 1;
        }
    }
    end
}

/// Reads the members of the object a document is, as they are written.
fn read_members(chars: &Vec<char>) -> (r: Vec<(String, String)>)
    ensures
        r.deep_view() == written_members(chars@),
{
    let end: usize = chars.len();
    let mut found: Vec<(String, String)> = Vec::new();
    let open = skip_blanks(chars, 0);
    let ghost whole = written_members(chars@);
    if open >= end {
        assert(found.deep_view() =~= whole);
        return found;
    }
    let mut i: usize = open + 1;
    assert(found.deep_view() + members_from(chars@, i as int) =~= whole);
    while i < end
        invariant
            end == chars@.len(),
            i <= end,
            whole == written_members(chars@),
            whole == found.deep_view() + members_from(chars@, i as int),
        decreases end - i,
    {
        let start = skip_blanks(chars, i);
        if start >= end || chars[start] != '"' {
            assert(found.deep_view() =~= whole);
            return found;
        }
        let key = skip_string(chars, start + 1);
        let colon = skip_blanks(chars, key);
        if colon >= end {
            assert(found.deep_view() =~= whole);
            return found;
        }
        let stop = skip_value(chars, colon + 1);
        let ghost before = found.deep_view();
        let ghost pair = (
            chars@.subrange(start as int, key as int),
            chars@.subrange(colon + 1, stop as int),
        );
        let ghost rest = members_from(chars@, stop + 1);
        found.push((slice_text(chars, start, key), slice_text(chars, colon + 1, stop)));
        assert(found.deep_view() =~= before.push(pair));
        assert(before + (seq![pair] + rest) =~= found.deep_view() + rest);
        if stop >= end {
            assert(found.deep_view() + rest =~= found.deep_view());
            return found;
        }
        i = stop + 1;
    }
    assert(found.deep_view() =~= whole);
    found
}

// ---------------------------------------------------------------------------
// The two fields

/// How many of the first `n` fields have a name.
pub open spec fn times_named(
    fields: Seq<(Option<Seq<char>>, Option<Seq<Seq<char>>>)>,
    name: Seq<char>,
    n: int,
) -> int
    decreases n,
{
    if n <= 0 {
        0
    } else if fields[n - 1].0 == Some(name) {
        times_named(fields, name, n - 1) + 1
    } else {
        times_named(fields, name, n - 1)
    }
}

/// What the last of the first `n` fields with a name holds, or nothing where none has it.
pub open spec fn last_named(
    fields: Seq<(Option<Seq<char>>, Option<Seq<Seq<char>>>)>,
    name: Seq<char>,
    n: int,
) -> Option<Seq<Seq<char>>>
    decreases n,
{
    if n <= 0 {
        Some(Seq::empty())
    } else if fields[n - 1].0 == Some(name) {
        fields[n - 1].1
    } else {
        last_named(fields, name, n - 1)
    }
}

/// The texts of a field that is written once at most: none where it is missing, and nothing where it
/// is written twice or holds no list of texts.
pub open spec fn field_texts(
    fields: Seq<(Option<Seq<char>>, Option<Seq<Seq<char>>>)>,
    name: Seq<char>,
) -> Option<Seq<Seq<char>>> {
    let n = fields.len() as int;
    if times_named(fields, name, n) > 1 {
        None
    } else {
        last_named(fields, name, n)
    }
}

/// Both of two lists, or none of either where one is missing.
pub open spec fn both(a: Option<Seq<Seq<char>>>, b: Option<Seq<Seq<char>>>) -> (
    Seq<Seq<char>>,
    Seq<Seq<char>>,
) {
    match (a, b) {
        (Some(first), Some(second)) => (first, second),
        _ => (Seq::empty(), Seq::empty()),
    }
}

/// The services and the creatable classes that the fields of an object name, each with its name and,
/// where it holds one, its list of texts. A field whose name cannot be read spoils all.
pub open spec fn named_in_fields(fields: Seq<(Option<Seq<char>>, Option<Seq<Seq<char>>>)>) -> (
    Seq<Seq<char>>,
    Seq<Seq<char>>,
) {
    if exists|i: int| 0 <= i < fields.len() && (#[trigger] fields[i]).0 is None {
        (Seq::empty(), Seq::empty())
    } else {
        both(field_texts(fields, "SERVICES"@), field_texts(fields, "CREATABLE_INSTANCES"@))
    }
}

/// The texts of a list, where it is a list of texts.
pub open spec fn texts_of(list: Seq<JsonModel>) -> Option<Seq<Seq<char>>> {
    if forall|k: int| 0 <= k < list.len() ==> (#[trigger] list[k]) is Text {
        Some(list.map_values(|item: JsonModel| item->Text_0))
    } else {
        None
    }
}

/// The texts of the item of a list at a position, none where the list is shorter.
pub open spec fn item_texts(list: Seq<JsonModel>, i: int) -> Option<Seq<Seq<char>>> {
    if i >= list.len() {
        Some(Seq::empty())
    } else {
        match list[i] {
            JsonModel::List(texts) => texts_of(texts),
            _ => None,
        }
    }
}

/// The services and the creatable classes that a list names: its two items, either of which may be
/// left out. What is no list, or a longer one, names none.
pub open spec fn named_in_list(document: Option<JsonModel>) -> (Seq<Seq<char>>, Seq<Seq<char>>) {
    match document {
        Some(JsonModel::List(list)) => if list.len() <= 2 {
            both(item_texts(list, 0), item_texts(list, 1))
        } else {
            (Seq::empty(), Seq::empty())
        },
        _ => (Seq::empty(), Seq::empty()),
    }
}

/// The text a document is, where it is one.
pub open spec fn text_in(document: Option<JsonModel>) -> Option<Seq<char>> {
    match document {
        Some(JsonModel::Text(text)) => Some(text),
        _ => None,
    }
}

/// The fields of an object, from its members as they are written.
pub open spec fn read_fields(members: Seq<(Seq<char>, Seq<char>)>) -> Seq<
    (Option<Seq<char>>, Option<Seq<Seq<char>>>),
> {
    members.map_values(
        |pair: (Seq<char>, Seq<char>)| (text_in(document_in(pair.0)), parsed_texts(pair.1)),
    )
}

/// The services and the creatable classes that metadata names: two fields of an object, or the two
/// items of a list. Metadata of any other shape names none. Fields with other names are passed over,
/// whatever they hold.
pub open spec fn metadata_of(payload: Seq<char>) -> (Seq<Seq<char>>, Seq<Seq<char>>) {
    let start = blanks_end(payload, 0);
    if !is_document(payload) || start >= payload.len() {
        (Seq::empty(), Seq::empty())
    } else if payload[start] == '{' {
        named_in_fields(read_fields(written_members(payload)))
    } else {
        named_in_list(document_in(payload))
    }
}

fn texts_in(list: &Vec<Json>) -> (r: Option<Vec<String>>)
    ensures
        r.deep_view() == texts_of(list_model(list@)),
{
    let ghost model = list_model(list@);
    proof {
        list_model_items(list@);
    }
    let mut found: Vec<String> = Vec::new();
    let mut i: usize = 0;
    while i < list.len()
        invariant
            i <= list@.len(),
            model == list_model(list@),
            model.len() == list@.len(),
            forall|k: int| 0 <= k < list@.len() ==> #[trigger] model[k] == json_model(list@[k]),
            found@.len() == i,
            forall|k: int|
                0 <= k < i ==> (#[trigger] model[k]) is Text && found@[k]@ == model[k]->Text_0,
        decreases list@.len() - i,
    {
        assert(model[i as int] == list@[i as int].deep_view());
        match list[i].as_text() {
            Some(text) => {
                found.push(owned(text));
            },
            None => {
                return None;
            },
        }
        i = i + 1;
    }
    assert(found.deep_view() =~= model.map_values(|item: JsonModel| item->Text_0));
    Some(found)
}

fn texts_at(list: &Vec<Json>, i: usize) -> (r: Option<Vec<String>>)
    ensures
        r.deep_view() == item_texts(list_model(list@), i as int),
{
    proof {
        list_model_items(list@);
    }
    if i >= list.len() {
        let none: Vec<String> = Vec::new();
        assert(none.deep_view() =~= Seq::empty());
        return Some(none);
    }
    assert(list_model(list@)[i as int] == json_model(list@[i as int]));
    match &list[i] {
        Json::List(texts) => texts_in(texts),
        _ => None,
    }
}

fn both_of(a: Option<Vec<String>>, b: Option<Vec<String>>) -> (r: (Vec<String>, Vec<String>))
    ensures
        r.0.deep_view() == both(a.deep_view(), b.deep_view()).0,
        r.1.deep_view() == both(a.deep_view(), b.deep_view()).1,
{
    match (a, b) {
        (Some(first), Some(second)) => (first, second),
        _ => {
            let none: Vec<String> = Vec::new();
            let nothing: Vec<String> = Vec::new();
            assert(none.deep_view() =~= Seq::empty());
            assert(nothing.deep_view() =~= Seq::empty());
            (none, nothing)
        },
    }
}

/// Reads metadata that is a list, once it is parsed.
pub fn metadata_in_list(document: &Option<Json>) -> (r: (Vec<String>, Vec<String>))
    ensures
        r.0.deep_view() == named_in_list(document.deep_view()).0,
        r.1.deep_view() == named_in_list(document.deep_view()).1,
{
    match document {
        Some(Json::List(list)) => {
            proof {
                list_model_items(list@);
            }
            if list.len() <= 2 {
                return both_of(texts_at(list, 0), texts_at(list, 1));
            }
        },
        _ => {},
    }
    both_of(None, None)
}

fn named<'a>(fields: &'a Vec<(Option<String>, Option<Vec<String>>)>, name: &str) -> (r: Option<
    Vec<String>,
>)
    ensures
        r.deep_view() == field_texts(fields.deep_view(), name@),
{
    let ghost all = fields.deep_view();
    let mut times: usize = 0;
    let none: Vec<String> = Vec::new();
    let mut held: Option<Vec<String>> = Some(none);
    let mut i: usize = 0;
    assert(held.deep_view()->0 =~= Seq::empty());
    while i < fields.len()
        invariant
            i <= fields@.len(),
            all == fields.deep_view(),
            times <= i,
            times == times_named(all, name@, i as int),
            held.deep_view() == last_named(all, name@, i as int),
        decreases fields@.len() - i,
    {
        assert(all[i as int] == fields@[i as int].deep_view());
        let ours = match &fields[i].0 {
            Some(key) => same_text(key.as_str(), name),
            None => false,
        };
        if ours {
            times = times + 1;
            held = match &fields[i].1 {
                Some(texts) => Some(owned_list(texts)),
                None => None,
            };
        }
        i = i + 1;
    }
    if times > 1 {
        None
    } else {
        held
    }
}

/// Reads metadata that is an object, once the name of each field and the list of texts it holds are
/// read.
pub fn metadata_in_fields(fields: &Vec<(Option<String>, Option<Vec<String>>)>) -> (r: (
    Vec<String>,
    Vec<String>,
))
    ensures
        r.0.deep_view() == named_in_fields(fields.deep_view()).0,
        r.1.deep_view() == named_in_fields(fields.deep_view()).1,
{
    let ghost all = fields.deep_view();
    let mut i: usize = 0;
    while i < fields.len()
        invariant
            i <= fields@.len(),
            all == fields.deep_view(),
            forall|k: int| 0 <= k < i ==> (#[trigger] all[k]).0 is Some,
        decreases fields@.len() - i,
    {
        assert(all[i as int] == fields@[i as int].deep_view());
        if fields[i].0.is_none() {
            assert(all[i as int].0 is None);
            return both_of(None, None);
        }
        i = i + 1;
    }
    both_of(named(fields, "SERVICES"), named(fields, "CREATABLE_INSTANCES"))
}

fn fields_in(members: &Vec<(String, String)>) -> (r: Vec<(Option<String>, Option<Vec<String>>)>)
    ensures
        r.deep_view() == read_fields(members.deep_view()),
{
    let ghost all = read_fields(members.deep_view());
    let mut found: Vec<(Option<String>, Option<Vec<String>>)> = Vec::new();
    let mut i: usize = 0;
    assert(found.deep_view() =~= all.take(0));
    while i < members.len()
        invariant
            i <= members@.len(),
            all == read_fields(members.deep_view()),
            all.len() == members@.len(),
            found.deep_view() == all.take(i as int),
        decreases members@.len() - i,
    {
        let ghost before = found.deep_view();
        assert(members.deep_view()[i as int] == members@[i as int].deep_view());
        let name = match parse_json(members[i].0.as_str()) {
            Some(Json::Text(text)) => Some(text),
            _ => None,
        };
        let texts = parse_texts(members[i].1.as_str());
        let ghost field = (name.deep_view(), texts.deep_view());
        assert(field == all[i as int]);
        found.push((name, texts));
        assert(found.deep_view() =~= before.push(field));
        assert(found.deep_view() =~= all.take(i + 1));
        i = i + 1;
    }
    assert(all.take(i as int) =~= all);
    found
}

/// Reads the services and the creatable classes that metadata names.
pub fn parse_metadata(payload: &str) -> (r: (Vec<String>, Vec<String>))
    ensures
        r.0.deep_view() == metadata_of(payload@).0,
        r.1.deep_view() == metadata_of(payload@).1,
{
    let chars = to_chars(payload);
    let start = skip_blanks(&chars, 0);
    if !is_json(payload) || start >= chars.len() {
        return both_of(None, None);
    }
    if chars[start] == '{' {
        metadata_in_fields(&fields_in(&read_members(&chars)))
    } else {
        metadata_in_list(&parse_json(payload))
    }
}

} // verus!
