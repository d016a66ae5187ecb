//! JSON documents, with the members of an object in the order they were written.
use vstd::prelude::*;
use crate::text::{same_text, trimmed};

verus! {

/// `serde_json::Value`, a parsed document.
#[verifier::external_type_specification]
#[verifier::external_body]
pub struct ExValue(serde_json::Value);

/// `serde_json::Number`, a number of a document.
#[verifier::external_type_specification]
#[verifier::external_body]
pub struct ExNumber(serde_json::Number);

/// A JSON document.
#[derive(Debug)]
pub enum Json {
    Null,
    Bool(bool),
    Number(serde_json::Number),
    Text(String),
    List(Vec<Json>),
    Object(Vec<(String, Json)>),
}

/// What a document says. A number is told by the text it is written as.
pub enum JsonModel {
    Null,
    Bool(bool),
    Number(Seq<char>),
    Text(Seq<char>),
    List(Seq<JsonModel>),
    Object(Seq<(Seq<char>, JsonModel)>),
}

/// How `serde_json` writes a number.
pub uninterp spec fn number_text(number: serde_json::Number) -> Seq<char>;

/// Whether `serde_json` takes two numbers that are written differently for the same.
pub uninterp spec fn level_numbers(a: Seq<char>, b: Seq<char>) -> bool;

/// What a parsed document holds.
pub uninterp spec fn value_model(value: serde_json::Value) -> JsonModel;

/// The document `serde_json` reads from a text, or why it reads none.
pub uninterp spec fn parsed_value(text: Seq<char>) -> Result<serde_json::Value, Seq<char>>;

/// The document `serde_json` reads from some bytes, or why it reads none.
pub uninterp spec fn parsed_bytes(bytes: Seq<u8>) -> Result<serde_json::Value, Seq<char>>;

/// Whether `serde_json` can pass over a text as a document, without making anything of it.
pub uninterp spec fn is_document(text: Seq<char>) -> bool;

/// The texts `serde_json` reads from a text that is a list of texts.
pub uninterp spec fn parsed_texts(text: Seq<char>) -> Option<Seq<Seq<char>>>;

/// The text `serde_json` writes for a document, indented.
pub uninterp spec fn pretty_text(document: JsonModel) -> Option<Seq<char>>;

/// `<serde_json::Number as PartialEq>::eq`. Numbers that are written alike are the same; which
/// others are is left to the crate, which tells a zero from a negative one when it writes them and
/// not when it compares them.
#[verifier::external_body]
fn numbers_equal(a: &serde_json::Number, b: &serde_json::Number) -> (r: bool)
    ensures
        r == (number_text(*a) == number_text(*b) || level_numbers(
            number_text(*a),
            number_text(*b),
        )),
{
    a == b
}

/// `<serde_json::Number as Clone>::clone`, which is written as the number it is a copy of.
#[verifier::external_body]
fn copy_number(number: &serde_json::Number) -> (r: serde_json::Number)
    ensures
        number_text(r) == number_text(*number),
{
    number.clone()
}

/// `serde_json::from_str` into a `serde_json::Value`. Which texts are documents, what they hold, and
/// what is said of the others is left to the crate; a document that is nested deeper than the reader
/// goes is not one.
#[verifier::external_body]
fn parse_value(text: &str) -> (r: Result<serde_json::Value, String>)
    ensures
        match r {
            Ok(value) => parsed_value(text@) == Ok::<serde_json::Value, Seq<char>>(value)
                && is_nested_within(value_model(value), deepest()),
            Err(error) => parsed_value(text@) == Err::<serde_json::Value, Seq<char>>(error@),
        },
{
    serde_json::from_str(text).map_err(|error| error.to_string())
}

/// `serde_json::from_slice` into a `serde_json::Value`. Which bytes are documents, what they hold, and
/// what is said of the others is left to the crate.
#[verifier::external_body]
fn parse_bytes(bytes: &[u8]) -> (r: Result<serde_json::Value, String>)
    ensures
        match r {
            Ok(value) => parsed_bytes(bytes@) == Ok::<serde_json::Value, Seq<char>>(value),
            Err(error) => parsed_bytes(bytes@) == Err::<serde_json::Value, Seq<char>>(error@),
        },
{
    serde_json::from_slice(bytes).map_err(|error| error.to_string())
}

/// `serde_json::from_str` into a `serde::de::IgnoredAny`, which passes over a document. Which texts are
/// documents is left to the crate.
#[verifier::external_body]
pub(crate) fn is_json(text: &str) -> (b: bool)
    ensures
        b == is_document(text@),
{
    serde_json::from_str::<serde::de::IgnoredAny>(text).is_ok()
}

/// `serde_json::from_str` into a list of texts. Which texts are one, and what they hold, is left to the
/// crate.
#[verifier::external_body]
pub(crate) fn parse_texts(text: &str) -> (r: Option<Vec<String>>)
    ensures
        r.deep_view() == parsed_texts(text@),
{
    serde_json::from_str::<Vec<String>>(text).ok()
}

/// The variants of `serde_json::Value`, taken apart one for one. A `serde_json::Map` holds each key
/// once.
#[verifier::external_body]
fn open_value(value: serde_json::Value) -> (r: Json)
    ensures
        json_model(r) == value_model(value),
        keys_differ(json_model(r)),
{
    match value {
        serde_json::Value::Null => Json::Null,
        serde_json::Value::Bool(b) => Json::Bool(b),
        serde_json::Value::Number(n) => Json::Number(n),
        serde_json::Value::String(s) => Json::Text(s),
        serde_json::Value::Array(list) => Json::List(list.into_iter().map(open_value).collect()),
        serde_json::Value::Object(map) => {
            Json::Object(map.into_iter().map(|(key, held)| (key, open_value(held))).collect())
        },
    }
}

/// The variants of `serde_json::Value`, put together one for one. A `serde_json::Map` keeps its
/// members in the order they are put in and holds each key once, so the keys of every object must
/// differ.
#[verifier::external_body]
fn close_value(document: &Json) -> (r: serde_json::Value)
    requires
        keys_differ(json_model(*document)),
    ensures
        value_model(r) == json_model(*document),
{
    match document {
        Json::Null => serde_json::Value::Null,
        Json::Bool(b) => serde_json::Value::Bool(*b),
        Json::Number(n) => serde_json::Value::Number(n.clone()),
        Json::Text(s) => serde_json::Value::String(s.clone()),
        Json::List(list) => serde_json::Value::Array(list.iter().map(close_value).collect()),
        Json::Object(members) => serde_json::Value::Object(
            members.iter().map(|(key, held)| (key.clone(), close_value(held))).collect(),
        ),
    }
}

/// `serde_json::to_string_pretty` of a `serde_json::Value`: an indented text that what the document
/// holds decides, and that is never blank. `serde_json::from_str` reads the document back from it,
/// with a line feed behind it too, where it is nested no deeper than the reader goes. A whole number
/// comes back as it was; of one with a fraction or an exponent it is claimed only that a number comes
/// back, since the reader may round it. The largest come back too: they are written as the shortest
/// correctly rounded decimals, and the one product the reader forms of such a decimal stays finite.
#[verifier::external_body]
fn write_pretty(value: &serde_json::Value) -> (r: Option<String>)
    ensures
        r.deep_view() == pretty_text(value_model(*value)),
        r matches Some(text) ==> trimmed(text@.push('\n')).len() > 0 && reads_back(
            text@.push('\n'),
            value_model(*value),
        ),
{
    serde_json::to_string_pretty(value).ok()
}

// ---------------------------------------------------------------------------
// The model

/// What a document says.
pub open spec fn json_model(document: Json) -> JsonModel
    decreases document, 0int,
{
    match document {
        Json::Null => JsonModel::Null,
        Json::Bool(b) => JsonModel::Bool(b),
        Json::Number(n) => JsonModel::Number(number_text(n)),
        Json::Text(s) => JsonModel::Text(s@),
        Json::List(list) => JsonModel::List(list_model(list@)),
        Json::Object(members) => JsonModel::Object(members_model(members@)),
    }
}

pub open spec fn list_model(list: Seq<Json>) -> Seq<JsonModel>
    decreases list, 1int,
{
    if list.len() == 0 {
        Seq::empty()
    } else {
        seq![json_model(list[0])] + list_model(list.skip(1))
    }
}

pub open spec fn members_model(members: Seq<(String, Json)>) -> Seq<(Seq<char>, JsonModel)>
    decreases members, 1int,
{
    if members.len() == 0 {
        Seq::empty()
    } else {
        seq![(members[0].0@, json_model(members[0].1))] + members_model(members.skip(1))
    }
}

impl DeepView for Json {
    type V = JsonModel;

    open spec fn deep_view(&self) -> JsonModel {
        json_model(*self)
    }
}

/// A list says what each of its items says.
pub proof fn list_model_items(list: Seq<Json>)
    ensures
        list_model(list).len() == list.len(),
        forall|i: int| 0 <= i < list.len() ==> #[trigger] list_model(list)[i] == json_model(list[i]),
    decreases list.len(),
{
    if list.len() > 0 {
        let rest = list.skip(1);
        list_model_items(rest);
        assert forall|i: int| 0 <= i < list.len() implies #[trigger] list_model(list)[i]
            == json_model(list[i]) by {
            if i > 0 {
                assert(list_model(list)[i] == list_model(rest)[i - 1]);
                assert(rest[i - 1] == list[i]);
            }
        }
    }
}

/// An object says what each of its members says.
pub proof fn members_model_items(members: Seq<(String, Json)>)
    ensures
        members_model(members).len() == members.len(),
        forall|i: int|
            0 <= i < members.len() ==> #[trigger] members_model(members)[i] == (
                members[i].0@,
                json_model(members[i].1),
            ),
    decreases members.len(),
{
    if members.len() > 0 {
        let rest = members.skip(1);
        members_model_items(rest);
        assert forall|i: int| 0 <= i < members.len() implies #[trigger] members_model(members)[i]
            == (members[i].0@, json_model(members[i].1)) by {
            if i > 0 {
                assert(members_model(members)[i] == members_model(rest)[i - 1]);
                assert(rest[i - 1] == members[i]);
            }
        }
    }
}

/// Whether no object of a document holds a key twice.
pub open spec fn keys_differ(document: JsonModel) -> bool
    decreases document, 0int,
{
    match document {
        JsonModel::List(list) => all_keys_differ(list),
        JsonModel::Object(members) => member_keys_differ(members),
        _ => true,
    }
}

pub open spec fn all_keys_differ(list: Seq<JsonModel>) -> bool
    decreases list, 1int,
{
    if list.len() == 0 {
        true
    } else {
        keys_differ(list[0]) && all_keys_differ(list.skip(1))
    }
}

/// The position of a key among the members of an object, from `from` on.
pub open spec fn member_position(
    members: Seq<(Seq<char>, JsonModel)>,
    key: Seq<char>,
    from: int,
) -> Option<int>
    decreases members.len() - from,
{
    if from < 0 || from >= members.len() {
        None
    } else if members[from].0 == key {
        Some(from)
    } else {
        member_position(members, key, from + 1)
    }
}

pub open spec fn member_keys_differ(members: Seq<(Seq<char>, JsonModel)>) -> bool
    decreases members, 1int,
{
    if members.len() == 0 {
        true
    } else {
        &&& keys_differ(members[0].1)
        &&& member_position(members.skip(1), members[0].0, 0) is None
        &&& member_keys_differ(members.skip(1))
    }
}

/// The member of an object that has the key.
pub open spec fn member(document: JsonModel, key: Seq<char>) -> Option<JsonModel> {
    match document {
        JsonModel::Object(members) => match member_position(members, key, 0) {
            Some(i) => Some(members[i].1),
            None => None,
        },
        _ => None,
    }
}

/// A key is found where it stands first, and not found exactly where it does not stand.
pub proof fn member_position_is_first(
    members: Seq<(Seq<char>, JsonModel)>,
    key: Seq<char>,
    from: int,
)
    requires
        0 <= from,
    ensures
        match member_position(members, key, from) {
            Some(i) => from <= i < members.len() && members[i].0 == key && forall|k: int|
                from <= k < i ==> (#[trigger] members[k]).0 != key,
            None => forall|k: int| from <= k < members.len() ==> (#[trigger] members[k]).0 != key,
        },
    decreases members.len() - from,
{
    if from < members.len() {
        member_position_is_first(members, key, from + 1);
    }
}

/// Whether no two members have the same key.
pub open spec fn names_apart(members: Seq<(Seq<char>, JsonModel)>) -> bool {
    forall|i: int, j: int|
        0 <= i < j < members.len() ==> (#[trigger] members[i]).0 != (#[trigger] members[j]).0
}

/// No object among the members holds a key twice, and neither do the members, exactly where each of
/// them is so and no two have the same key.
pub proof fn member_keys_differ_means(members: Seq<(Seq<char>, JsonModel)>)
    ensures
        member_keys_differ(members) <==> names_apart(members) && forall|i: int|
            0 <= i < members.len() ==> keys_differ((#[trigger] members[i]).1),
    decreases members.len(),
{
    if members.len() > 0 {
        let rest = members.skip(1);
        member_keys_differ_means(rest);
        member_position_is_first(rest, members[0].0, 0);
        assert forall|i: int| 0 <= i < rest.len() implies #[trigger] rest[i] == members[i + 1] by {}
        if member_keys_differ(members) {
            assert forall|i: int, j: int| 0 <= i < j < members.len() implies (
            #[trigger] members[i]).0 != (#[trigger] members[j]).0 by {
                assert(rest[j - 1] == members[j]);
                if i > 0 {
                    assert(rest[i - 1] == members[i]);
                }
            }
            assert forall|i: int| 0 <= i < members.len() implies keys_differ(
                (#[trigger] members[i]).1,
            ) by {
                if i > 0 {
                    assert(rest[i - 1] == members[i]);
                }
            }
        }
        if names_apart(members) && forall|i: int|
            0 <= i < members.len() ==> keys_differ((#[trigger] members[i]).1) {
            assert forall|i: int, j: int| 0 <= i < j < rest.len() implies (#[trigger] rest[i]).0
                != (#[trigger] rest[j]).0 by {
                assert(members[i + 1].0 != members[j + 1].0);
            }
            assert forall|i: int| 0 <= i < rest.len() implies keys_differ(
                (#[trigger] rest[i]).1,
            ) by {
                assert(keys_differ(members[i + 1].1));
            }
            assert forall|i: int| 0 <= i < rest.len() implies (#[trigger] rest[i]).0
                != members[0].0 by {
                assert(members[i + 1].0 != members[0].0);
            }
            assert(keys_differ(members[0].1));
        }
    }
}

/// No object of a list holds a key twice exactly where none of any item does.
pub proof fn all_keys_differ_means(list: Seq<JsonModel>)
    ensures
        all_keys_differ(list) <==> forall|i: int|
            0 <= i < list.len() ==> keys_differ(#[trigger] list[i]),
    decreases list.len(),
{
    if list.len() > 0 {
        let rest = list.skip(1);
        all_keys_differ_means(rest);
        if all_keys_differ(list) {
            assert forall|i: int| 0 <= i < list.len() implies keys_differ(#[trigger] list[i]) by {
                if i > 0 {
                    assert(rest[i - 1] == list[i]);
                }
            }
        }
        if forall|i: int| 0 <= i < list.len() ==> keys_differ(#[trigger] list[i]) {
            assert forall|i: int| 0 <= i < rest.len() implies keys_differ(#[trigger] rest[i]) by {
                assert(rest[i] == list[i + 1]);
            }
            assert(keys_differ(list[0]));
        }
    }
}

// ---------------------------------------------------------------------------
// Reading

/// The document a text holds.
pub open spec fn document_in(text: Seq<char>) -> Option<JsonModel> {
    match parsed_value(text) {
        Ok(value) => Some(value_model(value)),
        Err(_) => None,
    }
}

/// Reads a document, or tells why there is none.
pub fn read_json(text: &str) -> (r: Result<Json, String>)
    ensures
        match r {
            Ok(document) => {
                &&& document_in(text@) == Some(document.deep_view())
                &&& keys_differ(document.deep_view())
                &&& is_nested_within(document.deep_view(), deepest())
            },
            Err(problem) => parsed_value(text@) == Err::<serde_json::Value, Seq<char>>(problem@),
        },
{
    match parse_value(text) {
        Ok(value) => Ok(open_value(value)),
        Err(problem) => Err(problem),
    }
}

/// Reads a document.
pub fn parse_json(text: &str) -> (r: Option<Json>)
    ensures
        r.deep_view() == document_in(text@),
        r matches Some(document) ==> keys_differ(document.deep_view()) && is_nested_within(
            document.deep_view(),
            deepest(),
        ),
{
    match read_json(text) {
        Ok(document) => Some(document),
        Err(_) => None,
    }
}

/// The document some bytes hold, or why they hold none.
pub open spec fn document_in_bytes(bytes: Seq<u8>) -> Result<JsonModel, Seq<char>> {
    match parsed_bytes(bytes) {
        Ok(value) => Ok(value_model(value)),
        Err(problem) => Err(problem),
    }
}

/// Reads a document, or tells why there is none.
pub fn read_json_bytes(bytes: &[u8]) -> (r: Result<Json, String>)
    ensures
        match r {
            Ok(document) => document_in_bytes(bytes@) == Ok::<JsonModel, Seq<char>>(
                document.deep_view(),
            ),
            Err(problem) => document_in_bytes(bytes@) == Err::<JsonModel, Seq<char>>(problem@),
        },
{
    match parse_bytes(bytes) {
        Ok(value) => Ok(open_value(value)),
        Err(problem) => Err(problem),
    }
}

/// How deep a document can be nested for `serde_json` to read it.
pub open spec fn deepest() -> int {
    127
}

/// Whether a document is nested no deeper than `depth`.
pub open spec fn is_nested_within(document: JsonModel, depth: int) -> bool
    decreases document,
{
    match document {
        JsonModel::List(list) => depth > 0 && forall|i: int|
            0 <= i < list.len() ==> is_nested_within(#[trigger] list[i], depth - 1),
        JsonModel::Object(members) => depth > 0 && forall|i: int|
            0 <= i < members.len() ==> is_nested_within((#[trigger] members[i]).1, depth - 1),
        _ => true,
    }
}

/// Whether a number is written without a fraction or an exponent.
pub open spec fn is_whole(number: Seq<char>) -> bool {
    !number.contains('.') && !number.contains('e') && !number.contains('E')
}

/// Whether a document is another one, but for what numbers say that are not whole.
pub open spec fn is_alike(document: JsonModel, other: JsonModel) -> bool
    decreases document,
{
    match (document, other) {
        (JsonModel::Number(a), JsonModel::Number(b)) => is_whole(b) ==> a == b,
        (JsonModel::List(a), JsonModel::List(b)) => a.len() == b.len() && forall|i: int|
            0 <= i < a.len() ==> is_alike(#[trigger] a[i], b[i]),
        (JsonModel::Object(a), JsonModel::Object(b)) => a.len() == b.len() && forall|i: int|
            0 <= i < a.len() ==> (#[trigger] a[i]).0 == b[i].0 && is_alike(a[i].1, b[i].1),
        _ => document == other,
    }
}

/// Whether a text is read back as the document it was written for, wherever that is not nested too
/// deep to be read. A number that is not whole may be rounded on the way.
pub open spec fn reads_back(text: Seq<char>, document: JsonModel) -> bool {
    is_nested_within(document, deepest()) ==> (document_in(text) matches Some(read) && is_alike(
        read,
        document,
    ))
}

/// Writes a document, indented.
pub fn print_json(document: &Json) -> (r: Option<String>)
    requires
        keys_differ(document.deep_view()),
    ensures
        r.deep_view() == pretty_text(document.deep_view()),
        r matches Some(text) ==> trimmed(text@.push('\n')).len() > 0 && reads_back(
            text@.push('\n'),
            document.deep_view(),
        ),
{
    write_pretty(&close_value(document))
}

/// Where an object holds a key.
pub fn position_of(members: &Vec<(String, Json)>, key: &str) -> (r: Option<usize>)
    ensures
        match r {
            Some(i) => member_position(members_model(members@), key@, 0) == Some(i as int) && i
                < members@.len(),
            None => member_position(members_model(members@), key@, 0) is None,
        },
{
    let ghost model = members_model(members@);
    proof {
        members_model_items(members@);
    }
    let mut i: usize = 0;
    while i < members.len()
        invariant
            i <= members@.len(),
            model == members_model(members@),
            model.len() == members@.len(),
            forall|k: int|
                0 <= k < members@.len() ==> #[trigger] model[k] == (
                    members@[k].0@,
                    json_model(members@[k].1),
                ),
            member_position(model, key@, 0) == member_position(model, key@, i as int),
        decreases members@.len() - i,
    {
        assert(model[i as int].0 == members@[i as int].0@);
        if same_text(members[i].0.as_str(), key) {
            return Some(i);
        }
        i = i + 1;
    }
    None
}

impl Json {
    /// The member of an object that has the key.
    pub fn get(&self, key: &str) -> (r: Option<&Json>)
        ensures
            match r {
                Some(held) => member(self.deep_view(), key@) == Some(held.deep_view()),
                None => member(self.deep_view(), key@) is None,
            },
    {
        match self {
            Json::Object(members) => {
                proof {
                    members_model_items(members@);
                }
                match position_of(members, key) {
                    Some(i) => Some(&members[i].1),
                    None => None,
                }
            },
            _ => None,
        }
    }

    /// The text of a document that is one.
    pub fn as_text(&self) -> (r: Option<&str>)
        ensures
            match r {
                Some(text) => self.deep_view() == JsonModel::Text(text@),
                None => !(self.deep_view() is Text),
            },
    {
        match self {
            Json::Text(text) => Some(text.as_str()),
            _ => None,
        }
    }
}

/// A copy of a document.
pub fn copy_json(document: &Json) -> (r: Json)
    ensures
        r.deep_view() == document.deep_view(),
    decreases document, 0int,
{
    match document {
        Json::Null => Json::Null,
        Json::Bool(b) => Json::Bool(*b),
        Json::Number(n) => Json::Number(copy_number(n)),
        Json::Text(s) => Json::Text(s.clone()),
        Json::List(list) => {
            let mut copies: Vec<Json> = Vec::new();
            let mut i: usize = 0;
            while i < list.len()
                invariant
                    i <= list@.len(),
                    copies@.len() == i,
                    *document == Json::List(*list),
                    forall|k: int| 0 <= k < i ==> json_model(#[trigger] copies@[k]) == json_model(list@[k]),
                decreases list@.len() - i,
            {
                assert(decreases_to!(*document => document->List_0));
                assert(decreases_to!(*list => list@));
                assert(decreases_to!(list@ => list@[i as int]));
                copies.push(copy_json(&list[i]));
                i = i + 1;
            }
            proof {
                list_model_items(list@);
                list_model_items(copies@);
                assert(list_model(copies@) =~= list_model(list@));
            }
            Json::List(copies)
        },
        Json::Object(members) => {
            let mut copies: Vec<(String, Json)> = Vec::new();
            let mut i: usize = 0;
            while i < members.len()
                invariant
                    i <= members@.len(),
                    copies@.len() == i,
                    *document == Json::Object(*members),
                    forall|k: int|
                        0 <= k < i ==> (#[trigger] copies@[k]).0@ == members@[k].0@ && json_model(
                            copies@[k].1,
                        ) == json_model(members@[k].1),
                decreases members@.len() - i,
            {
                assert(decreases_to!(*document => document->Object_0));
                assert(decreases_to!(*members => members@));
                assert(decreases_to!(members@ => members@[i as int]));
                assert(decreases_to!(members@[i as int] => members@[i as int].1));
                copies.push((members[i].0.clone(), copy_json(&members[i].1)));
                i = i + 1;
            }
            proof {
                members_model_items(members@);
                members_model_items(copies@);
                assert(members_model(copies@) =~= members_model(members@));
            }
            Json::Object(copies)
        },
    }
}

// ---------------------------------------------------------------------------
// Comparing

/// Whether two numbers are the same, by how they are written.
pub open spec fn same_number(a: Seq<char>, b: Seq<char>) -> bool {
    a == b || level_numbers(a, b)
}

/// Whether two documents say the same. The order of the members of an object says nothing.
pub open spec fn same_json(a: JsonModel, b: JsonModel) -> bool
    decreases a, 0int,
{
    match (a, b) {
        (JsonModel::Null, JsonModel::Null) => true,
        (JsonModel::Bool(x), JsonModel::Bool(y)) => x == y,
        (JsonModel::Number(x), JsonModel::Number(y)) => same_number(x, y),
        (JsonModel::Text(x), JsonModel::Text(y)) => x == y,
        (JsonModel::List(x), JsonModel::List(y)) => same_list(x, y),
        (JsonModel::Object(x), JsonModel::Object(y)) => x.len() == y.len() && same_members(x, y),
        _ => false,
    }
}

pub open spec fn same_list(a: Seq<JsonModel>, b: Seq<JsonModel>) -> bool
    decreases a, 1int,
{
    if a.len() == 0 {
        b.len() == 0
    } else {
        b.len() > 0 && same_json(a[0], b[0]) && same_list(a.skip(1), b.skip(1))
    }
}

/// Whether each of some members stands in an object and says the same there.
pub open spec fn same_members(
    a: Seq<(Seq<char>, JsonModel)>,
    b: Seq<(Seq<char>, JsonModel)>,
) -> bool
    decreases a, 1int,
{
    if a.len() == 0 {
        true
    } else {
        &&& member_position(b, a[0].0, 0) is Some
        &&& same_json(a[0].1, b[member_position(b, a[0].0, 0)->0].1)
        &&& same_members(a.skip(1), b)
    }
}

/// Whether two documents say the same.
pub fn equal_json(a: &Json, b: &Json) -> (r: bool)
    ensures
        r == same_json(a.deep_view(), b.deep_view()),
    decreases a,
{
    match (a, b) {
        (Json::Null, Json::Null) => true,
        (Json::Bool(x), Json::Bool(y)) => *x == *y,
        (Json::Number(x), Json::Number(y)) => numbers_equal(x, y),
        (Json::Text(x), Json::Text(y)) => same_text(x.as_str(), y.as_str()),
        (Json::List(x), Json::List(y)) => {
            let ghost left = list_model(x@);
            let ghost right = list_model(y@);
            proof {
                list_model_items(x@);
                list_model_items(y@);
                assert(left.skip(0) =~= left);
                assert(right.skip(0) =~= right);
            }
            let mut i: usize = 0;
            while i < x.len() && i < y.len()
                invariant
                    i <= x@.len(),
                    i <= y@.len(),
                    *a == Json::List(*x),
                    *b == Json::List(*y),
                    left == list_model(x@),
                    right == list_model(y@),
                    left.len() == x@.len(),
                    right.len() == y@.len(),
                    forall|k: int| 0 <= k < x@.len() ==> #[trigger] left[k] == json_model(x@[k]),
                    forall|k: int| 0 <= k < y@.len() ==> #[trigger] right[k] == json_model(y@[k]),
                    same_list(left, right) == same_list(left.skip(i as int), right.skip(i as int)),
                decreases x@.len() - i,
            {
                proof {
                    let l = left.skip(i as int);
                    let r = right.skip(i as int);
                    assert(l[0] == left[i as int] && r[0] == right[i as int]);
                    assert(l.skip(1) =~= left.skip(i + 1));
                    assert(r.skip(1) =~= right.skip(i + 1));
                    assert(decreases_to!(*a => a->List_0));
                    assert(decreases_to!(*x => x@));
                    assert(decreases_to!(x@ => x@[i as int]));
                }
                if !equal_json(&x[i], &y[i]) {
                    return false;
                }
                i = i + 1;
            }
            x.len() == y.len()
        },
        (Json::Object(x), Json::Object(y)) => {
            let ghost left = members_model(x@);
            let ghost right = members_model(y@);
            proof {
                members_model_items(x@);
                members_model_items(y@);
                assert(left.skip(0) =~= left);
            }
            if x.len() != y.len() {
                return false;
            }
            let mut i: usize = 0;
            while i < x.len()
                invariant
                    i <= x@.len(),
                    x@.len() == y@.len(),
                    *a == Json::Object(*x),
                    *b == Json::Object(*y),
                    left == members_model(x@),
                    right == members_model(y@),
                    left.len() == x@.len(),
                    right.len() == y@.len(),
                    forall|k: int|
                        0 <= k < x@.len() ==> #[trigger] left[k] == (
                            x@[k].0@,
                            json_model(x@[k].1),
                        ),
                    forall|k: int|
                        0 <= k < y@.len() ==> #[trigger] right[k] == (
                            y@[k].0@,
                            json_model(y@[k].1),
                        ),
                    same_members(left, right) == same_members(left.skip(i as int), right),
                decreases x@.len() - i,
            {
                proof {
                    let l = left.skip(i as int);
                    assert(l[0] == left[i as int]);
                    assert(l.skip(1) =~= left.skip(i + 1));
                    assert(decreases_to!(*a => a->Object_0));
                    assert(decreases_to!(*x => x@));
                    assert(decreases_to!(x@ => x@[i as int]));
                    assert(decreases_to!(x@[i as int] => x@[i as int].1));
                }
                match position_of(y, x[i].0.as_str()) {
                    Some(j) => {
                        assert(right[j as int] == (y@[j as int].0@, json_model(y@[j as int].1)));
                        if !equal_json(&x[i].1, &y[j].1) {
                            return false;
                        }
                    },
                    None => {
                        return false;
                    },
                }
                i = i + 1;
            }
            true
        },
        _ => false,
    }
}

/// A document says the same as itself.
pub proof fn a_document_is_itself(document: JsonModel)
    requires
        keys_differ(document),
    ensures
        same_json(document, document),
    decreases document, 0int,
{
    match document {
        JsonModel::List(list) => {
            a_list_is_itself(list);
        },
        JsonModel::Object(members) => {
            assert(members.skip(0) =~= members);
            members_are_themselves(members, 0);
        },
        _ => {},
    }
}

proof fn a_list_is_itself(list: Seq<JsonModel>)
    requires
        all_keys_differ(list),
    ensures
        same_list(list, list),
    decreases list, 1int,
{
    if list.len() > 0 {
        a_document_is_itself(list[0]);
        a_list_is_itself(list.skip(1));
    }
}

proof fn members_are_themselves(members: Seq<(Seq<char>, JsonModel)>, i: int)
    requires
        member_keys_differ(members),
        0 <= i <= members.len(),
    ensures
        same_members(members.skip(i), members),
    decreases members, 1int, members.len() - i,
{
    if i < members.len() {
        let rest = members.skip(i);
        member_keys_differ_means(members);
        member_position_is_first(members, members[i].0, 0);
        let found = member_position(members, members[i].0, 0)->0;
        assert(found == i) by {
            if found < i {
                assert(members[found].0 != members[i].0);
            }
        }
        assert(rest[0] == members[i]);
        assert(rest.skip(1) =~= members.skip(i + 1));
        assert(decreases_to!(members => members[i]));
        assert(decreases_to!(members[i] => members[i].1));
        a_document_is_itself(members[i].1);
        members_are_themselves(members, i + 1);
    }
}

} // verus!
