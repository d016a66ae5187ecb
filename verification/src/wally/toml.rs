//! TOML documents that keep their comments and layout, as the `toml_edit` crate edits them.
use vstd::prelude::*;
use crate::text::same_text;

verus! {

/// `toml_edit::DocumentMut`, a document that can be edited.
#[verifier::external_type_specification]
#[verifier::external_body]
pub struct ExDocument(toml_edit::DocumentMut);

/// `toml_edit::Item`, something a document holds.
#[verifier::external_type_specification]
#[verifier::external_body]
pub struct ExItem(toml_edit::Item);

/// What a document holds, as far as it is read here: texts, lists and tables. Numbers, dates and
/// truth values are not told apart.
#[derive(Debug)]
pub enum Toml {
    Text(String),
    List(Vec<Toml>),
    Table(Vec<(String, Toml)>),
    Tables(Vec<Toml>),
    Other,
}

/// What a document holds, as contracts write it.
pub enum TomlModel {
    Text(Seq<char>),
    List(Seq<TomlModel>),
    Table(Seq<(Seq<char>, TomlModel)>),
    Tables(Seq<TomlModel>),
    Other,
}

/// What a document holds under each of its keys.
pub uninterp spec fn document_contents(document: toml_edit::DocumentMut) -> Map<
    Seq<char>,
    TomlModel,
>;

/// The text a document is written as.
pub uninterp spec fn document_text(document: toml_edit::DocumentMut) -> Seq<char>;

/// What an item of a document holds.
pub uninterp spec fn item_model(item: toml_edit::Item) -> TomlModel;

/// The document `toml_edit` reads from a text, or why it reads none.
pub uninterp spec fn parsed_document(text: Seq<char>) -> Result<toml_edit::DocumentMut, Seq<char>>;

/// A document once `toml_edit` has taken the entry with a key out of one of its tables.
pub uninterp spec fn document_without(
    document: toml_edit::DocumentMut,
    section: Seq<char>,
    key: Seq<char>,
) -> toml_edit::DocumentMut;

/// A document once `toml_edit` has put an empty table into it.
pub uninterp spec fn document_with_table(
    document: toml_edit::DocumentMut,
    section: Seq<char>,
) -> toml_edit::DocumentMut;

/// A document once `toml_edit` has put a text into one of its tables, in place of what had its key.
pub uninterp spec fn document_with(
    document: toml_edit::DocumentMut,
    section: Seq<char>,
    key: Seq<char>,
    text: Seq<char>,
) -> toml_edit::DocumentMut;

/// `<toml_edit::DocumentMut as FromStr>::from_str`. Which texts are documents, what they hold, and what
/// is said of the others is left to the crate.
#[verifier::external_body]
pub(crate) fn parse_document(text: &str) -> (r: Result<toml_edit::DocumentMut, String>)
    ensures
        match r {
            Ok(document) => parsed_document(text@) == Ok::<toml_edit::DocumentMut, Seq<char>>(
                document,
            ),
            Err(problem) => parsed_document(text@) == Err::<toml_edit::DocumentMut, Seq<char>>(
                problem@,
            ),
        },
{
    text.parse::<toml_edit::DocumentMut>().map_err(|error| error.to_string())
}

/// `<toml_edit::DocumentMut as Display>::fmt`: the text of a document, which the document decides.
/// How comments, spaces and layout are carried through an edit is left to the crate: of the text of an
/// edited document it is claimed that the document that was read and the edits decide it.
#[verifier::external_body]
pub(crate) fn write_document(document: &toml_edit::DocumentMut) -> (r: String)
    ensures
        r@ == document_text(*document),
{
    document.to_string()
}

/// `toml_edit::Table::get` on the root of a document.
#[verifier::external_body]
fn find_item(document: &toml_edit::DocumentMut, key: &str) -> (r: Option<toml_edit::Item>)
    ensures
        match r {
            Some(item) => document_contents(*document).contains_key(key@) && item_model(item)
                == document_contents(*document)[key@],
            None => !document_contents(*document).contains_key(key@),
        },
{
    document.get(key).cloned()
}

/// The variants of `toml_edit::Item`, taken apart one for one: `Item::as_table_like`,
/// `as_array_of_tables`, `as_array` and `as_str`. A table holds each key once.
#[verifier::external_body]
fn open_item(item: &toml_edit::Item) -> (r: Toml)
    ensures
        toml_model(r) == item_model(*item),
        keys_once(toml_model(r)),
{
    if let Some(table) = item.as_table_like() {
        Toml::Table(table.iter().map(|(key, held)| (key.to_string(), open_item(held))).collect())
    } else if let Some(tables) = item.as_array_of_tables() {
        let items = tables.iter().cloned().map(toml_edit::Item::Table);
        Toml::Tables(items.map(|held| open_item(&held)).collect())
    } else if let Some(list) = item.as_array() {
        let items = list.iter().cloned().map(toml_edit::Item::Value);
        Toml::List(items.map(|held| open_item(&held)).collect())
    } else {
        item.as_str().map_or(Toml::Other, |text| Toml::Text(text.to_string()))
    }
}

/// `toml_edit::TableLike::remove` on the table a document holds under a key. The document and the two
/// keys decide what becomes of it, and of its entries the one with the key goes. What is no table is
/// left as it is.
#[verifier::external_body]
pub(crate) fn remove_entry(document: &mut toml_edit::DocumentMut, section: &str, key: &str)
    ensures
        *final(document) == document_without(*old(document), section@, key@),
        document_contents(*final(document)) == contents_without(
            document_contents(*old(document)),
            section@,
            key@,
        ),
{
    if let Some(table) = document.get_mut(section).and_then(toml_edit::Item::as_table_like_mut) {
        table.remove(key);
    }
}

/// `toml_edit::Table::insert` of an empty table into the root of a document. The document and the key
/// decide what becomes of it, and the table is what it then holds under the key.
#[verifier::external_body]
pub(crate) fn add_table(document: &mut toml_edit::DocumentMut, section: &str)
    ensures
        *final(document) == document_with_table(*old(document), section@),
        document_contents(*final(document)) == document_contents(*old(document)).insert(
            section@,
            TomlModel::Table(Seq::empty()),
        ),
{
    document.insert(section, toml_edit::Item::Table(toml_edit::Table::new()));
}

/// `toml_edit::TableLike::insert` of a text into the table a document holds under a key, once
/// whatever stood there is removed: a key that is new to a table goes to its end. The document, the
/// two keys and the text decide what becomes of it. What is no table is left as it is.
#[verifier::external_body]
pub(crate) fn put_entry(document: &mut toml_edit::DocumentMut, section: &str, key: &str, text: &str)
    ensures
        *final(document) == document_with(*old(document), section@, key@, text@),
        document_contents(*final(document)) == contents_with(
            document_contents(*old(document)),
            section@,
            key@,
            text@,
        ),
{
    if let Some(table) = document.get_mut(section).and_then(toml_edit::Item::as_table_like_mut) {
        table.remove(key);
        table.insert(key, toml_edit::value(text));
    }
}

// ---------------------------------------------------------------------------
// The model

/// What was read, as contracts write it.
pub open spec fn toml_model(held: Toml) -> TomlModel
    decreases held, 0int,
{
    match held {
        Toml::Text(text) => TomlModel::Text(text@),
        Toml::List(list) => TomlModel::List(list_model(list@)),
        Toml::Table(entries) => TomlModel::Table(entries_model(entries@)),
        Toml::Tables(tables) => TomlModel::Tables(list_model(tables@)),
        Toml::Other => TomlModel::Other,
    }
}

pub open spec fn list_model(list: Seq<Toml>) -> Seq<TomlModel>
    decreases list, 1int,
{
    if list.len() == 0 {
        Seq::empty()
    } else {
        seq![toml_model(list[0])] + list_model(list.skip(1))
    }
}

pub open spec fn entries_model(entries: Seq<(String, Toml)>) -> Seq<(Seq<char>, TomlModel)>
    decreases entries, 1int,
{
    if entries.len() == 0 {
        Seq::empty()
    } else {
        seq![(entries[0].0@, toml_model(entries[0].1))] + entries_model(entries.skip(1))
    }
}

/// A list holds what each of its items holds.
pub proof fn list_model_items(list: Seq<Toml>)
    ensures
        list_model(list).len() == list.len(),
        forall|i: int| 0 <= i < list.len() ==> #[trigger] list_model(list)[i] == toml_model(list[i]),
    decreases list.len(),
{
    if list.len() > 0 {
        let rest = list.skip(1);
        list_model_items(rest);
        assert forall|i: int| 0 <= i < list.len() implies #[trigger] list_model(list)[i]
            == toml_model(list[i]) by {
            if i > 0 {
                assert(list_model(list)[i] == list_model(rest)[i - 1]);
                assert(rest[i - 1] == list[i]);
            }
        }
    }
}

/// A table holds what each of its entries holds.
pub proof fn entries_model_items(entries: Seq<(String, Toml)>)
    ensures
        entries_model(entries).len() == entries.len(),
        forall|i: int|
            0 <= i < entries.len() ==> #[trigger] entries_model(entries)[i] == (
                entries[i].0@,
                toml_model(entries[i].1),
            ),
    decreases entries.len(),
{
    if entries.len() > 0 {
        let rest = entries.skip(1);
        entries_model_items(rest);
        assert forall|i: int| 0 <= i < entries.len() implies #[trigger] entries_model(entries)[i]
            == (entries[i].0@, toml_model(entries[i].1)) by {
            if i > 0 {
                assert(entries_model(entries)[i] == entries_model(rest)[i - 1]);
                assert(rest[i - 1] == entries[i]);
            }
        }
    }
}

/// Whether no two entries have the same key.
pub open spec fn keys_apart(entries: Seq<(Seq<char>, TomlModel)>) -> bool {
    forall|i: int, j: int|
        0 <= i < j < entries.len() ==> (#[trigger] entries[i]).0 != (#[trigger] entries[j]).0
}

/// Whether what is held, where it is a table, has each key once.
pub open spec fn keys_once(held: TomlModel) -> bool {
    held matches TomlModel::Table(entries) ==> keys_apart(entries)
}

/// The entries of a table among the first `n` that have another key.
pub open spec fn entries_without(
    entries: Seq<(Seq<char>, TomlModel)>,
    key: Seq<char>,
    n: int,
) -> Seq<(Seq<char>, TomlModel)>
    decreases n,
{
    if n <= 0 {
        Seq::empty()
    } else if entries[n - 1].0 == key {
        entries_without(entries, key, n - 1)
    } else {
        entries_without(entries, key, n - 1).push(entries[n - 1])
    }
}

/// The entries of the table a document holds under a key.
pub open spec fn table_at(contents: Map<Seq<char>, TomlModel>, section: Seq<char>) -> Option<
    Seq<(Seq<char>, TomlModel)>,
> {
    if contents.contains_key(section) {
        match contents[section] {
            TomlModel::Table(entries) => Some(entries),
            _ => None,
        }
    } else {
        None
    }
}

/// A document once the entry with a key is gone from one of its tables.
pub open spec fn contents_without(
    contents: Map<Seq<char>, TomlModel>,
    section: Seq<char>,
    key: Seq<char>,
) -> Map<Seq<char>, TomlModel> {
    match table_at(contents, section) {
        Some(entries) => contents.insert(
            section,
            TomlModel::Table(entries_without(entries, key, entries.len() as int)),
        ),
        None => contents,
    }
}

/// A document once a text is put last in one of its tables, in place of what had its key.
pub open spec fn contents_with(
    contents: Map<Seq<char>, TomlModel>,
    section: Seq<char>,
    key: Seq<char>,
    text: Seq<char>,
) -> Map<Seq<char>, TomlModel> {
    match table_at(contents, section) {
        Some(entries) => contents.insert(
            section,
            TomlModel::Table(
                entries_without(entries, key, entries.len() as int).push(
                    (key, TomlModel::Text(text)),
                ),
            ),
        ),
        None => contents,
    }
}

/// Where the entry with a key stands, from `from` on.
pub open spec fn entry_position(
    entries: Seq<(Seq<char>, TomlModel)>,
    key: Seq<char>,
    from: int,
) -> Option<int>
    decreases entries.len() - from,
{
    if from < 0 || from >= entries.len() {
        None
    } else if entries[from].0 == key {
        Some(from)
    } else {
        entry_position(entries, key, from + 1)
    }
}

/// What a table holds under a key.
pub open spec fn entry_at(entries: Seq<(Seq<char>, TomlModel)>, key: Seq<char>) -> Option<
    TomlModel,
> {
    match entry_position(entries, key, 0) {
        Some(i) => Some(entries[i].1),
        None => None,
    }
}

/// The text something is, where it is one.
pub open spec fn text_of(held: TomlModel) -> Option<Seq<char>> {
    match held {
        TomlModel::Text(text) => Some(text),
        _ => None,
    }
}

/// The text a table holds under a key, where it holds one.
pub open spec fn text_at(entries: Seq<(Seq<char>, TomlModel)>, key: Seq<char>) -> Option<
    Seq<char>,
> {
    match entry_at(entries, key) {
        Some(held) => text_of(held),
        None => None,
    }
}

impl Toml {
    /// The text this is, where it is one.
    pub fn as_text(&self) -> (r: Option<&str>)
        ensures
            r.deep_view() == text_of(toml_model(*self)),
    {
        match self {
            Toml::Text(text) => Some(text.as_str()),
            _ => None,
        }
    }
}

/// Reads what a document holds under a key.
pub fn read_item(document: &toml_edit::DocumentMut, key: &str) -> (r: Option<Toml>)
    ensures
        match r {
            Some(held) => document_contents(*document).contains_key(key@) && toml_model(held)
                == document_contents(*document)[key@] && keys_once(toml_model(held)),
            None => !document_contents(*document).contains_key(key@),
        },
{
    match find_item(document, key) {
        Some(item) => Some(open_item(&item)),
        None => None,
    }
}

/// Reads the table a document holds under a key.
pub fn read_table(document: &toml_edit::DocumentMut, key: &str) -> (r: Option<
    Vec<(String, Toml)>,
>)
    ensures
        match r {
            Some(entries) => table_at(document_contents(*document), key@) == Some(
                entries_model(entries@),
            ) && keys_apart(entries_model(entries@)),
            None => table_at(document_contents(*document), key@) is None,
        },
{
    match read_item(document, key) {
        Some(Toml::Table(entries)) => Some(entries),
        _ => None,
    }
}

/// Finds the entry with a key.
pub fn find_entry(entries: &Vec<(String, Toml)>, key: &str) -> (r: Option<usize>)
    ensures
        match r {
            Some(i) => entry_position(entries_model(entries@), key@, 0) == Some(i as int) && i
                < entries@.len(),
            None => entry_position(entries_model(entries@), key@, 0) is None,
        },
{
    let ghost model = entries_model(entries@);
    proof {
        entries_model_items(entries@);
    }
    let mut i: usize = 0;
    while i < entries.len()
        invariant
            i <= entries@.len(),
            model == entries_model(entries@),
            model.len() == entries@.len(),
            forall|k: int|
                0 <= k < entries@.len() ==> #[trigger] model[k] == (
                    entries@[k].0@,
                    toml_model(entries@[k].1),
                ),
            entry_position(model, key@, 0) == entry_position(model, key@, i as int),
        decreases entries@.len() - i,
    {
        assert(model[i as int].0 == entries@[i as int].0@);
        if same_text(entries[i].0.as_str(), key) {
            return Some(i);
        }
        i = i + 1;
    }
    None
}

/// Finds the text under a key.
pub fn find_text<'a>(entries: &'a Vec<(String, Toml)>, key: &str) -> (r: Option<&'a str>)
    ensures
        r.deep_view() == text_at(entries_model(entries@), key@),
{
    match find_entry(entries, key) {
        Some(i) => {
            proof {
                entries_model_items(entries@);
            }
            entries[i].1.as_text()
        },
        None => None,
    }
}

} // verus!
