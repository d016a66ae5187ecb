//! The Roblox type definitions: classes, their members, and what replaced the deprecated ones.
use vstd::prelude::*;
use super::lexing::{alphanumeric, is_identifier_char};
use super::metadata::{metadata_of, parse_metadata};
use crate::text::{
    before_first, comes_before, contains_text, ends_with, has_prefix, has_suffix, holds, lines,
    lines_of, owned, owned_option, same_text, slice_text, split_at_text, split_once, split_once_on,
    split_text, starts_with, strip_prefix, text_before, text_order_is_total, to_chars, trim,
    trim_suffixes, trimmed, up_to, without_prefix, without_suffixes,
};

verus! {

/// What a member is.
#[derive(Debug, Clone, Copy, PartialEq, Eq, Structural)]
pub enum MemberKind {
    Property,
    Method,
    Event,
    Callback,
}

/// A member of a class.
#[derive(Debug)]
pub struct ApiMember {
    pub name: String,
    pub kind: MemberKind,
    /// The declaration exactly as the type definitions write it.
    pub declaration: String,
    pub deprecated: bool,
    /// What the deprecation says to use instead, where it says.
    pub deprecated_use: Option<String>,
}

/// A class.
#[derive(Debug)]
pub struct ApiType {
    pub name: String,
    pub extends: Option<String>,
    pub members: Vec<ApiMember>,
}

pub struct MemberModel {
    pub name: Seq<char>,
    pub kind: MemberKind,
    pub declaration: Seq<char>,
    pub deprecated: bool,
    pub deprecated_use: Option<Seq<char>>,
}

pub struct TypeModel {
    pub name: Seq<char>,
    pub extends: Option<Seq<char>>,
    pub members: Seq<MemberModel>,
}

impl DeepView for ApiMember {
    type V = MemberModel;

    open spec fn deep_view(&self) -> MemberModel {
        MemberModel {
            name: self.name@,
            kind: self.kind,
            declaration: self.declaration@,
            deprecated: self.deprecated,
            deprecated_use: self.deprecated_use.deep_view(),
        }
    }
}

impl DeepView for ApiType {
    type V = TypeModel;

    open spec fn deep_view(&self) -> TypeModel {
        TypeModel {
            name: self.name@,
            extends: self.extends.deep_view(),
            members: self.members.deep_view(),
        }
    }
}

// ---------------------------------------------------------------------------
// The classes by name

/// Where the class of a name stands, from `from` on.
pub open spec fn type_position(types: Seq<TypeModel>, name: Seq<char>, from: int) -> Option<int>
    decreases types.len() - from,
{
    if from < 0 || from >= types.len() {
        None
    } else if types[from].name == name {
        Some(from)
    } else {
        type_position(types, name, from + 1)
    }
}

/// The class of a name.
pub open spec fn type_named(types: Seq<TypeModel>, name: Seq<char>) -> Option<TypeModel> {
    match type_position(types, name, 0) {
        Some(i) => Some(types[i]),
        None => None,
    }
}

/// Finds the class of a name.
pub fn find_type(types: &Vec<ApiType>, name: &str) -> (r: Option<usize>)
    ensures
        match r {
            Some(i) => type_position(types.deep_view(), name@, 0) == Some(i as int) && i
                < types@.len() && types@[i as int].name@ == name@,
            None => type_position(types.deep_view(), name@, 0) is None,
        },
{
    let ghost all = types.deep_view();
    let mut i: usize = 0;
    while i < types.len()
        invariant
            i <= types@.len(),
            all == types.deep_view(),
            type_position(all, name@, 0) == type_position(all, name@, i as int),
        decreases types@.len() - i,
    {
        assert(all[i as int] == types@[i as int].deep_view());
        if same_text(types[i].name.as_str(), name) {
            return Some(i);
        }
        i = i + 1;
    }
    None
}

/// Classes with one more, in the order of their names; a class takes the place of the one before
/// it of the same name.
pub open spec fn with_type(types: Seq<TypeModel>, added: TypeModel) -> Seq<TypeModel>
    decreases types.len(),
{
    if types.len() > 0 && comes_before(added.name, types.last().name) {
        with_type(types.drop_last(), added).push(types.last())
    } else if types.len() > 0 && types.last().name == added.name {
        types.drop_last().push(added)
    } else {
        types.push(added)
    }
}

/// Whether classes come in the order of their names, each name once.
pub open spec fn types_in_order(types: Seq<TypeModel>) -> bool {
    forall|i: int, j: int|
        0 <= i < j < types.len() ==> comes_before(
            (#[trigger] types[i]).name,
            (#[trigger] types[j]).name,
        )
}

proof fn with_type_at(types: Seq<TypeModel>, added: TypeModel, at: int)
    requires
        0 <= at <= types.len(),
        at == 0 || !comes_before(added.name, types[at - 1].name),
        forall|k: int| at <= k < types.len() ==> comes_before(added.name, (#[trigger] types[k]).name),
    ensures
        with_type(types, added) == if at > 0 && types[at - 1].name == added.name {
            types.update(at - 1, added)
        } else {
            types.insert(at, added)
        },
    decreases types.len(),
{
    if at == types.len() {
        if at > 0 && types[at - 1].name == added.name {
            assert(types.update(at - 1, added) =~= types.drop_last().push(added));
        } else {
            assert(types.insert(at, added) =~= types.push(added));
        }
    } else {
        let shorter = types.drop_last();
        assert(types[types.len() - 1] == types.last());
        with_type_at(shorter, added, at);
        if at > 0 && types[at - 1].name == added.name {
            assert(types.update(at - 1, added) =~= shorter.update(at - 1, added).push(
                types.last(),
            ));
        } else {
            assert(types.insert(at, added) =~= shorter.insert(at, added).push(types.last()));
        }
    }
}

fn put_type(types: &mut Vec<ApiType>, added: ApiType)
    ensures
        final(types).deep_view() == with_type(old(types).deep_view(), added.deep_view()),
{
    let ghost before = types.deep_view();
    let ghost model = added.deep_view();
    let mut at: usize = types.len();
    while at > 0 && text_before(added.name.as_str(), types[at - 1].name.as_str())
        invariant
            at <= types@.len(),
            before == types.deep_view(),
            model == added.deep_view(),
            forall|k: int|
                at <= k < before.len() ==> comes_before(model.name, (#[trigger] before[k]).name),
        decreases at,
    {
        assert(before[at - 1] == types@[at - 1].deep_view());
        at = at - 1;
    }
    proof {
        assert(at > 0 ==> before[at - 1] == types@[at - 1].deep_view());
        with_type_at(before, model, at as int);
    }
    if at > 0 && same_text(types[at - 1].name.as_str(), added.name.as_str()) {
        types.set(at - 1, added);
        assert(types.deep_view() =~= before.update(at - 1, model));
    } else {
        types.insert(at, added);
        assert(types.deep_view() =~= before.insert(at as int, model));
    }
}

proof fn adding_keeps_order(types: Seq<TypeModel>, added: TypeModel)
    requires
        types_in_order(types),
    ensures
        types_in_order(with_type(types, added)),
        forall|k: int|
            0 <= k < with_type(types, added).len() ==> (#[trigger] with_type(types, added)[k]).name
                == added.name || exists|m: int|
                0 <= m < types.len() && (#[trigger] types[m]).name == with_type(
                    types,
                    added,
                )[k].name,
    decreases types.len(),
{
    let all = with_type(types, added);
    if types.len() > 0 && comes_before(added.name, types.last().name) {
        let shorter = types.drop_last();
        let last = types.last();
        assert(types[types.len() - 1] == last);
        assert forall|i: int, j: int| 0 <= i < j < shorter.len() implies comes_before(
            (#[trigger] shorter[i]).name,
            (#[trigger] shorter[j]).name,
        ) by {
            assert(shorter[i] == types[i] && shorter[j] == types[j]);
        }
        adding_keeps_order(shorter, added);
        let rest = with_type(shorter, added);
        assert forall|i: int, j: int| 0 <= i < j < all.len() implies comes_before(
            (#[trigger] all[i]).name,
            (#[trigger] all[j]).name,
        ) by {
            assert(all[i] == rest[i]);
            if j < rest.len() {
                assert(all[j] == rest[j]);
            } else if rest[i].name != added.name {
                let m = choose|m: int|
                    0 <= m < shorter.len() && (#[trigger] shorter[m]).name == rest[i].name;
                assert(types[m].name == rest[i].name);
            }
        }
        assert forall|k: int| 0 <= k < all.len() implies (#[trigger] all[k]).name == added.name
            || exists|m: int| 0 <= m < types.len() && (#[trigger] types[m]).name == all[k].name by {
            if k < rest.len() {
                assert(all[k] == rest[k]);
                if rest[k].name != added.name {
                    let m = choose|m: int|
                        0 <= m < shorter.len() && (#[trigger] shorter[m]).name == rest[k].name;
                    assert(types[m].name == all[k].name);
                }
            } else {
                assert(types[types.len() - 1].name == all[k].name);
            }
        }
    } else if types.len() > 0 && types.last().name == added.name {
        assert forall|i: int, j: int| 0 <= i < j < all.len() implies comes_before(
            (#[trigger] all[i]).name,
            (#[trigger] all[j]).name,
        ) by {
            assert(all[i] == types[i]);
            assert(types[types.len() - 1].name == added.name);
            assert(all[j].name == types[j].name);
        }
        assert forall|k: int| 0 <= k < all.len() implies (#[trigger] all[k]).name == added.name
            || exists|m: int| 0 <= m < types.len() && (#[trigger] types[m]).name == all[k].name by {
            if k < types.len() - 1 {
                assert(types[k].name == all[k].name);
            }
        }
    } else {
        assert forall|i: int, j: int| 0 <= i < j < all.len() implies comes_before(
            (#[trigger] all[i]).name,
            (#[trigger] all[j]).name,
        ) by {
            assert(all[i] == types[i]);
            if j < types.len() {
                assert(all[j] == types[j]);
            } else {
                let last = types.last();
                assert(types[types.len() - 1] == last);
                text_order_is_total(last.name, added.name, added.name);
                if i < types.len() - 1 {
                    text_order_is_total(types[i].name, last.name, added.name);
                }
            }
        }
        assert forall|k: int| 0 <= k < all.len() implies (#[trigger] all[k]).name == added.name
            || exists|m: int| 0 <= m < types.len() && (#[trigger] types[m]).name == all[k].name by {
            if k < types.len() {
                assert(types[k].name == all[k].name);
            }
        }
    }
}

// ---------------------------------------------------------------------------
// Reading one line

/// The line that opens a class, and whether it closes it too.
pub struct Header {
    pub name: String,
    pub extends: Option<String>,
    pub empty: bool,
}

pub struct HeaderModel {
    pub name: Seq<char>,
    pub extends: Option<Seq<char>>,
    pub empty: bool,
}

impl DeepView for Header {
    type V = HeaderModel;

    open spec fn deep_view(&self) -> HeaderModel {
        HeaderModel { name: self.name@, extends: self.extends.deep_view(), empty: self.empty }
    }
}

/// What follows the words that declare a class.
pub open spec fn declared_text(line: Seq<char>) -> Option<Seq<char>> {
    match without_prefix(line, "declare extern type "@) {
        Some(rest) => Some(rest),
        None => without_prefix(line, "declare class "@),
    }
}

/// The header a line is, where it is one.
pub open spec fn header_in(line: Seq<char>) -> Option<HeaderModel> {
    match declared_text(line) {
        None => None,
        Some(rest) => {
            let body = trimmed(without_suffixes(without_suffixes(rest, " end"@), " with"@));
            let (name, extends) = match split_at_text(body, " extends "@) {
                Some((name, parent)) => (trimmed(name), Some(trimmed(parent))),
                None => (body, None),
            };
            if name.len() == 0 {
                None
            } else {
                Some(
                    HeaderModel {
                        name,
                        extends,
                        empty: ends_with(rest, " with end"@) || ends_with(rest, " end"@),
                    },
                )
            }
        },
    }
}

fn parse_header(line: &str) -> (r: Option<Header>)
    ensures
        r.deep_view() == header_in(line@),
{
    let rest = match strip_prefix(line, "declare extern type ") {
        Some(rest) => rest,
        None => match strip_prefix(line, "declare class ") {
            Some(rest) => rest,
            None => {
                return None;
            },
        },
    };
    let empty = has_suffix(rest, " with end") || has_suffix(rest, " end");
    let bare = trim_suffixes(trim_suffixes(rest, " end").as_str(), " with");
    let body = trim(bare.as_str());
    let (name, extends) = match split_text(body, " extends ") {
        Some((name, parent)) => (owned(trim(name.as_str())), Some(owned(trim(parent.as_str())))),
        None => (owned(body), None),
    };
    if name.as_str().is_empty() {
        None
    } else {
        Some(Header { name, extends, empty })
    }
}

/// What an attribute says of the member under it: that it is deprecated, and what to use instead.
pub open spec fn attribute_in(attribute: Seq<char>) -> Option<(bool, Option<Seq<char>>)> {
    if !holds(attribute, "deprecated"@) {
        None
    } else {
        Some(
            (
                true,
                match split_at_text(attribute, "use = \""@) {
                    Some((_, rest)) => match split_once_on(rest, '"') {
                        Some((value, _)) => Some(value),
                        None => None,
                    },
                    None => None,
                },
            ),
        )
    }
}

fn parse_attribute(attribute: &str) -> (r: Option<(bool, Option<String>)>)
    ensures
        r.deep_view() == attribute_in(attribute@),
{
    if !contains_text(attribute, "deprecated") {
        return None;
    }
    let replacement = match split_text(attribute, "use = \"") {
        Some((_, rest)) => match split_once(rest.as_str(), '"') {
            Some((value, _)) => Some(value),
            None => None,
        },
        None => None,
    };
    Some((true, replacement))
}

/// Whether every character of a text may stand in an identifier.
pub open spec fn is_identifier(name: Seq<char>) -> bool {
    forall|k: int| 0 <= k < name.len() ==> is_identifier_char(#[trigger] name[k])
}

fn identifier(name: &str) -> (b: bool)
    ensures
        b == is_identifier(name@),
{
    let chars = to_chars(name);
    let mut i: usize = 0;
    while i < chars.len()
        invariant
            i <= chars@.len(),
            chars@ == name@,
            forall|k: int| 0 <= k < i ==> is_identifier_char(#[trigger] name@[k]),
        decreases chars@.len() - i,
    {
        if !(alphanumeric(chars[i]) || chars[i] == '_') {
            assert(!is_identifier_char(name@[i as int]));
            return false;
        }
        i = i + 1;
    }
    true
}

/// What a member is by its type.
pub open spec fn kind_of(type_text: Seq<char>) -> MemberKind {
    if starts_with(type_text, "RBXScriptSignal"@) {
        MemberKind::Event
    } else if starts_with(type_text, "("@) && holds(type_text, "->"@) {
        MemberKind::Callback
    } else {
        MemberKind::Property
    }
}

/// The member a line declares, where it declares one.
pub open spec fn member_in(
    line: Seq<char>,
    deprecated: bool,
    deprecated_use: Option<Seq<char>>,
) -> Option<MemberModel> {
    match without_prefix(line, "function "@) {
        Some(rest) => {
            let name = trimmed(before_first(rest, '('));
            if name.len() == 0 {
                None
            } else {
                Some(
                    MemberModel {
                        name,
                        kind: MemberKind::Method,
                        declaration: line,
                        deprecated,
                        deprecated_use,
                    },
                )
            }
        },
        None => match split_once_on(line, ':') {
            None => None,
            Some((before, after)) => {
                let name = trimmed(before);
                if name.len() == 0 || !is_identifier(name) {
                    None
                } else {
                    Some(
                        MemberModel {
                            name,
                            kind: kind_of(trimmed(after)),
                            declaration: line,
                            deprecated,
                            deprecated_use,
                        },
                    )
                }
            },
        },
    }
}

fn parse_member(line: &str, deprecated: bool, deprecated_use: Option<String>) -> (r: Option<
    ApiMember,
>)
    ensures
        r.deep_view() == member_in(line@, deprecated, deprecated_use.deep_view()),
{
    if let Some(rest) = strip_prefix(line, "function ") {
        let before = up_to(rest, '(');
        let name = trim(before.as_str());
        if name.is_empty() {
            return None;
        }
        return Some(
            ApiMember {
                name: owned(name),
                kind: MemberKind::Method,
                declaration: owned(line),
                deprecated,
                deprecated_use,
            },
        );
    }
    match split_once(line, ':') {
        None => None,
        Some((before, after)) => {
            let name = trim(before.as_str());
            let type_text = trim(after.as_str());
            if name.is_empty() || !identifier(name) {
                return None;
            }
            let kind = if has_prefix(type_text, "RBXScriptSignal") {
                MemberKind::Event
            } else if has_prefix(type_text, "(") && contains_text(type_text, "->") {
                MemberKind::Callback
            } else {
                MemberKind::Property
            };
            Some(
                ApiMember {
                    name: owned(name),
                    kind,
                    declaration: owned(line),
                    deprecated,
                    deprecated_use,
                },
            )
        },
    }
}

// ---------------------------------------------------------------------------
// Reading all the lines

/// Where the reading of the definitions stands.
pub struct ReadingModel {
    pub types: Seq<TypeModel>,
    pub current: Option<TypeModel>,
    pub pending: Option<(bool, Option<Seq<char>>)>,
    pub services: Seq<Seq<char>>,
    pub creatable: Seq<Seq<char>>,
}

/// What a member is told by the attribute above it, if any.
pub open spec fn deprecation_of(pending: Option<(bool, Option<Seq<char>>)>) -> (
    bool,
    Option<Seq<char>>,
) {
    match pending {
        Some(told) => told,
        None => (false, None),
    }
}

/// A line inside the class `current`.
pub open spec fn read_inside(st: ReadingModel, current: TypeModel, line: Seq<char>) -> ReadingModel {
    let said = trimmed(line);
    if line == "end"@ {
        ReadingModel { types: with_type(st.types, current), current: None, pending: None, ..st }
    } else if said.len() == 0 {
        st
    } else {
        match without_prefix(said, "@"@) {
            Some(attribute) => ReadingModel {
                pending: match attribute_in(attribute) {
                    Some(told) => Some(told),
                    None => st.pending,
                },
                ..st
            },
            None => {
                let (deprecated, deprecated_use) = deprecation_of(st.pending);
                ReadingModel {
                    current: Some(
                        match member_in(said, deprecated, deprecated_use) {
                            Some(found) => TypeModel {
                                members: current.members.push(found),
                                ..current
                            },
                            None => current,
                        },
                    ),
                    pending: None,
                    ..st
                }
            },
        }
    }
}

/// One line of the definitions.
pub open spec fn read_line(st: ReadingModel, line: Seq<char>) -> ReadingModel {
    match without_prefix(line, "--#METADATA#"@) {
        Some(payload) => ReadingModel {
            services: metadata_of(payload).0,
            creatable: metadata_of(payload).1,
            ..st
        },
        None => match st.current {
            None => match header_in(line) {
                None => st,
                Some(header) => {
                    let opened = TypeModel {
                        name: header.name,
                        extends: header.extends,
                        members: Seq::empty(),
                    };
                    if header.empty {
                        ReadingModel { types: with_type(st.types, opened), ..st }
                    } else {
                        ReadingModel { current: Some(opened), ..st }
                    }
                },
            },
            Some(current) => read_inside(st, current, line),
        },
    }
}

/// The first `n` lines of the definitions.
pub open spec fn read_lines(all: Seq<Seq<char>>, n: int) -> ReadingModel
    decreases n,
{
    if n <= 0 {
        ReadingModel {
            types: Seq::empty(),
            current: None,
            pending: None,
            services: Seq::empty(),
            creatable: Seq::empty(),
        }
    } else {
        read_line(read_lines(all, n - 1), all[n - 1])
    }
}

/// The classes of the definitions as they are written; one that is never closed is closed by the
/// end of the text.
pub open spec fn types_written(source: Seq<char>) -> Seq<TypeModel> {
    let st = read_lines(lines_of(source), lines_of(source).len() as int);
    match st.current {
        Some(finished) => with_type(st.types, finished),
        None => st.types,
    }
}

// ---------------------------------------------------------------------------
// Replacements

/// Whether a character parts a member from its class.
pub open spec fn parts_member(c: char) -> bool {
    c == ':' || c == '.'
}

/// The last of the first `to` characters that parts a member from its class.
pub open spec fn last_parting(s: Seq<char>, to: int) -> Option<int>
    decreases to,
{
    if to <= 0 || to > s.len() {
        None
    } else if parts_member(s[to - 1]) {
        Some(to - 1)
    } else {
        last_parting(s, to - 1)
    }
}

/// A class and a member of it, where a text names both.
pub open spec fn member_split(asked: Seq<char>) -> Option<(Seq<char>, Seq<char>)> {
    match last_parting(asked, asked.len() as int) {
        Some(i) => if 0 < i && i + 1 < asked.len() {
            Some((asked.take(i), asked.skip(i + 1)))
        } else {
            None
        },
        None => None,
    }
}

/// Splits a text into a class and a member.
pub fn split_member(asked: &str) -> (r: Option<(String, String)>)
    ensures
        r.deep_view() == member_split(asked@),
{
    let chars = to_chars(asked);
    let mut i: usize = chars.len();
    while i > 0 && !(chars[i - 1] == ':' || chars[i - 1] == '.')
        invariant
            i <= chars@.len(),
            chars@ == asked@,
            last_parting(asked@, asked@.len() as int) == last_parting(asked@, i as int),
        decreases i,
    {
        i = i - 1;
    }
    if i == 0 {
        return None;
    }
    let at: usize = i - 1;
    if at > 0 && i < chars.len() {
        assert(asked@.take(at as int) =~= asked@.subrange(0, at as int));
        assert(asked@.skip(i as int) =~= asked@.subrange(i as int, asked@.len() as int));
        Some((slice_text(&chars, 0, at), slice_text(&chars, i, chars.len())))
    } else {
        None
    }
}

/// The member of a name, from `from` on.
pub open spec fn member_position(members: Seq<MemberModel>, name: Seq<char>, from: int) -> Option<
    int,
>
    decreases members.len() - from,
{
    if from < 0 || from >= members.len() {
        None
    } else if members[from].name == name {
        Some(from)
    } else {
        member_position(members, name, from + 1)
    }
}

/// Whether a class declares a member itself.
pub open spec fn declares(types: Seq<TypeModel>, class: Seq<char>, name: Seq<char>) -> bool {
    match type_named(types, class) {
        Some(found) => member_position(found.members, name, 0) is Some,
        None => false,
    }
}

/// Finds the member of a name.
pub fn find_member(members: &Vec<ApiMember>, name: &str) -> (r: Option<usize>)
    ensures
        match r {
            Some(i) => member_position(members.deep_view(), name@, 0) == Some(i as int) && i
                < members@.len(),
            None => member_position(members.deep_view(), name@, 0) is None,
        },
{
    let ghost all = members.deep_view();
    let mut i: usize = 0;
    while i < members.len()
        invariant
            i <= members@.len(),
            all == members.deep_view(),
            member_position(all, name@, 0) == member_position(all, name@, i as int),
        decreases members@.len() - i,
    {
        assert(all[i as int] == members@[i as int].deep_view());
        if same_text(members[i].name.as_str(), name) {
            return Some(i);
        }
        i = i + 1;
    }
    None
}

fn class_declares(types: &Vec<ApiType>, class: &str, name: &str) -> (b: bool)
    ensures
        b == declares(types.deep_view(), class@, name@),
{
    match find_type(types, class) {
        Some(i) => {
            assert(types.deep_view()[i as int] == types@[i as int].deep_view());
            match find_member(&types[i].members, name) {
                Some(_) => true,
                None => false,
            }
        },
        None => false,
    }
}

/// How many of the first `n` classes have not been looked at.
pub open spec fn unseen(types: Seq<TypeModel>, seen: Seq<Seq<char>>, n: int) -> int
    decreases n,
{
    if n <= 0 {
        0
    } else {
        unseen(types, seen, n - 1) + if seen.contains(types[n - 1].name) {
            0int
        } else {
            1
        }
    }
}

proof fn unseen_never_grows(
    types: Seq<TypeModel>,
    seen: Seq<Seq<char>>,
    name: Seq<char>,
    n: int,
)
    requires
        0 <= n <= types.len(),
    ensures
        0 <= unseen(types, seen.push(name), n) <= unseen(types, seen, n),
        (exists|k: int| 0 <= k < n && (#[trigger] types[k]).name == name) && !seen.contains(name)
            ==> unseen(types, seen.push(name), n) < unseen(types, seen, n),
    decreases n,
{
    if n > 0 {
        unseen_never_grows(types, seen, name, n - 1);
        let more = seen.push(name);
        let here = types[n - 1].name;
        if seen.contains(here) {
            let k = choose|k: int| 0 <= k < seen.len() && seen[k] == here;
            assert(more[k] == here);
        }
        if here == name {
            assert(more[seen.len() as int] == name);
        } else if more.contains(here) {
            let k = choose|k: int| 0 <= k < more.len() && more[k] == here;
            assert(k < seen.len());
            assert(seen[k] == here);
        }
    }
}

proof fn type_position_is_inside(types: Seq<TypeModel>, name: Seq<char>, from: int)
    requires
        0 <= from,
    ensures
        type_position(types, name, from) matches Some(i) ==> from <= i < types.len()
            && types[i].name == name,
    decreases types.len() - from,
{
    if from < types.len() && types[from].name != name {
        type_position_is_inside(types, name, from + 1);
    }
}

/// Looking at a class that is there leaves fewer to look at; looking at any leaves no more.
pub proof fn looking_leaves_fewer(types: Seq<TypeModel>, seen: Seq<Seq<char>>, name: Seq<char>)
    ensures
        0 <= unseen(types, seen.push(name), types.len() as int) <= unseen(
            types,
            seen,
            types.len() as int,
        ),
        type_named(types, name) is Some && !seen.contains(name) ==> unseen(
            types,
            seen.push(name),
            types.len() as int,
        ) < unseen(types, seen, types.len() as int),
{
    unseen_never_grows(types, seen, name, types.len() as int);
    type_position_is_inside(types, name, 0);
    if let Some(i) = type_position(types, name, 0) {
        assert(types[i].name == name);
    }
}

/// The class that declares a member, going up from `class`; classes that extend each other in a
/// circle are looked at once.
pub open spec fn declaring(
    types: Seq<TypeModel>,
    class: Seq<char>,
    name: Seq<char>,
    seen: Seq<Seq<char>>,
) -> Option<Seq<char>>
    decreases unseen(types, seen, types.len() as int),
{
    if seen.contains(class) {
        None
    } else {
        match type_named(types, class) {
            None => None,
            Some(found) => if member_position(found.members, name, 0) is Some {
                Some(class)
            } else {
                match found.extends {
                    None => None,
                    Some(parent) => {
                        proof {
                            looking_leaves_fewer(types, seen, class);
                        }
                        declaring(types, parent, name, seen.push(class))
                    },
                }
            },
        }
    }
}

/// Finds the class that declares a member, going up from `start`.
pub fn declaring_class(types: &Vec<ApiType>, start: &str, name: &str) -> (r: Option<String>)
    ensures
        r.deep_view() == declaring(types.deep_view(), start@, name@, Seq::empty()),
{
    let ghost all = types.deep_view();
    let mut seen: Vec<String> = Vec::new();
    let mut current = owned(start);
    assert(seen.deep_view() =~= Seq::empty());
    loop
        invariant
            all == types.deep_view(),
            declaring(all, start@, name@, Seq::empty()) == declaring(
                all,
                current@,
                name@,
                seen.deep_view(),
            ),
        decreases unseen(all, seen.deep_view(), all.len() as int),
    {
        if crate::text::list_holds(&seen, current.as_str()) {
            return None;
        }
        let at = match find_type(types, current.as_str()) {
            Some(at) => at,
            None => {
                return None;
            },
        };
        assert(all[at as int] == types@[at as int].deep_view());
        if find_member(&types[at].members, name).is_some() {
            return Some(current);
        }
        let parent = match &types[at].extends {
            Some(parent) => parent.clone(),
            None => {
                return None;
            },
        };
        proof {
            looking_leaves_fewer(all, seen.deep_view(), current@);
        }
        let ghost before = seen.deep_view();
        let ghost here = current@;
        seen.push(current);
        assert(seen.deep_view() =~= before.push(here));
        current = parent;
    }
}

/// What a deprecation says to use, made good. A replacement the named class does not declare
/// itself is looked for in the class of the deprecated member and above it, and dropped when
/// nothing there declares it.
pub open spec fn repaired_use(
    types: Seq<TypeModel>,
    owner: Seq<char>,
    told: Option<Seq<char>>,
) -> Option<Seq<char>> {
    match told {
        None => None,
        Some(target) => match member_split(target) {
            None => told,
            Some((named, replacement)) => if declares(types, named, replacement) {
                told
            } else {
                match declaring(types, owner, replacement, Seq::empty()) {
                    Some(holder) => Some(
                        holder + seq![target[named.len() as int]] + replacement,
                    ),
                    None => None,
                }
            },
        },
    }
}

pub open spec fn repaired_member(
    types: Seq<TypeModel>,
    owner: Seq<char>,
    member: MemberModel,
) -> MemberModel {
    MemberModel { deprecated_use: repaired_use(types, owner, member.deprecated_use), ..member }
}

pub open spec fn repaired_type(types: Seq<TypeModel>, found: TypeModel) -> TypeModel {
    TypeModel {
        members: found.members.map_values(
            |member: MemberModel| repaired_member(types, found.name, member),
        ),
        ..found
    }
}

/// The classes with every replacement made good.
pub open spec fn repaired(types: Seq<TypeModel>) -> Seq<TypeModel> {
    types.map_values(|found: TypeModel| repaired_type(types, found))
}

fn repair_use(types: &Vec<ApiType>, owner: &str, told: &Option<String>) -> (r: Option<String>)
    ensures
        r.deep_view() == repaired_use(types.deep_view(), owner@, told.deep_view()),
{
    let target = match told {
        None => {
            return None;
        },
        Some(target) => target,
    };
    match split_member(target.as_str()) {
        None => Some(target.clone()),
        Some((named, replacement)) => {
            if class_declares(types, named.as_str(), replacement.as_str()) {
                return Some(target.clone());
            }
            match declaring_class(types, owner, replacement.as_str()) {
                Some(holder) => {
                    let at = named.as_str().unicode_len();
                    proof {
                        parting_is_inside(target@, target@.len() as int);
                    }
                    let mut text = holder;
                    let ghost named_holder = text@;
                    text.push(target.as_str().get_char(at));
                    text.append(replacement.as_str());
                    assert(text@ =~= named_holder + seq![target@[at as int]] + replacement@);
                    Some(text)
                },
                None => None,
            }
        },
    }
}

proof fn parting_is_inside(s: Seq<char>, to: int)
    ensures
        last_parting(s, to) matches Some(i) ==> 0 <= i < to <= s.len() && parts_member(s[i])
            && forall|k: int| i < k < to ==> !parts_member(#[trigger] s[k]),
    decreases to,
{
    if 0 < to <= s.len() && !parts_member(s[to - 1]) {
        parting_is_inside(s, to - 1);
    }
}

fn repair_deprecation_targets(types: &Vec<ApiType>) -> (r: Vec<ApiType>)
    ensures
        r.deep_view() == repaired(types.deep_view()),
{
    let ghost all = types.deep_view();
    let ghost whole = repaired(all);
    let mut out: Vec<ApiType> = Vec::new();
    let mut i: usize = 0;
    while i < types.len()
        invariant
            i <= types@.len(),
            all == types.deep_view(),
            whole == repaired(all),
            out.deep_view() == whole.take(i as int),
        decreases types@.len() - i,
    {
        let found = &types[i];
        assert(all[i as int] == found.deep_view());
        let ghost members_whole = repaired_type(all, all[i as int]).members;
        let mut members: Vec<ApiMember> = Vec::new();
        let mut k: usize = 0;
        while k < found.members.len()
            invariant
                k <= found.members@.len(),
                all == types.deep_view(),
                i < all.len(),
                all[i as int] == found.deep_view(),
                members_whole == repaired_type(all, all[i as int]).members,
                members.deep_view() == members_whole.take(k as int),
            decreases found.members@.len() - k,
        {
            let member = &found.members[k];
            assert(all[i as int].members[k as int] == member.deep_view());
            let ghost before = members.deep_view();
            members.push(
                ApiMember {
                    name: member.name.clone(),
                    kind: member.kind,
                    declaration: member.declaration.clone(),
                    deprecated: member.deprecated,
                    deprecated_use: repair_use(
                        types,
                        found.name.as_str(),
                        &member.deprecated_use,
                    ),
                },
            );
            assert(members.deep_view() =~= before.push(members_whole[k as int]));
            assert(members.deep_view() =~= members_whole.take(k + 1));
            k = k + 1;
        }
        assert(members_whole.take(k as int) =~= members_whole);
        let ghost before = out.deep_view();
        out.push(
            ApiType {
                name: found.name.clone(),
                extends: owned_option(&found.extends),
                members,
            },
        );
        assert(out.deep_view() =~= before.push(whole[i as int]));
        assert(out.deep_view() =~= whole.take(i + 1));
        i = i + 1;
    }
    assert(whole.take(i as int) =~= whole);
    out
}

/// The classes of the definitions, ready to be asked about.
pub open spec fn defined_types(source: Seq<char>) -> Seq<TypeModel> {
    repaired(types_written(source))
}

/// What the metadata of the definitions says last.
pub open spec fn defined_metadata(source: Seq<char>) -> (Seq<Seq<char>>, Seq<Seq<char>>) {
    let st = read_lines(lines_of(source), lines_of(source).len() as int);
    (st.services, st.creatable)
}

/// Reads the type definitions: the classes in the order of their names, the services, and the
/// classes that can be created.
pub fn parse_definitions(source: &str) -> (r: (Vec<ApiType>, Vec<String>, Vec<String>))
    ensures
        r.0.deep_view() == defined_types(source@),
        r.1.deep_view() == defined_metadata(source@).0,
        r.2.deep_view() == defined_metadata(source@).1,
{
    let all = lines(source);
    let ghost text = all.deep_view();
    let mut types: Vec<ApiType> = Vec::new();
    let mut current: Option<ApiType> = None;
    let mut pending: Option<(bool, Option<String>)> = None;
    let mut services: Vec<String> = Vec::new();
    let mut creatable: Vec<String> = Vec::new();
    let mut i: usize = 0;
    proof {
        let st = read_lines(text, 0);
        assert(types.deep_view() =~= st.types);
        assert(services.deep_view() =~= st.services);
        assert(creatable.deep_view() =~= st.creatable);
    }
    while i < all.len()
        invariant
            i <= all@.len(),
            text == all.deep_view(),
            read_lines(text, i as int) == (ReadingModel {
                types: types.deep_view(),
                current: current.deep_view(),
                pending: pending.deep_view(),
                services: services.deep_view(),
                creatable: creatable.deep_view(),
            }),
        decreases all@.len() - i,
    {
        let line = all[i].as_str();
        assert(text[i as int] == line@);
        let ghost st = read_lines(text, i as int);
        if let Some(payload) = strip_prefix(line, "--#METADATA#") {
            let (found_services, found_creatable) = parse_metadata(payload);
            services = found_services;
            creatable = found_creatable;
        } else {
            match current {
                None => {
                    match parse_header(line) {
                        Some(header) => {
                            let opened = ApiType {
                                name: header.name,
                                extends: header.extends,
                                members: Vec::new(),
                            };
                            assert(opened.deep_view().members =~= Seq::empty());
                            if header.empty {
                                put_type(&mut types, opened);
                                current = None;
                            } else {
                                current = Some(opened);
                            }
                        },
                        None => {
                            current = None;
                        },
                    }
                },
                Some(open) => {
                    let mut open = open;
                    let said = trim(line);
                    if same_text(line, "end") {
                        put_type(&mut types, open);
                        current = None;
                        pending = None;
                    } else if said.is_empty() {
                        current = Some(open);
                    } else {
                        match strip_prefix(said, "@") {
                            Some(attribute) => {
                                match parse_attribute(attribute) {
                                    Some(told) => {
                                        pending = Some(told);
                                    },
                                    None => {},
                                }
                                current = Some(open);
                            },
                            None => {
                                let (deprecated, deprecated_use) = match pending {
                                    Some(told) => told,
                                    None => (false, None),
                                };
                                pending = None;
                                match parse_member(said, deprecated, deprecated_use) {
                                    Some(found) => {
                                        let ghost before = open.members.deep_view();
                                        let ghost model = found.deep_view();
                                        open.members.push(found);
                                        assert(open.members.deep_view() =~= before.push(model));
                                    },
                                    None => {},
                                }
                                current = Some(open);
                            },
                        }
                    }
                },
            }
        }
        assert(read_lines(text, i + 1) == read_line(st, line@));
        i = i + 1;
    }
    if let Some(finished) = current {
        put_type(&mut types, finished);
    }
    (repair_deprecation_targets(&types), services, creatable)
}

// ---------------------------------------------------------------------------
// What holds of all definitions

proof fn reading_keeps_order(all: Seq<Seq<char>>, n: int)
    requires
        0 <= n <= all.len(),
    ensures
        types_in_order(read_lines(all, n).types),
    decreases n,
{
    if n > 0 {
        reading_keeps_order(all, n - 1);
        let st = read_lines(all, n - 1);
        let line = all[n - 1];
        if let Some(current) = st.current {
            adding_keeps_order(st.types, current);
        }
        if let Some(header) = header_in(line) {
            adding_keeps_order(
                st.types,
                TypeModel { name: header.name, extends: header.extends, members: Seq::empty() },
            );
        }
    }
}

/// However the definitions are written, the classes come in the order of their names and each name
/// once.
pub proof fn classes_come_in_order(source: Seq<char>)
    ensures
        types_in_order(defined_types(source)),
{
    let all = lines_of(source);
    reading_keeps_order(all, all.len() as int);
    let st = read_lines(all, all.len() as int);
    if let Some(finished) = st.current {
        adding_keeps_order(st.types, finished);
    }
    let written = types_written(source);
    let ready = repaired(written);
    assert forall|i: int, j: int| 0 <= i < j < ready.len() implies comes_before(
        (#[trigger] ready[i]).name,
        (#[trigger] ready[j]).name,
    ) by {
        assert(ready[i].name == written[i].name);
        assert(ready[j].name == written[j].name);
    }
}

proof fn repair_keeps_positions(types: Seq<TypeModel>, name: Seq<char>, from: int)
    requires
        0 <= from,
    ensures
        type_position(repaired(types), name, from) == type_position(types, name, from),
    decreases types.len() - from,
{
    if from < types.len() {
        assert(repaired(types)[from].name == types[from].name);
        if types[from].name != name {
            repair_keeps_positions(types, name, from + 1);
        }
    }
}

proof fn repair_keeps_members(
    types: Seq<TypeModel>,
    found: TypeModel,
    name: Seq<char>,
    from: int,
)
    requires
        0 <= from,
    ensures
        member_position(repaired_type(types, found).members, name, from) == member_position(
            found.members,
            name,
            from,
        ),
    decreases found.members.len() - from,
{
    if from < found.members.len() {
        assert(repaired_type(types, found).members[from].name == found.members[from].name);
        if found.members[from].name != name {
            repair_keeps_members(types, found, name, from + 1);
        }
    }
}

proof fn repair_keeps_declarations(types: Seq<TypeModel>, class: Seq<char>, name: Seq<char>)
    ensures
        declares(repaired(types), class, name) == declares(types, class, name),
{
    repair_keeps_positions(types, class, 0);
    type_position_is_inside(types, class, 0);
    if let Some(i) = type_position(types, class, 0) {
        repair_keeps_members(types, types[i], name, 0);
        assert(repaired(types)[i] == repaired_type(types, types[i]));
    }
}

proof fn declaring_declares(
    types: Seq<TypeModel>,
    class: Seq<char>,
    name: Seq<char>,
    seen: Seq<Seq<char>>,
)
    ensures
        declaring(types, class, name, seen) matches Some(holder) ==> declares(types, holder, name),
    decreases unseen(types, seen, types.len() as int),
{
    if !seen.contains(class) {
        if let Some(found) = type_named(types, class) {
            if member_position(found.members, name, 0) is None {
                if let Some(parent) = found.extends {
                    looking_leaves_fewer(types, seen, class);
                    declaring_declares(types, parent, name, seen.push(class));
                }
            }
        }
    }
}

proof fn last_parting_at(s: Seq<char>, to: int, at: int)
    requires
        0 <= at < to <= s.len(),
        parts_member(s[at]),
        forall|k: int| at < k < to ==> !parts_member(#[trigger] s[k]),
    ensures
        last_parting(s, to) == Some(at),
    decreases to,
{
    if at < to - 1 {
        assert(!parts_member(s[to - 1]));
        last_parting_at(s, to - 1, at);
    }
}

/// A replacement that names a class and a member names a class that declares the member itself:
/// what a deprecation says to use is never a call that cannot run.
pub proof fn replacements_are_declared(source: Seq<char>, i: int, k: int)
    requires
        0 <= i < defined_types(source).len(),
        0 <= k < defined_types(source)[i].members.len(),
    ensures
        match defined_types(source)[i].members[k].deprecated_use {
            Some(told) => member_split(told) matches Some((class, name)) ==> declares(
                defined_types(source),
                class,
                name,
            ),
            None => true,
        },
{
    let types = types_written(source);
    let ready = defined_types(source);
    let owner = types[i].name;
    let before = types[i].members[k].deprecated_use;
    assert(ready[i].members[k] == repaired_member(types, owner, types[i].members[k]));
    if let Some(target) = before {
        if let Some((named, replacement)) = member_split(target) {
            parting_is_inside(target, target.len() as int);
            let at = last_parting(target, target.len() as int)->0;
            if declares(types, named, replacement) {
                repair_keeps_declarations(types, named, replacement);
            } else if let Some(holder) = declaring(types, owner, replacement, Seq::empty()) {
                declaring_declares(types, owner, replacement, Seq::empty());
                repair_keeps_declarations(types, holder, replacement);
                let told = holder + seq![target[at]] + replacement;
                assert(named.len() == at);
                assert forall|j: int| holder.len() < j < told.len() implies !parts_member(
                    #[trigger] told[j],
                ) by {
                    assert(told[j] == replacement[j - holder.len() - 1]);
                    assert(told[j] == target[at + 1 + (j - holder.len() - 1)]);
                }
                last_parting_at(told, told.len() as int, holder.len() as int);
                assert(told.take(holder.len() as int) =~= holder);
                assert(told.skip((holder.len() + 1) as int) =~= replacement);
            }
        }
    }
}

} // verus!
