//! Questions about the Roblox API.
use vstd::prelude::*;
use vstd::utf8::*;
use super::api_definitions::{
    declaring, declaring_class, find_member, find_type, looking_leaves_fewer, member_position,
    member_split, split_member, type_named, unseen, ApiMember, ApiType, MemberKind, MemberModel,
    TypeModel,
};
use super::shared_require::last_segment;
use super::sourcemap::after_last_slash;
use crate::errors::{hinted, hinted_failure, Failure, FailureModel};
use crate::text::{
    comes_before, contains_text, ends_with, has_prefix, has_suffix, holds, is_white_space, join,
    joined, list_holds, lowercase, owned, owned_option, same_text, slice_text, split_once,
    split_once_on, starts_with, strip_prefix, strip_suffix, text_before, to_chars, to_lower, trim,
    trim_end_of, trim_start_of, trimmed, without_prefix, without_suffix,
};
use crate::text_map::TextMap;

verus! {

/// How many names are suggested in place of one that is not there.
pub const SUGGESTIONS: usize = 8;

/// What the documentation says of a parameter.
#[derive(Debug)]
pub struct RawParameter {
    pub name: String,
    pub documentation: String,
}

/// What the documentation says of a name.
#[derive(Debug)]
pub struct RawDoc {
    pub documentation: String,
    pub learn_more_link: Option<String>,
    pub params: Vec<RawParameter>,
    pub returns: Vec<String>,
}

/// The Roblox API surface.
pub struct RobloxApi {
    pub types: Vec<ApiType>,
    pub services: Vec<String>,
    pub creatable: Vec<String>,
    pub docs: TextMap<RawDoc>,
    pub security_level: String,
}

/// A member of a class, as the answer reports it.
#[derive(Debug)]
pub struct MemberSummary {
    pub name: String,
    pub kind: MemberKind,
    pub declaration: String,
    pub deprecated: bool,
    pub deprecated_use: Option<String>,
    /// Set only when the member came from an ancestor rather than from the class asked about.
    pub inherited_from: Option<String>,
    pub documentation: Option<String>,
}

/// A parameter, as the answer reports it.
#[derive(Debug)]
pub struct ParameterDoc {
    pub name: String,
    pub documentation: Option<String>,
}

/// What a question about a class is answered with.
#[derive(Debug)]
pub struct ClassAnswer {
    pub name: String,
    pub extends: Option<String>,
    /// The whole ancestry, nearest first, so a member missing here can be looked for above.
    pub inherits: Vec<String>,
    pub is_service: bool,
    pub creatable: bool,
    pub documentation: Option<String>,
    pub learn_more_link: Option<String>,
    pub members: Vec<MemberSummary>,
    /// How many members are in `members`, and nothing else.
    pub returned_count: usize,
    /// How many survived the filter before the cap, where that is more.
    pub matched_count: Option<usize>,
    /// Every member the class carries before the filter narrowed them, where that is more.
    pub total_member_count: Option<usize>,
    pub truncated: bool,
}

/// What a question about a member is answered with.
#[derive(Debug)]
pub struct MemberAnswer {
    pub class: String,
    pub name: String,
    pub member_kind: MemberKind,
    pub declaration: String,
    pub deprecated: bool,
    pub deprecated_use: Option<String>,
    pub declared_by: Option<String>,
    pub documentation: Option<String>,
    pub parameters: Vec<ParameterDoc>,
    pub returns: Vec<String>,
    pub learn_more_link: Option<String>,
}

/// An item of an enum, as the answer reports it.
#[derive(Debug)]
pub struct EnumItemAnswer {
    pub name: String,
    pub documentation: Option<String>,
    pub learn_more_link: Option<String>,
}

/// What a question about an enum is answered with.
#[derive(Debug)]
pub struct EnumAnswer {
    pub name: String,
    pub items: Vec<EnumItemAnswer>,
    /// How many items are in `items`, and nothing else.
    pub item_count: usize,
    /// How many the enum carries before the cap, where that is more.
    pub matched_count: Option<usize>,
    pub truncated: bool,
}

/// What a question is answered with.
#[derive(Debug)]
pub enum Answer {
    Class(ClassAnswer),
    Member(MemberAnswer),
    Enum(EnumAnswer),
}

/// An answer, and which type definitions it came from.
#[derive(Debug)]
pub struct ApiResult {
    pub answer: Answer,
    pub security_level: String,
}

/// A question.
#[derive(Debug)]
pub struct ApiQuery<'a> {
    pub query: &'a str,
    pub member_filter: Option<&'a str>,
    pub include_inherited: bool,
    pub include_documentation: bool,
    pub max_members: usize,
}

pub struct SummaryModel {
    pub name: Seq<char>,
    pub kind: MemberKind,
    pub declaration: Seq<char>,
    pub deprecated: bool,
    pub deprecated_use: Option<Seq<char>>,
    pub inherited_from: Option<Seq<char>>,
    pub documentation: Option<Seq<char>>,
}

pub struct ParameterModel {
    pub name: Seq<char>,
    pub documentation: Option<Seq<char>>,
}

pub struct ClassModel {
    pub name: Seq<char>,
    pub extends: Option<Seq<char>>,
    pub inherits: Seq<Seq<char>>,
    pub is_service: bool,
    pub creatable: bool,
    pub documentation: Option<Seq<char>>,
    pub learn_more_link: Option<Seq<char>>,
    pub members: Seq<SummaryModel>,
    pub returned_count: int,
    pub matched_count: Option<int>,
    pub total_member_count: Option<int>,
    pub truncated: bool,
}

pub struct MemberAnswerModel {
    pub class: Seq<char>,
    pub name: Seq<char>,
    pub member_kind: MemberKind,
    pub declaration: Seq<char>,
    pub deprecated: bool,
    pub deprecated_use: Option<Seq<char>>,
    pub declared_by: Option<Seq<char>>,
    pub documentation: Option<Seq<char>>,
    pub parameters: Seq<ParameterModel>,
    pub returns: Seq<Seq<char>>,
    pub learn_more_link: Option<Seq<char>>,
}

pub struct ItemModel {
    pub name: Seq<char>,
    pub documentation: Option<Seq<char>>,
    pub learn_more_link: Option<Seq<char>>,
}

pub struct EnumModel {
    pub name: Seq<char>,
    pub items: Seq<ItemModel>,
    pub item_count: int,
    pub matched_count: Option<int>,
    pub truncated: bool,
}

pub enum AnswerModel {
    Class(ClassModel),
    Member(MemberAnswerModel),
    Enum(EnumModel),
}

pub open spec fn count_model(count: Option<usize>) -> Option<int> {
    match count {
        Some(n) => Some(n as int),
        None => None,
    }
}

impl DeepView for MemberSummary {
    type V = SummaryModel;

    open spec fn deep_view(&self) -> SummaryModel {
        SummaryModel {
            name: self.name@,
            kind: self.kind,
            declaration: self.declaration@,
            deprecated: self.deprecated,
            deprecated_use: self.deprecated_use.deep_view(),
            inherited_from: self.inherited_from.deep_view(),
            documentation: self.documentation.deep_view(),
        }
    }
}

impl DeepView for ParameterDoc {
    type V = ParameterModel;

    open spec fn deep_view(&self) -> ParameterModel {
        ParameterModel { name: self.name@, documentation: self.documentation.deep_view() }
    }
}

impl DeepView for ClassAnswer {
    type V = ClassModel;

    open spec fn deep_view(&self) -> ClassModel {
        ClassModel {
            name: self.name@,
            extends: self.extends.deep_view(),
            inherits: self.inherits.deep_view(),
            is_service: self.is_service,
            creatable: self.creatable,
            documentation: self.documentation.deep_view(),
            learn_more_link: self.learn_more_link.deep_view(),
            members: self.members.deep_view(),
            returned_count: self.returned_count as int,
            matched_count: count_model(self.matched_count),
            total_member_count: count_model(self.total_member_count),
            truncated: self.truncated,
        }
    }
}

impl DeepView for MemberAnswer {
    type V = MemberAnswerModel;

    open spec fn deep_view(&self) -> MemberAnswerModel {
        MemberAnswerModel {
            class: self.class@,
            name: self.name@,
            member_kind: self.member_kind,
            declaration: self.declaration@,
            deprecated: self.deprecated,
            deprecated_use: self.deprecated_use.deep_view(),
            declared_by: self.declared_by.deep_view(),
            documentation: self.documentation.deep_view(),
            parameters: self.parameters.deep_view(),
            returns: self.returns.deep_view(),
            learn_more_link: self.learn_more_link.deep_view(),
        }
    }
}

impl DeepView for EnumItemAnswer {
    type V = ItemModel;

    open spec fn deep_view(&self) -> ItemModel {
        ItemModel {
            name: self.name@,
            documentation: self.documentation.deep_view(),
            learn_more_link: self.learn_more_link.deep_view(),
        }
    }
}

impl DeepView for EnumAnswer {
    type V = EnumModel;

    open spec fn deep_view(&self) -> EnumModel {
        EnumModel {
            name: self.name@,
            items: self.items.deep_view(),
            item_count: self.item_count as int,
            matched_count: count_model(self.matched_count),
            truncated: self.truncated,
        }
    }
}

impl DeepView for Answer {
    type V = AnswerModel;

    open spec fn deep_view(&self) -> AnswerModel {
        match self {
            Answer::Class(class) => AnswerModel::Class(class.deep_view()),
            Answer::Member(member) => AnswerModel::Member(member.deep_view()),
            Answer::Enum(found) => AnswerModel::Enum(found.deep_view()),
        }
    }
}

// ---------------------------------------------------------------------------
// Documentation

/// A text without what stands between angle brackets.
pub open spec fn outside_brackets(s: Seq<char>, inside: bool) -> Seq<char>
    decreases s.len(),
{
    if s.len() == 0 {
        Seq::empty()
    } else if s[0] == '<' {
        outside_brackets(s.skip(1), true)
    } else if s[0] == '>' {
        outside_brackets(s.skip(1), false)
    } else if inside {
        outside_brackets(s.skip(1), inside)
    } else {
        seq![s[0]] + outside_brackets(s.skip(1), inside)
    }
}

/// A text without its markup.
pub open spec fn without_markup(text: Seq<char>) -> Seq<char> {
    trimmed(outside_brackets(text, false))
}

/// Takes the markup out of a text.
pub fn strip_markup(text: &str) -> (r: String)
    ensures
        r@ == without_markup(text@),
{
    let chars = to_chars(text);
    let mut out = String::new();
    let mut inside = false;
    let mut i: usize = 0;
    let ghost whole = outside_brackets(text@, false);
    assert(text@.skip(0) =~= text@);
    assert(out@ + whole =~= whole);
    while i < chars.len()
        invariant
            i <= chars@.len(),
            chars@ == text@,
            whole == outside_brackets(text@, false),
            whole == out@ + outside_brackets(text@.skip(i as int), inside),
        decreases chars@.len() - i,
    {
        let ghost before = out@;
        let ghost rest = text@.skip(i as int);
        assert(rest.skip(1) =~= text@.skip(i + 1));
        let c = chars[i];
        if c == '<' {
            inside = true;
        } else if c == '>' {
            inside = false;
        } else if !inside {
            out.push(c);
            proof {
                let tail = outside_brackets(text@.skip(i + 1), inside);
                assert(before + (seq![c] + tail) =~= out@ + tail);
            }
        }
        i = i + 1;
    }
    assert(text@.skip(i as int) =~= Seq::empty());
    assert(out@ + Seq::<char>::empty() =~= out@);
    owned(trim(out.as_str()))
}

/// A text, where there is anything in it.
pub open spec fn nonempty(text: Seq<char>) -> Option<Seq<char>> {
    if text.len() == 0 {
        None
    } else {
        Some(text)
    }
}

fn shown(text: &str) -> (r: Option<String>)
    ensures
        r.deep_view() == nonempty(without_markup(text@)),
{
    let bare = strip_markup(text);
    if bare.as_str().is_empty() {
        None
    } else {
        Some(bare)
    }
}

/// The file a documentation address names: what follows its last slash.
pub fn documentation_file_name(documentation_url: &str) -> (r: String)
    ensures
        r@ == after_last_slash(documentation_url@),
{
    last_segment(documentation_url)
}

/// What is documented under a key.
pub open spec fn doc_at(docs: Map<Seq<char>, RawDoc>, key: Seq<char>) -> Option<RawDoc> {
    if docs.contains_key(key) {
        Some(docs[key])
    } else {
        None
    }
}

/// What is documented of a global type or a global.
pub open spec fn doc_of(docs: Map<Seq<char>, RawDoc>, name: Seq<char>) -> Option<RawDoc> {
    match doc_at(docs, "@roblox/globaltype/"@ + name) {
        Some(doc) => Some(doc),
        None => doc_at(docs, "@roblox/global/"@ + name),
    }
}

/// The prose of a documented name, where it is asked for and there is any.
pub open spec fn prose(doc: Option<RawDoc>, asked: bool) -> Option<Seq<char>> {
    match doc {
        Some(held) => if asked {
            nonempty(without_markup(held.documentation@))
        } else {
            None
        },
        None => None,
    }
}

/// The link of a documented name.
pub open spec fn link(doc: Option<RawDoc>) -> Option<Seq<char>> {
    match doc {
        Some(held) => held.learn_more_link.deep_view(),
        None => None,
    }
}

fn prose_of(doc: Option<&RawDoc>, asked: bool) -> (r: Option<String>)
    ensures
        r.deep_view() == prose(
            match doc {
                Some(held) => Some(*held),
                None => None,
            },
            asked,
        ),
{
    match doc {
        Some(held) => {
            if asked {
                shown(held.documentation.as_str())
            } else {
                None
            }
        },
        None => None,
    }
}

fn link_of(doc: Option<&RawDoc>) -> (r: Option<String>)
    ensures
        r.deep_view() == link(
            match doc {
                Some(held) => Some(*held),
                None => None,
            },
        ),
{
    match doc {
        Some(held) => owned_option(&held.learn_more_link),
        None => None,
    }
}

/// What a reference says: a key says what is documented under it, anything else says itself.
pub open spec fn referenced(docs: Map<Seq<char>, RawDoc>, key: Seq<char>) -> Option<Seq<char>> {
    if !starts_with(key, "@roblox/"@) {
        nonempty(without_markup(key))
    } else {
        prose(doc_at(docs, key), true)
    }
}

/// The parameters among the first `n`, `self` left out.
pub open spec fn parameters_of(
    docs: Map<Seq<char>, RawDoc>,
    params: Seq<RawParameter>,
    n: int,
) -> Seq<ParameterModel>
    decreases n,
{
    if n <= 0 {
        Seq::empty()
    } else if params[n - 1].name@ == "self"@ {
        parameters_of(docs, params, n - 1)
    } else {
        parameters_of(docs, params, n - 1).push(
            ParameterModel {
                name: params[n - 1].name@,
                documentation: referenced(docs, params[n - 1].documentation@),
            },
        )
    }
}

/// What the first `n` returns say, those that say nothing left out.
pub open spec fn returns_of(docs: Map<Seq<char>, RawDoc>, keys: Seq<Seq<char>>, n: int) -> Seq<
    Seq<char>,
>
    decreases n,
{
    if n <= 0 {
        Seq::empty()
    } else {
        match referenced(docs, keys[n - 1]) {
            Some(text) => returns_of(docs, keys, n - 1).push(text),
            None => returns_of(docs, keys, n - 1),
        }
    }
}

// ---------------------------------------------------------------------------
// Classes

/// A member as the answer reports it.
pub open spec fn summary(
    docs: Map<Seq<char>, RawDoc>,
    member: MemberModel,
    inherited_from: Option<Seq<char>>,
    with_docs: bool,
    owner: Seq<char>,
) -> SummaryModel {
    SummaryModel {
        name: member.name,
        kind: member.kind,
        declaration: member.declaration,
        deprecated: member.deprecated,
        deprecated_use: member.deprecated_use,
        inherited_from,
        documentation: prose(doc_of(docs, owner + "."@ + member.name), with_docs),
    }
}

/// What the class of a name extends.
pub open spec fn parent_class(types: Seq<TypeModel>, name: Seq<char>) -> Option<Seq<char>> {
    match type_named(types, name) {
        Some(found) => found.extends,
        None => None,
    }
}

/// The chain of classes from `current` up, each once.
pub open spec fn ancestry_on(
    types: Seq<TypeModel>,
    current: Option<Seq<char>>,
    chain: Seq<Seq<char>>,
) -> Seq<Seq<char>>
    decreases
        unseen(types, chain, types.len() as int),
        if current is Some {
            1int
        } else {
            0int
        },
{
    match current {
        None => chain,
        Some(parent) => if chain.contains(parent) {
            chain
        } else {
            proof {
                looking_leaves_fewer(types, chain, parent);
            }
            ancestry_on(types, parent_class(types, parent), chain.push(parent))
        },
    }
}

/// The classes above a class, nearest first.
pub open spec fn ancestry_of(types: Seq<TypeModel>, name: Seq<char>) -> Seq<Seq<char>> {
    ancestry_on(types, parent_class(types, name), Seq::empty())
}

/// Whether a member is hidden by one of the same name in the class or in one of its first `k`
/// ancestors.
pub open spec fn shadowed(
    types: Seq<TypeModel>,
    found: TypeModel,
    ancestry: Seq<Seq<char>>,
    k: int,
    name: Seq<char>,
) -> bool
    decreases k,
{
    if k <= 0 {
        member_position(found.members, name, 0) is Some
    } else {
        shadowed(types, found, ancestry, k - 1, name) || match type_named(types, ancestry[k - 1]) {
            Some(parent) => member_position(parent.members, name, 0) is Some,
            None => false,
        }
    }
}

/// The members among the first `n` of ancestor `k` that nothing nearer hides.
pub open spec fn inherited_from(
    docs: Map<Seq<char>, RawDoc>,
    types: Seq<TypeModel>,
    found: TypeModel,
    ancestry: Seq<Seq<char>>,
    k: int,
    members: Seq<MemberModel>,
    with_docs: bool,
    n: int,
) -> Seq<SummaryModel>
    decreases n,
{
    if n <= 0 {
        Seq::empty()
    } else {
        let before = inherited_from(
            docs,
            types,
            found,
            ancestry,
            k,
            members,
            with_docs,
            n - 1,
        );
        if shadowed(types, found, ancestry, k, members[n - 1].name) {
            before
        } else {
            before.push(
                summary(docs, members[n - 1], Some(ancestry[k]), with_docs, ancestry[k]),
            )
        }
    }
}

/// What the first `k` ancestors add to a class.
pub open spec fn inherited_members(
    docs: Map<Seq<char>, RawDoc>,
    types: Seq<TypeModel>,
    found: TypeModel,
    ancestry: Seq<Seq<char>>,
    with_docs: bool,
    k: int,
) -> Seq<SummaryModel>
    decreases k,
{
    if k <= 0 {
        Seq::empty()
    } else {
        let before = inherited_members(docs, types, found, ancestry, with_docs, k - 1);
        match type_named(types, ancestry[k - 1]) {
            Some(parent) => before + inherited_from(
                docs,
                types,
                found,
                ancestry,
                k - 1,
                parent.members,
                with_docs,
                parent.members.len() as int,
            ),
            None => before,
        }
    }
}

/// The members of a class: its own, then what it inherits where that is asked for.
pub open spec fn class_members(
    docs: Map<Seq<char>, RawDoc>,
    types: Seq<TypeModel>,
    found: TypeModel,
    with_inherited: bool,
    with_docs: bool,
) -> Seq<SummaryModel> {
    let ancestry = ancestry_of(types, found.name);
    found.members.map_values(
        |member: MemberModel| summary(docs, member, None, with_docs, found.name),
    ) + if with_inherited {
        inherited_members(docs, types, found, ancestry, with_docs, ancestry.len() as int)
    } else {
        Seq::empty()
    }
}

/// Whether a name passes a filter, whatever the case of either.
pub open spec fn passes(name: Seq<char>, filter: Seq<char>) -> bool {
    holds(lowercase(name), lowercase(filter))
}

/// Those among the first `n` members that pass a filter.
pub open spec fn passing_members(members: Seq<SummaryModel>, filter: Seq<char>, n: int) -> Seq<
    SummaryModel,
>
    decreases n,
{
    if n <= 0 {
        Seq::empty()
    } else if passes(members[n - 1].name, filter) {
        passing_members(members, filter, n - 1).push(members[n - 1])
    } else {
        passing_members(members, filter, n - 1)
    }
}

/// Those among the first `n` members that are inherited or not, and deprecated or not.
pub open spec fn member_group(
    members: Seq<SummaryModel>,
    inherited: bool,
    deprecated: bool,
    n: int,
) -> Seq<SummaryModel>
    decreases n,
{
    if n <= 0 {
        Seq::empty()
    } else {
        let before = member_group(members, inherited, deprecated, n - 1);
        if (members[n - 1].inherited_from is Some) == inherited && members[n - 1].deprecated
            == deprecated {
            before.push(members[n - 1])
        } else {
            before
        }
    }
}

/// Members so ordered that the few a cap leaves are the few worth reading: own members before
/// inherited ones, and among each those that are not deprecated first. Within a group the order
/// stays.
pub open spec fn ranked(members: Seq<SummaryModel>) -> Seq<SummaryModel> {
    let n = members.len() as int;
    member_group(members, false, false, n) + member_group(members, false, true, n) + member_group(
        members,
        true,
        false,
        n,
    ) + member_group(members, true, true, n)
}

/// The members of an answer once a filter and a cap are applied.
pub open spec fn capped(members: Seq<SummaryModel>, cap: int) -> Seq<SummaryModel> {
    if members.len() > cap {
        ranked(members).take(cap)
    } else {
        members
    }
}

/// A question, as contracts write it.
pub struct QueryModel {
    pub query: Seq<char>,
    pub member_filter: Option<Seq<char>>,
    pub include_inherited: bool,
    pub include_documentation: bool,
    pub max_members: int,
}

impl<'a> DeepView for ApiQuery<'a> {
    type V = QueryModel;

    open spec fn deep_view(&self) -> QueryModel {
        QueryModel {
            query: self.query@,
            member_filter: self.member_filter.deep_view(),
            include_inherited: self.include_inherited,
            include_documentation: self.include_documentation,
            max_members: self.max_members as int,
        }
    }
}

/// A count that is told only where it differs from another.
pub open spec fn count_if_other(count: int, other: int) -> Option<int> {
    if count != other {
        Some(count)
    } else {
        None
    }
}

/// The members that pass the filter of a question.
pub open spec fn matched_members(members: Seq<SummaryModel>, filter: Option<Seq<char>>) -> Seq<
    SummaryModel,
> {
    match filter {
        Some(needle) => passing_members(members, needle, members.len() as int),
        None => members,
    }
}

/// The API as contracts write it.
pub struct ApiModel {
    pub types: Seq<TypeModel>,
    pub services: Seq<Seq<char>>,
    pub creatable: Seq<Seq<char>>,
    pub docs: Map<Seq<char>, RawDoc>,
}

/// What a question about a class is answered with.
pub open spec fn class_model(api: ApiModel, found: TypeModel, query: QueryModel) -> ClassModel {
    let all = class_members(
        api.docs,
        api.types,
        found,
        query.include_inherited,
        query.include_documentation,
    );
    let matched = matched_members(all, query.member_filter);
    let members = capped(matched, query.max_members);
    let doc = doc_of(api.docs, found.name);
    ClassModel {
        name: found.name,
        extends: found.extends,
        inherits: ancestry_of(api.types, found.name),
        is_service: api.services.contains(found.name),
        creatable: api.creatable.contains(found.name),
        documentation: prose(doc, query.include_documentation),
        learn_more_link: link(doc),
        members,
        returned_count: members.len() as int,
        matched_count: count_if_other(matched.len() as int, members.len() as int),
        total_member_count: count_if_other(all.len() as int, matched.len() as int),
        truncated: matched.len() > query.max_members,
    }
}

/// What a question about a member of a class is answered with, where the class or one above it
/// declares the member.
pub open spec fn member_model(api: ApiModel, owner: TypeModel, name: Seq<char>) -> Option<
    MemberAnswerModel,
> {
    match declaring(api.types, owner.name, name, Seq::empty()) {
        None => None,
        Some(holder) => {
            let members = type_named(api.types, holder)->0.members;
            let member = members[member_position(members, name, 0)->0];
            let doc = doc_of(api.docs, holder + "."@ + name);
            Some(
                MemberAnswerModel {
                    class: owner.name,
                    name: member.name,
                    member_kind: member.kind,
                    declaration: member.declaration,
                    deprecated: member.deprecated,
                    deprecated_use: member.deprecated_use,
                    declared_by: if holder != owner.name {
                        Some(holder)
                    } else {
                        None
                    },
                    documentation: prose(doc, true),
                    parameters: match doc {
                        Some(held) => parameters_of(
                            api.docs,
                            held.params@,
                            held.params@.len() as int,
                        ),
                        None => Seq::empty(),
                    },
                    returns: match doc {
                        Some(held) => returns_of(
                            api.docs,
                            held.returns.deep_view(),
                            held.returns@.len() as int,
                        ),
                        None => Seq::empty(),
                    },
                    learn_more_link: link(doc),
                },
            )
        },
    }
}

// ---------------------------------------------------------------------------
// Enums

/// The class that holds the items of an enum.
pub open spec fn enum_container(name: Seq<char>) -> Seq<char> {
    "Enum"@ + name + "_INTERNAL"@
}

/// The items among the first `n` members of the class that holds an enum's items.
pub open spec fn enum_items(
    docs: Map<Seq<char>, RawDoc>,
    name: Seq<char>,
    members: Seq<MemberModel>,
    with_docs: bool,
    n: int,
) -> Seq<ItemModel>
    decreases n,
{
    if n <= 0 {
        Seq::empty()
    } else {
        let before = enum_items(docs, name, members, with_docs, n - 1);
        let member = members[n - 1];
        if member.kind == MemberKind::Property && ends_with(member.declaration, "Enum"@ + name) {
            let doc = doc_at(docs, "@roblox/enum/"@ + name + "."@ + member.name);
            before.push(
                ItemModel {
                    name: member.name,
                    documentation: prose(doc, with_docs),
                    learn_more_link: link(doc),
                },
            )
        } else {
            before
        }
    }
}

/// Those among the first `n` items that pass a filter.
pub open spec fn passing_items(items: Seq<ItemModel>, filter: Seq<char>, n: int) -> Seq<ItemModel>
    decreases n,
{
    if n <= 0 {
        Seq::empty()
    } else if passes(items[n - 1].name, filter) {
        passing_items(items, filter, n - 1).push(items[n - 1])
    } else {
        passing_items(items, filter, n - 1)
    }
}

/// The enum and the item a question about enums names.
pub open spec fn enum_parts(rest: Seq<char>) -> (Seq<char>, Option<Seq<char>>) {
    match split_once_on(rest, '.') {
        Some((name, item)) => (name, Some(item)),
        None => (rest, None),
    }
}

/// The enums suggested among the first `n` classes, at most as many as are ever suggested.
pub open spec fn suggested_enums(types: Seq<TypeModel>, asked: Seq<char>, n: int) -> Seq<Seq<char>>
    decreases n,
{
    if n <= 0 {
        Seq::empty()
    } else {
        let before = suggested_enums(types, asked, n - 1);
        match without_suffix(types[n - 1].name, "_INTERNAL"@) {
            Some(bare) => match without_prefix(bare, "Enum"@) {
                Some(name) => if passes(name, asked) && before.len() < SUGGESTIONS {
                    before.push("Enum."@ + name)
                } else {
                    before
                },
                None => before,
            },
            None => before,
        }
    }
}

/// The hint of a name that is not there.
pub open spec fn suggestion_hint(found: Seq<Seq<char>>, otherwise: Seq<char>) -> Seq<char> {
    if found.len() == 0 {
        otherwise
    } else {
        "did you mean: "@ + joined(found, ", "@)
    }
}

/// What a question about an enum is answered with.
pub open spec fn enum_model(api: ApiModel, rest: Seq<char>, query: QueryModel) -> Result<
    EnumModel,
    FailureModel,
> {
    let (name, item) = enum_parts(rest);
    match type_named(api.types, enum_container(name)) {
        None => Err(
            hinted_failure(
                "the Roblox API has no enum named Enum."@ + name,
                suggestion_hint(
                    suggested_enums(api.types, name, api.types.len() as int),
                    "enums are spelled as Roblox spells them, such as \"Enum.EasingStyle\""@,
                ),
            ),
        ),
        Some(found) => {
            let all = enum_items(
                api.docs,
                name,
                found.members,
                query.include_documentation,
                found.members.len() as int,
            );
            let filter = match item {
                Some(one) => Some(one),
                None => query.member_filter,
            };
            let matched = match filter {
                Some(needle) => passing_items(all, needle, all.len() as int),
                None => all,
            };
            let items = if matched.len() > query.max_members {
                matched.take(query.max_members)
            } else {
                matched
            };
            Ok(
                EnumModel {
                    name: "Enum."@ + name,
                    items,
                    item_count: items.len() as int,
                    matched_count: count_if_other(matched.len() as int, items.len() as int),
                    truncated: matched.len() > query.max_members,
                },
            )
        },
    }
}

// ---------------------------------------------------------------------------
// Suggestions

/// Where the part of a name before a dot or a colon ends.
pub open spec fn base_end(s: Seq<char>, i: int) -> int
    decreases s.len() - i,
{
    if 0 <= i < s.len() && s[i] != '.' && s[i] != ':' {
        base_end(s, i + 1)
    } else {
        i
    }
}

/// What a name is looked for by: its small letters up to a dot or a colon.
pub open spec fn suggestion_base(asked: Seq<char>) -> Seq<char> {
    lowercase(asked).take(base_end(lowercase(asked), 0))
}

/// Whether a class is suggested: its name holds the base or, where it is not too short, is held
/// by it. A class that holds the items of an enum never is.
pub open spec fn is_suggested(name: Seq<char>, base: Seq<char>) -> bool {
    &&& !ends_with(name, "_INTERNAL"@)
    &&& holds(lowercase(name), base) || (encode_utf8(name).len() >= 3 && holds(
        base,
        lowercase(name),
    ))
}

/// Whether one suggestion comes before another: shorter names first, then in order.
pub open spec fn suggested_before(a: Seq<char>, b: Seq<char>) -> bool {
    ||| encode_utf8(a).len() < encode_utf8(b).len()
    ||| encode_utf8(a).len() == encode_utf8(b).len() && comes_before(a, b)
}

/// Suggestions with one more in its place.
pub open spec fn with_suggestion(found: Seq<Seq<char>>, name: Seq<char>) -> Seq<Seq<char>>
    decreases found.len(),
{
    if found.len() > 0 && suggested_before(name, found.last()) {
        with_suggestion(found.drop_last(), name).push(found.last())
    } else {
        found.push(name)
    }
}

/// The suggestions among the first `n` classes, in order.
pub open spec fn suggested_classes(types: Seq<TypeModel>, base: Seq<char>, n: int) -> Seq<Seq<char>>
    decreases n,
{
    if n <= 0 {
        Seq::empty()
    } else if is_suggested(types[n - 1].name, base) {
        with_suggestion(suggested_classes(types, base, n - 1), types[n - 1].name)
    } else {
        suggested_classes(types, base, n - 1)
    }
}

/// What is suggested in place of a name that is not there.
pub open spec fn suggestions(types: Seq<TypeModel>, asked: Seq<char>) -> Seq<Seq<char>> {
    let base = suggestion_base(asked);
    if encode_utf8(base).len() < 3 {
        Seq::empty()
    } else {
        let all = suggested_classes(types, base, types.len() as int);
        if all.len() > SUGGESTIONS {
            all.take(SUGGESTIONS as int)
        } else {
            all
        }
    }
}

// ---------------------------------------------------------------------------
// Answers

/// What a question is answered with: an enum, a class, a member of a class, or a failure that
/// suggests what could have been meant.
pub open spec fn api_answer(api: ApiModel, query: QueryModel) -> Result<AnswerModel, FailureModel> {
    let asked = trimmed(query.query);
    if asked.len() == 0 {
        Err(
            hinted_failure(
                "query must not be empty"@,
                "name a class (\"BasePart\"), a member (\"TweenService:Create\"), or an enum (\"Enum.EasingStyle\")"@,
            ),
        )
    } else {
        match without_prefix(asked, "Enum."@) {
            Some(rest) => match enum_model(api, rest, query) {
                Ok(found) => Ok(AnswerModel::Enum(found)),
                Err(failure) => Err(failure),
            },
            None => match type_named(api.types, asked) {
                Some(found) => Ok(AnswerModel::Class(class_model(api, found, query))),
                None => match member_asked(api, asked) {
                    Some(found) => Ok(AnswerModel::Member(found)),
                    None => Err(
                        hinted_failure(
                            "the Roblox API has nothing named "@ + asked,
                            suggestion_hint(
                                suggestions(api.types, asked),
                                "names are case-sensitive and spelled as Roblox spells them, such as \"BasePart\", \"TweenService:Create\", or \"Enum.EasingStyle\""@,
                            ),
                        ),
                    ),
                },
            },
        }
    }
}

/// The member a question names, where it names a class and a member the class has.
pub open spec fn member_asked(api: ApiModel, asked: Seq<char>) -> Option<MemberAnswerModel> {
    match member_split(asked) {
        None => None,
        Some((class, name)) => match type_named(api.types, class) {
            None => None,
            Some(owner) => member_model(api, owner, name),
        },
    }
}

fn copy_summary(member: &MemberSummary) -> (r: MemberSummary)
    ensures
        r.deep_view() == member.deep_view(),
{
    MemberSummary {
        name: member.name.clone(),
        kind: member.kind,
        declaration: member.declaration.clone(),
        deprecated: member.deprecated,
        deprecated_use: owned_option(&member.deprecated_use),
        inherited_from: owned_option(&member.inherited_from),
        documentation: owned_option(&member.documentation),
    }
}

fn push_group(out: &mut Vec<MemberSummary>, members: &Vec<MemberSummary>, inherited: bool, deprecated: bool)
    ensures
        final(out).deep_view() == old(out).deep_view() + member_group(
            members.deep_view(),
            inherited,
            deprecated,
            members@.len() as int,
        ),
{
    let ghost all = members.deep_view();
    let ghost start = out.deep_view();
    let mut i: usize = 0;
    assert(start + member_group(all, inherited, deprecated, 0) =~= start);
    while i < members.len()
        invariant
            i <= members@.len(),
            all == members.deep_view(),
            out.deep_view() == start + member_group(all, inherited, deprecated, i as int),
        decreases members@.len() - i,
    {
        assert(all[i as int] == members@[i as int].deep_view());
        let ghost before = out.deep_view();
        let ghost had = member_group(all, inherited, deprecated, i as int);
        if members[i].inherited_from.is_some() == inherited && members[i].deprecated
            == deprecated {
            out.push(copy_summary(&members[i]));
            assert(out.deep_view() =~= before.push(all[i as int]));
            assert(before.push(all[i as int]) =~= start + had.push(all[i as int]));
        }
        i = i + 1;
    }
}

/// Orders members so that the few a cap leaves are the few worth reading.
fn rank_for_truncation(members: &Vec<MemberSummary>) -> (r: Vec<MemberSummary>)
    ensures
        r.deep_view() == ranked(members.deep_view()),
{
    let mut out: Vec<MemberSummary> = Vec::new();
    push_group(&mut out, members, false, false);
    push_group(&mut out, members, false, true);
    push_group(&mut out, members, true, false);
    push_group(&mut out, members, true, true);
    assert(out.deep_view() =~= ranked(members.deep_view()));
    out
}

pub proof fn group_sizes(members: Seq<SummaryModel>, n: int)
    requires
        0 <= n <= members.len(),
    ensures
        member_group(members, false, false, n).len() + member_group(members, false, true, n).len()
            + member_group(members, true, false, n).len() + member_group(
            members,
            true,
            true,
            n,
        ).len() == n,
    decreases n,
{
    if n > 0 {
        group_sizes(members, n - 1);
    }
}

fn name_passes(name: &str, needle: &str) -> (b: bool)
    ensures
        b == holds(lowercase(name@), needle@),
{
    contains_text(to_lower(name).as_str(), needle)
}

fn name_suggested(name: &str, base: &str) -> (b: bool)
    ensures
        b == is_suggested(name@, base@),
{
    if has_suffix(name, "_INTERNAL") {
        return false;
    }
    let lowered = to_lower(name);
    let bytes = name.as_bytes();
    contains_text(lowered.as_str(), base) || (bytes.len() >= 3 && contains_text(
        base,
        lowered.as_str(),
    ))
}

fn sooner(a: &str, b: &str) -> (r: bool)
    ensures
        r == suggested_before(a@, b@),
{
    let left = a.as_bytes();
    let right = b.as_bytes();
    left.len() < right.len() || (left.len() == right.len() && text_before(a, b))
}

proof fn with_suggestion_at(found: Seq<Seq<char>>, name: Seq<char>, at: int)
    requires
        0 <= at <= found.len(),
        at == 0 || !suggested_before(name, found[at - 1]),
        forall|k: int| at <= k < found.len() ==> suggested_before(name, #[trigger] found[k]),
    ensures
        with_suggestion(found, name) == found.insert(at, name),
    decreases found.len(),
{
    if at == found.len() {
        assert(found.insert(at, name) =~= found.push(name));
    } else {
        let shorter = found.drop_last();
        assert(found[found.len() - 1] == found.last());
        with_suggestion_at(shorter, name, at);
        assert(found.insert(at, name) =~= shorter.insert(at, name).push(found.last()));
    }
}

fn put_suggestion(found: &mut Vec<String>, name: &str)
    ensures
        final(found).deep_view() == with_suggestion(old(found).deep_view(), name@),
{
    let ghost before = found.deep_view();
    let mut at: usize = found.len();
    while at > 0 && sooner(name, found[at - 1].as_str())
        invariant
            at <= found@.len(),
            before == found.deep_view(),
            forall|k: int| at <= k < before.len() ==> suggested_before(name@, #[trigger] before[k]),
        decreases at,
    {
        assert(before[at - 1] == found@[at - 1]@);
        at = at - 1;
    }
    proof {
        assert(at > 0 ==> before[at - 1] == found@[at - 1]@);
        with_suggestion_at(before, name@, at as int);
    }
    found.insert(at, owned(name));
    assert(found.deep_view() =~= before.insert(at as int, name@));
}

fn hint_of(found: &Vec<String>, otherwise: &str) -> (r: String)
    ensures
        r@ == suggestion_hint(found.deep_view(), otherwise@),
{
    assert(found.deep_view().len() == found@.len());
    if found.len() == 0 {
        owned(otherwise)
    } else {
        let mut hint = owned("did you mean: ");
        hint.append(join(found, ", ").as_str());
        hint
    }
}

fn told_if_other(count: usize, other: usize) -> (r: Option<usize>)
    ensures
        count_model(r) == count_if_other(count as int, other as int),
{
    if count != other {
        Some(count)
    } else {
        None
    }
}

impl RobloxApi {
    /// The API as contracts write it.
    pub open spec fn model(&self) -> ApiModel {
        ApiModel {
            types: self.types.deep_view(),
            services: self.services.deep_view(),
            creatable: self.creatable.deep_view(),
            docs: self.docs@,
        }
    }

    fn lookup_docs(&self, name: &str) -> (r: Option<&RawDoc>)
        ensures
            match r {
                Some(doc) => doc_of(self.docs@, name@) == Some(*doc),
                None => doc_of(self.docs@, name@) is None,
            },
    {
        let mut key = owned("@roblox/globaltype/");
        key.append(name);
        if let Some(doc) = self.docs.get(key.as_str()) {
            return Some(doc);
        }
        let mut key = owned("@roblox/global/");
        key.append(name);
        self.docs.get(key.as_str())
    }

    fn resolve_reference(&self, key: &str) -> (r: Option<String>)
        ensures
            r.deep_view() == referenced(self.docs@, key@),
    {
        if !has_prefix(key, "@roblox/") {
            return shown(key);
        }
        prose_of(self.docs.get(key), true)
    }

    fn parameter_docs(&self, doc: &RawDoc) -> (r: Vec<ParameterDoc>)
        ensures
            r.deep_view() == parameters_of(self.docs@, doc.params@, doc.params@.len() as int),
    {
        let mut found: Vec<ParameterDoc> = Vec::new();
        let mut i: usize = 0;
        assert(found.deep_view() =~= parameters_of(self.docs@, doc.params@, 0));
        while i < doc.params.len()
            invariant
                i <= doc.params@.len(),
                found.deep_view() == parameters_of(self.docs@, doc.params@, i as int),
            decreases doc.params@.len() - i,
        {
            let parameter = &doc.params[i];
            let ghost before = found.deep_view();
            if !same_text(parameter.name.as_str(), "self") {
                let documentation = self.resolve_reference(parameter.documentation.as_str());
                let ghost said = ParameterModel {
                    name: parameter.name@,
                    documentation: documentation.deep_view(),
                };
                found.push(ParameterDoc { name: parameter.name.clone(), documentation });
                assert(found.deep_view() =~= before.push(said));
            }
            i = i + 1;
        }
        found
    }

    fn return_docs(&self, doc: &RawDoc) -> (r: Vec<String>)
        ensures
            r.deep_view() == returns_of(
                self.docs@,
                doc.returns.deep_view(),
                doc.returns@.len() as int,
            ),
    {
        let ghost keys = doc.returns.deep_view();
        let mut found: Vec<String> = Vec::new();
        let mut i: usize = 0;
        assert(found.deep_view() =~= returns_of(self.docs@, keys, 0));
        while i < doc.returns.len()
            invariant
                i <= doc.returns@.len(),
                keys == doc.returns.deep_view(),
                found.deep_view() == returns_of(self.docs@, keys, i as int),
            decreases doc.returns@.len() - i,
        {
            assert(keys[i as int] == doc.returns@[i as int]@);
            let ghost before = found.deep_view();
            if let Some(text) = self.resolve_reference(doc.returns[i].as_str()) {
                let ghost said = text@;
                found.push(text);
                assert(found.deep_view() =~= before.push(said));
            }
            i = i + 1;
        }
        found
    }

    fn summarise(
        &self,
        member: &ApiMember,
        inherited_from: Option<String>,
        with_docs: bool,
        owner: &str,
    ) -> (r: MemberSummary)
        ensures
            r.deep_view() == summary(
                self.docs@,
                member.deep_view(),
                inherited_from.deep_view(),
                with_docs,
                owner@,
            ),
    {
        let mut key = owned(owner);
        key.append(".");
        key.append(member.name.as_str());
        MemberSummary {
            documentation: prose_of(self.lookup_docs(key.as_str()), with_docs),
            name: member.name.clone(),
            kind: member.kind,
            declaration: member.declaration.clone(),
            deprecated: member.deprecated,
            deprecated_use: owned_option(&member.deprecated_use),
            inherited_from,
        }
    }

    fn extends_of(&self, name: &str) -> (r: Option<String>)
        ensures
            r.deep_view() == parent_class(self.types.deep_view(), name@),
    {
        match find_type(&self.types, name) {
            Some(i) => {
                assert(self.types.deep_view()[i as int] == self.types@[i as int].deep_view());
                owned_option(&self.types[i].extends)
            },
            None => None,
        }
    }

    fn ancestry(&self, name: &str) -> (r: Vec<String>)
        ensures
            r.deep_view() == ancestry_of(self.types.deep_view(), name@),
    {
        let ghost types = self.types.deep_view();
        let mut chain: Vec<String> = Vec::new();
        let mut current = self.extends_of(name);
        assert(chain.deep_view() =~= Seq::empty());
        loop
            invariant
                types == self.types.deep_view(),
                ancestry_of(types, name@) == ancestry_on(
                    types,
                    current.deep_view(),
                    chain.deep_view(),
                ),
            decreases
                    unseen(types, chain.deep_view(), types.len() as int),
                    if current.deep_view() is Some {
                        1int
                    } else {
                        0int
                    },
        {
            let parent = match current {
                Some(parent) => parent,
                None => {
                    return chain;
                },
            };
            if list_holds(&chain, parent.as_str()) {
                return chain;
            }
            proof {
                looking_leaves_fewer(types, chain.deep_view(), parent@);
            }
            let ghost before = chain.deep_view();
            let ghost here = parent@;
            current = self.extends_of(parent.as_str());
            chain.push(parent);
            assert(chain.deep_view() =~= before.push(here));
        }
    }

    fn hidden(&self, found: &ApiType, ancestry: &Vec<String>, k: usize, name: &str) -> (b: bool)
        requires
            k <= ancestry@.len(),
        ensures
            b == shadowed(
                self.types.deep_view(),
                found.deep_view(),
                ancestry.deep_view(),
                k as int,
                name@,
            ),
        decreases k,
    {
        if k == 0 {
            return find_member(&found.members, name).is_some();
        }
        if self.hidden(found, ancestry, k - 1, name) {
            return true;
        }
        assert(ancestry.deep_view()[k - 1] == ancestry@[k - 1]@);
        match find_type(&self.types, ancestry[k - 1].as_str()) {
            Some(i) => {
                assert(self.types.deep_view()[i as int] == self.types@[i as int].deep_view());
                find_member(&self.types[i].members, name).is_some()
            },
            None => false,
        }
    }

    fn own_members(&self, found: &ApiType, with_docs: bool) -> (r: Vec<MemberSummary>)
        ensures
            r.deep_view() == found.deep_view().members.map_values(
                |member: MemberModel|
                    summary(self.docs@, member, None, with_docs, found.deep_view().name),
            ),
    {
        let ghost name = found.deep_view().name;
        let ghost all = found.deep_view().members.map_values(
            |member: MemberModel| summary(self.docs@, member, None, with_docs, name),
        );
        let mut members: Vec<MemberSummary> = Vec::new();
        let mut i: usize = 0;
        while i < found.members.len()
            invariant
                i <= found.members@.len(),
                name == found.deep_view().name,
                all == found.deep_view().members.map_values(
                    |member: MemberModel| summary(self.docs@, member, None, with_docs, name),
                ),
                members.deep_view() == all.take(i as int),
            decreases found.members@.len() - i,
        {
            assert(found.deep_view().members[i as int] == found.members@[i as int].deep_view());
            let ghost before = members.deep_view();
            members.push(self.summarise(&found.members[i], None, with_docs, found.name.as_str()));
            assert(members.deep_view() =~= before.push(all[i as int]));
            assert(members.deep_view() =~= all.take(i + 1));
            i = i + 1;
        }
        assert(all.take(i as int) =~= all);
        members
    }

    fn push_inherited(
        &self,
        members: &mut Vec<MemberSummary>,
        found: &ApiType,
        ancestry: &Vec<String>,
        k: usize,
        with_docs: bool,
    )
        requires
            k < ancestry@.len(),
        ensures
            final(members).deep_view() == old(members).deep_view() + (match type_named(
                self.types.deep_view(),
                ancestry.deep_view()[k as int],
            ) {
                Some(parent) => inherited_from(
                    self.docs@,
                    self.types.deep_view(),
                    found.deep_view(),
                    ancestry.deep_view(),
                    k as int,
                    parent.members,
                    with_docs,
                    parent.members.len() as int,
                ),
                None => Seq::empty(),
            }),
    {
        let ghost docs = self.docs@;
        let ghost types = self.types.deep_view();
        let ghost chain = ancestry.deep_view();
        let ghost start = members.deep_view();
        let ancestor = ancestry[k].as_str();
        assert(chain[k as int] == ancestor@);
        match find_type(&self.types, ancestor) {
            None => {
                assert(start + Seq::<SummaryModel>::empty() =~= start);
            },
            Some(at) => {
                let parent = &self.types[at];
                assert(types[at as int] == parent.deep_view());
                let ghost all = parent.deep_view().members;
                let mut i: usize = 0;
                assert(start + inherited_from(
                    docs,
                    types,
                    found.deep_view(),
                    chain,
                    k as int,
                    all,
                    with_docs,
                    0,
                ) =~= start);
                while i < parent.members.len()
                    invariant
                        i <= parent.members@.len(),
                        k < ancestry@.len(),
                        docs == self.docs@,
                        types == self.types.deep_view(),
                        chain == ancestry.deep_view(),
                        chain[k as int] == ancestor@,
                        all == parent.deep_view().members,
                        members.deep_view() == start + inherited_from(
                            docs,
                            types,
                            found.deep_view(),
                            chain,
                            k as int,
                            all,
                            with_docs,
                            i as int,
                        ),
                    decreases parent.members@.len() - i,
                {
                    let member = &parent.members[i];
                    assert(all[i as int] == member.deep_view());
                    let ghost before = members.deep_view();
                    let ghost had = inherited_from(
                        docs,
                        types,
                        found.deep_view(),
                        chain,
                        k as int,
                        all,
                        with_docs,
                        i as int,
                    );
                    if !self.hidden(found, ancestry, k, member.name.as_str()) {
                        let told = self.summarise(
                            member,
                            Some(owned(ancestor)),
                            with_docs,
                            ancestor,
                        );
                        let ghost said = told.deep_view();
                        members.push(told);
                        assert(members.deep_view() =~= before.push(said));
                        assert(before.push(said) =~= start + had.push(said));
                    }
                    i = i + 1;
                }
            },
        }
    }

    fn all_members(&self, found: &ApiType, with_inherited: bool, with_docs: bool) -> (r: Vec<
        MemberSummary,
    >)
        ensures
            r.deep_view() == class_members(
                self.docs@,
                self.types.deep_view(),
                found.deep_view(),
                with_inherited,
                with_docs,
            ),
    {
        let ghost docs = self.docs@;
        let ghost types = self.types.deep_view();
        let mut members = self.own_members(found, with_docs);
        let ghost own = members.deep_view();
        if with_inherited {
            let ancestry = self.ancestry(found.name.as_str());
            let ghost chain = ancestry.deep_view();
            let mut k: usize = 0;
            assert(own + inherited_members(docs, types, found.deep_view(), chain, with_docs, 0)
                =~= own);
            while k < ancestry.len()
                invariant
                    k <= ancestry@.len(),
                    docs == self.docs@,
                    types == self.types.deep_view(),
                    chain == ancestry.deep_view(),
                    members.deep_view() == own + inherited_members(
                        docs,
                        types,
                        found.deep_view(),
                        chain,
                        with_docs,
                        k as int,
                    ),
                decreases ancestry@.len() - k,
            {
                let ghost had = inherited_members(
                    docs,
                    types,
                    found.deep_view(),
                    chain,
                    with_docs,
                    k as int,
                );
                let ghost before = members.deep_view();
                self.push_inherited(&mut members, found, &ancestry, k, with_docs);
                proof {
                    let next = inherited_members(
                        docs,
                        types,
                        found.deep_view(),
                        chain,
                        with_docs,
                        k + 1,
                    );
                    assert(members.deep_view() =~= own + next);
                }
                k = k + 1;
            }
        } else {
            assert(own + Seq::<SummaryModel>::empty() =~= own);
        }
        members
    }

    fn matching(members: Vec<MemberSummary>, filter: Option<&str>) -> (r: Vec<MemberSummary>)
        ensures
            r.deep_view() == matched_members(members.deep_view(), filter.deep_view()),
    {
        let wanted = match filter {
            Some(wanted) => wanted,
            None => {
                return members;
            },
        };
        let needle = to_lower(wanted);
        let ghost all = members.deep_view();
        let mut kept: Vec<MemberSummary> = Vec::new();
        let mut i: usize = 0;
        assert(kept.deep_view() =~= passing_members(all, wanted@, 0));
        while i < members.len()
            invariant
                i <= members@.len(),
                all == members.deep_view(),
                needle@ == lowercase(wanted@),
                kept.deep_view() == passing_members(all, wanted@, i as int),
            decreases members@.len() - i,
        {
            assert(all[i as int] == members@[i as int].deep_view());
            let ghost before = kept.deep_view();
            if name_passes(members[i].name.as_str(), needle.as_str()) {
                kept.push(copy_summary(&members[i]));
                assert(kept.deep_view() =~= before.push(all[i as int]));
            }
            i = i + 1;
        }
        kept
    }

    fn class_answer(&self, found: &ApiType, query: &ApiQuery<'_>) -> (r: ClassAnswer)
        ensures
            r.deep_view() == class_model(self.model(), found.deep_view(), query.deep_view()),
    {
        let all = self.all_members(found, query.include_inherited, query.include_documentation);
        let total: usize = all.len();
        let ghost all_model = all.deep_view();
        assert(all_model.len() == total);
        let mut members = Self::matching(all, query.member_filter);
        let matched: usize = members.len();
        let ghost matched_model = members.deep_view();
        assert(matched_model.len() == matched);
        let truncated = matched > query.max_members;
        if truncated {
            members = rank_for_truncation(&members);
            proof {
                group_sizes(matched_model, matched as int);
                assert(members.deep_view().len() == members@.len());
                assert(members.deep_view() == ranked(matched_model));
            }
            let ghost before = members.deep_view();
            members.truncate(query.max_members);
            assert(members.deep_view() =~= before.take(query.max_members as int));
        }
        let returned: usize = members.len();
        assert(members.deep_view().len() == returned);
        let doc = self.lookup_docs(found.name.as_str());
        ClassAnswer {
            is_service: list_holds(&self.services, found.name.as_str()),
            creatable: list_holds(&self.creatable, found.name.as_str()),
            documentation: prose_of(doc, query.include_documentation),
            learn_more_link: link_of(doc),
            name: found.name.clone(),
            extends: owned_option(&found.extends),
            inherits: self.ancestry(found.name.as_str()),
            members,
            returned_count: returned,
            matched_count: told_if_other(matched, returned),
            total_member_count: told_if_other(total, matched),
            truncated,
        }
    }

    fn member_answer(&self, owner: &ApiType, name: &str) -> (r: Option<MemberAnswer>)
        ensures
            r.deep_view() == member_model(self.model(), owner.deep_view(), name@),
    {
        let holder = match declaring_class(&self.types, owner.name.as_str(), name) {
            Some(holder) => holder,
            None => {
                return None;
            },
        };
        proof {
            holder_has_it(self.types.deep_view(), owner.name@, name@, Seq::empty());
        }
        let at = match find_type(&self.types, holder.as_str()) {
            Some(at) => at,
            None => {
                return None;
            },
        };
        assert(self.types.deep_view()[at as int] == self.types@[at as int].deep_view());
        let k = match find_member(&self.types[at].members, name) {
            Some(k) => k,
            None => {
                return None;
            },
        };
        let member = &self.types[at].members[k];
        assert(self.types@[at as int].deep_view().members[k as int] == member.deep_view());
        let mut key = holder.clone();
        key.append(".");
        key.append(name);
        let doc = self.lookup_docs(key.as_str());
        let declared_by: Option<String> = if same_text(holder.as_str(), owner.name.as_str()) {
            None
        } else {
            Some(holder)
        };
        let nothing: Vec<ParameterDoc> = Vec::new();
        let none: Vec<String> = Vec::new();
        assert(nothing.deep_view() =~= Seq::empty());
        assert(none.deep_view() =~= Seq::empty());
        Some(
            MemberAnswer {
                class: owner.name.clone(),
                name: member.name.clone(),
                member_kind: member.kind,
                declaration: member.declaration.clone(),
                deprecated: member.deprecated,
                deprecated_use: owned_option(&member.deprecated_use),
                declared_by,
                documentation: prose_of(doc, true),
                parameters: match doc {
                    Some(held) => self.parameter_docs(held),
                    None => nothing,
                },
                returns: match doc {
                    Some(held) => self.return_docs(held),
                    None => none,
                },
                learn_more_link: link_of(doc),
            },
        )
    }

    fn suggest(&self, asked: &str) -> (r: Vec<String>)
        ensures
            r.deep_view() == suggestions(self.types.deep_view(), asked@),
    {
        let ghost types = self.types.deep_view();
        let needle = to_lower(asked);
        let chars = to_chars(needle.as_str());
        let mut end: usize = 0;
        while end < chars.len() && chars[end] != '.' && chars[end] != ':'
            invariant
                end <= chars@.len(),
                chars@ == lowercase(asked@),
                base_end(chars@, 0) == base_end(chars@, end as int),
            decreases chars@.len() - end,
        {
            end = end + 1;
        }
        let base = slice_text(&chars, 0, end);
        assert(base@ =~= suggestion_base(asked@));
        let bytes = base.as_str().as_bytes();
        let mut found: Vec<String> = Vec::new();
        if bytes.len() < 3 {
            assert(found.deep_view() =~= Seq::empty());
            return found;
        }
        let mut i: usize = 0;
        assert(found.deep_view() =~= suggested_classes(types, base@, 0));
        while i < self.types.len()
            invariant
                i <= self.types@.len(),
                types == self.types.deep_view(),
                found.deep_view() == suggested_classes(types, base@, i as int),
            decreases self.types@.len() - i,
        {
            let name = self.types[i].name.as_str();
            assert(types[i as int] == self.types@[i as int].deep_view());
            if name_suggested(name, base.as_str()) {
                put_suggestion(&mut found, name);
            }
            i = i + 1;
        }
        let ghost all = found.deep_view();
        assert(all.len() == found@.len());
        if found.len() > SUGGESTIONS {
            found.truncate(SUGGESTIONS);
            assert(found.deep_view() =~= all.take(SUGGESTIONS as int));
        }
        found
    }

    fn suggest_enum(&self, asked: &str) -> (r: Vec<String>)
        ensures
            r.deep_view() == suggested_enums(
                self.types.deep_view(),
                asked@,
                self.types@.len() as int,
            ),
    {
        let ghost types = self.types.deep_view();
        let needle = to_lower(asked);
        let mut found: Vec<String> = Vec::new();
        let mut i: usize = 0;
        assert(found.deep_view() =~= suggested_enums(types, asked@, 0));
        while i < self.types.len()
            invariant
                i <= self.types@.len(),
                types == self.types.deep_view(),
                needle@ == lowercase(asked@),
                found.deep_view() == suggested_enums(types, asked@, i as int),
            decreases self.types@.len() - i,
        {
            assert(types[i as int] == self.types@[i as int].deep_view());
            let ghost before = found.deep_view();
            assert(before.len() == found@.len());
            if let Some(bare) = strip_suffix(self.types[i].name.as_str(), "_INTERNAL") {
                if let Some(name) = strip_prefix(bare, "Enum") {
                    if name_passes(name, needle.as_str()) && found.len() < SUGGESTIONS {
                        let mut shown = owned("Enum.");
                        shown.append(name);
                        let ghost said = shown@;
                        found.push(shown);
                        assert(found.deep_view() =~= before.push(said));
                    }
                }
            }
            i = i + 1;
        }
        found
    }

    fn items_of(&self, name: &str, found: &ApiType, with_docs: bool) -> (r: Vec<EnumItemAnswer>)
        ensures
            r.deep_view() == enum_items(
                self.docs@,
                name@,
                found.deep_view().members,
                with_docs,
                found.deep_view().members.len() as int,
            ),
    {
        let ghost members = found.deep_view().members;
        let mut item_type = owned("Enum");
        item_type.append(name);
        let mut items: Vec<EnumItemAnswer> = Vec::new();
        let mut i: usize = 0;
        assert(items.deep_view() =~= enum_items(self.docs@, name@, members, with_docs, 0));
        while i < found.members.len()
            invariant
                i <= found.members@.len(),
                members == found.deep_view().members,
                item_type@ == "Enum"@ + name@,
                items.deep_view() == enum_items(
                    self.docs@,
                    name@,
                    members,
                    with_docs,
                    i as int,
                ),
            decreases found.members@.len() - i,
        {
            let member = &found.members[i];
            assert(members[i as int] == member.deep_view());
            let ghost before = items.deep_view();
            if member.kind == MemberKind::Property && has_suffix(
                member.declaration.as_str(),
                item_type.as_str(),
            ) {
                let mut key = owned("@roblox/enum/");
                key.append(name);
                key.append(".");
                key.append(member.name.as_str());
                let doc = self.docs.get(key.as_str());
                let item = EnumItemAnswer {
                    documentation: prose_of(doc, with_docs),
                    learn_more_link: link_of(doc),
                    name: member.name.clone(),
                };
                let ghost said = item.deep_view();
                items.push(item);
                assert(items.deep_view() =~= before.push(said));
            }
            i = i + 1;
        }
        items
    }

    fn matching_items(items: Vec<EnumItemAnswer>, filter: &str) -> (r: Vec<EnumItemAnswer>)
        ensures
            r.deep_view() == passing_items(items.deep_view(), filter@, items@.len() as int),
    {
        let needle = to_lower(filter);
        let ghost all = items.deep_view();
        let mut kept: Vec<EnumItemAnswer> = Vec::new();
        let mut i: usize = 0;
        assert(kept.deep_view() =~= passing_items(all, filter@, 0));
        while i < items.len()
            invariant
                i <= items@.len(),
                all == items.deep_view(),
                needle@ == lowercase(filter@),
                kept.deep_view() == passing_items(all, filter@, i as int),
            decreases items@.len() - i,
        {
            assert(all[i as int] == items@[i as int].deep_view());
            let ghost before = kept.deep_view();
            if name_passes(items[i].name.as_str(), needle.as_str()) {
                kept.push(
                    EnumItemAnswer {
                        name: items[i].name.clone(),
                        documentation: owned_option(&items[i].documentation),
                        learn_more_link: owned_option(&items[i].learn_more_link),
                    },
                );
                assert(kept.deep_view() =~= before.push(all[i as int]));
            }
            i = i + 1;
        }
        kept
    }

    fn enum_answer(&self, rest: &str, query: &ApiQuery<'_>) -> (r: Result<EnumAnswer, Failure>)
        ensures
            match r {
                Ok(found) => enum_model(self.model(), rest@, query.deep_view()) == Ok::<
                    EnumModel,
                    FailureModel,
                >(found.deep_view()),
                Err(failure) => enum_model(self.model(), rest@, query.deep_view()) == Err::<
                    EnumModel,
                    FailureModel,
                >(failure.deep_view()),
            },
    {
        let (name, item): (String, Option<String>) = match split_once(rest, '.') {
            Some((name, item)) => (name, Some(item)),
            None => (owned(rest), None),
        };
        let mut container = owned("Enum");
        container.append(name.as_str());
        container.append("_INTERNAL");
        let mut shown_name = owned("Enum.");
        shown_name.append(name.as_str());
        let at = match find_type(&self.types, container.as_str()) {
            Some(at) => at,
            None => {
                let mut message = owned("the Roblox API has no enum named Enum.");
                message.append(name.as_str());
                let hint = hint_of(
                    &self.suggest_enum(name.as_str()),
                    "enums are spelled as Roblox spells them, such as \"Enum.EasingStyle\"",
                );
                return Err(hinted(message, hint.as_str()));
            },
        };
        assert(self.types.deep_view()[at as int] == self.types@[at as int].deep_view());
        let mut items = self.items_of(name.as_str(), &self.types[at], query.include_documentation);
        let filter: Option<&str> = match &item {
            Some(one) => Some(one.as_str()),
            None => query.member_filter,
        };
        if let Some(wanted) = filter {
            items = Self::matching_items(items, wanted);
        }
        let matched: usize = items.len();
        let ghost matched_model = items.deep_view();
        assert(matched_model.len() == matched);
        let truncated = matched > query.max_members;
        if truncated {
            items.truncate(query.max_members);
            assert(items.deep_view() =~= matched_model.take(query.max_members as int));
        }
        let item_count: usize = items.len();
        assert(items.deep_view().len() == item_count);
        Ok(
            EnumAnswer {
                name: shown_name,
                items,
                item_count,
                matched_count: told_if_other(matched, item_count),
                truncated,
            },
        )
    }

    fn asked_member(&self, asked: &str) -> (r: Option<MemberAnswer>)
        ensures
            r.deep_view() == member_asked(self.model(), asked@),
    {
        match split_member(asked) {
            None => None,
            Some((class, name)) => match find_type(&self.types, class.as_str()) {
                None => None,
                Some(at) => {
                    assert(self.types.deep_view()[at as int] == self.types@[at as int].deep_view());
                    self.member_answer(&self.types[at], name.as_str())
                },
            },
        }
    }

    /// Answers a question about the API.
    pub fn answer(&self, query: &ApiQuery<'_>) -> (r: Result<ApiResult, Failure>)
        ensures
            match r {
                Ok(result) => api_answer(self.model(), query.deep_view()) == Ok::<
                    AnswerModel,
                    FailureModel,
                >(result.answer.deep_view()) && result.security_level@ == self.security_level@,
                Err(failure) => api_answer(self.model(), query.deep_view()) == Err::<
                    AnswerModel,
                    FailureModel,
                >(failure.deep_view()),
            },
    {
        let asked = trim(query.query);
        if asked.is_empty() {
            return Err(
                hinted(
                    owned("query must not be empty"),
                    "name a class (\"BasePart\"), a member (\"TweenService:Create\"), or an enum (\"Enum.EasingStyle\")",
                ),
            );
        }
        if let Some(rest) = strip_prefix(asked, "Enum.") {
            return match self.enum_answer(rest, query) {
                Ok(found) => Ok(
                    ApiResult {
                        answer: Answer::Enum(found),
                        security_level: self.security_level.clone(),
                    },
                ),
                Err(failure) => Err(failure),
            };
        }
        if let Some(at) = find_type(&self.types, asked) {
            assert(self.types.deep_view()[at as int] == self.types@[at as int].deep_view());
            return Ok(
                ApiResult {
                    answer: Answer::Class(self.class_answer(&self.types[at], query)),
                    security_level: self.security_level.clone(),
                },
            );
        }
        if let Some(found) = self.asked_member(asked) {
            return Ok(
                ApiResult {
                    answer: Answer::Member(found),
                    security_level: self.security_level.clone(),
                },
            );
        }
        let mut message = owned("the Roblox API has nothing named ");
        message.append(asked);
        let hint = hint_of(
            &self.suggest(asked),
            "names are case-sensitive and spelled as Roblox spells them, such as \"BasePart\", \"TweenService:Create\", or \"Enum.EasingStyle\"",
        );
        Err(hinted(message, hint.as_str()))
    }
}

proof fn holder_has_it(
    types: Seq<TypeModel>,
    class: Seq<char>,
    name: Seq<char>,
    seen: Seq<Seq<char>>,
)
    ensures
        declaring(types, class, name, seen) matches Some(holder) ==> (type_named(
            types,
            holder,
        ) matches Some(found) && member_position(found.members, name, 0) is Some),
    decreases unseen(types, seen, types.len() as int),
{
    if !seen.contains(class) {
        if let Some(found) = type_named(types, class) {
            if member_position(found.members, name, 0) is None {
                if let Some(parent) = found.extends {
                    looking_leaves_fewer(types, seen, class);
                    holder_has_it(types, parent, name, seen.push(class));
                }
            }
        }
    }
}

// ---------------------------------------------------------------------------
// What holds of every answer

/// The counts of a class answer: what came back is what is listed and no more than the cap; a
/// larger count of what matched is told exactly where the cap left something out.
pub proof fn class_counts_say_what_was_left_out(
    api: ApiModel,
    found: TypeModel,
    query: QueryModel,
)
    requires
        0 <= query.max_members,
    ensures
        ({
            let answer = class_model(api, found, query);
            &&& answer.returned_count == answer.members.len()
            &&& answer.returned_count <= query.max_members
            &&& answer.truncated <==> answer.matched_count is Some
            &&& answer.matched_count matches Some(matched) ==> matched > answer.returned_count
            &&& query.member_filter is None ==> answer.total_member_count is None
        }),
{
    let all = class_members(
        api.docs,
        api.types,
        found,
        query.include_inherited,
        query.include_documentation,
    );
    let matched = matched_members(all, query.member_filter);
    group_sizes(matched, matched.len() as int);
}

/// The counts of an enum answer, in the same way.
pub proof fn enum_counts_say_what_was_left_out(api: ApiModel, rest: Seq<char>, query: QueryModel)
    requires
        0 <= query.max_members,
    ensures
        enum_model(api, rest, query) matches Ok(answer) ==> {
            &&& answer.item_count == answer.items.len()
            &&& answer.item_count <= query.max_members
            &&& answer.truncated <==> answer.matched_count is Some
            &&& answer.matched_count matches Some(matched) ==> matched > answer.item_count
        },
{
}

proof fn group_is_a_group(
    members: Seq<SummaryModel>,
    inherited: bool,
    deprecated: bool,
    n: int,
)
    requires
        0 <= n <= members.len(),
    ensures
        forall|k: int|
            0 <= k < member_group(members, inherited, deprecated, n).len() ==> {
                let member = #[trigger] member_group(members, inherited, deprecated, n)[k];
                (member.inherited_from is Some) == inherited && member.deprecated == deprecated
            },
    decreases n,
{
    if n > 0 {
        group_is_a_group(members, inherited, deprecated, n - 1);
    }
}

/// A cap spends its places on the members worth reading: no inherited member comes before one of
/// the class's own, and of two that are both own or both inherited no deprecated one comes before
/// one that is not.
pub proof fn a_cap_keeps_the_members_worth_reading(members: Seq<SummaryModel>, i: int, j: int)
    requires
        0 <= i < j < ranked(members).len(),
    ensures
        ranked(members)[i].inherited_from is Some ==> ranked(members)[j].inherited_from is Some,
        (ranked(members)[i].inherited_from is Some) == (ranked(members)[j].inherited_from is Some)
            && ranked(members)[i].deprecated ==> ranked(members)[j].deprecated,
        ranked(members).len() == members.len(),
{
    let n = members.len() as int;
    group_sizes(members, n);
    group_is_a_group(members, false, false, n);
    group_is_a_group(members, false, true, n);
    group_is_a_group(members, true, false, n);
    group_is_a_group(members, true, true, n);
}

proof fn bracketless(s: Seq<char>, inside: bool)
    ensures
        !outside_brackets(s, inside).contains('<'),
        !outside_brackets(s, inside).contains('>'),
    decreases s.len(),
{
    if s.len() > 0 {
        bracketless(s.skip(1), true);
        bracketless(s.skip(1), false);
        let rest = outside_brackets(s.skip(1), inside);
        let all = seq![s[0]] + rest;
        assert forall|k: int| 0 <= k < all.len() implies all[k] == s[0] || rest.contains(
            #[trigger] all[k],
        ) by {
            if k > 0 {
                assert(rest[k - 1] == all[k]);
            }
        }
    }
}

proof fn trimming_keeps_what_stands(s: Seq<char>, c: char)
    ensures
        trimmed(s).contains(c) ==> s.contains(c),
{
    trim_start_keeps_what_stands(s, c);
    trim_end_keeps_what_stands(trim_start_of(s), c);
}

proof fn trim_start_keeps_what_stands(s: Seq<char>, c: char)
    ensures
        trim_start_of(s).contains(c) ==> s.contains(c),
    decreases s.len(),
{
    if s.len() > 0 && is_white_space(s[0]) {
        let rest = s.drop_first();
        trim_start_keeps_what_stands(rest, c);
        assert(forall|k: int| 0 <= k < rest.len() ==> #[trigger] rest[k] == s[k + 1]);
    }
}

proof fn trim_end_keeps_what_stands(s: Seq<char>, c: char)
    ensures
        trim_end_of(s).contains(c) ==> s.contains(c),
    decreases s.len(),
{
    if s.len() > 0 && is_white_space(s.last()) {
        trim_end_keeps_what_stands(s.drop_last(), c);
        assert(forall|k: int| 0 <= k < s.drop_last().len() ==> #[trigger] s.drop_last()[k] == s[k]);
    }
}

/// Nothing that stands between angle brackets is left of a text, nor the brackets.
pub proof fn no_markup_is_left(text: Seq<char>)
    ensures
        !without_markup(text).contains('<'),
        !without_markup(text).contains('>'),
{
    bracketless(text, false);
    trimming_keeps_what_stands(outside_brackets(text, false), '<');
    trimming_keeps_what_stands(outside_brackets(text, false), '>');
}

} // verus!
