//! What the type definitions are read as.
use vstd::prelude::*;
use super::api_definitions::{
    attribute_in, defined_metadata, defined_types, header_in, is_identifier, last_parting,
    member_in, member_position, member_split, read_line, read_lines, repaired, repaired_use,
    type_named, type_position, types_in_order, with_type, MemberKind, MemberModel, ReadingModel,
    TypeModel,
};
use super::metadata::metadata_of;
use crate::text::{
    comes_before, ends_with, find_from, find_from_is_first, holds, is_white_space, lines_of,
    occurs_at, split_at_text, starts_with, text_order_is_total, trimmed, without_prefix,
    without_suffixes,
};
use crate::text_laws::{
    a_prefix_comes_off, a_suffix_comes_off, a_text_is_split_at_the_first, free_of,
    space_around_is_trimmed,
};

verus! {

// ---------------------------------------------------------------------------
// Classes by name

proof fn one_more_type(types: Seq<TypeModel>, added: TypeModel, at: int)
    requires
        types_in_order(types),
        0 <= at <= types.len(),
        forall|k: int| 0 <= k < at ==> comes_before((#[trigger] types[k]).name, added.name),
        forall|k: int| at <= k < types.len() ==> !comes_before((#[trigger] types[k]).name, added.name),
    ensures
        with_type(types, added) == if at < types.len() && types[at].name == added.name {
            types.update(at, added)
        } else {
            types.insert(at, added)
        },
    decreases types.len(),
{
    if types.len() > 0 {
        let last = types.last();
        let shorter = types.drop_last();
        text_order_is_total(added.name, last.name, added.name);
        text_order_is_total(last.name, added.name, last.name);
        if at == types.len() {
            assert(comes_before(types[at - 1].name, added.name));
            assert(types.insert(at, added) =~= types.push(added));
        } else if comes_before(added.name, last.name) {
            assert forall|i: int, j: int| 0 <= i < j < shorter.len() implies comes_before(
                (#[trigger] shorter[i]).name,
                (#[trigger] shorter[j]).name,
            ) by {
                assert(comes_before(types[i].name, types[j].name));
            }
            assert forall|k: int| 0 <= k < at implies comes_before(
                (#[trigger] shorter[k]).name,
                added.name,
            ) by {
                assert(shorter[k] == types[k]);
            }
            assert forall|k: int| at <= k < shorter.len() implies !comes_before(
                (#[trigger] shorter[k]).name,
                added.name,
            ) by {
                assert(shorter[k] == types[k]);
            }
            one_more_type(shorter, added, at);
            if at < shorter.len() && types[at].name == added.name {
                assert(types.update(at, added) =~= shorter.update(at, added).push(last));
            } else {
                assert(types[at].name != added.name);
                assert(types.insert(at, added) =~= shorter.insert(at, added).push(last));
            }
        } else {
            assert(!comes_before(types[types.len() - 1].name, added.name));
            assert(last.name == added.name);
            if at < types.len() - 1 {
                assert(comes_before(types[at].name, types[types.len() - 1].name));
                assert(false);
            }
            assert(types.update(at, added) =~= shorter.push(added));
        }
    } else {
        assert(types.insert(0, added) =~= types.push(added));
    }
}

/// Where a text belongs among classes in the order of their names.
proof fn place_of(types: Seq<TypeModel>, name: Seq<char>, n: int) -> (at: int)
    requires
        types_in_order(types),
        0 <= n <= types.len(),
        forall|k: int| n <= k < types.len() ==> !comes_before((#[trigger] types[k]).name, name),
    ensures
        0 <= at <= types.len(),
        forall|k: int| 0 <= k < at ==> comes_before((#[trigger] types[k]).name, name),
        forall|k: int| at <= k < types.len() ==> !comes_before((#[trigger] types[k]).name, name),
    decreases n,
{
    if n <= 0 {
        0
    } else if comes_before(types[n - 1].name, name) {
        assert forall|k: int| 0 <= k < n implies comes_before((#[trigger] types[k]).name, name) by {
            if k < n - 1 {
                assert(comes_before(types[k].name, types[n - 1].name));
                text_order_is_total(types[k].name, types[n - 1].name, name);
            }
        }
        n
    } else {
        place_of(types, name, n - 1)
    }
}

proof fn a_name_is_found_where_it_stands(types: Seq<TypeModel>, name: Seq<char>, from: int)
    requires
        0 <= from <= types.len(),
    ensures
        match type_position(types, name, from) {
            Some(i) => from <= i < types.len() && types[i].name == name,
            None => forall|k: int| from <= k < types.len() ==> (#[trigger] types[k]).name != name,
        },
    decreases types.len() - from,
{
    if from < types.len() && types[from].name != name {
        a_name_is_found_where_it_stands(types, name, from + 1);
    }
}

proof fn an_only_name_is_found(types: Seq<TypeModel>, i: int)
    requires
        types_in_order(types),
        0 <= i < types.len(),
    ensures
        type_named(types, types[i].name) == Some(types[i]),
{
    let name = types[i].name;
    a_name_is_found_where_it_stands(types, name, 0);
    text_order_is_total(name, name, name);
    if let Some(j) = type_position(types, name, 0) {
        if i < j {
            assert(comes_before(types[i].name, types[j].name));
        } else if j < i {
            assert(comes_before(types[j].name, types[i].name));
        }
    }
}

/// A class that is added is found by its name from then on, in place of one that had it, and every other
/// class is found as it was.
pub proof fn an_added_class_is_found(types: Seq<TypeModel>, added: TypeModel, name: Seq<char>)
    requires
        types_in_order(types),
    ensures
        type_named(with_type(types, added), name) == if name == added.name {
            Some(added)
        } else {
            type_named(types, name)
        },
{
    let at = place_of(types, added.name, types.len() as int);
    one_more_type(types, added, at);
    let all = with_type(types, added);
    let replaced = at < types.len() && types[at].name == added.name;
    a_name_is_found_where_it_stands(types, name, 0);
    a_name_is_found_where_it_stands(all, name, 0);
    text_order_is_total(added.name, added.name, added.name);
    assert(all[at] == added);
    assert forall|k: int| 0 <= k < at implies (#[trigger] all[k]).name != added.name by {
        assert(all[k] == types[k]);
        assert(comes_before(types[k].name, added.name));
    }
    assert forall|k: int| at < k < all.len() implies (#[trigger] all[k]).name != added.name by {
        if replaced {
            assert(all[k] == types[k]);
            assert(comes_before(types[at].name, types[k].name));
        } else {
            assert(all[k] == types[k - 1]);
            if types[k - 1].name == added.name && k - 1 > at {
                assert(comes_before(types[at].name, types[k - 1].name));
                assert(!comes_before(types[at].name, added.name));
            }
        }
    }
    if name != added.name {
        match type_position(types, name, 0) {
            Some(i) => {
                an_only_name_is_found(types, i);
                let moved = if i < at || replaced {
                    i
                } else {
                    i + 1
                };
                assert(all[moved] == types[i]);
                if let Some(j) = type_position(all, name, 0) {
                    let back = if j < at || replaced {
                        j
                    } else {
                        j - 1
                    };
                    assert(all[j] == types[back]);
                    an_only_name_is_found(types, back);
                }
            },
            None => {
                if let Some(j) = type_position(all, name, 0) {
                    let back = if j < at || replaced {
                        j
                    } else {
                        j - 1
                    };
                    assert(all[j] == types[back]);
                }
            },
        }
    }
}

// ---------------------------------------------------------------------------
// Members

/// Whether a text can be the name of a member or a class.
pub open spec fn is_plain_name(name: Seq<char>) -> bool {
    name.len() > 0 && is_identifier(name) && forall|k: int|
        0 <= k < name.len() ==> 'a' <= #[trigger] name[k] <= 'z' || 'A' <= name[k] <= 'Z' || '0'
            <= name[k] <= '9' || name[k] == '_'
}

proof fn a_plain_name_is_trimmed(name: Seq<char>)
    requires
        is_plain_name(name),
    ensures
        trimmed(name) == name,
        !is_white_space(name[0]),
        !is_white_space(name.last()),
{
    assert(!is_white_space(name[0]));
    assert(name.last() == name[name.len() - 1]);
    let none = Seq::<char>::empty();
    space_around_is_trimmed(none, name, none);
}

/// A line that starts with `function` declares a method: its name is what stands before the parenthesis.
pub proof fn a_function_is_a_method(
    name: Seq<char>,
    rest: Seq<char>,
    deprecated: bool,
    instead: Option<Seq<char>>,
)
    requires
        is_plain_name(name),
    ensures
        ({
            let line = "function "@ + (name.push('(') + rest);
            member_in(line, deprecated, instead) == Some(
                MemberModel {
                    name,
                    kind: MemberKind::Method,
                    declaration: line,
                    deprecated,
                    deprecated_use: instead,
                },
            )
        }),
{
    a_plain_name_is_trimmed(name);
    a_prefix_comes_off("function "@, name.push('(') + rest);
    assert forall|k: int| 0 <= k < name.len() implies #[trigger] name[k] != '(' by {}
    a_text_is_split_at_the_first(name, '(', rest);
}

/// A line that has a name, a colon and a type declares a member of that name. It is an event where the
/// type is a signal, a callback where the type is that of a function, and a property otherwise.
pub proof fn a_typed_name_is_a_member(
    name: Seq<char>,
    kind: Seq<char>,
    deprecated: bool,
    instead: Option<Seq<char>>,
)
    requires
        is_plain_name(name),
    ensures
        ({
            let line = name.push(':') + kind;
            &&& member_in(line, deprecated, instead) matches Some(told)
            &&& told.name == name
            &&& told.declaration == line
            &&& told.deprecated == deprecated
            &&& told.deprecated_use == instead
            &&& told.kind == if starts_with(trimmed(kind), "RBXScriptSignal"@) {
                MemberKind::Event
            } else if trimmed(kind).len() > 0 && trimmed(kind)[0] == '(' && holds(
                trimmed(kind),
                "->"@,
            ) {
                MemberKind::Callback
            } else {
                MemberKind::Property
            }
        }),
{
    let line = name.push(':') + kind;
    a_plain_name_is_trimmed(name);
    reveal_strlit("function ");
    reveal_strlit("(");
    let prefix = "function "@;
    if starts_with(line, prefix) {
        let front = line.subrange(0, prefix.len() as int);
        assert(prefix.len() == 9);
        assert(front[8] == ' ' && line[8] == front[8]);
        if name.len() > 8 {
            assert(line[8] == name[8]);
        } else if name.len() == 8 {
            assert(line[8] == ':');
        } else {
            let n = name.len() as int;
            assert(line[n] == ':');
            assert(front[n] == line[n]);
            assert(prefix[n] != ':');
        }
        assert(false);
    }
    assert forall|k: int| 0 <= k < name.len() implies #[trigger] name[k] != ':' by {}
    a_text_is_split_at_the_first(name, ':', kind);
    let told = trimmed(kind);
    if told.len() > 0 && told[0] == '(' {
        assert(told.subrange(0, 1) =~= "("@);
    }
    if starts_with(told, "("@) {
        assert(told.subrange(0, 1)[0] == '(');
    }
}

proof fn no_key_stands_before(front: Seq<char>, key: Seq<char>, tail: Seq<char>, j: int)
    requires
        free_of(front, '"'),
        key.len() == 7,
        key[6] == '"',
        forall|k: int| 0 <= k < 6 ==> #[trigger] key[k] != '"',
        0 <= j < front.len(),
    ensures
        (front + key + tail).subrange(j, j + 7) != key,
{
    let whole = front + key + tail;
    let c = whole[j + 6];
    assert(whole.subrange(j, j + 7)[6] == c);
    if j + 6 < front.len() {
        assert(c == front[j + 6]);
    } else {
        let k = j + 6 - front.len();
        assert(c == key[k]);
    }
}

proof fn a_key_is_found(front: Seq<char>, key: Seq<char>, tail: Seq<char>, from: int)
    requires
        free_of(front, '"'),
        key.len() == 7,
        key[6] == '"',
        forall|k: int| 0 <= k < 6 ==> #[trigger] key[k] != '"',
        0 <= from <= front.len(),
    ensures
        find_from(front + key + tail, key, from) == Some(front.len() as int),
    decreases front.len() - from,
{
    let whole = front + key + tail;
    let at = front.len() as int;
    if from < at {
        no_key_stands_before(front, key, tail, from);
        a_key_is_found(front, key, tail, from + 1);
    } else {
        assert(whole.subrange(at, at + 7) =~= key);
    }
}

/// An attribute that says a member is deprecated says what to use instead, where it does, between the
/// quotes behind `use = `. One that does not say it is deprecated says nothing.
pub proof fn an_attribute_says_what_to_use(front: Seq<char>, value: Seq<char>, rest: Seq<char>)
    requires
        free_of(front, '"'),
        free_of(value, '"'),
    ensures
        ({
            let attribute = front + "use = \""@ + (value.push('"') + rest);
            if holds(attribute, "deprecated"@) {
                attribute_in(attribute) == Some((true, Some(value)))
            } else {
                attribute_in(attribute) is None
            }
        }),
        holds(front, "deprecated"@) && !holds(front, "use = \""@) ==> attribute_in(front) == Some(
            (true, None::<Seq<char>>),
        ),
{
    reveal_strlit("use = \"");
    let key = "use = \""@;
    assert(key.len() == 7 && key[6] == '"');
    assert forall|k: int| 0 <= k < 6 implies #[trigger] key[k] != '"' by {}
    let tail = value.push('"') + rest;
    let attribute = front + key + tail;
    let at = front.len() as int;
    a_key_is_found(front, key, tail, 0);
    assert(attribute.skip(at + 7) =~= tail);
    a_text_is_split_at_the_first(value, '"', rest);
}

/// A text that names a class and a member of it is parted at the last colon or dot.
pub proof fn a_member_is_named_behind_its_class(class: Seq<char>, mark: char, member: Seq<char>)
    requires
        class.len() > 0,
        member.len() > 0,
        mark == ':' || mark == '.',
        free_of(member, ':'),
        free_of(member, '.'),
    ensures
        member_split(class.push(mark) + member) == Some((class, member)),
{
    let whole = class.push(mark) + member;
    assert(whole.take(class.len() as int) =~= class);
    assert(whole.skip(class.len() as int + 1) =~= member);
    the_last_mark_parts(whole, class.len() as int, member, whole.len() as int);
}

proof fn the_last_mark_parts(s: Seq<char>, at: int, member: Seq<char>, to: int)
    requires
        0 <= at < to <= s.len(),
        s.skip(at + 1) == member,
        s[at] == ':' || s[at] == '.',
        free_of(member, ':'),
        free_of(member, '.'),
    ensures
        last_parting(s, to) == Some(at),
    decreases to,
{
    if to - 1 > at {
        assert(s[to - 1] == member[to - 1 - at - 1]);
        the_last_mark_parts(s, at, member, to - 1);
    }
}

/// Making replacements good changes nothing but what is said to be used instead.
pub proof fn only_replacements_are_changed(types: Seq<TypeModel>, i: int, k: int)
    requires
        0 <= i < types.len(),
        0 <= k < types[i].members.len(),
    ensures
        repaired(types).len() == types.len(),
        repaired(types)[i].name == types[i].name,
        repaired(types)[i].extends == types[i].extends,
        repaired(types)[i].members.len() == types[i].members.len(),
        ({
            let before = types[i].members[k];
            let after = repaired(types)[i].members[k];
            &&& after.name == before.name
            &&& after.kind == before.kind
            &&& after.declaration == before.declaration
            &&& after.deprecated == before.deprecated
            &&& before.deprecated_use is None ==> after.deprecated_use is None
        }),
{
}

// ---------------------------------------------------------------------------
// Classes

/// How the header of a class ends: with nothing, with the word before its members, or closed at once.
pub open spec fn header_tail(with: bool, closed: bool) -> Seq<char> {
    (if with {
        " with"@
    } else {
        Seq::empty()
    }) + (if closed {
        " end"@
    } else {
        Seq::empty()
    })
}

proof fn no_suffix_comes_off(s: Seq<char>, suffix: Seq<char>)
    requires
        !ends_with(s, suffix),
    ensures
        without_suffixes(s, suffix) == s,
{
}

proof fn one_suffix_comes_off(s: Seq<char>, suffix: Seq<char>)
    requires
        suffix.len() > 0,
        !ends_with(s, suffix),
    ensures
        without_suffixes(s + suffix, suffix) == s,
{
    let whole = s + suffix;
    a_suffix_comes_off(s, suffix);
    assert(whole.take(whole.len() - suffix.len()) =~= s);
    no_suffix_comes_off(s, suffix);
}

proof fn a_word_ends_with_no_phrase(front: Seq<char>, word: Seq<char>, phrase: Seq<char>)
    requires
        free_of(word, ' '),
        word.len() > 0,
        phrase.len() > 0,
        phrase[0] == ' ',
        phrase.skip(1) != word,
        forall|k: int| 1 <= k < phrase.len() ==> #[trigger] phrase[k] != ' ',
        front.len() > 0 ==> front.last() == ' ',
    ensures
        !ends_with(front + word, phrase),
{
    let whole = front + word;
    if ends_with(whole, phrase) {
        let at = whole.len() - phrase.len();
        let tail = whole.subrange(at, whole.len() as int);
        assert(tail[0] == whole[at]);
        if at >= front.len() {
            assert(whole[at] == word[at - front.len()]);
        } else {
            let space = front.len() - 1;
            assert(whole[space] == ' ');
            if at < space {
                assert(tail[space - at] == whole[space]);
                assert(phrase[space - at] != ' ');
            } else {
                assert(phrase.skip(1) =~= word) by {
                    assert forall|k: int| 0 <= k < word.len() implies phrase.skip(1)[k] == word[k] by {
                        assert(tail[k + 1] == whole[at + k + 1]);
                        assert(whole[at + k + 1] == word[k]);
                    }
                }
            }
        }
        assert(false);
    }
}

proof fn the_tail_comes_off(body: Seq<char>, with: bool, closed: bool)
    requires
        !ends_with(body, " end"@),
        !ends_with(body, " with"@),
    ensures
        ({
            let rest = body + header_tail(with, closed);
            &&& without_suffixes(without_suffixes(rest, " end"@), " with"@) == body
            &&& (ends_with(rest, " with end"@) || ends_with(rest, " end"@)) == closed
        }),
{
    reveal_strlit(" end");
    reveal_strlit(" with");
    reveal_strlit(" with end");
    let rest = body + header_tail(with, closed);
    let inner = body + (if with {
        " with"@
    } else {
        Seq::<char>::empty()
    });
    assert(body + Seq::<char>::empty() =~= body);
    if with {
        let whole = body + " with"@;
        if ends_with(whole, " end"@) {
            let tail = whole.subrange(whole.len() - 4, whole.len() as int);
            assert(tail[3] == whole[whole.len() - 1]);
            assert(whole[whole.len() - 1] == 'h');
            assert(" end"@[3] == 'd');
            assert(false);
        }
        one_suffix_comes_off(body, " with"@);
    } else {
        assert(inner =~= body);
        no_suffix_comes_off(body, " with"@);
    }
    assert(!ends_with(inner, " end"@));
    if closed {
        assert(rest =~= inner + " end"@);
        one_suffix_comes_off(inner, " end"@);
        a_suffix_comes_off(inner, " end"@);
    } else {
        assert(rest =~= inner);
        no_suffix_comes_off(inner, " end"@);
        if ends_with(inner, " with end"@) {
            let tail = inner.subrange(inner.len() - 9, inner.len() as int);
            assert(inner.subrange(inner.len() - 4, inner.len() as int) =~= tail.subrange(5, 9));
            assert(" with end"@.subrange(5, 9) =~= " end"@);
            assert(false);
        }
    }
}

/// A line that declares a class tells its name, the class it extends where it names one, and whether it is
/// closed at once. The words that declare it and the word before its members do not matter.
pub proof fn a_header_names_a_class(
    foreign: bool,
    name: Seq<char>,
    parent: Option<Seq<char>>,
    with: bool,
    closed: bool,
)
    requires
        is_plain_name(name),
        parent matches Some(above) ==> is_plain_name(above) && above != "end"@ && above != "with"@,
    ensures
        ({
            let words = if foreign {
                "declare extern type "@
            } else {
                "declare class "@
            };
            let body = match parent {
                Some(above) => name + " extends "@ + above,
                None => name,
            };
            &&& header_in(words + (body + header_tail(with, closed))) matches Some(header)
            &&& header.name == name
            &&& header.extends == parent
            &&& header.empty == closed
        }),
{
    let words = if foreign {
        "declare extern type "@
    } else {
        "declare class "@
    };
    let body = match parent {
        Some(above) => name + " extends "@ + above,
        None => name,
    };
    let rest = body + header_tail(with, closed);
    let line = words + rest;
    reveal_strlit("declare extern type ");
    reveal_strlit("declare class ");
    reveal_strlit(" extends ");
    reveal_strlit(" end");
    reveal_strlit(" with");
    reveal_strlit("end");
    reveal_strlit("with");
    assert(" end"@.skip(1) =~= "end"@);
    assert(" with"@.skip(1) =~= "with"@);
    a_prefix_comes_off(words, rest);
    if !foreign {
        if starts_with(line, "declare extern type "@) {
            let front = line.subrange(0, "declare extern type "@.len() as int);
            assert(front[8] == line[8]);
            assert(line[8] == words[8]);
            assert("declare extern type "@[8] == 'e');
            assert("declare class "@[8] == 'c');
            assert(false);
        }
    }
    a_plain_name_is_trimmed(name);
    let none = Seq::<char>::empty();
    assert forall|k: int| 0 <= k < name.len() implies #[trigger] name[k] != ' ' by {}
    match parent {
        Some(above) => {
            a_plain_name_is_trimmed(above);
            assert forall|k: int| 0 <= k < above.len() implies #[trigger] above[k] != ' ' by {}
            let front = name + " extends "@;
            assert(front.last() == ' ');
            a_word_ends_with_no_phrase(front, above, " end"@);
            a_word_ends_with_no_phrase(front, above, " with"@);
            the_first_space_parts(name, above);
            assert(body[0] == name[0]);
            assert(body.last() == above[above.len() - 1]);
        },
        None => {
            assert(none + name =~= name);
            a_name_alone_ends_with_no_phrase(name, " end"@);
            a_name_alone_ends_with_no_phrase(name, " with"@);
            find_from_is_first(name, " extends "@, 0);
            if let Some(found) = find_from(name, " extends "@, 0) {
                let here = name.subrange(found, found + " extends "@.len());
                assert(name[found] == here[0]);
                assert(false);
            }
        },
    }
    the_tail_comes_off(body, with, closed);
    space_around_is_trimmed(none, body, none);
}

proof fn a_name_alone_ends_with_no_phrase(name: Seq<char>, phrase: Seq<char>)
    requires
        free_of(name, ' '),
        phrase.len() > 0,
        phrase[0] == ' ',
    ensures
        !ends_with(name, phrase),
{
    if ends_with(name, phrase) {
        let at = name.len() - phrase.len();
        assert(name.subrange(at, name.len() as int)[0] == name[at]);
        assert(false);
    }
}

proof fn the_first_space_parts(name: Seq<char>, above: Seq<char>)
    requires
        free_of(name, ' '),
    ensures
        split_at_text(name + " extends "@ + above, " extends "@) == Some((name, above)),
{
    reveal_strlit(" extends ");
    let key = " extends "@;
    let whole = name + key + above;
    let at = name.len() as int;
    find_from_is_first(whole, key, 0);
    assert(whole.subrange(at, at + key.len()) =~= key);
    assert(occurs_at(whole, key, at));
    if let Some(found) = find_from(whole, key, 0) {
        if found < at {
            let here = whole.subrange(found, found + key.len());
            assert(whole[found] == here[0]);
            assert(whole[found] == name[found]);
            assert(false);
        }
    }
    assert(whole.take(at) =~= name);
    assert(whole.skip(at + key.len()) =~= above);
}

/// What lines make of a reading, one after the other.
pub open spec fn read_on(st: ReadingModel, lines: Seq<Seq<char>>) -> ReadingModel
    decreases lines.len(),
{
    if lines.len() == 0 {
        st
    } else {
        read_line(read_on(st, lines.drop_last()), lines.last())
    }
}

/// Whether a line inside a class declares a member.
pub open spec fn is_member_line(line: Seq<char>, member: MemberModel) -> bool {
    &&& !starts_with(line, "--#METADATA#"@)
    &&& line != "end"@
    &&& trimmed(line).len() > 0
    &&& trimmed(line)[0] != '@'
    &&& member_in(trimmed(line), member.deprecated, member.deprecated_use) == Some(member)
    &&& !member.deprecated && member.deprecated_use is None
}

proof fn no_at_sign(said: Seq<char>)
    requires
        said.len() > 0,
        said[0] != '@',
    ensures
        without_prefix(said, "@"@) is None,
{
    reveal_strlit("@");
    if starts_with(said, "@"@) {
        assert(said.subrange(0, 1)[0] == said[0]);
        assert(false);
    }
}

proof fn members_are_read(
    st: ReadingModel,
    opened: TypeModel,
    lines: Seq<Seq<char>>,
    members: Seq<MemberModel>,
)
    requires
        st.current == Some(opened),
        st.pending is None,
        lines.len() == members.len(),
        forall|k: int| 0 <= k < lines.len() ==> is_member_line(#[trigger] lines[k], members[k]),
    ensures
        read_on(st, lines) == (ReadingModel {
            current: Some(TypeModel { members: opened.members + members, ..opened }),
            ..st
        }),
    decreases lines.len(),
{
    if lines.len() == 0 {
        assert(opened.members + members =~= opened.members);
    } else {
        let shorter = lines.drop_last();
        let fewer = members.drop_last();
        assert forall|k: int| 0 <= k < shorter.len() implies is_member_line(
            #[trigger] shorter[k],
            fewer[k],
        ) by {
            assert(is_member_line(lines[k], members[k]));
        }
        members_are_read(st, opened, shorter, fewer);
        let line = lines.last();
        assert(is_member_line(lines[lines.len() - 1], members[lines.len() - 1]));
        no_at_sign(trimmed(line));
        assert((opened.members + fewer).push(members.last()) =~= opened.members + members);
    }
}

/// A class is read from its header to the line that ends it: it has the members its lines declare, in
/// order, and is added to the classes before it. Nothing else of the reading changes.
pub proof fn a_class_is_read_with_its_members(
    st: ReadingModel,
    header: Seq<char>,
    lines: Seq<Seq<char>>,
    members: Seq<MemberModel>,
)
    requires
        st.current is None,
        st.pending is None,
        !starts_with(header, "--#METADATA#"@),
        header_in(header) matches Some(told) && !told.empty,
        lines.len() == members.len(),
        forall|k: int| 0 <= k < lines.len() ==> is_member_line(#[trigger] lines[k], members[k]),
    ensures
        read_on(read_line(st, header), lines.push("end"@)) == (ReadingModel {
            types: with_type(
                st.types,
                TypeModel {
                    name: header_in(header)->0.name,
                    extends: header_in(header)->0.extends,
                    members,
                },
            ),
            ..st
        }),
{
    let told = header_in(header)->0;
    let opened = TypeModel { name: told.name, extends: told.extends, members: Seq::empty() };
    let inside = read_line(st, header);
    members_are_read(inside, opened, lines, members);
    assert(Seq::<MemberModel>::empty() + members =~= members);
    assert(lines.push("end"@).drop_last() =~= lines);
    reveal_strlit("end");
    reveal_strlit("--#METADATA#");
    if starts_with("end"@, "--#METADATA#"@) {
        assert(false);
    }
}

/// A member under an attribute that says it is deprecated is told as deprecated, and the next one is not.
pub proof fn an_attribute_is_about_the_next_member(
    st: ReadingModel,
    opened: TypeModel,
    attribute: Seq<char>,
    line: Seq<char>,
    told: (bool, Option<Seq<char>>),
    member: MemberModel,
)
    requires
        st.current == Some(opened),
        attribute.len() > 0,
        attribute[0] == '@',
        trimmed(attribute) == attribute,
        attribute_in(attribute.skip(1)) == Some(told),
        !starts_with(line, "--#METADATA#"@),
        line != "end"@,
        trimmed(line).len() > 0,
        trimmed(line)[0] != '@',
        member_in(trimmed(line), told.0, told.1) == Some(member),
    ensures
        ({
            let after = read_line(read_line(st, attribute), line);
            &&& after.current == Some(
                TypeModel { members: opened.members.push(member), ..opened },
            )
            &&& after.pending is None
            &&& after.types == st.types
        }),
{
    reveal_strlit("@");
    reveal_strlit("end");
    reveal_strlit("--#METADATA#");
    assert(attribute.subrange(0, 1) =~= "@"@);
    if starts_with(attribute, "--#METADATA#"@) {
        let front = attribute.subrange(0, "--#METADATA#"@.len() as int);
        assert(front[0] == attribute[0]);
        assert(false);
    }
    assert(attribute != "end"@) by {
        assert("end"@[0] == 'e');
    }
    no_at_sign(trimmed(line));
}

/// A reading that has not begun.
pub open spec fn unread() -> ReadingModel {
    ReadingModel {
        types: Seq::empty(),
        current: None,
        pending: None,
        services: Seq::empty(),
        creatable: Seq::empty(),
    }
}

proof fn lines_are_read_one_by_one(all: Seq<Seq<char>>, n: int)
    requires
        0 <= n <= all.len(),
    ensures
        read_lines(all, n) == read_on(unread(), all.take(n)),
    decreases n,
{
    if n > 0 {
        lines_are_read_one_by_one(all, n - 1);
        assert(all.take(n).drop_last() =~= all.take(n - 1));
    }
}

/// The definitions are read line by line, from the first to the last. A class that is still open then is
/// closed, and the services and the classes that can be created are what was said of them last.
pub proof fn definitions_are_read_line_by_line(source: Seq<char>)
    ensures
        ({
            let st = read_on(unread(), lines_of(source));
            &&& defined_metadata(source) == (st.services, st.creatable)
            &&& defined_types(source) == repaired(
                match st.current {
                    Some(open) => with_type(st.types, open),
                    None => st.types,
                },
            )
        }),
{
    let all = lines_of(source);
    lines_are_read_one_by_one(all, all.len() as int);
    assert(all.take(all.len() as int) =~= all);
}

/// A line of metadata says what the services and the classes that can be created are, wherever it stands,
/// and changes nothing else of the reading.
pub proof fn metadata_counts_wherever_it_stands(st: ReadingModel, payload: Seq<char>)
    ensures
        ({
            let after = read_line(st, "--#METADATA#"@ + payload);
            &&& after.services == metadata_of(payload).0
            &&& after.creatable == metadata_of(payload).1
            &&& after.types == st.types
            &&& after.current == st.current
            &&& after.pending == st.pending
        }),
{
    a_prefix_comes_off("--#METADATA#"@, payload);
}

/// A replacement that names a class and a member that it has is kept as it is written.
pub proof fn a_good_replacement_is_kept(
    types: Seq<TypeModel>,
    owner: Seq<char>,
    told: Seq<char>,
    class: Seq<char>,
    name: Seq<char>,
)
    requires
        member_split(told) == Some((class, name)),
        type_named(types, class) matches Some(found) && exists|k: int|
            0 <= k < found.members.len() && (#[trigger] found.members[k]).name == name,
    ensures
        repaired_use(types, owner, Some(told)) == Some(told),
        repaired_use(types, owner, None) is None,
{
    let found = type_named(types, class)->0;
    a_member_stands_there(found.members, name, 0);
}

proof fn a_member_stands_there(members: Seq<MemberModel>, name: Seq<char>, from: int)
    requires
        0 <= from <= members.len(),
    ensures
        member_position(members, name, from) is None ==> forall|k: int|
            from <= k < members.len() ==> (#[trigger] members[k]).name != name,
    decreases members.len() - from,
{
    if from < members.len() && members[from].name != name {
        a_member_stands_there(members, name, from + 1);
    }
}

} // verus!
