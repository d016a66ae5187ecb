//! Instance paths, in every spelling Roblox code uses for the same traversal.
use vstd::prelude::*;
use super::lexing::{
    identifier_end, identifier_end_moves, literal_from, literal_from_moves, read_identifier,
    read_string, skip_space, space_end, space_end_moves,
};
use crate::text::{same_text, to_chars};

verus! {

/// Methods that take the name of a child as their only meaningful argument.
pub open spec fn names_a_child(method: Seq<char>) -> bool {
    ||| method == "GetService"@
    ||| method == "WaitForChild"@
    ||| method == "FindFirstChild"@
    ||| method == "FindFirstAncestor"@
}

fn child_by_name_method(method: &str) -> (b: bool)
    ensures
        b == names_a_child(method@),
{
    same_text(method, "GetService") || same_text(method, "WaitForChild") || same_text(
        method,
        "FindFirstChild",
    ) || same_text(method, "FindFirstAncestor")
}

/// The first string literal between the parentheses of a call, `depth` of which are open at `i`,
/// and where the call ends.
pub open spec fn call_string_from(
    chars: Seq<char>,
    i: int,
    depth: int,
    literal: Option<Seq<char>>,
) -> (Option<Seq<char>>, int)
    decreases chars.len() - i,
{
    if i < 0 || i >= chars.len() {
        (literal, i)
    } else if chars[i] == '(' {
        call_string_from(chars, i + 1, depth + 1, literal)
    } else if chars[i] == ')' {
        if depth == 1 {
            (literal, i + 1)
        } else {
            call_string_from(chars, i + 1, depth - 1, literal)
        }
    } else if (chars[i] == '"' || chars[i] == '\'') && literal is None {
        proof {
            literal_from_moves(chars, i + 1, chars[i]);
        }
        let (text, end) = literal_from(chars, i + 1, chars[i]);
        call_string_from(chars, end, depth, Some(text))
    } else {
        call_string_from(chars, i + 1, depth, literal)
    }
}

/// The first string literal of a call, as in `:WaitForChild("Combat", 5)`.
pub open spec fn call_string(chars: Seq<char>, i: int) -> (Option<Seq<char>>, int) {
    let open = space_end(chars, i);
    if open >= chars.len() || chars[open] != '(' {
        (None, open)
    } else {
        call_string_from(chars, open, 0, None)
    }
}

/// The first string literal before the bracket that closes, from `i` on.
pub open spec fn bracket_string_from(chars: Seq<char>, i: int, literal: Option<Seq<char>>) -> (
    Option<Seq<char>>,
    int,
)
    decreases chars.len() - i,
{
    if i < 0 || i >= chars.len() {
        (literal, i)
    } else if chars[i] == ']' {
        (literal, i + 1)
    } else if (chars[i] == '"' || chars[i] == '\'') && literal is None {
        proof {
            literal_from_moves(chars, i + 1, chars[i]);
        }
        let (text, end) = literal_from(chars, i + 1, chars[i]);
        bracket_string_from(chars, end, Some(text))
    } else {
        bracket_string_from(chars, i + 1, literal)
    }
}

proof fn call_string_from_moves(
    chars: Seq<char>,
    i: int,
    depth: int,
    literal: Option<Seq<char>>,
)
    requires
        0 <= i <= chars.len(),
    ensures
        i <= call_string_from(chars, i, depth, literal).1 <= chars.len(),
    decreases chars.len() - i,
{
    if i < chars.len() {
        if chars[i] == '(' {
            call_string_from_moves(chars, i + 1, depth + 1, literal);
        } else if chars[i] == ')' {
            if depth != 1 {
                call_string_from_moves(chars, i + 1, depth - 1, literal);
            }
        } else if (chars[i] == '"' || chars[i] == '\'') && literal is None {
            literal_from_moves(chars, i + 1, chars[i]);
            let (text, end) = literal_from(chars, i + 1, chars[i]);
            call_string_from_moves(chars, end, depth, Some(text));
        } else {
            call_string_from_moves(chars, i + 1, depth, literal);
        }
    }
}

pub proof fn call_string_moves(chars: Seq<char>, i: int)
    requires
        0 <= i <= chars.len(),
    ensures
        i <= call_string(chars, i).1 <= chars.len(),
{
    space_end_moves(chars, i);
    let open = space_end(chars, i);
    call_string_from_moves(chars, open, 0, None);
}

pub proof fn bracket_string_from_moves(chars: Seq<char>, i: int, literal: Option<Seq<char>>)
    requires
        0 <= i <= chars.len(),
    ensures
        i <= bracket_string_from(chars, i, literal).1 <= chars.len(),
    decreases chars.len() - i,
{
    if i < chars.len() {
        if chars[i] == ']' {
        } else if (chars[i] == '"' || chars[i] == '\'') && literal is None {
            literal_from_moves(chars, i + 1, chars[i]);
            let (text, end) = literal_from(chars, i + 1, chars[i]);
            bracket_string_from_moves(chars, end, Some(text));
        } else {
            bracket_string_from_moves(chars, i + 1, literal);
        }
    }
}

/// The one name in a list, where there is one.
pub open spec fn just(name: Option<Seq<char>>) -> Seq<Seq<char>> {
    match name {
        Some(text) => seq![text],
        None => Seq::empty(),
    }
}

/// The names of an instance path from `i` on.
pub open spec fn segments_from(chars: Seq<char>, i: int) -> Seq<Seq<char>>
    decreases chars.len() - i,
{
    if i < 0 || i >= chars.len() {
        Seq::empty()
    } else if chars[i] == '.' || chars[i] == '/' || chars[i] == ' ' || chars[i] == '\t' {
        segments_from(chars, i + 1)
    } else if chars[i] == ':' {
        proof {
            identifier_end_moves(chars, i + 1);
            call_string_moves(chars, identifier_end(chars, i + 1));
        }
        let end = identifier_end(chars, i + 1);
        let (argument, next) = call_string(chars, end);
        just(
            if names_a_child(chars.subrange(i + 1, end)) {
                argument
            } else {
                None
            },
        ) + segments_from(chars, next)
    } else if chars[i] == '[' {
        proof {
            bracket_string_from_moves(chars, i + 1, None);
        }
        let (argument, next) = bracket_string_from(chars, i + 1, None);
        just(argument) + segments_from(chars, next)
    } else {
        proof {
            identifier_end_moves(chars, i);
        }
        let end = identifier_end(chars, i);
        if end == i {
            segments_from(chars, i + 1)
        } else {
            seq![chars.subrange(i, end)] + segments_from(chars, end)
        }
    }
}

/// The names of an instance path.
pub open spec fn path_segments(input: Seq<char>) -> Seq<Seq<char>> {
    segments_from(input, 0)
}

fn read_call_string(chars: &[char], from: usize) -> (r: (Option<String>, usize))
    requires
        from <= chars@.len(),
    ensures
        r.0.deep_view() == call_string(chars@, from as int).0,
        r.1 == call_string(chars@, from as int).1,
        from <= r.1 <= chars@.len(),
{
    let end: usize = chars.len();
    let mut index: usize = skip_space(chars, from);
    if index >= end || chars[index] != '(' {
        return (None, index);
    }
    let ghost open = index as int;
    let mut depth: usize = 0;
    let mut literal: Option<String> = None;
    while index < end
        invariant
            end == chars@.len(),
            from <= open <= index <= end,
            depth <= index,
            index < end && depth == 0 ==> chars@[index as int] == '(',
            call_string_from(chars@, open, 0, None) == call_string_from(
                chars@,
                index as int,
                depth as int,
                literal.deep_view(),
            ),
            open == space_end(chars@, from as int),
            open < end,
            chars@[open] == '(',
        decreases end - index,
    {
        let c = chars[index];
        if c == '(' {
            depth = depth + 1;
            index = index + 1;
        } else if c == ')' {
            depth = depth - 1;
            index = index + 1;
            if depth == 0 {
                return (literal, index);
            }
        } else if (c == '"' || c == '\'') && literal.is_none() {
            let (text, next) = read_string(chars, index, c);
            literal = Some(text);
            index = next;
        } else {
            index = index + 1;
        }
    }
    (literal, index)
}

fn read_bracket_string(chars: &[char], from: usize) -> (r: (Option<String>, usize))
    requires
        from < chars@.len(),
    ensures
        r.0.deep_view() == bracket_string_from(chars@, from + 1, None).0,
        r.1 == bracket_string_from(chars@, from + 1, None).1,
        from < r.1 <= chars@.len(),
{
    let end: usize = chars.len();
    let mut index: usize = from + 1;
    let mut literal: Option<String> = None;
    while index < end
        invariant
            end == chars@.len(),
            from < index <= end,
            bracket_string_from(chars@, from + 1, None) == bracket_string_from(
                chars@,
                index as int,
                literal.deep_view(),
            ),
        decreases end - index,
    {
        let c = chars[index];
        if c == ']' {
            return (literal, index + 1);
        } else if (c == '"' || c == '\'') && literal.is_none() {
            let (text, next) = read_string(chars, index, c);
            literal = Some(text);
            index = next;
        } else {
            index = index + 1;
        }
    }
    (literal, index)
}

/// Splits an instance path into names, accepting every spelling Roblox code uses for the same
/// traversal.
pub fn parse_instance_path(input: &str) -> (segments: Vec<String>)
    ensures
        segments.deep_view() == path_segments(input@),
{
    let chars = to_chars(input);
    let end: usize = chars.len();
    let mut segments: Vec<String> = Vec::new();
    let mut index: usize = 0;
    let ghost whole = segments_from(chars@, 0);
    assert(segments.deep_view() + whole =~= whole);
    while index < end
        invariant
            end == chars@.len(),
            index <= end,
            whole == segments_from(chars@, 0),
            whole == segments.deep_view() + segments_from(chars@, index as int),
        decreases end - index,
    {
        let ghost before = segments.deep_view();
        let ghost at = index as int;
        let c = chars[index];
        if c == '.' || c == '/' || c == ' ' || c == '\t' {
            index = index + 1;
        } else if c == ':' {
            let (method, next) = read_identifier(&chars, index + 1);
            let (argument, next) = read_call_string(&chars, next);
            index = next;
            let ghost said = argument.deep_view();
            let mut kept: Option<String> = None;
            if child_by_name_method(method.as_str()) {
                kept = argument;
            }
            let ghost kept_text = kept.deep_view();
            match kept {
                Some(name) => {
                    segments.push(name);
                },
                None => {},
            }
            proof {
                let rest = segments_from(chars@, index as int);
                assert(segments.deep_view() =~= before + just(kept_text));
                assert(before + (just(kept_text) + rest) =~= segments.deep_view() + rest);
            }
        } else if c == '[' {
            let (argument, next) = read_bracket_string(&chars, index);
            index = next;
            let ghost said = argument.deep_view();
            match argument {
                Some(name) => {
                    segments.push(name);
                },
                None => {},
            }
            proof {
                let rest = segments_from(chars@, index as int);
                assert(segments.deep_view() =~= before + just(said));
                assert(before + (just(said) + rest) =~= segments.deep_view() + rest);
            }
        } else {
            let (identifier, next) = read_identifier(&chars, index);
            if next == index {
                index = index + 1;
            } else {
                let ghost said = identifier@;
                segments.push(identifier);
                index = next;
                proof {
                    let rest = segments_from(chars@, index as int);
                    assert(segments.deep_view() =~= before.push(said));
                    assert(before + (seq![said] + rest) =~= segments.deep_view() + rest);
                }
            }
        }
    }
    assert(segments.deep_view() + Seq::<Seq<char>>::empty() =~= segments.deep_view());
    segments
}

} // verus!
