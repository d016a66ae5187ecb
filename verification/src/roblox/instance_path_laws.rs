//! The spellings of an instance path.
use vstd::prelude::*;
use super::instance_path::{
    bracket_string_from, call_string, call_string_from, path_segments, segments_from,
};
use super::lexing::{identifier_end, is_identifier_char, space_end};
use super::require_graph::resolve_laws::{
    a_plain_literal_is_its_text, an_identifier_goes_up_to, is_plain,
};

verus! {

/// Whether a text stands in another at a place.
pub open spec fn stands(input: Seq<char>, i: int, text: Seq<char>) -> bool {
    0 <= i && i + text.len() <= input.len() && input.subrange(i, i + text.len()) == text
}

/// Dots, slashes, spaces and tabs only part names.
pub proof fn separators_name_nothing(input: Seq<char>, i: int)
    requires
        0 <= i < input.len(),
        input[i] == '.' || input[i] == '/' || input[i] == ' ' || input[i] == '\t',
    ensures
        segments_from(input, i) == segments_from(input, i + 1),
{
}

proof fn a_word_goes_up_to(input: Seq<char>, from: int, to: int)
    requires
        0 <= from <= to <= input.len(),
        forall|k: int| from <= k < to ==> is_identifier_char(#[trigger] input[k]),
        to < input.len() ==> !is_identifier_char(input[to]),
    ensures
        identifier_end(input, from) == to,
    decreases to - from,
{
    if from < to {
        assert(is_identifier_char(input[from]));
        a_word_goes_up_to(input, from + 1, to);
    }
}

/// A word names what it spells, up to where it ends.
pub proof fn a_word_names_itself(input: Seq<char>, i: int, name: Seq<char>)
    requires
        stands(input, i, name),
        name.len() > 0,
        forall|k: int| 0 <= k < name.len() ==> is_identifier_char(#[trigger] name[k]),
        name[0] != '.' && name[0] != '/' && name[0] != ' ' && name[0] != '\t' && name[0] != ':'
            && name[0] != '[',
        i + name.len() < input.len() ==> !is_identifier_char(input[i + name.len()]),
    ensures
        segments_from(input, i) == seq![name] + segments_from(input, i + name.len()),
{
    let end = i + name.len();
    let here = input.subrange(i, end);
    assert forall|k: int| i <= k < end implies is_identifier_char(#[trigger] input[k]) by {
        assert(input[k] == here[k - i]);
    }
    assert(input[i] == here[0]);
    a_word_goes_up_to(input, i, end);
}

/// A name in brackets and quotes is named as it is, whatever characters it is made of.
pub proof fn brackets_name_what_they_quote(input: Seq<char>, i: int, name: Seq<char>)
    requires
        is_plain(name),
        stands(input, i, seq!['[', '"'] + name + seq!['"', ']']),
    ensures
        segments_from(input, i) == seq![name] + segments_from(input, i + name.len() + 4),
{
    let spelled = seq!['[', '"'] + name + seq!['"', ']'];
    let here = input.subrange(i, i + spelled.len());
    let from = i + 2;
    let to = from + name.len();
    assert(input[i] == here[0] && spelled[0] == '[');
    assert(input[i + 1] == here[1] && spelled[1] == '"');
    assert(input[to] == here[to - i] && spelled[to - i] == '"');
    assert(input[to + 1] == here[to + 1 - i] && spelled[to + 1 - i] == ']');
    assert forall|k: int| from <= k < to implies #[trigger] input[k] != '"' && input[k] != '\\' by {
        assert(input[k] == here[k - i]);
        assert(spelled[k - i] == name[k - from]);
    }
    a_plain_literal_is_its_text(input, from, to, from);
    assert(input.subrange(from, to) =~= name) by {
        assert forall|k: int| 0 <= k < name.len() implies input.subrange(from, to)[k] == name[k] by {
            assert(input[from + k] == here[2 + k]);
            assert(spelled[2 + k] == name[k]);
        }
    }
    assert(bracket_string_from(input, to + 1, Some(name)) == (Some(name), to + 2));
    assert(bracket_string_from(input, i + 1, None) == (Some(name), to + 2));
}

/// A call that asks for a child, a service or an ancestor by name names it.
pub proof fn a_call_names_what_it_asks_for(
    input: Seq<char>,
    i: int,
    method: Seq<char>,
    name: Seq<char>,
)
    requires
        is_plain(name),
        method == "GetService"@ || method == "WaitForChild"@ || method == "FindFirstChild"@ || method
            == "FindFirstAncestor"@,
        stands(input, i, seq![':'] + method + seq!['(', '"'] + name + seq!['"', ')']),
    ensures
        segments_from(input, i) == seq![name] + segments_from(
            input,
            i + method.len() + name.len() + 5,
        ),
{
    reveal_strlit("GetService");
    reveal_strlit("WaitForChild");
    reveal_strlit("FindFirstChild");
    reveal_strlit("FindFirstAncestor");
    let spelled = seq![':'] + method + seq!['(', '"'] + name + seq!['"', ')'];
    let here = input.subrange(i, i + spelled.len());
    let open = i + 1 + method.len();
    let from = open + 2;
    let to = from + name.len();
    assert forall|k: int| i <= k < i + spelled.len() implies #[trigger] input[k] == spelled[k - i] by {
        assert(input[k] == here[k - i]);
    }
    assert(input[i] == ':' && input[open] == '(' && input[open + 1] == '"' && input[to] == '"'
        && input[to + 1] == ')');
    assert forall|k: int| i + 1 <= k < open implies is_identifier_char(#[trigger] input[k]) by {
        assert(input[k] == method[k - i - 1]);
    }
    an_identifier_goes_up_to(input, i + 1, open, i + 1);
    assert(input.subrange(i + 1, open) =~= method);
    assert forall|k: int| from <= k < to implies #[trigger] input[k] != '"' && input[k] != '\\' by {
        assert(input[k] == name[k - from]);
    }
    a_plain_literal_is_its_text(input, from, to, from);
    assert(input.subrange(from, to) =~= name);
    assert(call_string_from(input, to + 1, 1, Some(name)) == (Some(name), to + 2));
    assert(call_string_from(input, open + 1, 1, None) == (Some(name), to + 2));
    assert(call_string_from(input, open, 0, None) == (Some(name), to + 2));
    assert(space_end(input, open) == open);
    assert(call_string(input, open) == (Some(name), to + 2));
}

/// A path that says nothing names nothing.
pub proof fn an_empty_path_names_nothing(input: Seq<char>)
    requires
        input.len() == 0,
    ensures
        path_segments(input) == Seq::<Seq<char>>::empty(),
        segments_from(input, input.len() as int) == Seq::<Seq<char>>::empty(),
{
}

/// A call of anything else names nothing: what follows it is named as it would be behind nothing.
pub proof fn any_other_call_names_nothing(input: Seq<char>, i: int, open: int, close: int)
    requires
        0 <= i < open < close < input.len(),
        input[i] == ':',
        input[open] == '(',
        input[close] == ')',
        forall|k: int| i < k < open ==> is_identifier_char(#[trigger] input[k]),
        forall|k: int|
            open < k < close ==> #[trigger] input[k] != '(' && input[k] != ')' && input[k] != '"'
                && input[k] != '\'',
        input.subrange(i + 1, open) != "GetService"@,
        input.subrange(i + 1, open) != "WaitForChild"@,
        input.subrange(i + 1, open) != "FindFirstChild"@,
        input.subrange(i + 1, open) != "FindFirstAncestor"@,
    ensures
        segments_from(input, i) == segments_from(input, close + 1),
{
    an_identifier_goes_up_to(input, i + 1, open, i + 1);
    assert(space_end(input, open) == open);
    a_call_is_passed(input, open + 1, close);
    assert(call_string(input, open) == call_string_from(input, open + 1, 1, None));
    let none = Seq::<Seq<char>>::empty();
    assert(none + segments_from(input, close + 1) =~= segments_from(input, close + 1));
}

proof fn a_call_is_passed(input: Seq<char>, i: int, close: int)
    requires
        0 <= i <= close < input.len(),
        input[close] == ')',
        forall|k: int|
            i <= k < close ==> #[trigger] input[k] != '(' && input[k] != ')' && input[k] != '"'
                && input[k] != '\'',
    ensures
        call_string_from(input, i, 1, None) == (None::<Seq<char>>, close + 1),
    decreases close - i,
{
    if i < close {
        assert(input[i] != '(');
        a_call_is_passed(input, i + 1, close);
    }
}

} // verus!
