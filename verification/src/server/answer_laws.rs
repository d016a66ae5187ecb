//! What is offered, and how long an answer may be.
use vstd::prelude::*;
use vstd::utf8::*;
use super::results::{boundary_before, cut_at, is_text_answer, sized_answer};
use super::routes::{is_unknown, needs_language_server, routed_tools, unknown_names};
use crate::picking::{one_more_is_picked, picks};
use crate::text::decimal;

verus! {

proof fn the_boundary_before_is_the_last(bytes: Seq<u8>, at: int)
    requires
        valid_utf8(bytes),
        0 <= at <= bytes.len(),
    ensures
        0 <= boundary_before(bytes, at) <= at,
        is_char_boundary(bytes, boundary_before(bytes, at)),
        forall|other: int|
            boundary_before(bytes, at) < other <= at ==> !(#[trigger] is_char_boundary(
                bytes,
                other,
            )),
    decreases at,
{
    is_char_boundary_start_end_of_seq(bytes);
    if at > 0 && !is_char_boundary(bytes, at) {
        the_boundary_before_is_the_last(bytes, at - 1);
    }
}

/// A text is cut behind a whole character, at or before the limit, and no later boundary would have been
/// within the limit. A text that fits is not cut.
pub proof fn a_cut_is_the_last_that_fits(text: Seq<char>, limit: int)
    requires
        0 <= limit,
    ensures
        ({
            let bytes = encode_utf8(text);
            let cut = cut_at(bytes, limit);
            &&& 0 <= cut <= bytes.len()
            &&& cut <= limit
            &&& is_char_boundary(bytes, cut)
            &&& bytes.len() <= limit ==> cut == bytes.len()
            &&& forall|other: int|
                cut < other <= limit && other <= bytes.len() ==> !(#[trigger] is_char_boundary(
                    bytes,
                    other,
                ))
        }),
{
    let bytes = encode_utf8(text);
    encode_utf8_valid_utf8(text);
    is_char_boundary_start_end_of_seq(bytes);
    if bytes.len() > limit {
        the_boundary_before_is_the_last(bytes, limit);
    }
}

/// A result is answered whole or not at all: it is refused where a limit is set and it is over it.
pub proof fn a_result_is_whole_or_refused(tool: Seq<char>, result: Seq<char>, limit: int)
    ensures
        match sized_answer(tool, result, limit) {
            Ok(answer) => answer == result && (limit <= 0 || encode_utf8(result).len() <= limit),
            Err(_) => 0 < limit < encode_utf8(result).len(),
        },
{
}

/// A text that is answered starts as the text does. It is the whole text where no limit is set or the
/// text is within it, and says more than it keeps where it is not.
pub proof fn a_text_answer_starts_as_the_text(answer: Seq<char>, value: Seq<char>, limit: int)
    requires
        is_text_answer(answer, value, limit),
    ensures
        limit <= 0 || encode_utf8(value).len() <= limit ==> answer == value,
        0 < limit < encode_utf8(value).len() ==> exists|kept: int|
            #![trigger value.take(kept)]
            {
                &&& 0 <= kept < value.len()
                &&& kept <= answer.len()
                &&& answer.take(kept) == value.take(kept)
                &&& encode_utf8(value.take(kept)).len() <= limit
            },
{
    let bytes = encode_utf8(value);
    if 0 < limit < bytes.len() {
        let shown = choose|shown: int|
            #![trigger value.take(shown)]
            {
                &&& 0 <= shown <= value.len()
                &&& encode_utf8(value.take(shown)) == bytes.subrange(0, cut_at(bytes, limit))
                &&& answer == value.take(shown) + "\n\n[truncated: "@ + decimal(
                    limit as nat,
                ) + " of "@ + decimal(bytes.len())
                    + " characters shown, limited by tools.max_answer_chars]"@
            };
        assert(answer.take(shown) =~= value.take(shown));
        a_cut_is_the_last_that_fits(value, limit);
        if shown == value.len() {
            assert(value.take(shown) =~= value);
        }
        assert(0 <= shown < value.len());
    }
}

// ---------------------------------------------------------------------------
// Tools

proof fn offered_tools_are_picked(
    tools: Seq<Seq<char>>,
    memory_only: bool,
    excluded: Seq<Seq<char>>,
    n: int,
) -> (at: Seq<int>)
    requires
        0 <= n <= tools.len(),
    ensures
        picks(at, tools, routed_tools(tools, memory_only, excluded, n)),
        forall|k: int| 0 <= k < at.len() ==> #[trigger] at[k] < n,
        forall|i: int|
            0 <= i < n ==> (#[trigger] at.contains(i) <==> !(memory_only && needs_language_server(
                tools[i],
            )) && !excluded.contains(tools[i])),
    decreases n,
{
    if n <= 0 {
        Seq::empty()
    } else {
        let before = offered_tools_are_picked(tools, memory_only, excluded, n - 1);
        let tool = tools[n - 1];
        if !(memory_only && needs_language_server(tool)) && !excluded.contains(tool) {
            one_more_is_picked(before, n - 1);
            before.push(n - 1)
        } else {
            before
        }
    }
}

/// The tools that are offered are those that are neither excluded nor, with memories only, in need of the
/// language server, in the order they were in.
pub proof fn tools_are_offered_in_order(
    tools: Seq<Seq<char>>,
    memory_only: bool,
    excluded: Seq<Seq<char>>,
)
    ensures
        exists|at: Seq<int>| #[trigger]
            picks(at, tools, routed_tools(tools, memory_only, excluded, tools.len() as int))
                && forall|i: int|
                0 <= i < tools.len() ==> (#[trigger] at.contains(i) <==> !(memory_only
                    && needs_language_server(tools[i])) && !excluded.contains(tools[i])),
{
    let at = offered_tools_are_picked(tools, memory_only, excluded, tools.len() as int);
    assert(picks(at, tools, routed_tools(tools, memory_only, excluded, tools.len() as int)));
}

/// Whether a name to be excluded excludes nothing: no tool has it, or an earlier name has excluded it.
pub open spec fn excludes_nothing(
    tools: Seq<Seq<char>>,
    excluded: Seq<Seq<char>>,
    i: int,
) -> bool {
    (forall|k: int| 0 <= k < tools.len() ==> #[trigger] tools[k] != excluded[i]) || exists|j: int|
        0 <= j < i && #[trigger] excluded[j] == excluded[i]
}

proof fn unknown_names_are_picked(
    tools: Seq<Seq<char>>,
    memory_only: bool,
    excluded: Seq<Seq<char>>,
    n: int,
) -> (at: Seq<int>)
    requires
        0 <= n <= excluded.len(),
    ensures
        picks(at, excluded, unknown_names(tools, memory_only, excluded, n)),
        forall|k: int| 0 <= k < at.len() ==> #[trigger] at[k] < n,
        forall|i: int|
            0 <= i < n ==> (#[trigger] at.contains(i) <==> !(memory_only && needs_language_server(
                excluded[i],
            )) && excludes_nothing(tools, excluded, i)),
    decreases n,
{
    if n <= 0 {
        Seq::empty()
    } else {
        let before = unknown_names_are_picked(tools, memory_only, excluded, n - 1);
        let name = excluded[n - 1];
        let earlier = excluded.take(n - 1);
        if earlier.contains(name) {
            let j = choose|j: int| 0 <= j < earlier.len() && earlier[j] == name;
            assert(excluded[j] == name);
        }
        if exists|j: int| 0 <= j < n - 1 && #[trigger] excluded[j] == name {
            let j = choose|j: int| 0 <= j < n - 1 && #[trigger] excluded[j] == name;
            assert(earlier[j] == name);
        }
        assert(is_unknown(tools, memory_only, excluded, n - 1) <==> !(memory_only
            && needs_language_server(name)) && excludes_nothing(tools, excluded, n - 1));
        if is_unknown(tools, memory_only, excluded, n - 1) {
            one_more_is_picked(before, n - 1);
            before.push(n - 1)
        } else {
            before
        }
    }
}

/// The names reported as unknown are those that exclude nothing, in order, apart from those of tools that
/// are not offered anyway.
pub proof fn names_that_exclude_nothing_are_reported(
    tools: Seq<Seq<char>>,
    memory_only: bool,
    excluded: Seq<Seq<char>>,
)
    ensures
        exists|at: Seq<int>| #[trigger]
            picks(at, excluded, unknown_names(tools, memory_only, excluded, excluded.len() as int))
                && forall|i: int|
                0 <= i < excluded.len() ==> (#[trigger] at.contains(i) <==> !(memory_only
                    && needs_language_server(excluded[i])) && excludes_nothing(tools, excluded, i)),
{
    let at = unknown_names_are_picked(tools, memory_only, excluded, excluded.len() as int);
    assert(picks(
        at,
        excluded,
        unknown_names(tools, memory_only, excluded, excluded.len() as int),
    ));
}

} // verus!
