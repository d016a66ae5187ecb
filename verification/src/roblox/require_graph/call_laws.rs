//! Which calls are found in a source, and what they are told as.
use vstd::prelude::*;
use vstd::utf8::*;
use super::comment_laws::the_first_stands_there;
use super::scan::{
    argument_at, balanced_close, bindings_in, bound_to, gap_end, gap_end_moves, line_number,
    literal_rest, literal_value, quote_close, quote_close_moves, require_at, require_word,
    requires_from, scan_moves, shared_at, shared_from, shared_word, CallModel, KindModel,
};
use crate::lines::line_feeds_before;
use crate::picking::{one_more_is_picked, rises};
use crate::text::{find_from, find_from_is_first, is_white_space, occurs_at, position_from, trimmed};

verus! {

// ---------------------------------------------------------------------------
// Parentheses

proof fn plain_bytes_change_no_depth(s: Seq<u8>, i: int, j: int, depth: int)
    requires
        0 <= i <= j <= s.len(),
        forall|k: int|
            i <= k < j ==> #[trigger] s[k] != 0x28 && s[k] != 0x29 && s[k] != 0x22 && s[k] != 0x27,
    ensures
        balanced_close(s, i, depth) == balanced_close(s, j, depth),
    decreases j - i,
{
    if i < j {
        assert(s[i] != 0x28);
        plain_bytes_change_no_depth(s, i + 1, j, depth);
    }
}

/// Whether bytes are neither parentheses nor quotes.
pub open spec fn is_plain_run(s: Seq<u8>, i: int, j: int) -> bool {
    forall|k: int|
        i <= k < j ==> #[trigger] s[k] != 0x28 && s[k] != 0x29 && s[k] != 0x22 && s[k] != 0x27
}

/// A parenthesis is closed by the next one where nothing but plain bytes stand between them.
pub proof fn a_parenthesis_is_closed(s: Seq<u8>, open: int, close: int)
    requires
        0 <= open < close < s.len(),
        s[open] == 0x28,
        s[close] == 0x29,
        is_plain_run(s, open + 1, close),
    ensures
        balanced_close(s, open, 0) == Some(close),
{
    plain_bytes_change_no_depth(s, open + 1, close, 1);
}

/// A parenthesis that is opened and closed within others does not close them.
pub proof fn inner_parentheses_close_themselves(
    s: Seq<u8>,
    open: int,
    inner: int,
    shut: int,
    close: int,
)
    requires
        0 <= open < inner < shut < close < s.len(),
        s[open] == 0x28,
        s[inner] == 0x28,
        s[shut] == 0x29,
        s[close] == 0x29,
        is_plain_run(s, open + 1, inner),
        is_plain_run(s, inner + 1, shut),
        is_plain_run(s, shut + 1, close),
    ensures
        balanced_close(s, open, 0) == Some(close),
{
    plain_bytes_change_no_depth(s, open + 1, inner, 1);
    plain_bytes_change_no_depth(s, inner + 1, shut, 2);
    plain_bytes_change_no_depth(s, shut + 1, close, 1);
    assert(balanced_close(s, shut, 2) == balanced_close(s, shut + 1, 1));
    assert(balanced_close(s, inner, 1) == balanced_close(s, inner + 1, 2));
}

proof fn a_quote_closes(s: Seq<u8>, i: int, quote: u8, end: int)
    requires
        0 <= i <= end < s.len(),
        s[end] == quote,
        forall|k: int| i <= k < end ==> #[trigger] s[k] != quote && s[k] != 0x5c,
    ensures
        quote_close(s, i, quote) == end,
    decreases end - i,
{
    if i < end {
        assert(s[i] != quote);
        a_quote_closes(s, i + 1, quote, end);
    }
}

/// A parenthesis in a string closes nothing.
pub proof fn a_string_closes_no_parenthesis(
    s: Seq<u8>,
    open: int,
    first: int,
    last: int,
    close: int,
)
    requires
        0 <= open < first < last < close < s.len(),
        s[open] == 0x28,
        s[first] == 0x22 || s[first] == 0x27,
        s[last] == s[first],
        s[close] == 0x29,
        is_plain_run(s, open + 1, first),
        forall|k: int| first < k < last ==> #[trigger] s[k] != s[first] && s[k] != 0x5c,
        is_plain_run(s, last + 1, close),
    ensures
        balanced_close(s, open, 0) == Some(close),
{
    plain_bytes_change_no_depth(s, open + 1, first, 1);
    a_quote_closes(s, first + 1, s[first], last);
    plain_bytes_change_no_depth(s, last + 1, close, 1);
    assert(balanced_close(s, first, 1) == balanced_close(s, last + 1, 1));
}

// ---------------------------------------------------------------------------
// Calls

/// The word a call starts with.
pub open spec fn word_of(shared: bool) -> Seq<u8> {
    if shared {
        seq!['s' as u8, 'h' as u8, 'a' as u8, 'r' as u8, 'e' as u8, 'd' as u8]
    } else {
        seq![
            'r' as u8,
            'e' as u8,
            'q' as u8,
            'u' as u8,
            'i' as u8,
            'r' as u8,
            'e' as u8,
        ]
    }
}

/// Whether a byte can be part of a name.
pub open spec fn is_in_name(b: u8) -> bool {
    ||| 'a' as u8 <= b <= 'z' as u8
    ||| 'A' as u8 <= b <= 'Z' as u8
    ||| '0' as u8 <= b <= '9' as u8
    ||| b == '_' as u8
}

/// Whether the word of a call stands at a place and is not the end of a longer one. That of a shared call
/// is not the start of one either, nor a field or a method of something.
pub open spec fn is_word_at(bytes: Seq<u8>, p: int, shared: bool) -> bool {
    &&& occurs_at(bytes, word_of(shared), p)
    &&& p > 0 ==> !is_in_name(bytes[p - 1])
    &&& shared && p > 0 ==> bytes[p - 1] != '.' as u8 && bytes[p - 1] != ':' as u8
    &&& shared && p + 6 < bytes.len() ==> !is_in_name(bytes[p + 6])
}

/// Whether only spaces and tabs stand between two places.
pub open spec fn is_gap(bytes: Seq<u8>, i: int, j: int) -> bool {
    i <= j && forall|k: int| i <= k < j ==> #[trigger] bytes[k] == 0x20 || bytes[k] == 0x09
}

/// Whether parentheses that open at a place hold an expression, white space around it apart.
pub open spec fn hold_argument(
    bytes: Seq<u8>,
    cursor: int,
    close: int,
    expression: Seq<char>,
) -> bool {
    &&& cursor < bytes.len()
    &&& bytes[cursor] == 0x28
    &&& balanced_close(bytes, cursor, 0) == Some(close)
    &&& expression == trimmed(decode_utf8(bytes.subrange(cursor + 1, close)))
}

/// Whether a string that starts at a place, with its quotes, is an expression.
pub open spec fn is_string_argument(
    bytes: Seq<u8>,
    cursor: int,
    end: int,
    expression: Seq<char>,
) -> bool {
    &&& cursor < end < bytes.len()
    &&& bytes[cursor] == 0x22 || bytes[cursor] == 0x27
    &&& bytes[end] == bytes[cursor]
    &&& forall|k: int| cursor < k < end ==> #[trigger] bytes[k] != bytes[cursor]
    &&& expression == decode_utf8(bytes.subrange(cursor, end + 1))
}

/// Whether an argument stands behind the word of a call and a gap.
pub open spec fn has_argument(
    bytes: Seq<u8>,
    p: int,
    shared: bool,
    cursor: int,
    end: int,
    expression: Seq<char>,
) -> bool {
    &&& is_gap(bytes, p + word_of(shared).len(), cursor)
    &&& hold_argument(bytes, cursor, end, expression) || is_string_argument(
        bytes,
        cursor,
        end,
        expression,
    )
}

/// Whether a call stands at a place: its word, a gap, and an argument that is not empty.
pub open spec fn is_call(bytes: Seq<u8>, p: int, shared: bool, expression: Seq<char>) -> bool {
    &&& is_word_at(bytes, p, shared)
    &&& expression.len() > 0
    &&& exists|cursor: int, end: int| #[trigger]
        has_argument(bytes, p, shared, cursor, end, expression)
}

/// Whether a place is inside the parentheses of a call's word before it.
pub open spec fn is_inside(bytes: Seq<u8>, p: int, shared: bool) -> bool {
    exists|q: int, cursor: int, close: int|
        {
            &&& q < p
            &&& #[trigger] is_word_at(bytes, q, shared)
            &&& is_gap(bytes, q + word_of(shared).len(), cursor)
            &&& #[trigger] is_closed_by(bytes, cursor, close)
            &&& cursor < p < close
        }
}

/// Whether a parenthesis opens at a place and another closes it.
pub open spec fn is_closed_by(bytes: Seq<u8>, cursor: int, close: int) -> bool {
    &&& 0 <= cursor < bytes.len()
    &&& bytes[cursor] == 0x28
    &&& balanced_close(bytes, cursor, 0) == Some(close)
}

/// Whether a call is told as it stands.
pub open spec fn is_told(bytes: Seq<u8>, call: CallModel, shared: bool) -> bool {
    &&& is_call(bytes, call.offset, shared, call.expression)
    &&& call.line == line_number(bytes, call.offset)
    &&& call.kind == if shared {
        KindModel::Shared(literal_value(call.expression))
    } else {
        KindModel::Require
    }
}

spec fn call_at(bytes: Seq<u8>, p: int, shared: bool) -> (Option<CallModel>, int) {
    if shared {
        shared_at(bytes, p)
    } else {
        require_at(bytes, p)
    }
}

spec fn calls_from(bytes: Seq<u8>, from: int, shared: bool) -> Seq<CallModel> {
    if shared {
        shared_from(bytes, from)
    } else {
        requires_from(bytes, from)
    }
}

proof fn words_are_the_same(shared: bool)
    ensures
        word_of(shared) == if shared {
            shared_word()
        } else {
            require_word()
        },
        forall|k: int| 0 <= k < word_of(shared).len() ==> is_in_name(#[trigger] word_of(shared)[k]),
{
    assert(word_of(true) =~= shared_word());
    assert(word_of(false) =~= require_word());
}

proof fn a_gap_ends(bytes: Seq<u8>, i: int, j: int)
    requires
        0 <= i,
        is_gap(bytes, i, j),
        j < bytes.len(),
        bytes[j] != 0x20 && bytes[j] != 0x09,
    ensures
        gap_end(bytes, i) == j,
    decreases j - i,
{
    if i < j {
        assert(bytes[i] == 0x20 || bytes[i] == 0x09);
        a_gap_ends(bytes, i + 1, j);
    }
}

proof fn a_gap_is_one(bytes: Seq<u8>, i: int)
    requires
        0 <= i <= bytes.len(),
    ensures
        is_gap(bytes, i, gap_end(bytes, i)),
    decreases bytes.len() - i,
{
    if i < bytes.len() && (bytes[i] == 0x20 || bytes[i] == 0x09) {
        a_gap_is_one(bytes, i + 1);
        gap_end_moves(bytes, i + 1);
    }
}

proof fn the_first_is_first(s: Seq<u8>, x: u8, from: int)
    requires
        0 <= from,
    ensures
        position_from(s, x, from) matches Some(i) ==> from <= i < s.len() && s[i] == x && forall|
            k: int,
        |
            from <= k < i ==> #[trigger] s[k] != x,
    decreases s.len() - from,
{
    if from < s.len() && s[from] != x {
        the_first_is_first(s, x, from + 1);
    }
}

/// What is read at a place is the call that stands there.
proof fn a_call_is_read(bytes: Seq<u8>, p: int, shared: bool)
    requires
        occurs_at(bytes, word_of(shared), p),
    ensures
        call_at(bytes, p, shared).0 matches Some(call) ==> call.offset == p && is_told(
            bytes,
            call,
            shared,
        ),
        forall|expression: Seq<char>| #[trigger]
            is_call(bytes, p, shared, expression) ==> (call_at(bytes, p, shared).0 matches Some(call)
                && call.expression == expression),
{
    let n = word_of(shared).len() as int;
    let cursor = gap_end(bytes, p + n);
    gap_end_moves(bytes, p + n);
    a_gap_is_one(bytes, p + n);
    if let Some(call) = call_at(bytes, p, shared).0 {
        assert(is_word_at(bytes, p, shared));
        if bytes[cursor] == 0x28 {
            let close = balanced_close(bytes, cursor, 0)->0;
            assert(has_argument(bytes, p, shared, cursor, close, call.expression));
        } else {
            the_first_is_first(bytes, bytes[cursor], cursor + 1);
            let end = position_from(bytes, bytes[cursor], cursor + 1)->0;
            assert(is_string_argument(bytes, cursor, end, call.expression));
            assert(has_argument(bytes, p, shared, cursor, end, call.expression));
        }
        assert(is_call(bytes, p, shared, call.expression));
    }
    assert forall|expression: Seq<char>| #[trigger] is_call(bytes, p, shared, expression) implies (
    call_at(bytes, p, shared).0 matches Some(call) && call.expression == expression) by {
        let (at, end) = choose|at: int, end: int| #[trigger]
            has_argument(bytes, p, shared, at, end, expression);
        a_gap_ends(bytes, p + n, at);
        if is_string_argument(bytes, at, end, expression) {
            the_first_stands_there(bytes, bytes[at], at + 1, end);
        }
        assert(argument_at(bytes, cursor) matches Some((held, _)) && held == expression);
    }
}

/// Where the search goes on, nothing that starts before it is missed but what parentheses hold.
proof fn nothing_is_skipped(bytes: Seq<u8>, start: int, shared: bool, p: int)
    requires
        occurs_at(bytes, word_of(shared), start),
        start < p < call_at(bytes, start, shared).1,
        is_word_at(bytes, p, shared),
    ensures
        is_inside(bytes, p, shared),
{
    words_are_the_same(shared);
    let n = word_of(shared).len() as int;
    if p < start + n {
        let word = bytes.subrange(start, start + n);
        assert(bytes[p - 1] == word[p - 1 - start]);
        assert(is_in_name(word_of(shared)[p - 1 - start]));
        assert(false);
    }
    let cursor = gap_end(bytes, start + n);
    gap_end_moves(bytes, start + n);
    a_gap_is_one(bytes, start + n);
    assert(is_word_at(bytes, start, shared));
    let close = balanced_close(bytes, cursor, 0)->0;
    let here = bytes.subrange(p, p + n);
    assert(bytes[p] == here[0]);
    assert(word_of(shared)[0] == here[0]);
    if p < cursor {
        assert(bytes[p] == 0x20 || bytes[p] == 0x09);
    }
    assert(is_closed_by(bytes, cursor, close));
    if p == close {
        a_close_is_a_parenthesis(bytes, cursor, 0);
    }
}

proof fn a_close_is_a_parenthesis(s: Seq<u8>, i: int, depth: int)
    requires
        0 <= i,
    ensures
        balanced_close(s, i, depth) matches Some(close) ==> close < s.len() && s[close] == 0x29,
    decreases s.len() + 2 - i,
{
    if i < s.len() {
        if s[i] == 0x28 {
            a_close_is_a_parenthesis(s, i + 1, depth + 1);
        } else if s[i] == 0x29 {
            if depth != 1 {
                a_close_is_a_parenthesis(s, i + 1, depth - 1);
            }
        } else if s[i] == 0x22 || s[i] == 0x27 {
            quote_close_moves(s, i + 1, s[i]);
            a_close_is_a_parenthesis(s, quote_close(s, i + 1, s[i]) + 1, depth);
        } else {
            a_close_is_a_parenthesis(s, i + 1, depth);
        }
    }
}

spec fn all_told(bytes: Seq<u8>, calls: Seq<CallModel>, shared: bool) -> bool {
    forall|k: int| 0 <= k < calls.len() ==> is_told(bytes, #[trigger] calls[k], shared)
}

/// Whether a call is told.
pub open spec fn tells_call(calls: Seq<CallModel>, p: int, expression: Seq<char>) -> bool {
    exists|k: int|
        0 <= k < calls.len() && (#[trigger] calls[k]).offset == p && calls[k].expression
            == expression
}

spec fn none_is_missed(bytes: Seq<u8>, from: int, calls: Seq<CallModel>, shared: bool) -> bool {
    forall|p: int, expression: Seq<char>|
        from <= p && #[trigger] is_call(bytes, p, shared, expression) ==> tells_call(
            calls,
            p,
            expression,
        ) || is_inside(bytes, p, shared)
}

proof fn every_call_is_told(bytes: Seq<u8>, from: int, shared: bool)
    requires
        0 <= from,
    ensures
        all_told(bytes, calls_from(bytes, from, shared), shared),
        none_is_missed(bytes, from, calls_from(bytes, from, shared), shared),
    decreases bytes.len() - from,
{
    words_are_the_same(shared);
    let word = word_of(shared);
    let calls = calls_from(bytes, from, shared);
    find_from_is_first(bytes, word, from);
    match find_from(bytes, word, from) {
        None => {
            assert forall|p: int, expression: Seq<char>|
                from <= p && #[trigger] is_call(bytes, p, shared, expression) implies tells_call(
                calls,
                p,
                expression,
            ) || is_inside(bytes, p, shared) by {
                assert(!occurs_at(bytes, word, p));
            }
        },
        Some(start) => {
            scan_moves(bytes, start);
            let (call, next) = call_at(bytes, start, shared);
            every_call_is_told(bytes, next, shared);
            a_call_is_read(bytes, start, shared);
            let rest = calls_from(bytes, next, shared);
            assert forall|k: int| 0 <= k < calls.len() implies is_told(
                bytes,
                #[trigger] calls[k],
                shared,
            ) by {
                if call is Some {
                    if k > 0 {
                        assert(calls[k] == rest[k - 1]);
                    }
                } else {
                    assert(calls[k] == rest[k]);
                }
            }
            assert forall|p: int, expression: Seq<char>|
                from <= p && #[trigger] is_call(bytes, p, shared, expression) implies tells_call(
                calls,
                p,
                expression,
            ) || is_inside(bytes, p, shared) by {
                if p < start {
                    assert(!occurs_at(bytes, word, p));
                } else if p == start {
                    assert(calls[0].offset == p);
                } else if p < next {
                    nothing_is_skipped(bytes, start, shared, p);
                } else if tells_call(rest, p, expression) {
                    let k = choose|k: int|
                        0 <= k < rest.len() && (#[trigger] rest[k]).offset == p
                            && rest[k].expression == expression;
                    if call is Some {
                        assert(calls[k + 1] == rest[k]);
                    } else {
                        assert(calls[k] == rest[k]);
                    }
                }
            }
        },
    }
}

/// The `require` calls that are found are those that stand in a source: each is told as it stands, and
/// none is missed but what stands inside the parentheses of another.
pub proof fn every_require_is_found(bytes: Seq<u8>, p: int, expression: Seq<char>)
    ensures
        forall|k: int|
            0 <= k < requires_from(bytes, 0).len() ==> is_told(
                bytes,
                #[trigger] requires_from(bytes, 0)[k],
                false,
            ),
        0 <= p && is_call(bytes, p, false, expression) && !is_inside(bytes, p, false) ==> tells_call(
            requires_from(bytes, 0),
            p,
            expression,
        ),
{
    every_call_is_told(bytes, 0, false);
    assert(all_told(bytes, requires_from(bytes, 0), false));
}

/// The `shared` calls that are found are those that stand in a source: each is told as it stands, and none
/// is missed but what stands inside the parentheses of another.
pub proof fn every_shared_call_is_found(bytes: Seq<u8>, p: int, expression: Seq<char>)
    ensures
        forall|k: int|
            0 <= k < shared_from(bytes, 0).len() ==> is_told(
                bytes,
                #[trigger] shared_from(bytes, 0)[k],
                true,
            ),
        0 <= p && is_call(bytes, p, true, expression) && !is_inside(bytes, p, true) ==> tells_call(
            shared_from(bytes, 0),
            p,
            expression,
        ),
{
    every_call_is_told(bytes, 0, true);
    assert(all_told(bytes, shared_from(bytes, 0), true));
}

// ---------------------------------------------------------------------------
// Lines, literals and bindings

proof fn feeds_are_picked(bytes: Seq<u8>, n: int) -> (at: Seq<int>)
    requires
        0 <= n <= bytes.len(),
    ensures
        at.len() == line_feeds_before(bytes, n),
        rises(at),
        forall|k: int| 0 <= k < at.len() ==> 0 <= #[trigger] at[k] < n,
        forall|i: int| 0 <= i < n ==> (#[trigger] at.contains(i) <==> bytes[i] == 0x0a),
    decreases n,
{
    if n <= 0 {
        Seq::empty()
    } else {
        let before = feeds_are_picked(bytes, n - 1);
        if bytes[n - 1] == 0x0a {
            one_more_is_picked(before, n - 1);
            before.push(n - 1)
        } else {
            before
        }
    }
}

/// The line of a place is one more than the line feeds before it, as far as thirty-two bits go.
pub proof fn a_line_counts_the_feeds_before_it(bytes: Seq<u8>, offset: int) -> (at: Seq<int>)
    requires
        0 <= offset <= bytes.len(),
    ensures
        rises(at),
        forall|k: int| 0 <= k < at.len() ==> 0 <= #[trigger] at[k] < offset,
        forall|i: int| 0 <= i < offset ==> (#[trigger] at.contains(i) <==> bytes[i] == 0x0a),
        at.len() < u32::MAX ==> line_number(bytes, offset) == at.len() + 1,
{
    feeds_are_picked(bytes, offset)
}

proof fn plain_characters_are_kept(chars: Seq<char>, i: int, j: int, quote: char)
    requires
        0 <= i <= j <= chars.len(),
        forall|k: int| i <= k < j ==> #[trigger] chars[k] != quote && chars[k] != '\\',
    ensures
        literal_rest(chars, i, quote) == (match literal_rest(chars, j, quote) {
            Some(rest) => Some(chars.subrange(i, j) + rest),
            None => None::<Seq<char>>,
        }),
    decreases j - i,
{
    if i < j {
        assert(chars[i] != quote);
        plain_characters_are_kept(chars, i + 1, j, quote);
        if let Some(rest) = literal_rest(chars, j, quote) {
            assert(seq![chars[i]] + (chars.subrange(i + 1, j) + rest) =~= chars.subrange(i, j)
                + rest);
        }
    } else if let Some(rest) = literal_rest(chars, j, quote) {
        assert(chars.subrange(i, j) + rest =~= rest);
    }
}

/// Whether characters stand in a string as they are.
pub open spec fn are_plain(s: Seq<char>, quote: char) -> bool {
    forall|k: int| 0 <= k < s.len() ==> #[trigger] s[k] != quote && s[k] != '\\'
}

/// A string literal is what its quotes hold. White space may follow it, and nothing else.
pub proof fn a_literal_is_what_its_quotes_hold(
    quote: char,
    text: Seq<char>,
    tail: Seq<char>,
)
    requires
        quote == '"' || quote == '\'',
        are_plain(text, quote),
    ensures
        literal_value(seq![quote] + text + seq![quote] + tail) == if (forall|k: int|
            0 <= k < tail.len() ==> is_white_space(#[trigger] tail[k])) {
            Some(text)
        } else {
            None
        },
{
    let whole = seq![quote] + text + seq![quote] + tail;
    let end = 1 + text.len() as int;
    assert(whole[0] == quote && whole[end] == quote);
    assert forall|k: int| 1 <= k < end implies #[trigger] whole[k] != quote && whole[k] != '\\' by {
        assert(whole[k] == text[k - 1]);
    }
    plain_characters_are_kept(whole, 1, end, quote);
    assert(whole.subrange(1, end) + Seq::<char>::empty() =~= text);
    if forall|k: int| 0 <= k < tail.len() ==> is_white_space(#[trigger] tail[k]) {
        assert forall|k: int| end < k < whole.len() implies is_white_space(#[trigger] whole[k]) by {
            assert(whole[k] == tail[k - end - 1]);
        }
    } else {
        let k = choose|k: int| 0 <= k < tail.len() && !is_white_space(#[trigger] tail[k]);
        assert(whole[end + 1 + k] == tail[k]);
    }
}

/// A backslash in a literal stands for what the letter behind it names: a line feed, a tab, a carriage
/// return, and anything else for itself.
pub proof fn an_escape_stands_for_a_character(
    quote: char,
    before: Seq<char>,
    letter: char,
    after: Seq<char>,
)
    requires
        quote == '"' || quote == '\'',
        are_plain(before, quote),
        are_plain(after, quote),
    ensures
        ({
            let meant = match letter {
                'n' => '\n',
                't' => '\t',
                'r' => '\r',
                _ => letter,
            };
            literal_value(seq![quote] + before + seq!['\\', letter] + after + seq![quote]) == Some(
                before.push(meant) + after,
            )
        }),
{
    let meant = match letter {
        'n' => '\n',
        't' => '\t',
        'r' => '\r',
        _ => letter,
    };
    let whole = seq![quote] + before + seq!['\\', letter] + after + seq![quote];
    let slash = 1 + before.len() as int;
    let end = whole.len() - 1;
    assert(whole[0] == quote && whole[slash] == '\\' && whole[slash + 1] == letter && whole[end]
        == quote);
    assert forall|k: int| 1 <= k < slash implies #[trigger] whole[k] != quote && whole[k] != '\\' by {
        assert(whole[k] == before[k - 1]);
    }
    assert forall|k: int| slash + 2 <= k < end implies #[trigger] whole[k] != quote && whole[k]
        != '\\' by {
        assert(whole[k] == after[k - slash - 2]);
    }
    plain_characters_are_kept(whole, 1, slash, quote);
    plain_characters_are_kept(whole, slash + 2, end, quote);
    assert(whole.subrange(1, slash) =~= before);
    assert(whole.subrange(slash + 2, end) =~= after);
    assert(literal_rest(whole, end, quote) == Some(Seq::<char>::empty()));
    assert(after + Seq::<char>::empty() =~= after);
    assert(quote != '\\');
    assert(literal_rest(whole, slash, quote) == Some(seq![meant] + after));
    assert(before + (seq![meant] + after) =~= before.push(meant) + after);
}

/// A name is bound to what it was bound to last.
pub proof fn the_last_binding_counts(
    pairs: Seq<(Seq<char>, Seq<char>)>,
    name: Seq<char>,
    n: int,
)
    requires
        0 <= n <= pairs.len(),
    ensures
        match bound_to(pairs, name, n) {
            Some(value) => exists|i: int|
                {
                    &&& 0 <= i < n
                    &&& (#[trigger] pairs[i]).0 == name
                    &&& pairs[i].1 == value
                    &&& forall|j: int| i < j < n ==> (#[trigger] pairs[j]).0 != name
                },
            None => forall|j: int| 0 <= j < n ==> (#[trigger] pairs[j]).0 != name,
        },
    decreases n,
{
    if n > 0 && pairs[n - 1].0 != name {
        the_last_binding_counts(pairs, name, n - 1);
        if let Some(value) = bound_to(pairs, name, n - 1) {
            let i = choose|i: int|
                {
                    &&& 0 <= i < n - 1
                    &&& (#[trigger] pairs[i]).0 == name
                    &&& pairs[i].1 == value
                    &&& forall|j: int| i < j < n - 1 ==> (#[trigger] pairs[j]).0 != name
                };
            assert forall|j: int| i < j < n implies (#[trigger] pairs[j]).0 != name by {}
            assert(pairs[i].0 == name);
        }
    }
}

/// Each match that has a name and a value binds the one to the other, white space around the value apart,
/// in order.
pub proof fn every_match_binds_its_name(matches: Seq<Seq<Option<Seq<char>>>>, n: int) -> (at: Seq<
    int,
>)
    requires
        0 <= n <= matches.len(),
    ensures
        at.len() == bindings_in(matches, n).len(),
        rises(at),
        forall|k: int| 0 <= k < at.len() ==> 0 <= #[trigger] at[k] < n,
        forall|k: int|
            0 <= k < at.len() ==> {
                let groups = matches[#[trigger] at[k]];
                &&& groups[1] == Some(bindings_in(matches, n)[k].0)
                &&& groups[2] matches Some(value) && bindings_in(matches, n)[k].1 == trimmed(value)
            },
        forall|i: int|
            0 <= i < n ==> (#[trigger] at.contains(i) <==> matches[i].len() > 2 && matches[i][1]
                is Some && matches[i][2] is Some),
    decreases n,
{
    if n <= 0 {
        Seq::empty()
    } else {
        let before = every_match_binds_its_name(matches, n - 1);
        let groups = matches[n - 1];
        if groups.len() > 2 && groups[1] is Some && groups[2] is Some {
            one_more_is_picked(before, n - 1);
            let now = before.push(n - 1);
            assert forall|k: int| 0 <= k < now.len() implies {
                let groups = matches[#[trigger] now[k]];
                &&& groups[1] == Some(bindings_in(matches, n)[k].0)
                &&& groups[2] matches Some(value) && bindings_in(matches, n)[k].1 == trimmed(value)
            } by {
                if k < before.len() {
                    assert(now[k] == before[k]);
                    assert(bindings_in(matches, n)[k] == bindings_in(matches, n - 1)[k]);
                }
            }
            now
        } else {
            before
        }
    }
}

} // verus!
