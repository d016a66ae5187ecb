//! Finding the requires of a source whose comments are blanked.
use vstd::prelude::*;
use vstd::utf8::*;
use crate::lines::{line_feeds_before, LineIndex};
use crate::text::{
    ascii_byte_is_a_character, find_byte, find_from, find_from_is_first, is_white_space, occurs_at,
    owned, position_from, same_text, slice_bytes, to_chars, trim, trimmed, white_space,
};

verus! {

/// The global treated as a string require.
pub const GLOBAL_NAME: &'static str = "shared";

/// What kind of require a call is. A `shared` call carries the name it was given, where that is a
/// lone string literal.
#[derive(Debug)]
pub enum CallKind {
    Require,
    Shared(Option<String>),
}

/// A call that requires a module.
#[derive(Debug)]
pub struct RequireCall {
    pub line: u32,
    pub offset: usize,
    pub expression: String,
    pub kind: CallKind,
}

pub enum KindModel {
    Require,
    Shared(Option<Seq<char>>),
}

pub struct CallModel {
    pub line: u32,
    pub offset: int,
    pub expression: Seq<char>,
    pub kind: KindModel,
}

impl DeepView for CallKind {
    type V = KindModel;

    open spec fn deep_view(&self) -> KindModel {
        match self {
            CallKind::Require => KindModel::Require,
            CallKind::Shared(name) => KindModel::Shared(name.deep_view()),
        }
    }
}

impl DeepView for RequireCall {
    type V = CallModel;

    open spec fn deep_view(&self) -> CallModel {
        CallModel {
            line: self.line,
            offset: self.offset as int,
            expression: self.expression@,
            kind: self.kind.deep_view(),
        }
    }
}

// ---------------------------------------------------------------------------
// Words and arguments

/// Whether a byte may stand in a word.
pub open spec fn is_word(b: u8) -> bool {
    0x30 <= b <= 0x39 || 0x41 <= b <= 0x5a || 0x61 <= b <= 0x7a || b == 0x5f
}

fn is_word_byte(b: u8) -> (r: bool)
    ensures
        r == is_word(b),
{
    (0x30 <= b && b <= 0x39) || (0x41 <= b && b <= 0x5a) || (0x61 <= b && b <= 0x7a) || b == 0x5f
}

/// Where the spaces and tabs that start at `i` end.
pub open spec fn gap_end(bytes: Seq<u8>, i: int) -> int
    decreases bytes.len() - i,
{
    if 0 <= i < bytes.len() && (bytes[i] == 0x20 || bytes[i] == 0x09) {
        gap_end(bytes, i + 1)
    } else {
        i
    }
}

fn skip_gap(bytes: &[u8], from: usize) -> (r: usize)
    requires
        from <= bytes@.len(),
    ensures
        r == gap_end(bytes@, from as int),
        from <= r <= bytes@.len(),
{
    let mut i: usize = from;
    while i < bytes.len() && (bytes[i] == 0x20 || bytes[i] == 0x09)
        invariant
            from <= i <= bytes@.len(),
            gap_end(bytes@, from as int) == gap_end(bytes@, i as int),
        decreases bytes@.len() - i,
    {
        i = i + 1;
    }
    i
}

/// Where the quote that ends a string stands, or past the end where none does. A backslash takes
/// the byte after it along.
pub open spec fn quote_close(bytes: Seq<u8>, i: int, quote: u8) -> int
    decreases bytes.len() + 1 - i,
{
    if i < 0 || i >= bytes.len() || bytes[i] == quote {
        i
    } else if bytes[i] == 0x5c {
        quote_close(bytes, i + 2, quote)
    } else {
        quote_close(bytes, i + 1, quote)
    }
}

pub proof fn quote_close_moves(bytes: Seq<u8>, i: int, quote: u8)
    requires
        0 <= i <= bytes.len() + 1,
    ensures
        i <= quote_close(bytes, i, quote) <= bytes.len() + 1,
    decreases bytes.len() + 1 - i,
{
    if i < bytes.len() && bytes[i] != quote {
        if bytes[i] == 0x5c {
            quote_close_moves(bytes, i + 2, quote);
        } else {
            quote_close_moves(bytes, i + 1, quote);
        }
    }
}

/// The parenthesis that closes the last of `depth` open ones, from `i` on, strings passed over.
pub open spec fn balanced_close(bytes: Seq<u8>, i: int, depth: int) -> Option<int>
    decreases bytes.len() + 2 - i,
{
    if i < 0 || i >= bytes.len() {
        None
    } else if bytes[i] == 0x28 {
        balanced_close(bytes, i + 1, depth + 1)
    } else if bytes[i] == 0x29 {
        if depth == 1 {
            Some(i)
        } else {
            balanced_close(bytes, i + 1, depth - 1)
        }
    } else if bytes[i] == 0x22 || bytes[i] == 0x27 {
        proof {
            quote_close_moves(bytes, i + 1, bytes[i]);
        }
        balanced_close(bytes, quote_close(bytes, i + 1, bytes[i]) + 1, depth)
    } else {
        balanced_close(bytes, i + 1, depth)
    }
}

/// The parenthesis that closes the one at `open`.
fn balanced(bytes: &[u8], open: usize) -> (r: Option<usize>)
    requires
        open < bytes@.len(),
        bytes@[open as int] == 0x28,
    ensures
        match r {
            Some(close) => balanced_close(bytes@, open as int, 0) == Some(close as int) && open
                < close < bytes@.len() && bytes@[close as int] == 0x29,
            None => balanced_close(bytes@, open as int, 0) is None,
        },
{
    let end: usize = bytes.len();
    let mut depth: usize = 0;
    let mut index: usize = open;
    while index < end
        invariant
            end == bytes@.len(),
            open <= index <= end,
            open < end,
            bytes@[open as int] == 0x28,
            depth <= index - open,
            depth == 0 ==> index == open,
            balanced_close(bytes@, open as int, 0) == balanced_close(
                bytes@,
                index as int,
                depth as int,
            ),
        decreases end - index,
    {
        let b: u8 = bytes[index];
        if b == 0x28 {
            depth = depth + 1;
        } else if b == 0x29 {
            depth = depth - 1;
            if depth == 0 {
                return Some(index);
            }
        } else if b == 0x22 || b == 0x27 {
            index = index + 1;
            let ghost contents = index as int;
            while index < end && bytes[index] != b
                invariant
                    end == bytes@.len(),
                    open < contents <= index <= end,
                    quote_close(bytes@, contents, b) == quote_close(bytes@, index as int, b),
                    balanced_close(bytes@, open as int, 0) == balanced_close(
                        bytes@,
                        quote_close(bytes@, contents, b) + 1,
                        depth as int,
                    ),
                decreases end - index,
            {
                if bytes[index] == 0x5c {
                    if end - index < 2 {
                        proof {
                            quote_close_moves(bytes@, index + 2, b);
                        }
                        return None;
                    }
                    index = index + 2;
                } else {
                    index = index + 1;
                }
            }
            if index >= end {
                return None;
            }
        }
        index = index + 1;
    }
    None
}

/// The argument of a call that stands at `cursor`, and where the search goes on after it where
/// that is not right after the word: what parentheses hold, without white space at either end, or
/// a string with its quotes.
pub open spec fn argument_at(bytes: Seq<u8>, cursor: int) -> Option<(Seq<char>, Option<int>)> {
    if cursor >= bytes.len() {
        None
    } else if bytes[cursor] == 0x28 {
        match balanced_close(bytes, cursor, 0) {
            Some(close) => Some(
                (trimmed(decode_utf8(bytes.subrange(cursor + 1, close))), Some(close + 1)),
            ),
            None => None,
        }
    } else if bytes[cursor] == 0x22 || bytes[cursor] == 0x27 {
        match position_from(bytes, bytes[cursor], cursor + 1) {
            Some(end) => Some((decode_utf8(bytes.subrange(cursor, end + 1)), None)),
            None => None,
        }
    } else {
        None
    }
}

fn argument(blanked: &str, cursor: usize) -> (r: Option<(String, Option<usize>)>)
    requires
        cursor <= encode_utf8(blanked@).len(),
    ensures
        match r {
            Some((text, Some(next))) => argument_at(encode_utf8(blanked@), cursor as int) == Some(
                (text@, Some(next as int)),
            ) && cursor < next <= encode_utf8(blanked@).len(),
            Some((text, None)) => argument_at(encode_utf8(blanked@), cursor as int) == Some(
                (text@, None::<int>),
            ),
            None => argument_at(encode_utf8(blanked@), cursor as int) is None,
        },
{
    let bytes = blanked.as_bytes();
    proof {
        encode_utf8_valid_utf8(blanked@);
    }
    if cursor >= bytes.len() {
        return None;
    }
    let b: u8 = bytes[cursor];
    if b == 0x28 {
        match balanced(bytes, cursor) {
            Some(close) => {
                proof {
                    ascii_byte_is_a_character(bytes@, cursor as int);
                    ascii_byte_is_a_character(bytes@, close as int);
                }
                let inner = slice_bytes(blanked, cursor + 1, close);
                Some((owned(trim(inner)), Some(close + 1)))
            },
            None => None,
        }
    } else if b == 0x22 || b == 0x27 {
        match find_byte(bytes, b, cursor + 1) {
            Some(end) => {
                proof {
                    ascii_byte_is_a_character(bytes@, cursor as int);
                    ascii_byte_is_a_character(bytes@, end as int);
                }
                Some((owned(slice_bytes(blanked, cursor, end + 1)), None))
            },
            None => None,
        }
    } else {
        None
    }
}

// ---------------------------------------------------------------------------
// String literals

/// What an escape in a string stands for.
pub open spec fn escape_of(c: char) -> char {
    if c == 'n' {
        '\n'
    } else if c == 't' {
        '\t'
    } else if c == 'r' {
        '\r'
    } else {
        c
    }
}

/// The rest of a string literal from `i` on. Nothing but white space may follow its quote.
pub open spec fn literal_rest(chars: Seq<char>, i: int, quote: char) -> Option<Seq<char>>
    decreases chars.len() - i,
{
    if i < 0 || i >= chars.len() {
        None
    } else if chars[i] == quote {
        if forall|k: int| i < k < chars.len() ==> is_white_space(#[trigger] chars[k]) {
            Some(Seq::empty())
        } else {
            None
        }
    } else if chars[i] == '\\' {
        if i + 1 < chars.len() {
            match literal_rest(chars, i + 2, quote) {
                Some(rest) => Some(seq![escape_of(chars[i + 1])] + rest),
                None => None,
            }
        } else {
            None
        }
    } else {
        match literal_rest(chars, i + 1, quote) {
            Some(rest) => Some(seq![chars[i]] + rest),
            None => None,
        }
    }
}

/// The text of an expression that is one string literal and nothing else.
pub open spec fn literal_value(chars: Seq<char>) -> Option<Seq<char>> {
    if chars.len() > 0 && (chars[0] == '"' || chars[0] == '\'') {
        literal_rest(chars, 1, chars[0])
    } else {
        None
    }
}

/// Reads an expression that is one string literal and nothing else.
pub fn string_literal(expression: &str) -> (r: Option<String>)
    ensures
        r.deep_view() == literal_value(expression@),
{
    let chars = to_chars(expression);
    let end: usize = chars.len();
    if end == 0 {
        return None;
    }
    let quote = chars[0];
    if quote != '"' && quote != '\'' {
        return None;
    }
    let mut value = String::new();
    let mut index: usize = 1;
    let ghost whole = literal_rest(chars@, 1, quote);
    proof {
        if let Some(rest) = whole {
            assert(value@ + rest =~= rest);
        }
    }
    while index < end
        invariant
            end == chars@.len(),
            1 <= index <= end,
            whole == (match literal_rest(chars@, index as int, quote) {
                Some(rest) => Some(value@ + rest),
                None => None,
            }),
            whole == literal_value(expression@),
        decreases end - index,
    {
        let ghost before = value@;
        let c = chars[index];
        if c == quote {
            let mut k: usize = index + 1;
            while k < end
                invariant
                    end == chars@.len(),
                    index < k <= end,
                    forall|j: int| index < j < k ==> is_white_space(#[trigger] chars@[j]),
                    index < end,
                    chars@[index as int] == quote,
                    whole == (match literal_rest(chars@, index as int, quote) {
                        Some(rest) => Some(value@ + rest),
                        None => None,
                    }),
                    whole == literal_value(expression@),
                decreases end - k,
            {
                if !white_space(chars[k]) {
                    return None;
                }
                k = k + 1;
            }
            assert(value@ + Seq::<char>::empty() =~= value@);
            return Some(value);
        } else if c == '\\' {
            if end - index < 2 {
                return None;
            }
            let escaped = chars[index + 1];
            value.push(
                if escaped == 'n' {
                    '\n'
                } else if escaped == 't' {
                    '\t'
                } else if escaped == 'r' {
                    '\r'
                } else {
                    escaped
                },
            );
            proof {
                if let Some(rest) = literal_rest(chars@, index + 2, quote) {
                    assert(before + (seq![escape_of(escaped)] + rest) =~= value@ + rest);
                }
            }
            index = index + 2;
        } else {
            value.push(c);
            proof {
                if let Some(rest) = literal_rest(chars@, index + 1, quote) {
                    assert(before + (seq![c] + rest) =~= value@ + rest);
                }
            }
            index = index + 1;
        }
    }
    None
}

// ---------------------------------------------------------------------------
// Calls

/// The line an offset stands on, counted from one, as far as thirty-two bits go.
pub open spec fn line_number(bytes: Seq<u8>, offset: int) -> u32 {
    ((line_feeds_before(bytes, offset) % 0x1_0000_0000 + 1) % 0x1_0000_0000) as u32
}

fn line_number_of(lines: &LineIndex, offset: usize) -> (line: u32)
    requires
        offset <= lines.bytes().len(),
    ensures
        line == line_number(lines.bytes(), offset as int),
{
    let before: u64 = lines.line_of(offset) as u64;
    ((before % 0x1_0000_0000 + 1) % 0x1_0000_0000) as u32
}

/// The word `require`.
pub open spec fn require_word() -> Seq<u8> {
    seq![0x72u8, 0x65u8, 0x71u8, 0x75u8, 0x69u8, 0x72u8, 0x65u8]
}

/// The word `shared`.
pub open spec fn shared_word() -> Seq<u8> {
    seq![0x73u8, 0x68u8, 0x61u8, 0x72u8, 0x65u8, 0x64u8]
}

/// A call whose argument stands at `cursor`, and where the search goes on.
pub open spec fn call_with_argument(
    bytes: Seq<u8>,
    start: int,
    word_end: int,
    cursor: int,
    shared: bool,
) -> (Option<CallModel>, int) {
    match argument_at(bytes, cursor) {
        None => (None, word_end),
        Some((expression, next)) => (
            if expression.len() == 0 {
                None
            } else {
                Some(
                    CallModel {
                        line: line_number(bytes, start),
                        offset: start,
                        expression,
                        kind: if shared {
                            KindModel::Shared(literal_value(expression))
                        } else {
                            KindModel::Require
                        },
                    },
                )
            },
            match next {
                Some(after) => after,
                None => word_end,
            },
        ),
    }
}

/// The call that the word `require` at `start` makes, and where the search goes on. The word must
/// not be the end of a longer one.
pub open spec fn require_at(bytes: Seq<u8>, start: int) -> (Option<CallModel>, int) {
    let word_end = start + 7;
    if start > 0 && is_word(bytes[start - 1]) {
        (None, word_end)
    } else {
        call_with_argument(bytes, start, word_end, gap_end(bytes, word_end), false)
    }
}

/// The call that the word `shared` at `start` makes, and where the search goes on. The word must
/// be a whole word, and not a field or a method of something else.
pub open spec fn shared_at(bytes: Seq<u8>, start: int) -> (Option<CallModel>, int) {
    let word_end = start + 6;
    if start > 0 && (is_word(bytes[start - 1]) || bytes[start - 1] == 0x2e || bytes[start - 1]
        == 0x3a) {
        (None, word_end)
    } else if word_end < bytes.len() && is_word(bytes[word_end]) {
        (None, word_end)
    } else {
        call_with_argument(bytes, start, word_end, gap_end(bytes, word_end), true)
    }
}

/// The one call in a list, where there is one.
pub open spec fn just_call(call: Option<CallModel>) -> Seq<CallModel> {
    match call {
        Some(found) => seq![found],
        None => Seq::empty(),
    }
}

pub proof fn gap_end_moves(bytes: Seq<u8>, i: int)
    requires
        0 <= i <= bytes.len(),
    ensures
        i <= gap_end(bytes, i) <= bytes.len(),
    decreases bytes.len() - i,
{
    if i < bytes.len() && (bytes[i] == 0x20 || bytes[i] == 0x09) {
        gap_end_moves(bytes, i + 1);
    }
}

proof fn balanced_close_moves(bytes: Seq<u8>, i: int, depth: int)
    requires
        0 <= i,
    ensures
        balanced_close(bytes, i, depth) matches Some(close) ==> i <= close < bytes.len(),
    decreases bytes.len() + 2 - i,
{
    if i < bytes.len() {
        if bytes[i] == 0x28 {
            balanced_close_moves(bytes, i + 1, depth + 1);
        } else if bytes[i] == 0x29 {
            if depth != 1 {
                balanced_close_moves(bytes, i + 1, depth - 1);
            }
        } else if bytes[i] == 0x22 || bytes[i] == 0x27 {
            quote_close_moves(bytes, i + 1, bytes[i]);
            balanced_close_moves(bytes, quote_close(bytes, i + 1, bytes[i]) + 1, depth);
        } else {
            balanced_close_moves(bytes, i + 1, depth);
        }
    }
}

pub proof fn scan_moves(bytes: Seq<u8>, start: int)
    ensures
        0 <= start && start + 7 <= bytes.len() ==> start + 7 <= require_at(bytes, start).1 <= bytes.len(),
        0 <= start && start + 6 <= bytes.len() ==> start + 6 <= shared_at(bytes, start).1 <= bytes.len(),
{
    if 0 <= start && start + 7 <= bytes.len() {
        gap_end_moves(bytes, start + 7);
        balanced_close_moves(bytes, gap_end(bytes, start + 7), 0);
    }
    if 0 <= start && start + 6 <= bytes.len() {
        gap_end_moves(bytes, start + 6);
        balanced_close_moves(bytes, gap_end(bytes, start + 6), 0);
    }
}

/// The `require` calls of a source from `from` on.
pub open spec fn requires_from(bytes: Seq<u8>, from: int) -> Seq<CallModel>
    decreases bytes.len() - from,
{
    if from < 0 {
        Seq::empty()
    } else {
        proof {
            find_from_is_first(bytes, require_word(), from);
            scan_moves(bytes, find_from(bytes, require_word(), from)->0);
        }
        match find_from(bytes, require_word(), from) {
            None => Seq::empty(),
            Some(start) => {
                let (call, next) = require_at(bytes, start);
                just_call(call) + requires_from(bytes, next)
            },
        }
    }
}

/// The `shared` calls of a source from `from` on.
pub open spec fn shared_from(bytes: Seq<u8>, from: int) -> Seq<CallModel>
    decreases bytes.len() - from,
{
    if from < 0 {
        Seq::empty()
    } else {
        proof {
            find_from_is_first(bytes, shared_word(), from);
            scan_moves(bytes, find_from(bytes, shared_word(), from)->0);
        }
        match find_from(bytes, shared_word(), from) {
            None => Seq::empty(),
            Some(start) => {
                let (call, next) = shared_at(bytes, start);
                just_call(call) + shared_from(bytes, next)
            },
        }
    }
}

/// `memchr::memmem::Finder::new(needle).find(hay)`: the first place where the needle stands in the
/// bytes, if it does at all.
#[verifier::external_body]
fn find_first(hay: &[u8], needle: &[u8]) -> (r: Option<usize>)
    ensures
        match r {
            Some(i) => find_from(hay@, needle@, 0) == Some(i as int),
            None => find_from(hay@, needle@, 0) is None,
        },
{
    memchr::memmem::Finder::new(needle).find(hay)
}

proof fn find_from_skip(hay: Seq<u8>, needle: Seq<u8>, cut: int, from: int)
    requires
        0 <= cut <= hay.len(),
        0 <= from,
    ensures
        find_from(hay.subrange(cut, hay.len() as int), needle, from) == (match find_from(
            hay,
            needle,
            cut + from,
        ) {
            Some(i) => Some(i - cut),
            None => None,
        }),
    decreases hay.len() + 1 - cut - from,
{
    let rest = hay.subrange(cut, hay.len() as int);
    if cut + from + needle.len() <= hay.len() {
        assert(rest.subrange(from, from + needle.len()) =~= hay.subrange(
            cut + from,
            cut + from + needle.len(),
        ));
        if !occurs_at(hay, needle, cut + from) {
            find_from_skip(hay, needle, cut, from + 1);
        }
    }
}

fn find_after(bytes: &[u8], needle: &[u8], from: usize) -> (r: Option<usize>)
    requires
        from <= bytes@.len(),
    ensures
        match r {
            Some(i) => find_from(bytes@, needle@, from as int) == Some(i as int) && from <= i && i
                + needle@.len() <= bytes@.len(),
            None => find_from(bytes@, needle@, from as int) is None,
        },
{
    let rest = vstd::slice::slice_subrange(bytes, from, bytes.len());
    proof {
        find_from_skip(bytes@, needle@, from as int, 0);
        find_from_is_first(bytes@, needle@, from as int);
    }
    match find_first(rest, needle) {
        Some(i) => Some(from + i),
        None => None,
    }
}

/// Finds the `require` calls of a blanked source.
pub fn find_requires(blanked: &str, lines: &LineIndex) -> (r: Vec<RequireCall>)
    requires
        lines.bytes() == encode_utf8(blanked@),
    ensures
        r.deep_view() == requires_from(encode_utf8(blanked@), 0),
{
    let bytes = blanked.as_bytes();
    let word: [u8; 7] = [0x72, 0x65, 0x71, 0x75, 0x69, 0x72, 0x65];
    assert(word@ =~= require_word());
    let mut found: Vec<RequireCall> = Vec::new();
    let mut from: usize = 0;
    let ghost whole = requires_from(bytes@, 0);
    assert(found.deep_view() + whole =~= whole);
    loop
        invariant
            bytes@ == encode_utf8(blanked@),
            lines.bytes() == bytes@,
            word@ == require_word(),
            from <= bytes@.len(),
            whole == requires_from(bytes@, 0),
            whole == found.deep_view() + requires_from(bytes@, from as int),
        decreases bytes@.len() - from,
    {
        let ghost before = found.deep_view();
        let end: usize = bytes.len();
        match find_after(bytes, word.as_slice(), from) {
            None => {
                assert(before + Seq::<CallModel>::empty() =~= before);
                return found;
            },
            Some(start) => {
                let ghost step = require_at(bytes@, start as int);
                let ghost rest = requires_from(bytes@, step.1);
                proof {
                    scan_moves(bytes@, start as int);
                    assert(whole == before + (just_call(step.0) + rest));
                    assert(before + (Seq::<CallModel>::empty() + rest) =~= before + rest);
                }
                from = start + 7;
                if start == 0 || !is_word_byte(bytes[start - 1]) {
                    let cursor = skip_gap(bytes, start + 7);
                    match argument(blanked, cursor) {
                        None => {},
                        Some((expression, next)) => {
                            match next {
                                Some(after) => {
                                    from = after;
                                },
                                None => {},
                            }
                            let ghost said = expression@;
                            if !expression.as_str().is_empty() {
                                found.push(
                                    RequireCall {
                                        line: line_number_of(lines, start),
                                        offset: start,
                                        expression,
                                        kind: CallKind::Require,
                                    },
                                );
                                proof {
                                    assert(found.deep_view() =~= before.push(step.0->0));
                                    assert(before + (seq![step.0->0] + rest) =~= found.deep_view()
                                        + rest);
                                }
                            }
                        },
                    }
                }
                assert(from == step.1);
                assert(whole == found.deep_view() + rest);
            },
        }
    }
}

/// Finds the `shared` calls of a blanked source.
pub fn find_shared_requires(blanked: &str, lines: &LineIndex) -> (r: Vec<RequireCall>)
    requires
        lines.bytes() == encode_utf8(blanked@),
    ensures
        r.deep_view() == shared_from(encode_utf8(blanked@), 0),
{
    let bytes = blanked.as_bytes();
    let word: [u8; 6] = [0x73, 0x68, 0x61, 0x72, 0x65, 0x64];
    assert(word@ =~= shared_word());
    let mut found: Vec<RequireCall> = Vec::new();
    let mut from: usize = 0;
    let ghost whole = shared_from(bytes@, 0);
    assert(found.deep_view() + whole =~= whole);
    loop
        invariant
            bytes@ == encode_utf8(blanked@),
            lines.bytes() == bytes@,
            word@ == shared_word(),
            from <= bytes@.len(),
            whole == shared_from(bytes@, 0),
            whole == found.deep_view() + shared_from(bytes@, from as int),
        decreases bytes@.len() - from,
    {
        let ghost before = found.deep_view();
        let end: usize = bytes.len();
        match find_after(bytes, word.as_slice(), from) {
            None => {
                assert(before + Seq::<CallModel>::empty() =~= before);
                return found;
            },
            Some(start) => {
                let ghost step = shared_at(bytes@, start as int);
                let ghost rest = shared_from(bytes@, step.1);
                proof {
                    scan_moves(bytes@, start as int);
                    assert(whole == before + (just_call(step.0) + rest));
                    assert(before + (Seq::<CallModel>::empty() + rest) =~= before + rest);
                }
                from = start + 6;
                let word_end: usize = start + 6;
                let leads = start == 0 || !(is_word_byte(bytes[start - 1]) || bytes[start - 1]
                    == 0x2e || bytes[start - 1] == 0x3a);
                if leads && !(word_end < end && is_word_byte(bytes[word_end])) {
                    let cursor = skip_gap(bytes, word_end);
                    match argument(blanked, cursor) {
                        None => {},
                        Some((expression, next)) => {
                            match next {
                                Some(after) => {
                                    from = after;
                                },
                                None => {},
                            }
                            if !expression.as_str().is_empty() {
                                let name = string_literal(expression.as_str());
                                found.push(
                                    RequireCall {
                                        line: line_number_of(lines, start),
                                        offset: start,
                                        expression,
                                        kind: CallKind::Shared(name),
                                    },
                                );
                                proof {
                                    assert(found.deep_view() =~= before.push(step.0->0));
                                    assert(before + (seq![step.0->0] + rest) =~= found.deep_view()
                                        + rest);
                                }
                            }
                        },
                    }
                }
                assert(from == step.1);
                assert(whole == found.deep_view() + rest);
            },
        }
    }
}

/// Two lists of calls, each ordered by offset, made one ordered by offset; of two calls at one
/// offset the one from the first list comes first.
pub open spec fn merged(left: Seq<CallModel>, right: Seq<CallModel>) -> Seq<CallModel>
    decreases left.len() + right.len(),
{
    if left.len() == 0 {
        right
    } else if right.len() == 0 {
        left
    } else if right[0].offset < left[0].offset {
        seq![right[0]] + merged(left, right.skip(1))
    } else {
        seq![left[0]] + merged(left.skip(1), right)
    }
}

/// The calls of a source in the order they were written.
pub open spec fn calls_of(bytes: Seq<u8>, with_shared: bool) -> Seq<CallModel> {
    if with_shared {
        merged(requires_from(bytes, 0), shared_from(bytes, 0))
    } else {
        requires_from(bytes, 0)
    }
}

fn merge_calls(left: Vec<RequireCall>, right: Vec<RequireCall>) -> (r: Vec<RequireCall>)
    ensures
        r.deep_view() == merged(left.deep_view(), right.deep_view()),
{
    let ghost all_left = left.deep_view();
    let ghost all_right = right.deep_view();
    let ghost whole = merged(all_left, all_right);
    let mut left = left;
    let mut right = right;
    // Both lists are taken from the front, so they are turned round to be popped.
    let left_count: usize = left.len();
    let right_count: usize = right.len();
    let mut left_rest: Vec<RequireCall> = Vec::new();
    let mut right_rest: Vec<RequireCall> = Vec::new();
    let ghost left_items = left@;
    let ghost right_items = right@;
    while left.len() > 0
        invariant
            left@.len() + left_rest@.len() == left_items.len(),
            left@ == left_items.take(left@.len() as int),
            forall|k: int|
                0 <= k < left_rest@.len() ==> #[trigger] left_rest@[k] == left_items[left_items.len()
                    - 1 - k],
        decreases left@.len(),
    {
        match left.pop() {
            Some(call) => {
                left_rest.push(call);
            },
            None => {},
        }
        assert(left@ =~= left_items.take(left@.len() as int));
    }
    while right.len() > 0
        invariant
            right@.len() + right_rest@.len() == right_items.len(),
            right@ == right_items.take(right@.len() as int),
            forall|k: int|
                0 <= k < right_rest@.len() ==> #[trigger] right_rest@[k]
                    == right_items[right_items.len() - 1 - k],
        decreases right@.len(),
    {
        match right.pop() {
            Some(call) => {
                right_rest.push(call);
            },
            None => {},
        }
        assert(right@ =~= right_items.take(right@.len() as int));
    }
    let mut out: Vec<RequireCall> = Vec::new();
    let ghost mut l: int = 0;
    let ghost mut r: int = 0;
    proof {
        assert(all_left.skip(0) =~= all_left);
        assert(all_right.skip(0) =~= all_right);
        assert(out.deep_view() + whole =~= whole);
    }
    while left_rest.len() > 0 || right_rest.len() > 0
        invariant
            0 <= l <= all_left.len(),
            0 <= r <= all_right.len(),
            left_rest@.len() == all_left.len() - l,
            right_rest@.len() == all_right.len() - r,
            left_items.len() == all_left.len(),
            right_items.len() == all_right.len(),
            forall|k: int| 0 <= k < all_left.len() ==> #[trigger] all_left[k] == left_items[k].deep_view(),
            forall|k: int|
                0 <= k < all_right.len() ==> #[trigger] all_right[k] == right_items[k].deep_view(),
            forall|k: int|
                0 <= k < left_rest@.len() ==> #[trigger] left_rest@[k] == left_items[left_items.len()
                    - 1 - k],
            forall|k: int|
                0 <= k < right_rest@.len() ==> #[trigger] right_rest@[k]
                    == right_items[right_items.len() - 1 - k],
            whole == out.deep_view() + merged(all_left.skip(l), all_right.skip(r)),
        decreases left_rest@.len() + right_rest@.len(),
    {
        let ghost before = out.deep_view();
        let ghost here_left = all_left.skip(l);
        let ghost here_right = all_right.skip(r);
        let take_right: bool = if left_rest.len() == 0 {
            true
        } else if right_rest.len() == 0 {
            false
        } else {
            right_rest[right_rest.len() - 1].offset < left_rest[left_rest.len() - 1].offset
        };
        proof {
            if left_rest@.len() > 0 {
                assert(left_rest@[left_rest@.len() - 1] == left_items[l]);
                assert(here_left[0] == all_left[l]);
            }
            if right_rest@.len() > 0 {
                assert(right_rest@[right_rest@.len() - 1] == right_items[r]);
                assert(here_right[0] == all_right[r]);
            }
        }
        if take_right {
            match right_rest.pop() {
                Some(call) => {
                    out.push(call);
                    proof {
                        assert(call.deep_view() == all_right[r]);
                        assert(out.deep_view() =~= before.push(all_right[r]));
                        let rest = merged(here_left, all_right.skip(r + 1));
                        assert(here_right.skip(1) =~= all_right.skip(r + 1));
                        assert(here_left.len() == 0 ==> here_right =~= seq![all_right[r]] + rest);
                        assert(merged(here_left, here_right) == seq![all_right[r]] + rest);
                        assert(before + (seq![all_right[r]] + rest) =~= out.deep_view() + rest);
                        r = r + 1;
                    }
                },
                None => {},
            }
        } else {
            match left_rest.pop() {
                Some(call) => {
                    out.push(call);
                    proof {
                        assert(call.deep_view() == all_left[l]);
                        assert(out.deep_view() =~= before.push(all_left[l]));
                        let rest = merged(all_left.skip(l + 1), here_right);
                        assert(here_left.skip(1) =~= all_left.skip(l + 1));
                        assert(here_right.len() == 0 ==> here_left =~= seq![all_left[l]] + rest);
                        assert(merged(here_left, here_right) == seq![all_left[l]] + rest);
                        assert(before + (seq![all_left[l]] + rest) =~= out.deep_view() + rest);
                        l = l + 1;
                    }
                },
                None => {},
            }
        }
    }
    proof {
        assert(all_left.skip(l) =~= Seq::empty());
        assert(all_right.skip(r) =~= Seq::empty());
        assert(out.deep_view() + Seq::<CallModel>::empty() =~= out.deep_view());
    }
    out
}

/// Finds the calls of a blanked source in the order they were written.
pub fn find_calls(blanked: &str, lines: &LineIndex, include_shared: bool) -> (r: Vec<RequireCall>)
    requires
        lines.bytes() == encode_utf8(blanked@),
    ensures
        r.deep_view() == calls_of(encode_utf8(blanked@), include_shared),
{
    let found = find_requires(blanked, lines);
    if include_shared {
        merge_calls(found, find_shared_requires(blanked, lines))
    } else {
        found
    }
}

// ---------------------------------------------------------------------------
// Local bindings

/// What each group of each match holds, where the pattern is a pattern at all.
pub uninterp spec fn regex_captures(pattern: Seq<char>, text: Seq<char>) -> Option<
    Seq<Seq<Option<Seq<char>>>>,
>;

/// `regex::Regex::new` and `Regex::captures_iter`: every match of the pattern in the text, each as
/// the texts of its groups, or nothing where the pattern does not parse. Which matches there are
/// is left to the crate; what is claimed is that the pattern and the text decide it.
#[verifier::external_body]
fn captures(pattern: &str, text: &str) -> (r: Option<Vec<Vec<Option<String>>>>)
    ensures
        r.deep_view() == regex_captures(pattern@, text@),
{
    let regex = regex::Regex::new(pattern).ok()?;
    let groups = |c: regex::Captures<'_>| {
        c.iter().map(|group| group.map(|found| found.as_str().to_string())).collect()
    };
    Some(regex.captures_iter(text).map(groups).collect())
}

/// A local binding written at the start of a line: its name and the expression bound to it.
pub const LOCAL_PATTERN: &'static str =
    "(?m)^[ \\t]*local[ \\t]+([A-Za-z_][A-Za-z0-9_]*)[ \\t]*=[ \\t]*([^\\r\\n]+)";

/// The names a file binds, in the order they are bound.
#[derive(Debug)]
pub struct Bindings {
    pairs: Vec<(String, String)>,
}

impl View for Bindings {
    type V = Seq<(Seq<char>, Seq<char>)>;

    closed spec fn view(&self) -> Seq<(Seq<char>, Seq<char>)> {
        self.pairs.deep_view()
    }
}

/// The binding a match makes: its first group bound to its second, white space dropped.
pub open spec fn binding_in(groups: Seq<Option<Seq<char>>>) -> Option<(Seq<char>, Seq<char>)> {
    if groups.len() > 2 && groups[1] is Some && groups[2] is Some {
        Some((groups[1]->0, trimmed(groups[2]->0)))
    } else {
        None
    }
}

/// The bindings of the first `n` matches.
pub open spec fn bindings_in(matches: Seq<Seq<Option<Seq<char>>>>, n: int) -> Seq<
    (Seq<char>, Seq<char>),
>
    decreases n,
{
    if n <= 0 {
        Seq::empty()
    } else {
        match binding_in(matches[n - 1]) {
            Some(pair) => bindings_in(matches, n - 1).push(pair),
            None => bindings_in(matches, n - 1),
        }
    }
}

/// What a name is bound to: the last binding of it among the first `n`.
pub open spec fn bound_to(
    pairs: Seq<(Seq<char>, Seq<char>)>,
    name: Seq<char>,
    n: int,
) -> Option<Seq<char>>
    decreases n,
{
    if n <= 0 || n > pairs.len() {
        None
    } else if pairs[n - 1].0 == name {
        Some(pairs[n - 1].1)
    } else {
        bound_to(pairs, name, n - 1)
    }
}

impl Bindings {
    /// No names at all.
    pub fn none() -> (r: Bindings)
        ensures
            r@ == Seq::<(Seq<char>, Seq<char>)>::empty(),
    {
        let r = Bindings { pairs: Vec::new() };
        assert(r@ =~= Seq::empty());
        r
    }

    /// Whether no name is bound.
    pub fn is_empty(&self) -> (b: bool)
        ensures
            b == (self@.len() == 0),
    {
        self.pairs.len() == 0
    }

    /// The bindings that matches of the pattern make.
    pub fn of_matches(matches: &Vec<Vec<Option<String>>>) -> (r: Bindings)
        ensures
            r@ == bindings_in(matches.deep_view(), matches@.len() as int),
    {
        let ghost all = matches.deep_view();
        let mut pairs: Vec<(String, String)> = Vec::new();
        let mut i: usize = 0;
        assert(pairs.deep_view() =~= bindings_in(all, 0));
        while i < matches.len()
            invariant
                i <= matches@.len(),
                all == matches.deep_view(),
                pairs.deep_view() == bindings_in(all, i as int),
            decreases matches@.len() - i,
        {
            let groups = &matches[i];
            assert(all[i as int] == groups.deep_view());
            let ghost before = pairs.deep_view();
            if groups.len() > 2 {
                assert(all[i as int][1] == groups@[1].deep_view());
                assert(all[i as int][2] == groups@[2].deep_view());
                match (&groups[1], &groups[2]) {
                    (Some(name), Some(value)) => {
                        let ghost pair = (name@, trimmed(value@));
                        pairs.push((name.clone(), owned(trim(value.as_str()))));
                        assert(pairs.deep_view() =~= before.push(pair));
                    },
                    _ => {},
                }
            }
            i = i + 1;
        }
        Bindings { pairs }
    }

    /// What a name is bound to.
    pub fn get(&self, name: &str) -> (r: Option<&str>)
        ensures
            r.deep_view() == bound_to(self@, name@, self@.len() as int),
    {
        let mut i: usize = self.pairs.len();
        while i > 0
            invariant
                i <= self.pairs@.len(),
                self@ == self.pairs.deep_view(),
                bound_to(self@, name@, self@.len() as int) == bound_to(self@, name@, i as int),
            decreases i,
        {
            assert(self@[i - 1] == self.pairs@[i - 1].deep_view());
            if same_text(self.pairs[i - 1].0.as_str(), name) {
                return Some(self.pairs[i - 1].1.as_str());
            }
            i = i - 1;
        }
        None
    }

    /// Whether a name is bound.
    pub fn contains_key(&self, name: &str) -> (r: bool)
        ensures
            r == (bound_to(self@, name@, self@.len() as int) is Some),
    {
        match self.get(name) {
            Some(_) => true,
            None => false,
        }
    }
}

/// The bindings of a source, as the pattern finds them.
pub open spec fn local_bindings_of(blanked: Seq<char>) -> Seq<(Seq<char>, Seq<char>)> {
    match regex_captures(LOCAL_PATTERN@, blanked) {
        Some(matches) => bindings_in(matches, matches.len() as int),
        None => Seq::empty(),
    }
}

/// Finds the local bindings of a blanked source; a name bound twice keeps its last value.
pub fn local_bindings(blanked: &str) -> (r: Bindings)
    ensures
        r@ == local_bindings_of(blanked@),
{
    match captures(LOCAL_PATTERN, blanked) {
        Some(matches) => Bindings::of_matches(&matches),
        None => Bindings::none(),
    }
}

} // verus!
