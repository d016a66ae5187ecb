//! What is blanked of a source, piece by piece.
use vstd::prelude::*;
use super::blanking::{
    blanked, bracket_level, closing, equals_end, in_comment, long_end, piece_at, piece_moves,
    quoted_end,
};
use crate::text::{find_from, find_from_is_first, occurs_at, position_from, position_from_skip};

verus! {

// ---------------------------------------------------------------------------
// What stands before a piece does not count

proof fn equals_end_elsewhere(a: Seq<u8>, b: Seq<u8>, i: int)
    requires
        0 <= i,
    ensures
        equals_end(a + b, a.len() + i) == a.len() + equals_end(b, i),
        i <= equals_end(b, i),
    decreases b.len() - i,
{
    if i < b.len() {
        assert((a + b)[a.len() + i] == b[i]);
        equals_end_elsewhere(a, b, i + 1);
    }
}

proof fn level_elsewhere(a: Seq<u8>, b: Seq<u8>, i: int)
    requires
        0 <= i,
    ensures
        bracket_level(a + b, a.len() + i) == bracket_level(b, i),
        bracket_level(b, i) matches Some(level) ==> 0 <= level,
{
    let whole = a + b;
    if i < b.len() {
        assert(whole[a.len() + i] == b[i]);
        equals_end_elsewhere(a, b, i + 1);
        let end = equals_end(b, i + 1);
        if end < b.len() {
            assert(whole[a.len() + end] == b[end]);
        }
    }
}

proof fn find_elsewhere(a: Seq<u8>, b: Seq<u8>, needle: Seq<u8>, from: int)
    requires
        0 <= from,
    ensures
        find_from(a + b, needle, a.len() + from) == (match find_from(b, needle, from) {
            Some(at) => Some(a.len() + at),
            None => None::<int>,
        }),
    decreases b.len() + 1 - from,
{
    let whole = a + b;
    if from + needle.len() <= b.len() {
        assert(whole.subrange(a.len() + from, a.len() + from + needle.len()) =~= b.subrange(
            from,
            from + needle.len(),
        ));
        if !occurs_at(b, needle, from) {
            find_elsewhere(a, b, needle, from + 1);
        }
    }
}

proof fn quoted_end_elsewhere(a: Seq<u8>, b: Seq<u8>, i: int, quote: u8)
    requires
        0 <= i,
    ensures
        quoted_end(a + b, a.len() + i, quote) == a.len() + quoted_end(b, i, quote),
    decreases b.len() + 1 - i,
{
    if i < b.len() {
        assert((a + b)[a.len() + i] == b[i]);
        if b[i] != quote && b[i] != 0x0a {
            if b[i] == 0x5c {
                quoted_end_elsewhere(a, b, i + 2, quote);
            } else {
                quoted_end_elsewhere(a, b, i + 1, quote);
            }
        }
    }
}

proof fn piece_elsewhere(a: Seq<u8>, b: Seq<u8>, i: int)
    requires
        0 <= i < b.len(),
    ensures
        piece_at(a + b, a.len() + i).0 == a.len() + piece_at(b, i).0,
        piece_at(a + b, a.len() + i).1 == piece_at(b, i).1,
{
    let whole = a + b;
    assert(whole[a.len() + i] == b[i]);
    if i + 1 < b.len() {
        assert(whole[a.len() + i + 1] == b[i + 1]);
    }
    level_elsewhere(a, b, i);
    level_elsewhere(a, b, i + 2);
    assert(whole.skip(a.len() as int) =~= b);
    position_from_skip(whole, 0x0au8, a.len() as int, i + 2);
    quoted_end_elsewhere(a, b, i + 1, b[i]);
    if let Some(level) = bracket_level(b, i + 2) {
        find_elsewhere(a, b, closing(level), i + 2 + level + 2);
    }
    if let Some(level) = bracket_level(b, i) {
        find_elsewhere(a, b, closing(level), i + level + 2);
    }
}

proof fn comments_elsewhere(a: Seq<u8>, b: Seq<u8>, i: int, k: int)
    requires
        0 <= i,
    ensures
        in_comment(a + b, a.len() + i, a.len() + k) == in_comment(b, i, k),
    decreases b.len() - i,
{
    if i < b.len() {
        piece_elsewhere(a, b, i);
        piece_moves(b, i);
        let end = piece_at(b, i).0;
        if k >= end && end < b.len() {
            comments_elsewhere(a, b, end, k);
        }
    }
}

/// A piece of source made spaces, line feeds apart.
pub open spec fn spaces(piece: Seq<u8>) -> Seq<u8> {
    Seq::new(
        piece.len(),
        |k: int|
            if piece[k] == 0x0a {
                0x0au8
            } else {
                0x20u8
            },
    )
}

proof fn one_piece_comes_first(piece: Seq<u8>, rest: Seq<u8>, comment: bool)
    requires
        piece.len() > 0,
        piece_at(piece + rest, 0) == (piece.len() as int, comment),
    ensures
        blanked(piece + rest) == (if comment {
            spaces(piece)
        } else {
            piece
        }) + blanked(rest),
{
    let whole = piece + rest;
    let n = piece.len() as int;
    let expected = (if comment {
        spaces(piece)
    } else {
        piece
    }) + blanked(rest);
    assert forall|k: int| 0 <= k < whole.len() implies blanked(whole)[k] == expected[k] by {
        if k < n {
            assert(whole[k] == piece[k]);
            assert(in_comment(whole, 0, k) == comment);
        } else {
            assert(whole[k] == rest[k - n]);
            comments_elsewhere(piece, rest, 0, k - n);
            assert(in_comment(whole, 0, k) == in_comment(whole, n, k));
            assert(expected[k] == blanked(rest)[k - n]);
        }
    }
    assert(blanked(whole) =~= expected);
}

// ---------------------------------------------------------------------------
// The pieces

/// Code stays: a byte that opens no comment and no string is kept, and what follows it is blanked as it
/// would be alone.
pub proof fn code_stays(byte: u8, rest: Seq<u8>)
    requires
        byte != 0x22,
        byte != 0x27,
        byte == 0x2d ==> rest.len() == 0 || rest[0] != 0x2d,
        byte == 0x5b ==> rest.len() == 0 || (rest[0] != 0x5b && rest[0] != 0x3d),
    ensures
        blanked(seq![byte] + rest) == seq![byte] + blanked(rest),
{
    let piece = seq![byte];
    let whole = piece + rest;
    assert(whole[0] == byte);
    if rest.len() > 0 {
        assert(whole[1] == rest[0]);
    }
    assert(bracket_level(whole, 0) is None);
    one_piece_comes_first(piece, rest, false);
}

/// What is looked for is found where it first stands.
pub proof fn the_first_stands_there(s: Seq<u8>, x: u8, from: int, at: int)
    requires
        0 <= from <= at < s.len(),
        s[at] == x,
        forall|k: int| from <= k < at ==> #[trigger] s[k] != x,
    ensures
        position_from(s, x, from) == Some(at),
    decreases at - from,
{
    if from < at {
        assert(s[from] != x);
        the_first_stands_there(s, x, from + 1, at);
    }
}

/// What stands nowhere is not found.
pub proof fn none_stands_there(s: Seq<u8>, x: u8, from: int)
    requires
        0 <= from,
        forall|k: int| from <= k < s.len() ==> #[trigger] s[k] != x,
    ensures
        position_from(s, x, from) is None,
    decreases s.len() - from,
{
    if from < s.len() {
        assert(s[from] != x);
        none_stands_there(s, x, from + 1);
    }
}

/// A comment that goes to the end of its line becomes spaces. The line feed and what follows it is no part
/// of it; where the source ends with it, all of it does.
pub proof fn a_line_comment_is_blanked(text: Seq<u8>, rest: Seq<u8>)
    requires
        forall|k: int| 0 <= k < text.len() ==> #[trigger] text[k] != 0x0a,
        text.len() > 0 ==> text[0] != 0x5b,
        rest.len() == 0 || rest[0] == 0x0a,
    ensures
        blanked(seq![0x2du8, 0x2du8] + text + rest) == spaces(seq![0x2du8, 0x2du8] + text) + blanked(
            rest,
        ),
{
    let piece = seq![0x2du8, 0x2du8] + text;
    let whole = piece + rest;
    let n = piece.len() as int;
    assert(whole[0] == 0x2d && whole[1] == 0x2d);
    assert forall|k: int| 2 <= k < n implies #[trigger] whole[k] != 0x0a by {
        assert(whole[k] == text[k - 2]);
    }
    if text.len() > 0 {
        assert(whole[2] == text[0]);
    } else if rest.len() > 0 {
        assert(whole[2] == rest[0]);
    }
    assert(bracket_level(whole, 2) is None);
    if rest.len() > 0 {
        assert(whole[n] == 0x0a);
        the_first_stands_there(whole, 0x0a, 2, n);
    } else {
        none_stands_there(whole, 0x0a, 2);
    }
    one_piece_comes_first(piece, rest, true);
}

/// What opens a long bracket: `[`, as many `=` as its level is, `[`.
pub open spec fn opening(level: nat) -> Seq<u8> {
    seq![0x5bu8] + Seq::new(level, |k: int| 0x3du8) + seq![0x5bu8]
}

/// What closes a long bracket: `]`, as many `=` as its level is, `]`.
pub open spec fn shutting(level: nat) -> Seq<u8> {
    seq![0x5du8] + Seq::new(level, |k: int| 0x3du8) + seq![0x5du8]
}

proof fn a_bracket_opens(s: Seq<u8>, i: int, level: nat, j: int)
    requires
        0 <= i,
        i + level + 2 <= s.len(),
        s.subrange(i, i + level + 2) == opening(level),
        i + 1 <= j <= i + 1 + level,
    ensures
        s[i] == 0x5b,
        equals_end(s, j) == i + 1 + level,
        bracket_level(s, i) == Some(level as int),
    decreases i + 1 + level - j,
{
    let opened = s.subrange(i, i + level + 2);
    assert(s[i] == opened[0]);
    assert(s[i + 1 + level] == opened[1 + level as int]);
    assert(opening(level)[1 + level as int] == 0x5b);
    if j < i + 1 + level {
        assert(s[j] == opened[j - i]);
        a_bracket_opens(s, i, level, j + 1);
    } else if j > i + 1 {
        a_bracket_opens_from_its_start(s, i, level, i + 1);
    }
}

proof fn a_bracket_opens_from_its_start(s: Seq<u8>, i: int, level: nat, j: int)
    requires
        0 <= i,
        i + level + 2 <= s.len(),
        s.subrange(i, i + level + 2) == opening(level),
        i + 1 <= j <= i + 1 + level,
    ensures
        equals_end(s, j) == i + 1 + level,
        s[i + 1 + level] == 0x5b,
    decreases i + 1 + level - j,
{
    let opened = s.subrange(i, i + level + 2);
    assert(s[i + 1 + level] == opened[1 + level as int]);
    assert(opening(level)[1 + level as int] == 0x5b);
    if j < i + 1 + level {
        assert(s[j] == opened[j - i]);
        a_bracket_opens_from_its_start(s, i, level, j + 1);
    }
}

proof fn a_bracket_closes(s: Seq<u8>, level: nat, from: int, at: int)
    requires
        0 <= from <= at,
        occurs_at(s, shutting(level), at),
        forall|k: int| from <= k < at ==> !(#[trigger] occurs_at(s, shutting(level), k)),
    ensures
        long_end(s, from, level as int) == at + level + 2,
{
    assert(closing(level as int) =~= shutting(level));
    find_from_is_first(s, shutting(level), from);
    if let Some(found) = find_from(s, shutting(level), from) {
        if found < at {
            assert(!occurs_at(s, shutting(level), found));
        } else if at < found {
            assert(!occurs_at(s, shutting(level), at));
        }
    }
}

/// Whether what closes a long bracket first stands behind a text.
pub open spec fn closes_behind(level: nat, text: Seq<u8>) -> bool {
    forall|k: int|
        0 <= k < text.len() ==> !(#[trigger] occurs_at(text + shutting(level), shutting(level), k))
}

proof fn a_long_piece_ends(front: Seq<u8>, level: nat, text: Seq<u8>, rest: Seq<u8>)
    requires
        closes_behind(level, text),
    ensures
        ({
            let piece = front + opening(level) + text + shutting(level);
            let whole = piece + rest;
            let from = front.len() as int + level + 2;
            &&& bracket_level(whole, front.len() as int) == Some(level as int)
            &&& long_end(whole, from, level as int) == piece.len()
        }),
{
    let piece = front + opening(level) + text + shutting(level);
    let whole = piece + rest;
    let n = front.len() as int;
    let from = n + level + 2;
    let at = from + text.len();
    assert(whole.subrange(n, n + level + 2) =~= opening(level));
    a_bracket_opens(whole, n, level, n + 1);
    assert(whole.subrange(at, at + level + 2) =~= shutting(level));
    let body = text + shutting(level);
    assert forall|k: int| from <= k < at implies !(#[trigger] occurs_at(
        whole,
        shutting(level),
        k,
    )) by {
        assert(!occurs_at(body, shutting(level), k - from));
        assert(whole.subrange(k, k + level + 2) =~= body.subrange(k - from, k - from + level + 2));
    }
    a_bracket_closes(whole, level, from, at);
}

/// A long comment becomes spaces up to what closes it, line feeds apart.
pub proof fn a_long_comment_is_blanked(level: nat, text: Seq<u8>, rest: Seq<u8>)
    requires
        closes_behind(level, text),
    ensures
        ({
            let piece = seq![0x2du8, 0x2du8] + opening(level) + text + shutting(level);
            blanked(piece + rest) == spaces(piece) + blanked(rest)
        }),
{
    let front = seq![0x2du8, 0x2du8];
    let piece = front + opening(level) + text + shutting(level);
    let whole = piece + rest;
    a_long_piece_ends(front, level, text, rest);
    assert(whole[0] == 0x2d && whole[1] == 0x2d);
    one_piece_comes_first(piece, rest, true);
}

/// A long string stays as it is, whatever stands in it.
pub proof fn a_long_string_stays(level: nat, text: Seq<u8>, rest: Seq<u8>)
    requires
        closes_behind(level, text),
    ensures
        ({
            let piece = opening(level) + text + shutting(level);
            blanked(piece + rest) == piece + blanked(rest)
        }),
{
    let front = Seq::<u8>::empty();
    let piece = opening(level) + text + shutting(level);
    let whole = piece + rest;
    assert(front + opening(level) + text + shutting(level) =~= piece);
    a_long_piece_ends(front, level, text, rest);
    assert(whole[0] == 0x5b);
    one_piece_comes_first(piece, rest, false);
}

proof fn a_quote_ends(s: Seq<u8>, i: int, quote: u8, end: int)
    requires
        0 <= i <= end < s.len(),
        s[end] == quote,
        forall|k: int|
            i <= k < end ==> #[trigger] s[k] != quote && s[k] != 0x0a && s[k] != 0x5c,
    ensures
        quoted_end(s, i, quote) == end + 1,
    decreases end - i,
{
    if i < end {
        assert(s[i] != quote);
        a_quote_ends(s, i + 1, quote, end);
    }
}

/// A string stays as it is, whatever looks like a comment in it.
pub proof fn a_string_stays(quote: u8, text: Seq<u8>, rest: Seq<u8>)
    requires
        quote == 0x22 || quote == 0x27,
        forall|k: int|
            0 <= k < text.len() ==> #[trigger] text[k] != quote && text[k] != 0x0a && text[k] != 0x5c,
    ensures
        ({
            let piece = seq![quote] + text + seq![quote];
            blanked(piece + rest) == piece + blanked(rest)
        }),
{
    let piece = seq![quote] + text + seq![quote];
    let whole = piece + rest;
    let end = piece.len() - 1;
    assert(whole[0] == quote);
    assert(whole[end] == quote);
    assert forall|k: int| 1 <= k < end implies #[trigger] whole[k] != quote && whole[k] != 0x0a
        && whole[k] != 0x5c by {
        assert(whole[k] == text[k - 1]);
    }
    a_quote_ends(whole, 1, quote, end);
    one_piece_comes_first(piece, rest, false);
}

proof fn plain_bytes_are_passed(s: Seq<u8>, i: int, j: int, quote: u8)
    requires
        0 <= i <= j <= s.len(),
        forall|k: int| i <= k < j ==> #[trigger] s[k] != quote && s[k] != 0x0a && s[k] != 0x5c,
    ensures
        quoted_end(s, i, quote) == quoted_end(s, j, quote),
    decreases j - i,
{
    if i < j {
        assert(s[i] != quote);
        plain_bytes_are_passed(s, i + 1, j, quote);
    }
}

/// A backslash takes the byte behind it along, so that a quote behind one ends no string.
pub proof fn an_escaped_quote_ends_no_string(
    quote: u8,
    before: Seq<u8>,
    escaped: u8,
    after: Seq<u8>,
    rest: Seq<u8>,
)
    requires
        quote == 0x22 || quote == 0x27,
        forall|k: int|
            0 <= k < before.len() ==> #[trigger] before[k] != quote && before[k] != 0x0a && before[k]
                != 0x5c,
        forall|k: int|
            0 <= k < after.len() ==> #[trigger] after[k] != quote && after[k] != 0x0a && after[k]
                != 0x5c,
    ensures
        ({
            let piece = seq![quote] + before + seq![0x5cu8, escaped] + after + seq![quote];
            blanked(piece + rest) == piece + blanked(rest)
        }),
{
    let piece = seq![quote] + before + seq![0x5cu8, escaped] + after + seq![quote];
    let whole = piece + rest;
    let slash = 1 + before.len() as int;
    let end = piece.len() - 1;
    assert(whole[0] == quote);
    assert(whole[slash] == 0x5c);
    assert(whole[end] == quote);
    assert forall|k: int| 1 <= k < slash implies #[trigger] whole[k] != quote && whole[k] != 0x0a
        && whole[k] != 0x5c by {
        assert(whole[k] == before[k - 1]);
    }
    assert forall|k: int| slash + 2 <= k < end implies #[trigger] whole[k] != quote && whole[k]
        != 0x0a && whole[k] != 0x5c by {
        assert(whole[k] == after[k - slash - 2]);
    }
    plain_bytes_are_passed(whole, 1, slash, quote);
    a_quote_ends(whole, slash + 2, quote, end);
    one_piece_comes_first(piece, rest, false);
}

} // verus!
