//! Blanking comments, so that what they hold is not read as code.
use vstd::prelude::*;
use vstd::utf8::*;
use crate::text::{
    ascii_byte_is_a_character, ascii_is_valid_utf8, find_byte, find_bytes_from, find_from,
    find_from_is_first, occurs_at, owned, position_from, text_from_utf8,
};

verus! {

/// Where the run of `=` that starts at `i` ends.
pub open spec fn equals_end(bytes: Seq<u8>, i: int) -> int
    decreases bytes.len() - i,
{
    if 0 <= i < bytes.len() && bytes[i] == 0x3d {
        equals_end(bytes, i + 1)
    } else {
        i
    }
}

/// The level of the long bracket that opens at `i`: the number of `=` between its two `[`.
pub open spec fn bracket_level(bytes: Seq<u8>, i: int) -> Option<int> {
    if 0 <= i < bytes.len() && bytes[i] == 0x5b {
        let end = equals_end(bytes, i + 1);
        if end < bytes.len() && bytes[end] == 0x5b {
            Some(end - (i + 1))
        } else {
            None
        }
    } else {
        None
    }
}

/// What closes a long bracket: `]`, as many `=` as it opened with, `]`.
pub open spec fn closing(level: int) -> Seq<u8> {
    seq![0x5du8] + Seq::new(level as nat, |k: int| 0x3du8) + seq![0x5du8]
}

/// Where a long bracket of the level ends, whose contents start at `from`: after what closes it,
/// or with the text where nothing does.
pub open spec fn long_end(bytes: Seq<u8>, from: int, level: int) -> int {
    match find_from(bytes, closing(level), from) {
        Some(at) => at + level + 2,
        None => bytes.len() as int,
    }
}

/// Where a quoted string ends, whose contents go on at `i`: after its quote, or at the end of the
/// line or the text. A backslash takes the byte after it along.
pub open spec fn quoted_end(bytes: Seq<u8>, i: int, quote: u8) -> int
    decreases bytes.len() + 1 - i,
{
    if i < 0 || i >= bytes.len() || bytes[i] == quote || bytes[i] == 0x0a {
        i + 1
    } else if bytes[i] == 0x5c {
        quoted_end(bytes, i + 2, quote)
    } else {
        quoted_end(bytes, i + 1, quote)
    }
}

/// Where the piece of source that starts at `i` ends, and whether it is a comment. A piece is a
/// comment, a string, or one byte of anything else.
pub open spec fn piece_at(bytes: Seq<u8>, i: int) -> (int, bool) {
    if bytes[i] == 0x2d && i + 1 < bytes.len() && bytes[i + 1] == 0x2d {
        match bracket_level(bytes, i + 2) {
            Some(level) => (long_end(bytes, i + 2 + level + 2, level), true),
            None => (
                match position_from(bytes, 0x0au8, i + 2) {
                    Some(end) => end,
                    None => bytes.len() as int,
                },
                true,
            ),
        }
    } else if bytes[i] == 0x22 || bytes[i] == 0x27 {
        (quoted_end(bytes, i + 1, bytes[i]), false)
    } else {
        match bracket_level(bytes, i) {
            Some(level) => (long_end(bytes, i + level + 2, level), false),
            None => (i + 1, false),
        }
    }
}

/// Whether the byte at `k` is part of a comment, reading pieces from `from` on.
pub open spec fn in_comment(bytes: Seq<u8>, from: int, k: int) -> bool
    decreases bytes.len() - from,
{
    if from < 0 || from >= bytes.len() {
        false
    } else {
        proof {
            piece_moves(bytes, from);
        }
        let (end, comment) = piece_at(bytes, from);
        if k < end {
            comment && from <= k
        } else if end < bytes.len() {
            in_comment(bytes, end, k)
        } else {
            false
        }
    }
}

/// The source with every byte of a comment made a space, line feeds apart.
pub open spec fn blanked(bytes: Seq<u8>) -> Seq<u8> {
    Seq::new(
        bytes.len(),
        |k: int|
            if in_comment(bytes, 0, k) && bytes[k] != 0x0a {
                0x20u8
            } else {
                bytes[k]
            },
    )
}

proof fn equals_end_moves(bytes: Seq<u8>, i: int)
    requires
        0 <= i <= bytes.len(),
    ensures
        i <= equals_end(bytes, i) <= bytes.len(),
    decreases bytes.len() - i,
{
    if i < bytes.len() && bytes[i] == 0x3d {
        equals_end_moves(bytes, i + 1);
    }
}

proof fn quoted_end_moves(bytes: Seq<u8>, i: int, quote: u8)
    requires
        0 <= i,
    ensures
        i < quoted_end(bytes, i, quote),
    decreases bytes.len() + 1 - i,
{
    if i < bytes.len() && bytes[i] != quote && bytes[i] != 0x0a {
        if bytes[i] == 0x5c {
            quoted_end_moves(bytes, i + 2, quote);
        } else {
            quoted_end_moves(bytes, i + 1, quote);
        }
    }
}

proof fn position_from_moves(bytes: Seq<u8>, x: u8, from: int)
    requires
        0 <= from,
    ensures
        position_from(bytes, x, from) matches Some(i) ==> from <= i < bytes.len() && bytes[i] == x,
    decreases bytes.len() - from,
{
    if from < bytes.len() && bytes[from] != x {
        position_from_moves(bytes, x, from + 1);
    }
}

pub proof fn piece_moves(bytes: Seq<u8>, i: int)
    requires
        0 <= i < bytes.len(),
    ensures
        i < piece_at(bytes, i).0,
        piece_at(bytes, i).1 ==> i + 2 <= piece_at(bytes, i).0 <= bytes.len(),
{
    if bytes[i] == 0x2d && i + 1 < bytes.len() && bytes[i + 1] == 0x2d {
        match bracket_level(bytes, i + 2) {
            Some(level) => {
                equals_end_moves(bytes, i + 3);
                find_from_is_first(bytes, closing(level), i + 2 + level + 2);
                assert(closing(level).len() == level + 2);
            },
            None => {
                position_from_moves(bytes, 0x0a, i + 2);
            },
        }
    } else if bytes[i] == 0x22 || bytes[i] == 0x27 {
        quoted_end_moves(bytes, i + 1, bytes[i]);
    } else {
        match bracket_level(bytes, i) {
            Some(level) => {
                equals_end_moves(bytes, i + 1);
                find_from_is_first(bytes, closing(level), i + level + 2);
                assert(closing(level).len() == level + 2);
            },
            None => {},
        }
    }
}

fn long_bracket(bytes: &[u8], index: usize) -> (r: Option<usize>)
    requires
        index <= bytes@.len(),
    ensures
        match r {
            Some(level) => bracket_level(bytes@, index as int) == Some(level as int) && index
                + level + 2 <= bytes@.len(),
            None => bracket_level(bytes@, index as int) is None,
        },
{
    let end: usize = bytes.len();
    if index >= end || bytes[index] != 0x5b {
        return None;
    }
    let mut at: usize = index + 1;
    while at < end && bytes[at] == 0x3d
        invariant
            end == bytes@.len(),
            index + 1 <= at <= end,
            equals_end(bytes@, index + 1) == equals_end(bytes@, at as int),
        decreases end - at,
    {
        at = at + 1;
    }
    if at < end && bytes[at] == 0x5b {
        Some(at - (index + 1))
    } else {
        None
    }
}

fn closing_bracket(level: usize) -> (r: Vec<u8>)
    ensures
        r@ == closing(level as int),
{
    let mut close: Vec<u8> = Vec::new();
    close.push(0x5d);
    let mut k: usize = 0;
    while k < level
        invariant
            k <= level,
            close@ == seq![0x5du8] + Seq::new(k as nat, |j: int| 0x3du8),
        decreases level - k,
    {
        close.push(0x3d);
        k = k + 1;
        assert(close@ =~= seq![0x5du8] + Seq::new(k as nat, |j: int| 0x3du8));
    }
    close.push(0x5d);
    assert(close@ =~= closing(level as int));
    close
}

fn end_of_long(bytes: &[u8], from: usize, level: usize) -> (r: usize)
    requires
        from <= bytes@.len(),
        level <= bytes@.len(),
    ensures
        r == long_end(bytes@, from as int, level as int),
        from <= r <= bytes@.len(),
{
    let close = closing_bracket(level);
    let end: usize = bytes.len();
    assert(close@.len() == level + 2);
    match find_bytes_from(bytes, close.as_slice(), from) {
        Some(at) => at + close.len(),
        None => end,
    }
}

fn end_of_quoted(bytes: &[u8], from: usize, quote: u8) -> (r: usize)
    requires
        from <= bytes@.len(),
    ensures
        quoted_end(bytes@, from as int, quote) >= bytes@.len() ==> r == bytes@.len(),
        quoted_end(bytes@, from as int, quote) < bytes@.len() ==> r == quoted_end(
            bytes@,
            from as int,
            quote,
        ),
        r <= bytes@.len(),
{
    let end: usize = bytes.len();
    let mut index: usize = from;
    while index < end && bytes[index] != quote && bytes[index] != 0x0a
        invariant
            end == bytes@.len(),
            index <= end,
            quoted_end(bytes@, from as int, quote) == quoted_end(bytes@, index as int, quote),
        decreases end - index,
    {
        if bytes[index] == 0x5c {
            if end - index < 2 {
                proof {
                    quoted_end_moves(bytes@, index + 2, quote);
                }
                return end;
            }
            index = index + 2;
        } else {
            index = index + 1;
        }
    }
    if index < end {
        index + 1
    } else {
        end
    }
}

/// Bytes with those from `from` to `to` made spaces, line feeds apart.
spec fn blanked_between(bytes: Seq<u8>, from: int, to: int) -> Seq<u8> {
    Seq::new(
        bytes.len(),
        |k: int|
            if from <= k < to && bytes[k] != 0x0a {
                0x20u8
            } else {
                bytes[k]
            },
    )
}

/// Blanks the bytes of one piece.
fn blank(out: &mut Vec<u8>, from: usize, to: usize)
    requires
        from <= to <= old(out)@.len(),
    ensures
        final(out)@ == blanked_between(old(out)@, from as int, to as int),
{
    let ghost before = out@;
    let mut i: usize = from;
    while i < to
        invariant
            from <= i <= to <= out@.len(),
            out@.len() == before.len(),
            forall|k: int|
                0 <= k < out@.len() ==> #[trigger] out@[k] == if from <= k < i && before[k] != 0x0a {
                    0x20u8
                } else {
                    before[k]
                },
        decreases to - i,
    {
        if out[i] != 0x0a {
            out.set(i, 0x20);
        }
        i = i + 1;
    }
    assert(out@ =~= blanked_between(before, from as int, to as int));
}

/// Blanking whole characters leaves valid UTF-8.
proof fn blanking_keeps_validity(out: Seq<u8>, after: Seq<u8>, from: int, to: int)
    requires
        valid_utf8(out),
        0 <= from <= to <= out.len(),
        is_char_boundary(out, from),
        is_char_boundary(out, to),
        after.len() == out.len(),
        forall|k: int|
            0 <= k < out.len() ==> #[trigger] after[k] == if from <= k < to && out[k] != 0x0a {
                0x20u8
            } else {
                out[k]
            },
    ensures
        valid_utf8(after),
{
    let head = out.subrange(0, from);
    let tail = out.subrange(to, out.len() as int);
    valid_utf8_split(out, from);
    valid_utf8_split(out, to);
    let middle = after.subrange(from, to);
    assert forall|k: int| 0 <= k < middle.len() implies #[trigger] middle[k] < 0x80 by {
        assert(middle[k] == after[from + k]);
    }
    ascii_is_valid_utf8(middle);
    valid_utf8_concat(head, middle);
    valid_utf8_concat(head + middle, tail);
    assert((head + middle) + tail =~= after);
}

proof fn comment_spans_characters(bytes: Seq<u8>, out: Seq<u8>, from: int)
    requires
        valid_utf8(out),
        out.len() == bytes.len(),
        0 <= from < bytes.len(),
        piece_at(bytes, from).1,
        forall|k: int| from <= k < bytes.len() ==> out[k] == bytes[k],
    ensures
        is_char_boundary(out, from),
        is_char_boundary(out, piece_at(bytes, from).0),
{
    piece_moves(bytes, from);
    ascii_byte_is_a_character(out, from);
    let end = piece_at(bytes, from).0;
    is_char_boundary_start_end_of_seq(out);
    if end < bytes.len() {
        match bracket_level(bytes, from + 2) {
            Some(level) => {
                equals_end_moves(bytes, from + 3);
                let contents = from + 2 + level + 2;
                find_from_is_first(bytes, closing(level), contents);
                let at = find_from(bytes, closing(level), contents)->0;
                assert(occurs_at(bytes, closing(level), at));
                let close = bytes.subrange(at, at + closing(level).len());
                assert(close[level + 1] == 0x5d);
                assert(bytes[end - 1] == 0x5d);
                ascii_byte_is_a_character(out, end - 1);
            },
            None => {
                position_from_moves(bytes, 0x0a, from + 2);
                ascii_byte_is_a_character(out, end);
            },
        }
    }
}

/// Whether the pieces before `i` are blanked in `out`, what follows is still the source, and a piece
/// starts at `i`.
spec fn blanked_before(bytes: Seq<u8>, out: Seq<u8>, i: int) -> bool {
    &&& out.len() == bytes.len()
    &&& 0 <= i <= bytes.len()
    &&& forall|k: int| i <= k < bytes.len() ==> #[trigger] out[k] == bytes[k]
    &&& forall|k: int| 0 <= k < i ==> #[trigger] out[k] == blanked(bytes)[k]
    &&& forall|k: int|
        i <= k < bytes.len() ==> in_comment(bytes, 0, k) == #[trigger] in_comment(bytes, i, k)
}

/// What is in a comment, past the piece that starts at `i`.
proof fn comments_go_on(bytes: Seq<u8>, i: int, next: int)
    requires
        0 <= i < bytes.len(),
        next == if piece_at(bytes, i).0 < bytes.len() {
            piece_at(bytes, i).0
        } else {
            bytes.len() as int
        },
        forall|k: int|
            i <= k < bytes.len() ==> in_comment(bytes, 0, k) == #[trigger] in_comment(bytes, i, k),
    ensures
        i < next <= bytes.len(),
        forall|k: int|
            next <= k < bytes.len() ==> in_comment(bytes, 0, k) == #[trigger] in_comment(
                bytes,
                next,
                k,
            ),
        forall|k: int|
            i <= k < next ==> #[trigger] in_comment(bytes, 0, k) == piece_at(bytes, i).1,
{
    piece_moves(bytes, i);
    assert forall|k: int| next <= k < bytes.len() implies in_comment(bytes, 0, k)
        == #[trigger] in_comment(bytes, next, k) by {
        assert(in_comment(bytes, 0, k) == in_comment(bytes, i, k));
    }
    assert forall|k: int| i <= k < next implies #[trigger] in_comment(bytes, 0, k) == piece_at(
        bytes,
        i,
    ).1 by {
        assert(in_comment(bytes, 0, k) == in_comment(bytes, i, k));
    }
}

/// Blanking the piece that starts at `i`, where it is a comment, brings the work to the next piece.
proof fn one_piece_more(bytes: Seq<u8>, before: Seq<u8>, after: Seq<u8>, i: int, next: int)
    requires
        blanked_before(bytes, before, i),
        i < bytes.len(),
        next == if piece_at(bytes, i).0 < bytes.len() {
            piece_at(bytes, i).0
        } else {
            bytes.len() as int
        },
        after == if piece_at(bytes, i).1 {
            blanked_between(before, i, next)
        } else {
            before
        },
    ensures
        blanked_before(bytes, after, next),
{
    comments_go_on(bytes, i, next);
    assert forall|k: int| next <= k < bytes.len() implies #[trigger] after[k] == bytes[k] by {
        assert(before[k] == bytes[k]);
    }
    assert forall|k: int| 0 <= k < next implies #[trigger] after[k] == blanked(bytes)[k] by {
        if k < i {
            assert(before[k] == blanked(bytes)[k]);
        } else {
            assert(before[k] == bytes[k]);
            assert(in_comment(bytes, 0, k) == piece_at(bytes, i).1);
        }
    }
}

/// Blanks every comment, keeping every byte offset and every line break where it was.
pub fn blank_comments(source: &str) -> (r: String)
    ensures
        encode_utf8(r@) == blanked(encode_utf8(source@)),
{
    let bytes = source.as_bytes();
    let end: usize = bytes.len();
    let mut out: Vec<u8> = Vec::new();
    let mut i: usize = 0;
    while i < end
        invariant
            i <= end,
            end == bytes@.len(),
            out@ == bytes@.take(i as int),
        decreases end - i,
    {
        out.push(bytes[i]);
        assert(out@ =~= bytes@.take(i + 1));
        i = i + 1;
    }
    assert(bytes@.take(end as int) =~= bytes@);
    proof {
        encode_utf8_valid_utf8(source@);
    }
    let mut index: usize = 0;
    while index < end
        invariant
            end == bytes@.len(),
            index <= end,
            bytes@ == encode_utf8(source@),
            valid_utf8(out@),
            blanked_before(bytes@, out@, index as int),
        decreases end - index,
    {
        let ghost here = out@;
        let ghost start: int = index as int;
        let ghost piece = piece_at(bytes@, start);
        proof {
            piece_moves(bytes@, start);
        }
        let b: u8 = bytes[index];
        if b == 0x2d && end - index > 1 && bytes[index + 1] == 0x2d {
            let to: usize = match long_bracket(bytes, index + 2) {
                Some(level) => end_of_long(bytes, index + 2 + level + 2, level),
                None => match find_byte(bytes, 0x0a, index + 2) {
                    Some(at) => at,
                    None => end,
                },
            };
            assert(piece == (to as int, true));
            blank(&mut out, index, to);
            proof {
                comment_spans_characters(bytes@, here, start);
                blanking_keeps_validity(here, out@, start, to as int);
            }
            index = to;
        } else if b == 0x22 || b == 0x27 {
            index = end_of_quoted(bytes, index + 1, b);
        } else {
            index = match long_bracket(bytes, index) {
                Some(level) => end_of_long(bytes, index + level + 2, level),
                None => index + 1,
            };
        }
        proof {
            one_piece_more(bytes@, here, out@, start, index as int);
        }
    }
    assert(out@ =~= blanked(bytes@));
    match text_from_utf8(out) {
        Ok(text) => text,
        Err(_) => owned(source),
    }
}

/// Blanking a source changes no offset and no line break, and what it changes it makes a space.
pub proof fn blanking_moves_nothing(bytes: Seq<u8>)
    ensures
        blanked(bytes).len() == bytes.len(),
        forall|k: int|
            0 <= k < bytes.len() ==> (#[trigger] blanked(bytes)[k] == bytes[k] || (blanked(bytes)[k]
                == 0x20 && bytes[k] != 0x0a && in_comment(bytes, 0, k))),
        forall|k: int|
            0 <= k < bytes.len() ==> ((#[trigger] blanked(bytes)[k] == 0x0a) <==> bytes[k] == 0x0a),
{
}

/// A long bracket that does not open still does not where some bytes are made spaces.
proof fn no_bracket_appears(bytes: Seq<u8>, out: Seq<u8>, i: int, j: int)
    requires
        out.len() == bytes.len(),
        0 <= i < j <= bytes.len(),
        forall|k: int|
            0 <= k < bytes.len() ==> (#[trigger] out[k] == bytes[k] || out[k] == 0x20),
        equals_end(bytes, i + 1) == equals_end(bytes, j),
        bracket_level(bytes, i) is None,
        bytes[i] == 0x5b,
    ensures
        equals_end(out, j) >= out.len() || out[equals_end(out, j)] != 0x5b,
    decreases bytes.len() - j,
{
    if j < bytes.len() {
        assert(out[j] == bytes[j] || out[j] == 0x20);
        if out[j] == 0x3d {
            no_bracket_appears(bytes, out, i, j + 1);
        }
    }
}

proof fn equals_end_is_kept(bytes: Seq<u8>, out: Seq<u8>, j: int)
    requires
        out.len() == bytes.len(),
        0 <= j,
        forall|k: int|
            j <= k <= equals_end(bytes, j) && k < bytes.len() ==> #[trigger] out[k] == bytes[k],
    ensures
        equals_end(out, j) == equals_end(bytes, j),
    decreases bytes.len() - j,
{
    if j < bytes.len() {
        equals_end_moves(bytes, j);
        assert(out[j] == bytes[j]);
        if bytes[j] == 0x3d {
            equals_end_is_kept(bytes, out, j + 1);
        }
    }
}

proof fn quoted_end_is_kept(bytes: Seq<u8>, out: Seq<u8>, j: int, quote: u8)
    requires
        out.len() == bytes.len(),
        0 <= j,
        forall|k: int|
            j <= k < quoted_end(bytes, j, quote) && k < bytes.len() ==> #[trigger] out[k]
                == bytes[k],
    ensures
        quoted_end(out, j, quote) == quoted_end(bytes, j, quote),
    decreases bytes.len() + 1 - j,
{
    quoted_end_moves(bytes, j, quote);
    if j < bytes.len() {
        assert(out[j] == bytes[j]);
        if bytes[j] != quote && bytes[j] != 0x0a {
            if bytes[j] == 0x5c {
                quoted_end_is_kept(bytes, out, j + 2, quote);
            } else {
                quoted_end_is_kept(bytes, out, j + 1, quote);
            }
        }
    }
}

proof fn long_end_is_kept(bytes: Seq<u8>, out: Seq<u8>, from: int, level: int)
    requires
        out.len() == bytes.len(),
        0 <= from <= bytes.len(),
        0 <= level,
        forall|k: int|
            from <= k < long_end(bytes, from, level) ==> #[trigger] out[k] == bytes[k],
    ensures
        long_end(out, from, level) == long_end(bytes, from, level),
{
    let close = closing(level);
    assert(close.len() == level + 2);
    find_from_is_first(bytes, close, from);
    find_from_is_first(out, close, from);
    let end = long_end(bytes, from, level);
    assert forall|j: int| from <= j && j + close.len() <= end implies #[trigger] occurs_at(
        out,
        close,
        j,
    ) == occurs_at(bytes, close, j) by {
        if j + close.len() <= bytes.len() {
            assert(out.subrange(j, j + close.len()) =~= bytes.subrange(j, j + close.len()));
        }
    }
    match find_from(bytes, close, from) {
        Some(at) => {
            assert(occurs_at(bytes, close, at));
            assert(occurs_at(out, close, at));
            match find_from(out, close, from) {
                Some(other) => {
                    assert(occurs_at(out, close, other));
                    if other < at {
                        assert(occurs_at(bytes, close, other));
                    }
                    if at < other {
                        assert(!occurs_at(out, close, at));
                    }
                },
                None => {},
            }
        },
        None => {
            match find_from(out, close, from) {
                Some(other) => {
                    assert(occurs_at(out, close, other));
                    assert(occurs_at(bytes, close, other));
                },
                None => {},
            }
        },
    }
}

/// A piece of code or a string is read as it was where only other pieces are blanked.
proof fn code_is_kept(bytes: Seq<u8>, out: Seq<u8>, i: int)
    requires
        out.len() == bytes.len(),
        0 <= i < bytes.len(),
        !piece_at(bytes, i).1,
        forall|k: int|
            0 <= k < bytes.len() ==> (#[trigger] out[k] == bytes[k] || out[k] == 0x20),
        forall|k: int|
            i <= k < piece_at(bytes, i).0 && k < bytes.len() ==> #[trigger] out[k] == bytes[k],
    ensures
        piece_at(out, i) == piece_at(bytes, i),
{
    piece_moves(bytes, i);
    assert(out[i] == bytes[i]);
    if i + 1 < bytes.len() {
        assert(out[i + 1] == bytes[i + 1] || out[i + 1] == 0x20);
    }
    if bytes[i] == 0x22 || bytes[i] == 0x27 {
        quoted_end_is_kept(bytes, out, i + 1, bytes[i]);
    } else if bytes[i] == 0x5b {
        equals_end_moves(bytes, i + 1);
        match bracket_level(bytes, i) {
            Some(level) => {
                let from = i + level + 2;
                find_from_is_first(bytes, closing(level), from);
                assert(closing(level).len() == level + 2);
                equals_end_is_kept(bytes, out, i + 1);
                long_end_is_kept(bytes, out, from, level);
            },
            None => {
                no_bracket_appears(bytes, out, i, i + 1);
            },
        }
    }
}

/// Blank bytes hold no comment, and what follows them is read from where they end.
proof fn blanks_are_passed(out: Seq<u8>, i: int, end: int, k: int)
    requires
        0 <= i <= end <= out.len(),
        forall|j: int| i <= j < end ==> (#[trigger] out[j] == 0x20 || out[j] == 0x0a),
    ensures
        in_comment(out, i, k) ==> k >= end && in_comment(out, end, k),
    decreases end - i,
{
    if i < out.len() {
        piece_moves(out, i);
    }
    if i < end {
        assert(out[i] == 0x20 || out[i] == 0x0a);
        blanks_are_passed(out, i + 1, end, k);
    }
}

proof fn no_comment_is_left(bytes: Seq<u8>, i: int, k: int)
    requires
        0 <= i <= bytes.len(),
        forall|j: int|
            i <= j < bytes.len() ==> in_comment(bytes, 0, j) == #[trigger] in_comment(bytes, i, j),
    ensures
        !in_comment(blanked(bytes), i, k),
    decreases bytes.len() - i,
{
    let out = blanked(bytes);
    if i < bytes.len() {
        let (end, comment) = piece_at(bytes, i);
        let next = if end < bytes.len() {
            end
        } else {
            bytes.len() as int
        };
        comments_go_on(bytes, i, next);
        no_comment_is_left(bytes, next, k);
        if comment {
            assert forall|j: int| i <= j < next implies (#[trigger] out[j] == 0x20 || out[j]
                == 0x0a) by {
                assert(in_comment(bytes, 0, j) == comment);
            }
            blanks_are_passed(out, i, next, k);
        } else {
            assert forall|j: int| i <= j < end && j < bytes.len() implies #[trigger] out[j]
                == bytes[j] by {
                assert(in_comment(bytes, 0, j) == comment);
            }
            code_is_kept(bytes, out, i);
        }
    }
}

/// A blanked source has no comment left, so blanking it again changes nothing.
pub proof fn blanking_twice_is_blanking_once(bytes: Seq<u8>)
    ensures
        blanked(blanked(bytes)) == blanked(bytes),
{
    let once = blanked(bytes);
    assert forall|k: int| 0 <= k < once.len() implies #[trigger] blanked(once)[k] == once[k] by {
        no_comment_is_left(bytes, 0, k);
    }
    assert(blanked(once) =~= once);
}

} // verus!
