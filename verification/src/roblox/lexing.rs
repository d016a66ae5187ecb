//! Reading the pieces of a Luau expression that name instances.
use vstd::prelude::*;
use crate::text::{is_white_space, slice_text, white_space};

verus! {

/// Whether Unicode's tables count a character as a letter or a number.
pub uninterp spec fn unicode_alphanumeric(c: char) -> bool;

/// Whether a character is a letter or a number: within ASCII the digits and the letters, and beyond it
/// what Unicode's tables tell.
pub open spec fn is_alphanumeric(c: char) -> bool {
    if c <= '\u{7f}' {
        '0' <= c <= '9' || 'A' <= c <= 'Z' || 'a' <= c <= 'z'
    } else {
        unicode_alphanumeric(c)
    }
}

/// `char::is_alphanumeric`. Beyond ASCII it follows Unicode's tables, of which nothing is claimed
/// but that they answer the same for the same character; within ASCII it is the digits and the
/// letters.
#[verifier::external_body]
pub(crate) fn alphanumeric(c: char) -> (b: bool)
    ensures
        b == unicode_alphanumeric(c),
        c <= '\u{7f}' ==> b == ('0' <= c <= '9' || 'A' <= c <= 'Z' || 'a' <= c <= 'z'),
{
    c.is_alphanumeric()
}

/// Whether a character may stand in an identifier.
pub open spec fn is_identifier_char(c: char) -> bool {
    is_alphanumeric(c) || c == '_'
}

/// Where the identifier that starts at `i` ends.
pub open spec fn identifier_end(chars: Seq<char>, i: int) -> int
    decreases chars.len() - i,
{
    if 0 <= i < chars.len() && is_identifier_char(chars[i]) {
        identifier_end(chars, i + 1)
    } else {
        i
    }
}

pub proof fn identifier_end_moves(chars: Seq<char>, i: int)
    requires
        0 <= i <= chars.len(),
    ensures
        i <= identifier_end(chars, i) <= chars.len(),
    decreases chars.len() - i,
{
    if i < chars.len() && is_identifier_char(chars[i]) {
        identifier_end_moves(chars, i + 1);
    }
}

/// The identifier that starts at `from`, and where it ends.
pub fn read_identifier(chars: &[char], from: usize) -> (r: (String, usize))
    requires
        from <= chars@.len(),
    ensures
        r.1 == identifier_end(chars@, from as int),
        from <= r.1 <= chars@.len(),
        r.0@ == chars@.subrange(from as int, r.1 as int),
{
    let mut index: usize = from;
    while index < chars.len() && (alphanumeric(chars[index]) || chars[index] == '_')
        invariant
            from <= index <= chars@.len(),
            identifier_end(chars@, from as int) == identifier_end(chars@, index as int),
        decreases chars@.len() - index,
    {
        index = index + 1;
    }
    (slice_text(chars, from, index), index)
}

/// Where the white space that starts at `i` ends.
pub open spec fn space_end(chars: Seq<char>, i: int) -> int
    decreases chars.len() - i,
{
    if 0 <= i < chars.len() && is_white_space(chars[i]) {
        space_end(chars, i + 1)
    } else {
        i
    }
}

pub proof fn space_end_moves(chars: Seq<char>, i: int)
    requires
        0 <= i <= chars.len(),
    ensures
        i <= space_end(chars, i) <= chars.len(),
    decreases chars.len() - i,
{
    if i < chars.len() && is_white_space(chars[i]) {
        space_end_moves(chars, i + 1);
    }
}

/// Skips white space.
pub fn skip_space(chars: &[char], from: usize) -> (r: usize)
    requires
        from <= chars@.len(),
    ensures
        r == space_end(chars@, from as int),
        from <= r <= chars@.len(),
{
    let mut index: usize = from;
    while index < chars.len() && white_space(chars[index])
        invariant
            from <= index <= chars@.len(),
            space_end(chars@, from as int) == space_end(chars@, index as int),
        decreases chars@.len() - index,
    {
        index = index + 1;
    }
    index
}

/// The text of a string literal whose contents start at `i`, and where the literal ends. A
/// backslash stands for the character after it, and a literal that is never closed ends with the
/// text.
pub open spec fn literal_from(chars: Seq<char>, i: int, quote: char) -> (Seq<char>, int)
    decreases chars.len() - i,
{
    if i < 0 || i >= chars.len() {
        (Seq::empty(), i)
    } else if chars[i] == '\\' && i + 1 < chars.len() {
        let (text, end) = literal_from(chars, i + 2, quote);
        (seq![chars[i + 1]] + text, end)
    } else if chars[i] == quote {
        (Seq::empty(), i + 1)
    } else {
        let (text, end) = literal_from(chars, i + 1, quote);
        (seq![chars[i]] + text, end)
    }
}

pub proof fn literal_from_moves(chars: Seq<char>, i: int, quote: char)
    requires
        0 <= i <= chars.len(),
    ensures
        i <= literal_from(chars, i, quote).1 <= chars.len(),
    decreases chars.len() - i,
{
    if i < chars.len() {
        if chars[i] == '\\' && i + 1 < chars.len() {
            literal_from_moves(chars, i + 2, quote);
        } else if chars[i] != quote {
            literal_from_moves(chars, i + 1, quote);
        }
    }
}

/// Reads the string literal whose opening quote stands at `from`.
pub fn read_string(chars: &[char], from: usize, quote: char) -> (r: (String, usize))
    requires
        from < chars@.len(),
    ensures
        r.0@ == literal_from(chars@, from + 1, quote).0,
        r.1 == literal_from(chars@, from + 1, quote).1,
        from < r.1 <= chars@.len(),
{
    let end: usize = chars.len();
    let mut index: usize = from + 1;
    let mut text = String::new();
    let ghost whole = literal_from(chars@, from + 1, quote);
    assert(text@ + whole.0 =~= whole.0);
    while index < end
        invariant
            end == chars@.len(),
            from < index <= end,
            whole == literal_from(chars@, from + 1, quote),
            whole.0 == text@ + literal_from(chars@, index as int, quote).0,
            whole.1 == literal_from(chars@, index as int, quote).1,
        decreases end - index,
    {
        let ghost before = text@;
        if chars[index] == '\\' && index + 1 < end {
            text.push(chars[index + 1]);
            proof {
                let rest = literal_from(chars@, index + 2, quote).0;
                assert(before + (seq![chars@[index + 1]] + rest) =~= text@ + rest);
            }
            index = index + 2;
        } else if chars[index] == quote {
            assert(text@ + Seq::<char>::empty() =~= text@);
            return (text, index + 1);
        } else {
            text.push(chars[index]);
            proof {
                let rest = literal_from(chars@, index + 1, quote).0;
                assert(before + (seq![chars@[index as int]] + rest) =~= text@ + rest);
            }
            index = index + 1;
        }
    }
    assert(text@ + Seq::<char>::empty() =~= text@);
    (text, index)
}

} // verus!
