//! Text as sequences of characters: the small operations the rest of the library is written in.
use vstd::prelude::*;
use vstd::utf8::*;

verus! {

/// `String::push`, which appends one character and changes nothing else.
pub assume_specification[ String::push ](s: &mut String, c: char)
    ensures
        final(s)@ == old(s)@.push(c),
;

/// The characters of a text, in order.
pub fn to_chars(s: &str) -> (v: Vec<char>)
    ensures
        v@ == s@,
{
    let mut v: Vec<char> = Vec::new();
    for c in it: s.chars()
        invariant
            it.seq() == s@,
            v@ == s@.take(it.index() as int),
    {
        v.push(c);
    }
    v
}

/// The text made of the characters from `from` up to `to`.
pub fn slice_text(chars: &[char], from: usize, to: usize) -> (s: String)
    requires
        from <= to <= chars@.len(),
    ensures
        s@ == chars@.subrange(from as int, to as int),
{
    let mut s = String::new();
    let mut i: usize = from;
    while i < to
        invariant
            from <= i <= to <= chars@.len(),
            s@ == chars@.subrange(from as int, i as int),
        decreases to - i,
    {
        s.push(chars[i]);
        i = i + 1;
    }
    s
}

/// Whether two texts hold the same characters.
pub fn same_text(a: &str, b: &str) -> (same: bool)
    ensures
        same == (a@ == b@),
{
    let left = a.as_bytes();
    let right = b.as_bytes();
    if left.len() != right.len() {
        return false;
    }
    let mut i: usize = 0;
    while i < left.len()
        invariant
            i <= left@.len(),
            left@.len() == right@.len(),
            left@ == encode_utf8(a@),
            right@ == encode_utf8(b@),
            forall|j: int| 0 <= j < i ==> left@[j] == right@[j],
        decreases left@.len() - i,
    {
        if left[i] != right[i] {
            return false;
        }
        i = i + 1;
    }
    proof {
        assert(left@ =~= right@);
        encode_utf8_decode_utf8(a@);
        encode_utf8_decode_utf8(b@);
    }
    true
}

/// A copy of a text.
pub fn owned(s: &str) -> (r: String)
    ensures
        r@ == s@,
{
    s.to_owned()
}

/// A copy of an optional text.
pub fn owned_option(s: &Option<String>) -> (r: Option<String>)
    ensures
        r.deep_view() == s.deep_view(),
{
    match s {
        Some(text) => Some(text.clone()),
        None => None,
    }
}

/// A copy of a list of texts.
pub fn owned_list(list: &Vec<String>) -> (r: Vec<String>)
    ensures
        r.deep_view() == list.deep_view(),
{
    let mut r: Vec<String> = Vec::new();
    let mut i: usize = 0;
    while i < list.len()
        invariant
            i <= list@.len(),
            r.deep_view() == list.deep_view().take(i as int),
        decreases list@.len() - i,
    {
        let ghost before = r.deep_view();
        r.push(list[i].clone());
        assert(r.deep_view() =~= before.push(list.deep_view()[i as int]));
        assert(r.deep_view() =~= list.deep_view().take(i + 1));
        i = i + 1;
    }
    r
}

/// Whether two lists hold the same texts in the same order.
pub fn list_same(a: &Vec<String>, b: &Vec<String>) -> (same: bool)
    ensures
        same == (a.deep_view() == b.deep_view()),
{
    if a.len() != b.len() {
        assert(a.deep_view().len() != b.deep_view().len());
        return false;
    }
    let mut i: usize = 0;
    while i < a.len()
        invariant
            i <= a@.len(),
            a@.len() == b@.len(),
            forall|j: int| 0 <= j < i ==> a.deep_view()[j] == b.deep_view()[j],
        decreases a@.len() - i,
    {
        if !same_text(a[i].as_str(), b[i].as_str()) {
            assert(a.deep_view()[i as int] != b.deep_view()[i as int]);
            return false;
        }
        i = i + 1;
    }
    assert(a.deep_view() =~= b.deep_view());
    true
}

/// Whether a list of texts holds the text given.
pub fn list_holds(list: &Vec<String>, wanted: &str) -> (held: bool)
    ensures
        held == list.deep_view().contains(wanted@),
{
    let mut i: usize = 0;
    while i < list.len()
        invariant
            i <= list@.len(),
            forall|j: int| 0 <= j < i ==> list.deep_view()[j] != wanted@,
        decreases list@.len() - i,
    {
        if same_text(list[i].as_str(), wanted) {
            assert(list.deep_view()[i as int] == wanted@);
            return true;
        }
        i = i + 1;
    }
    false
}

// ---------------------------------------------------------------------------
// White space

/// Unicode's White_Space property.
pub open spec fn is_white_space(c: char) -> bool {
    ||| '\u{9}' <= c <= '\u{d}'
    ||| c == ' '
    ||| c == '\u{85}'
    ||| c == '\u{a0}'
    ||| c == '\u{1680}'
    ||| '\u{2000}' <= c <= '\u{200a}'
    ||| c == '\u{2028}'
    ||| c == '\u{2029}'
    ||| c == '\u{202f}'
    ||| c == '\u{205f}'
    ||| c == '\u{3000}'
}

/// Decides Unicode's White_Space property.
pub fn white_space(c: char) -> (b: bool)
    ensures
        b == is_white_space(c),
{
    ('\u{9}' <= c && c <= '\u{d}') || c == ' ' || c == '\u{85}' || c == '\u{a0}' || c == '\u{1680}'
        || ('\u{2000}' <= c && c <= '\u{200a}') || c == '\u{2028}' || c == '\u{2029}' || c
        == '\u{202f}' || c == '\u{205f}' || c == '\u{3000}'
}

/// A text without the white space it starts with.
pub open spec fn trim_start_of(s: Seq<char>) -> Seq<char>
    decreases s.len(),
{
    if s.len() > 0 && is_white_space(s[0]) {
        trim_start_of(s.drop_first())
    } else {
        s
    }
}

/// A text without the white space it ends with.
pub open spec fn trim_end_of(s: Seq<char>) -> Seq<char>
    decreases s.len(),
{
    if s.len() > 0 && is_white_space(s.last()) {
        trim_end_of(s.drop_last())
    } else {
        s
    }
}

/// A text without white space at either end.
pub open spec fn trimmed(s: Seq<char>) -> Seq<char> {
    trim_end_of(trim_start_of(s))
}

/// Drops the white space a text starts with.
pub fn trim_start<'a>(s: &'a str) -> (r: &'a str)
    ensures
        r@ == trim_start_of(s@),
{
    let chars = to_chars(s);
    let mut from: usize = 0;
    assert(s@.skip(0) =~= s@);
    while from < chars.len() && white_space(chars[from])
        invariant
            from <= chars@.len(),
            chars@ == s@,
            trim_start_of(s@) == trim_start_of(s@.skip(from as int)),
        decreases chars@.len() - from,
    {
        assert(s@.skip(from as int).drop_first() =~= s@.skip(from + 1));
        from = from + 1;
    }
    assert(s@.skip(from as int) =~= s@.subrange(from as int, s@.len() as int));
    s.substring_char(from, chars.len())
}

/// Drops the white space a text ends with.
pub fn trim_end<'a>(s: &'a str) -> (r: &'a str)
    ensures
        r@ == trim_end_of(s@),
{
    let chars = to_chars(s);
    let mut to: usize = chars.len();
    assert(s@.take(to as int) =~= s@);
    while to > 0 && white_space(chars[to - 1])
        invariant
            to <= chars@.len(),
            chars@ == s@,
            trim_end_of(s@) == trim_end_of(s@.take(to as int)),
        decreases to,
    {
        assert(s@.take(to as int).drop_last() =~= s@.take(to - 1));
        to = to - 1;
    }
    assert(s@.take(to as int) =~= s@.subrange(0, to as int));
    s.substring_char(0, to)
}

/// Drops the white space at both ends of a text.
pub fn trim<'a>(s: &'a str) -> (r: &'a str)
    ensures
        r@ == trimmed(s@),
{
    trim_end(trim_start(s))
}

// ---------------------------------------------------------------------------
// Searching

/// Whether `needle` stands in `hay` at position `i`.
pub open spec fn occurs_at<T>(hay: Seq<T>, needle: Seq<T>, i: int) -> bool {
    0 <= i && i + needle.len() <= hay.len() && hay.subrange(i, i + needle.len()) == needle
}

/// The first position at or after `from` where `needle` stands in `hay`.
pub open spec fn find_from<T>(hay: Seq<T>, needle: Seq<T>, from: int) -> Option<int>
    decreases hay.len() + 1 - from,
{
    if from < 0 || from + needle.len() > hay.len() {
        None
    } else if occurs_at(hay, needle, from) {
        Some(from)
    } else {
        find_from(hay, needle, from + 1)
    }
}

/// What a search finds is an occurrence, and the first one.
pub proof fn find_from_is_first<T>(hay: Seq<T>, needle: Seq<T>, from: int)
    requires
        0 <= from,
    ensures
        match find_from(hay, needle, from) {
            Some(i) => from <= i && occurs_at(hay, needle, i) && forall|j: int|
                from <= j < i ==> !#[trigger] occurs_at(hay, needle, j),
            None => forall|j: int| from <= j ==> !#[trigger] occurs_at(hay, needle, j),
        },
    decreases hay.len() + 1 - from,
{
    if from + needle.len() > hay.len() {
    } else if occurs_at(hay, needle, from) {
    } else {
        find_from_is_first(hay, needle, from + 1);
    }
}

/// The first position at or after `from` that holds `x`.
pub open spec fn position_from<T>(s: Seq<T>, x: T, from: int) -> Option<int>
    decreases s.len() - from,
{
    if from < 0 || from >= s.len() {
        None
    } else if s[from] == x {
        Some(from)
    } else {
        position_from(s, x, from + 1)
    }
}

/// The last position before `to` that holds `x`.
pub open spec fn last_position_before<T>(s: Seq<T>, x: T, to: int) -> Option<int>
    decreases to,
{
    if to <= 0 || to > s.len() {
        None
    } else if s[to - 1] == x {
        Some(to - 1)
    } else {
        last_position_before(s, x, to - 1)
    }
}

/// Whether the characters from `at` on start with `needle`.
pub fn chars_match_at(hay: &[char], needle: &[char], at: usize) -> (b: bool)
    requires
        at <= hay@.len(),
    ensures
        b == occurs_at(hay@, needle@, at as int),
{
    let end: usize = hay.len();
    if end - at < needle.len() {
        return false;
    }
    let mut i: usize = 0;
    while i < needle.len()
        invariant
            i <= needle@.len(),
            end == hay@.len(),
            at + needle@.len() <= end,
            forall|j: int| 0 <= j < i ==> hay@[at + j] == needle@[j],
        decreases needle@.len() - i,
    {
        if hay[at + i] != needle[i] {
            proof {
                let sub = hay@.subrange(at as int, at + needle@.len());
                assert(sub[i as int] != needle@[i as int]);
            }
            return false;
        }
        i = i + 1;
    }
    assert(hay@.subrange(at as int, at + needle@.len()) =~= needle@);
    true
}

/// The first position at or after `from` where `needle` stands in `hay`.
pub fn find_chars(hay: &[char], needle: &[char], from: usize) -> (r: Option<usize>)
    requires
        from <= hay@.len(),
    ensures
        match r {
            Some(i) => find_from(hay@, needle@, from as int) == Some(i as int) && from <= i && i
                + needle@.len() <= hay@.len(),
            None => find_from(hay@, needle@, from as int) is None,
        },
{
    let end: usize = hay.len();
    let mut i: usize = from;
    while needle.len() <= end - i
        invariant
            from <= i <= end,
            end == hay@.len(),
            find_from(hay@, needle@, from as int) == find_from(hay@, needle@, i as int),
        decreases end - i,
    {
        if chars_match_at(hay, needle, i) {
            return Some(i);
        }
        if i == end {
            assert(find_from(hay@, needle@, i + 1) is None);
            return None;
        }
        i = i + 1;
    }
    None
}

/// The first position at or after `from` that holds `c`.
pub fn find_char(s: &[char], c: char, from: usize) -> (r: Option<usize>)
    ensures
        match r {
            Some(i) => position_from(s@, c, from as int) == Some(i as int) && from <= i < s@.len()
                && i < usize::MAX && s@[i as int] == c,
            None => position_from(s@, c, from as int) is None,
        },
{
    let mut i: usize = from;
    while i < s.len()
        invariant
            from <= i,
            position_from(s@, c, from as int) == position_from(s@, c, i as int),
        decreases s@.len() - i,
    {
        if s[i] == c {
            return Some(i);
        }
        i = i + 1;
    }
    None
}

/// The last position that holds `c`.
pub fn rfind_char(s: &[char], c: char) -> (r: Option<usize>)
    ensures
        match r {
            Some(i) => last_position_before(s@, c, s@.len() as int) == Some(i as int) && i
                < s@.len() && i < usize::MAX && s@[i as int] == c,
            None => last_position_before(s@, c, s@.len() as int) is None,
        },
{
    let mut i: usize = s.len();
    while i > 0
        invariant
            i <= s@.len(),
            last_position_before(s@, c, s@.len() as int) == last_position_before(s@, c, i as int),
        decreases i,
    {
        if s[i - 1] == c {
            return Some(i - 1);
        }
        i = i - 1;
    }
    None
}

/// Whether `s` starts with `prefix`.
pub open spec fn starts_with<T>(s: Seq<T>, prefix: Seq<T>) -> bool {
    occurs_at(s, prefix, 0)
}

/// Whether `s` ends with `suffix`.
pub open spec fn ends_with<T>(s: Seq<T>, suffix: Seq<T>) -> bool {
    occurs_at(s, suffix, s.len() - suffix.len())
}

/// Whether `hay` holds `needle` anywhere.
pub open spec fn holds<T>(hay: Seq<T>, needle: Seq<T>) -> bool {
    find_from(hay, needle, 0) is Some
}

/// Decides whether `s` starts with `prefix`.
pub fn has_prefix(s: &str, prefix: &str) -> (b: bool)
    ensures
        b == starts_with(s@, prefix@),
{
    let hay = to_chars(s);
    let needle = to_chars(prefix);
    chars_match_at(&hay, &needle, 0)
}

/// Decides whether `s` ends with `suffix`.
pub fn has_suffix(s: &str, suffix: &str) -> (b: bool)
    ensures
        b == ends_with(s@, suffix@),
{
    let hay = to_chars(s);
    let needle = to_chars(suffix);
    if needle.len() > hay.len() {
        return false;
    }
    chars_match_at(&hay, &needle, hay.len() - needle.len())
}

/// Decides whether `hay` holds `needle`.
pub fn contains_text(hay: &str, needle: &str) -> (b: bool)
    ensures
        b == holds(hay@, needle@),
{
    let h = to_chars(hay);
    let n = to_chars(needle);
    match find_chars(&h, &n, 0) {
        Some(_) => true,
        None => false,
    }
}

/// What follows `prefix` in `s`, where `s` starts with it.
pub open spec fn without_prefix(s: Seq<char>, prefix: Seq<char>) -> Option<Seq<char>> {
    if starts_with(s, prefix) {
        Some(s.skip(prefix.len() as int))
    } else {
        None
    }
}

/// What stands before `suffix` in `s`, where `s` ends with it.
pub open spec fn without_suffix(s: Seq<char>, suffix: Seq<char>) -> Option<Seq<char>> {
    if ends_with(s, suffix) {
        Some(s.take(s.len() - suffix.len()))
    } else {
        None
    }
}

/// `str::strip_prefix` for a text.
pub fn strip_prefix<'a>(s: &'a str, prefix: &str) -> (r: Option<&'a str>)
    ensures
        r.deep_view() == without_prefix(s@, prefix@),
{
    if has_prefix(s, prefix) {
        let from = prefix.unicode_len();
        let to = s.unicode_len();
        assert(s@.skip(from as int) =~= s@.subrange(from as int, to as int));
        Some(s.substring_char(from, to))
    } else {
        None
    }
}

/// `str::strip_suffix` for a text.
pub fn strip_suffix<'a>(s: &'a str, suffix: &str) -> (r: Option<&'a str>)
    ensures
        r.deep_view() == without_suffix(s@, suffix@),
{
    if has_suffix(s, suffix) {
        let to = s.unicode_len() - suffix.unicode_len();
        assert(s@.take(to as int) =~= s@.subrange(0, to as int));
        Some(s.substring_char(0, to))
    } else {
        None
    }
}

// ---------------------------------------------------------------------------
// Bytes

/// Whether the bytes from `at` on start with `needle`.
pub fn bytes_match_at(hay: &[u8], needle: &[u8], at: usize) -> (b: bool)
    requires
        at <= hay@.len(),
    ensures
        b == occurs_at(hay@, needle@, at as int),
{
    let end: usize = hay.len();
    if end - at < needle.len() {
        return false;
    }
    let mut i: usize = 0;
    while i < needle.len()
        invariant
            i <= needle@.len(),
            end == hay@.len(),
            at + needle@.len() <= end,
            forall|j: int| 0 <= j < i ==> hay@[at + j] == needle@[j],
        decreases needle@.len() - i,
    {
        if hay[at + i] != needle[i] {
            proof {
                let sub = hay@.subrange(at as int, at + needle@.len());
                assert(sub[i as int] != needle@[i as int]);
            }
            return false;
        }
        i = i + 1;
    }
    assert(hay@.subrange(at as int, at + needle@.len()) =~= needle@);
    true
}

/// The first position at or after `from` where `needle` stands in `hay`.
pub fn find_bytes_from(hay: &[u8], needle: &[u8], from: usize) -> (r: Option<usize>)
    requires
        from <= hay@.len(),
    ensures
        match r {
            Some(i) => find_from(hay@, needle@, from as int) == Some(i as int) && from <= i && i
                + needle@.len() <= hay@.len(),
            None => find_from(hay@, needle@, from as int) is None,
        },
{
    let end: usize = hay.len();
    let mut i: usize = from;
    while needle.len() <= end - i
        invariant
            from <= i <= end,
            end == hay@.len(),
            find_from(hay@, needle@, from as int) == find_from(hay@, needle@, i as int),
        decreases end - i,
    {
        if bytes_match_at(hay, needle, i) {
            return Some(i);
        }
        if i == end {
            assert(find_from(hay@, needle@, i + 1) is None);
            return None;
        }
        i = i + 1;
    }
    None
}

/// The first position at or after `from` that holds `b`.
pub fn find_byte(s: &[u8], b: u8, from: usize) -> (r: Option<usize>)
    ensures
        match r {
            Some(i) => position_from(s@, b, from as int) == Some(i as int) && from <= i < s@.len()
                && i < usize::MAX && s@[i as int] == b,
            None => position_from(s@, b, from as int) is None,
        },
{
    let mut i: usize = from;
    while i < s.len()
        invariant
            from <= i,
            position_from(s@, b, from as int) == position_from(s@, b, i as int),
        decreases s@.len() - i,
    {
        if s[i] == b {
            return Some(i);
        }
        i = i + 1;
    }
    None
}

/// What `String::from_utf8` says of bytes that are not valid UTF-8.
pub uninterp spec fn utf8_problem(bytes: Seq<u8>) -> Seq<char>;

/// `String::from_utf8`: bytes that are valid UTF-8 become the text they encode, and others are
/// refused. What is said of those is left to the standard library.
#[verifier::external_body]
pub(crate) fn text_from_utf8(bytes: Vec<u8>) -> (r: Result<String, String>)
    ensures
        match r {
            Ok(text) => encode_utf8(text@) == bytes@,
            Err(problem) => !valid_utf8(bytes@) && problem@ == utf8_problem(bytes@),
        },
{
    String::from_utf8(bytes).map_err(|error| error.to_string())
}

/// In valid UTF-8 an ASCII byte is a character of its own.
pub proof fn ascii_byte_is_a_character(bytes: Seq<u8>, j: int)
    requires
        valid_utf8(bytes),
        0 <= j < bytes.len(),
        bytes[j] < 0x80,
    ensures
        is_char_boundary(bytes, j),
        is_char_boundary(bytes, j + 1),
    decreases bytes.len(),
{
    let b = bytes[j];
    assert(is_leading_byte_width_1(b) && !is_continuation_byte(b)) by {
        broadcast use utf8_byte_ranges_bitwise;

        assert(is_leading_byte_width_1(b) || !is_leading_byte_width_1(b));
    }
    is_char_boundary_iff_not_is_continuation_byte(bytes, j);
    let rest = pop_first_scalar(bytes);
    let first = length_of_first_scalar(bytes);
    if j == 0 {
        assert(is_char_boundary(rest, 0));
    } else {
        assert(is_char_boundary(rest, j - first));
        assert(j >= first) by {
            if j < first {
                reveal_with_fuel(is_char_boundary, 2);
            }
        }
        assert(rest[j - first] == bytes[j]);
        ascii_byte_is_a_character(rest, j - first);
    }
}

/// Bytes that are all ASCII are valid UTF-8.
pub proof fn ascii_is_valid_utf8(bytes: Seq<u8>)
    requires
        forall|k: int| 0 <= k < bytes.len() ==> #[trigger] bytes[k] < 0x80,
    ensures
        valid_utf8(bytes),
    decreases bytes.len(),
{
    if bytes.len() > 0 {
        let b = bytes[0];
        assert(is_leading_byte_width_1(b)) by {
            broadcast use utf8_byte_ranges_bitwise;

            assert(is_leading_byte_width_1(b) || !is_leading_byte_width_1(b));
        }
        assert(b & 0x7F < 0x80) by (bit_vector);
        let rest = pop_first_scalar(bytes);
        assert forall|k: int| 0 <= k < rest.len() implies #[trigger] rest[k] < 0x80 by {
            assert(rest[k] == bytes[k + 1]);
        }
        ascii_is_valid_utf8(rest);
    }
}

/// The text between two character boundaries.
pub fn slice_bytes<'a>(s: &'a str, from: usize, to: usize) -> (r: &'a str)
    requires
        from <= to <= encode_utf8(s@).len(),
        is_char_boundary(encode_utf8(s@), from as int),
        is_char_boundary(encode_utf8(s@), to as int),
    ensures
        r@ == decode_utf8(encode_utf8(s@).subrange(from as int, to as int)),
        encode_utf8(r@) == encode_utf8(s@).subrange(from as int, to as int),
{
    let ghost bytes = encode_utf8(s@);
    proof {
        encode_utf8_valid_utf8(s@);
    }
    let (head, _) = s.split_at(to);
    proof {
        boundary_in_prefix(bytes, from as int, to as int);
    }
    let (_, middle) = head.split_at(from);
    proof {
        assert(encode_utf8(middle@) =~= bytes.subrange(from as int, to as int));
        encode_utf8_decode_utf8(middle@);
    }
    middle
}

/// A boundary of a text is a boundary of each prefix that ends at a boundary.
proof fn boundary_in_prefix(bytes: Seq<u8>, from: int, to: int)
    requires
        valid_utf8(bytes),
        0 <= from <= to <= bytes.len(),
        is_char_boundary(bytes, from),
        is_char_boundary(bytes, to),
    ensures
        valid_utf8(bytes.subrange(0, to)),
        is_char_boundary(bytes.subrange(0, to), from),
{
    valid_utf8_split(bytes, to);
    let prefix = bytes.subrange(0, to);
    if from == to {
        is_char_boundary_start_end_of_seq(prefix);
    } else {
        assert(prefix[from] == bytes[from]);
        is_char_boundary_iff_not_is_continuation_byte(bytes, from);
        is_char_boundary_iff_not_is_continuation_byte(prefix, from);
    }
}

// ---------------------------------------------------------------------------
// Splitting and joining

/// The parts of a text between the separators it holds.
pub open spec fn split_on(s: Seq<char>, c: char) -> Seq<Seq<char>>
    decreases s.len(),
{
    match position_from(s, c, 0) {
        Some(i) => if 0 <= i < s.len() {
            seq![s.take(i)] + split_on(s.skip(i + 1), c)
        } else {
            seq![s]
        },
        None => seq![s],
    }
}

pub proof fn position_from_skip<T>(s: Seq<T>, x: T, cut: int, from: int)
    requires
        0 <= from,
        0 <= cut <= s.len(),
    ensures
        position_from(s.skip(cut), x, from) == (match position_from(s, x, cut + from) {
            Some(i) => Some(i - cut),
            None => None,
        }),
    decreases s.len() - cut - from,
{
    if cut + from < s.len() && s[cut + from] != x {
        position_from_skip(s, x, cut, from + 1);
    }
}

/// Splits a text at every separator.
pub fn split(s: &str, c: char) -> (parts: Vec<String>)
    ensures
        parts.deep_view() == split_on(s@, c),
{
    let chars = to_chars(s);
    let mut parts: Vec<String> = Vec::new();
    let mut from: usize = 0;
    assert(s@.skip(0) =~= s@);
    assert(parts.deep_view() =~= Seq::empty());
    let end: usize = chars.len();
    assert(parts.deep_view() + split_on(s@, c) =~= split_on(s@, c));
    loop
        invariant
            from <= end,
            end == chars@.len(),
            chars@ == s@,
            split_on(s@, c) == parts.deep_view() + split_on(s@.skip(from as int), c),
        decreases chars@.len() - from,
    {
        let ghost before = parts.deep_view();
        let ghost rest = s@.skip(from as int);
        proof {
            position_from_skip(s@, c, from as int, 0);
        }
        match find_char(&chars, c, from) {
            Some(cut) => {
                parts.push(slice_text(&chars, from, cut));
                proof {
                    assert(rest.take(cut - from) =~= s@.subrange(from as int, cut as int));
                    assert(rest.skip(cut - from + 1) =~= s@.skip(cut + 1));
                    assert(parts.deep_view() =~= before.push(s@.subrange(from as int, cut as int)));
                    assert(before + (seq![rest.take(cut - from)] + split_on(s@.skip(cut + 1), c))
                        =~= parts.deep_view() + split_on(s@.skip(cut + 1), c));
                }
                from = cut + 1;
            },
            None => {
                parts.push(slice_text(&chars, from, chars.len()));
                proof {
                    assert(rest =~= s@.subrange(from as int, s@.len() as int));
                    assert(parts.deep_view() =~= before.push(rest));
                    assert(before + seq![rest] =~= parts.deep_view());
                }
                return parts;
            },
        }
    }
}

/// A text split at the first separator it holds.
pub open spec fn split_once_on(s: Seq<char>, c: char) -> Option<(Seq<char>, Seq<char>)> {
    match position_from(s, c, 0) {
        Some(i) => Some((s.take(i), s.skip(i + 1))),
        None => None,
    }
}

/// Splits a text at the first separator.
pub fn split_once(s: &str, c: char) -> (r: Option<(String, String)>)
    ensures
        r.deep_view() == split_once_on(s@, c),
{
    let chars = to_chars(s);
    match find_char(&chars, c, 0) {
        Some(i) => {
            assert(s@.take(i as int) =~= s@.subrange(0, i as int));
            assert(s@.skip(i + 1) =~= s@.subrange(i + 1, s@.len() as int));
            Some((slice_text(&chars, 0, i), slice_text(&chars, i + 1, chars.len())))
        },
        None => None,
    }
}

/// A text split at the last separator it holds.
pub open spec fn rsplit_once_on(s: Seq<char>, c: char) -> Option<(Seq<char>, Seq<char>)> {
    match last_position_before(s, c, s.len() as int) {
        Some(i) => Some((s.take(i), s.skip(i + 1))),
        None => None,
    }
}

/// Splits a text at the last separator.
pub fn rsplit_once(s: &str, c: char) -> (r: Option<(String, String)>)
    ensures
        r.deep_view() == rsplit_once_on(s@, c),
{
    let chars = to_chars(s);
    match rfind_char(&chars, c) {
        Some(i) => {
            assert(s@.take(i as int) =~= s@.subrange(0, i as int));
            assert(s@.skip(i + 1) =~= s@.subrange(i + 1, s@.len() as int));
            Some((slice_text(&chars, 0, i), slice_text(&chars, i + 1, chars.len())))
        },
        None => None,
    }
}

/// A text split at the first place where a separator stands in it.
pub open spec fn split_at_text(s: Seq<char>, sep: Seq<char>) -> Option<(Seq<char>, Seq<char>)> {
    match find_from(s, sep, 0) {
        Some(i) => Some((s.take(i), s.skip(i + sep.len()))),
        None => None,
    }
}

/// Splits a text at the first place where a separator stands in it.
pub fn split_text(s: &str, sep: &str) -> (r: Option<(String, String)>)
    ensures
        r.deep_view() == split_at_text(s@, sep@),
{
    let chars = to_chars(s);
    let needle = to_chars(sep);
    let end: usize = chars.len();
    match find_chars(&chars, &needle, 0) {
        Some(i) => {
            assert(i + needle@.len() <= end);
            let after: usize = i + needle.len();
            assert(s@.take(i as int) =~= s@.subrange(0, i as int));
            assert(s@.skip(after as int) =~= s@.subrange(after as int, s@.len() as int));
            Some((slice_text(&chars, 0, i), slice_text(&chars, after, chars.len())))
        },
        None => None,
    }
}

/// A text without a suffix, however often it ends with it.
pub open spec fn without_suffixes(s: Seq<char>, suffix: Seq<char>) -> Seq<char>
    decreases s.len(),
{
    if suffix.len() > 0 && ends_with(s, suffix) {
        without_suffixes(s.take(s.len() - suffix.len()), suffix)
    } else {
        s
    }
}

/// Drops a suffix, however often a text ends with it.
pub fn trim_suffixes(s: &str, suffix: &str) -> (r: String)
    ensures
        r@ == without_suffixes(s@, suffix@),
{
    let mut rest = s.to_owned();
    if suffix.is_empty() {
        return rest;
    }
    loop
        invariant
            suffix@.len() > 0,
            without_suffixes(s@, suffix@) == without_suffixes(rest@, suffix@),
        decreases rest@.len(),
    {
        let shorter = match strip_suffix(rest.as_str(), suffix) {
            Some(shorter) => shorter.to_owned(),
            None => {
                return rest;
            },
        };
        rest = shorter;
    }
}

/// What stands before the first `c` of a text, all of it where there is none.
pub open spec fn before_first(s: Seq<char>, c: char) -> Seq<char> {
    match position_from(s, c, 0) {
        Some(i) => s.take(i),
        None => s,
    }
}

/// What stands before the first `c` of a text.
pub fn up_to(s: &str, c: char) -> (r: String)
    ensures
        r@ == before_first(s@, c),
{
    match split_once(s, c) {
        Some((before, _)) => before,
        None => s.to_owned(),
    }
}

/// A line without the carriage return it ends with.
pub open spec fn without_return(s: Seq<char>) -> Seq<char> {
    if s.len() > 0 && s.last() == '\r' {
        s.drop_last()
    } else {
        s
    }
}

/// The lines of a text: what stands before each line feed, without a carriage return before it,
/// and what follows the last line feed where anything does.
pub open spec fn lines_of(s: Seq<char>) -> Seq<Seq<char>>
    decreases s.len(),
{
    if s.len() == 0 {
        Seq::empty()
    } else {
        match position_from(s, '\n', 0) {
            Some(i) => if 0 <= i < s.len() {
                seq![without_return(s.take(i))] + lines_of(s.skip(i + 1))
            } else {
                seq![s]
            },
            None => seq![s],
        }
    }
}

/// Splits a text into its lines.
pub fn lines(s: &str) -> (parts: Vec<String>)
    ensures
        parts.deep_view() == lines_of(s@),
{
    let chars = to_chars(s);
    let mut parts: Vec<String> = Vec::new();
    let mut from: usize = 0;
    assert(s@.skip(0) =~= s@);
    let end: usize = chars.len();
    assert(parts.deep_view() + lines_of(s@) =~= lines_of(s@));
    while from < end
        invariant
            from <= end,
            end == chars@.len(),
            chars@ == s@,
            lines_of(s@) == parts.deep_view() + lines_of(s@.skip(from as int)),
        decreases chars@.len() - from,
    {
        let ghost before = parts.deep_view();
        let ghost rest = s@.skip(from as int);
        proof {
            position_from_skip(s@, '\n', from as int, 0);
        }
        match find_char(&chars, '\n', from) {
            Some(cut) => {
                let to: usize = if cut > from && chars[cut - 1] == '\r' {
                    cut - 1
                } else {
                    cut
                };
                parts.push(slice_text(&chars, from, to));
                proof {
                    let line = rest.take(cut - from);
                    assert(line =~= s@.subrange(from as int, cut as int));
                    assert(without_return(line) =~= s@.subrange(from as int, to as int));
                    assert(rest.skip(cut - from + 1) =~= s@.skip(cut + 1));
                    assert(parts.deep_view() =~= before.push(without_return(line)));
                    assert(before + (seq![without_return(line)] + lines_of(s@.skip(cut + 1)))
                        =~= parts.deep_view() + lines_of(s@.skip(cut + 1)));
                }
                from = cut + 1;
            },
            None => {
                parts.push(slice_text(&chars, from, chars.len()));
                proof {
                    assert(rest =~= s@.subrange(from as int, s@.len() as int));
                    assert(parts.deep_view() =~= before.push(rest));
                    assert(before + seq![rest] =~= parts.deep_view());
                }
                return parts;
            },
        }
    }
    assert(s@.skip(from as int) =~= Seq::empty());
    assert(parts.deep_view() + Seq::<Seq<char>>::empty() =~= parts.deep_view());
    parts
}

/// The texts one after another, with the separator between each two.
pub open spec fn joined(parts: Seq<Seq<char>>, sep: Seq<char>) -> Seq<char>
    decreases parts.len(),
{
    if parts.len() == 0 {
        Seq::empty()
    } else if parts.len() == 1 {
        parts[0]
    } else {
        joined(parts.drop_last(), sep) + sep + parts.last()
    }
}

/// Joins texts with a separator.
pub fn join(parts: &Vec<String>, sep: &str) -> (r: String)
    ensures
        r@ == joined(parts.deep_view(), sep@),
{
    let mut r = String::new();
    let mut i: usize = 0;
    assert(parts.deep_view().take(0) =~= Seq::empty());
    while i < parts.len()
        invariant
            i <= parts@.len(),
            r@ == joined(parts.deep_view().take(i as int), sep@),
        decreases parts@.len() - i,
    {
        let ghost upto = parts.deep_view().take(i + 1);
        assert(upto.drop_last() =~= parts.deep_view().take(i as int));
        assert(upto.last() == parts.deep_view()[i as int]);
        if i > 0 {
            r.append(sep);
        }
        r.append(parts[i].as_str());
        assert(i == 0 ==> r@ =~= upto[0]);
        i = i + 1;
    }
    assert(parts.deep_view().take(i as int) =~= parts.deep_view());
    r
}

// ---------------------------------------------------------------------------
// Case

/// A character with the twenty-six capital letters of ASCII made small.
pub open spec fn ascii_lower(c: char) -> char {
    if 'A' <= c <= 'Z' {
        ((c as u32 + 32) as u32) as char
    } else {
        c
    }
}

/// A text with the capital letters of ASCII made small.
pub open spec fn ascii_lowercase(s: Seq<char>) -> Seq<char> {
    s.map_values(|c: char| ascii_lower(c))
}

/// Makes one capital letter of ASCII small.
pub fn lower_char(c: char) -> (r: char)
    ensures
        r == ascii_lower(c),
{
    if 'A' <= c && c <= 'Z' {
        let code: u8 = (c as u8) + 32;
        code as char
    } else {
        c
    }
}

/// `str::to_ascii_lowercase`.
pub fn to_ascii_lower(s: &str) -> (r: String)
    ensures
        r@ == ascii_lowercase(s@),
{
    let mut r = String::new();
    for c in it: s.chars()
        invariant
            it.seq() == s@,
            r@ == ascii_lowercase(s@.take(it.index() as int)),
    {
        r.push(lower_char(c));
        assert(r@ =~= ascii_lowercase(s@.take(it.index() + 1)));
    }
    assert(s@.take(s@.len() as int) =~= s@);
    r
}

/// A text in small letters, by Unicode's tables.
pub uninterp spec fn unicode_lowercase(s: Seq<char>) -> Seq<char>;

/// A text in small letters: one that is all ASCII has its capital letters made small, and Unicode's
/// tables tell the rest.
pub open spec fn lowercase(s: Seq<char>) -> Seq<char> {
    if is_ascii_chars(s) {
        ascii_lowercase(s)
    } else {
        unicode_lowercase(s)
    }
}

/// `str::to_lowercase`. Beyond ASCII it follows Unicode's tables, of which nothing is claimed but
/// that they answer the same for the same text; a text that is all ASCII has its capital letters
/// made small and nothing else changed.
#[verifier::external_body]
pub(crate) fn to_lower(s: &str) -> (r: String)
    ensures
        r@ == unicode_lowercase(s@),
        is_ascii_chars(s@) ==> r@ == ascii_lowercase(s@),
{
    s.to_lowercase()
}

/// A text with every `from` replaced by `to`.
pub open spec fn replaced_char(s: Seq<char>, from: char, to: char) -> Seq<char> {
    s.map_values(
        |c: char|
            if c == from {
                to
            } else {
                c
            },
    )
}

/// Replaces one character by another.
pub fn replace_char(s: &str, from: char, to: char) -> (r: String)
    ensures
        r@ == replaced_char(s@, from, to),
{
    let mut r = String::new();
    for c in it: s.chars()
        invariant
            it.seq() == s@,
            r@ == replaced_char(s@.take(it.index() as int), from, to),
    {
        r.push(
            if c == from {
                to
            } else {
                c
            },
        );
        assert(r@ =~= replaced_char(s@.take(it.index() + 1), from, to));
    }
    assert(s@.take(s@.len() as int) =~= s@);
    r
}

// ---------------------------------------------------------------------------
// Order

/// Whether one text comes before another in the order of their characters' code points.
pub open spec fn comes_before(a: Seq<char>, b: Seq<char>) -> bool
    decreases a.len(),
{
    if b.len() == 0 {
        false
    } else if a.len() == 0 {
        true
    } else if a[0] == b[0] {
        comes_before(a.skip(1), b.skip(1))
    } else {
        a[0] < b[0]
    }
}

/// Decides the order of two texts.
pub fn text_before(a: &str, b: &str) -> (r: bool)
    ensures
        r == comes_before(a@, b@),
{
    let left = to_chars(a);
    let right = to_chars(b);
    let mut i: usize = 0;
    assert(a@.skip(0) =~= a@);
    assert(b@.skip(0) =~= b@);
    while i < left.len() && i < right.len() && left[i] == right[i]
        invariant
            i <= left@.len(),
            i <= right@.len(),
            left@ == a@,
            right@ == b@,
            comes_before(a@, b@) == comes_before(a@.skip(i as int), b@.skip(i as int)),
        decreases left@.len() - i,
    {
        assert(a@.skip(i as int).skip(1) =~= a@.skip(i + 1));
        assert(b@.skip(i as int).skip(1) =~= b@.skip(i + 1));
        i = i + 1;
    }
    if i >= right.len() {
        false
    } else if i >= left.len() {
        true
    } else {
        left[i] < right[i]
    }
}

/// A sorted list with one more text in its place, after those equal to it.
pub open spec fn inserted(sorted: Seq<Seq<char>>, x: Seq<char>) -> Seq<Seq<char>>
    decreases sorted.len(),
{
    if sorted.len() > 0 && comes_before(x, sorted.last()) {
        inserted(sorted.drop_last(), x).push(sorted.last())
    } else {
        sorted.push(x)
    }
}

/// The texts of a list in order.
pub open spec fn sorted_texts(list: Seq<Seq<char>>) -> Seq<Seq<char>>
    decreases list.len(),
{
    if list.len() == 0 {
        Seq::empty()
    } else {
        inserted(sorted_texts(list.drop_last()), list.last())
    }
}

proof fn inserted_at(sorted: Seq<Seq<char>>, x: Seq<char>, at: int)
    requires
        0 <= at <= sorted.len(),
        at == 0 || !comes_before(x, sorted[at - 1]),
        forall|k: int| at <= k < sorted.len() ==> comes_before(x, #[trigger] sorted[k]),
    ensures
        inserted(sorted, x) == sorted.insert(at, x),
    decreases sorted.len(),
{
    if at == sorted.len() {
        assert(sorted.insert(at, x) =~= sorted.push(x));
    } else {
        let shorter = sorted.drop_last();
        assert(sorted[sorted.len() - 1] == sorted.last());
        inserted_at(shorter, x, at);
        assert(sorted.insert(at, x) =~= shorter.insert(at, x).push(sorted.last()));
    }
}

/// Sorts texts by the code points of their characters, as `<[String]>::sort` does.
pub fn sort_texts(list: &Vec<String>) -> (r: Vec<String>)
    ensures
        r.deep_view() == sorted_texts(list.deep_view()),
{
    let ghost all = list.deep_view();
    let mut r: Vec<String> = Vec::new();
    let mut i: usize = 0;
    assert(all.take(0) =~= Seq::empty());
    assert(r.deep_view() =~= sorted_texts(all.take(0)));
    while i < list.len()
        invariant
            i <= list@.len(),
            all == list.deep_view(),
            r.deep_view() == sorted_texts(all.take(i as int)),
        decreases list@.len() - i,
    {
        let ghost before = r.deep_view();
        let x = list[i].as_str();
        let mut at: usize = r.len();
        while at > 0 && text_before(x, r[at - 1].as_str())
            invariant
                at <= r@.len(),
                before == r.deep_view(),
                forall|k: int| at <= k < before.len() ==> comes_before(x@, #[trigger] before[k]),
            decreases at,
        {
            assert(before[at - 1] == r@[at - 1]@);
            at = at - 1;
        }
        proof {
            assert(at > 0 ==> before[at - 1] == r@[at - 1]@);
            inserted_at(before, x@, at as int);
            assert(all.take(i + 1).drop_last() =~= all.take(i as int));
            assert(all.take(i + 1).last() == x@);
        }
        r.insert(at, list[i].clone());
        assert(r.deep_view() =~= before.insert(at as int, x@));
        i = i + 1;
    }
    assert(all.take(i as int) =~= all);
    r
}

/// The order of texts is a strict total order.
pub proof fn text_order_is_total(a: Seq<char>, b: Seq<char>, c: Seq<char>)
    ensures
        !comes_before(a, a),
        comes_before(a, b) || comes_before(b, a) || a == b,
        comes_before(a, b) ==> !comes_before(b, a),
        comes_before(a, b) && comes_before(b, c) ==> comes_before(a, c),
        !comes_before(b, a) && !comes_before(c, b) ==> !comes_before(c, a),
    decreases a.len(),
{
    if a.len() > 0 {
        text_order_is_total(a.skip(1), a.skip(1), a.skip(1));
    }
    if a.len() > 0 && b.len() > 0 && a[0] == b[0] {
        text_order_is_total(a.skip(1), b.skip(1), b.skip(1));
        if a.skip(1) == b.skip(1) {
            assert(a =~= b) by {
                assert forall|k: int| 0 <= k < a.len() implies a[k] == b[k] by {
                    if k > 0 {
                        assert(a.skip(1)[k - 1] == b.skip(1)[k - 1]);
                    }
                }
            }
        }
    }
    if a.len() == 0 && b.len() == 0 {
        assert(a =~= b);
    }
    if a.len() > 0 && b.len() > 0 && c.len() > 0 && a[0] == b[0] && b[0] == c[0] {
        text_order_is_total(a.skip(1), b.skip(1), c.skip(1));
    }
}

/// Whether a list of texts is in order.
pub open spec fn texts_in_order(list: Seq<Seq<char>>) -> bool {
    forall|i: int, j: int|
        0 <= i < j < list.len() ==> !comes_before(#[trigger] list[j], #[trigger] list[i])
}

proof fn inserting_keeps_order(sorted: Seq<Seq<char>>, x: Seq<char>)
    requires
        texts_in_order(sorted),
    ensures
        texts_in_order(inserted(sorted, x)),
        inserted(sorted, x).len() == sorted.len() + 1,
        inserted(sorted, x).to_multiset() == sorted.to_multiset().insert(x),
        forall|k: int|
            0 <= k < inserted(sorted, x).len() ==> inserted(sorted, x)[k] == x || sorted.contains(
                #[trigger] inserted(sorted, x)[k],
            ),
    decreases sorted.len(),
{
    broadcast use vstd::seq_lib::group_to_multiset_ensures;

    let all = inserted(sorted, x);
    if sorted.len() > 0 && comes_before(x, sorted.last()) {
        let shorter = sorted.drop_last();
        assert forall|i: int, j: int| 0 <= i < j < shorter.len() implies !comes_before(
            #[trigger] shorter[j],
            #[trigger] shorter[i],
        ) by {
            assert(shorter[i] == sorted[i] && shorter[j] == sorted[j]);
        }
        inserting_keeps_order(shorter, x);
        let rest = inserted(shorter, x);
        assert forall|i: int, j: int| 0 <= i < j < all.len() implies !comes_before(
            #[trigger] all[j],
            #[trigger] all[i],
        ) by {
            assert(all[i] == rest[i]);
            if j < rest.len() {
                assert(all[j] == rest[j]);
            } else {
                text_order_is_total(x, sorted.last(), x);
                if rest[i] != x {
                    let k = choose|k: int| 0 <= k < shorter.len() && shorter[k] == rest[i];
                    assert(sorted[k] == rest[i]);
                    assert(sorted[sorted.len() - 1] == sorted.last());
                }
            }
        }
        assert forall|k: int| 0 <= k < all.len() implies all[k] == x || sorted.contains(
            #[trigger] all[k],
        ) by {
            if k < rest.len() {
                assert(all[k] == rest[k]);
                if rest[k] != x {
                    let m = choose|m: int| 0 <= m < shorter.len() && shorter[m] == rest[k];
                    assert(sorted[m] == rest[k]);
                }
            } else {
                assert(sorted[sorted.len() - 1] == all[k]);
            }
        }
        assert(sorted =~= shorter.push(sorted.last()));
        assert(all.to_multiset() =~= sorted.to_multiset().insert(x));
    } else {
        assert forall|i: int, j: int| 0 <= i < j < all.len() implies !comes_before(
            #[trigger] all[j],
            #[trigger] all[i],
        ) by {
            if j < sorted.len() {
                assert(all[i] == sorted[i] && all[j] == sorted[j]);
            } else {
                assert(all[i] == sorted[i]);
                let last = sorted.last();
                assert(sorted[sorted.len() - 1] == last);
                text_order_is_total(sorted[i], last, x);
                if i < sorted.len() - 1 {
                    assert(!comes_before(last, sorted[i]));
                }
            }
        }
        assert forall|k: int| 0 <= k < all.len() implies all[k] == x || sorted.contains(
            #[trigger] all[k],
        ) by {
            if k < sorted.len() {
                assert(sorted[k] == all[k]);
            }
        }
    }
}

/// Sorting puts texts in order, and neither loses nor adds any.
pub proof fn sorting_orders_the_same_texts(list: Seq<Seq<char>>)
    ensures
        texts_in_order(sorted_texts(list)),
        sorted_texts(list).len() == list.len(),
        sorted_texts(list).to_multiset() == list.to_multiset(),
    decreases list.len(),
{
    broadcast use vstd::seq_lib::group_to_multiset_ensures;

    if list.len() > 0 {
        let shorter = list.drop_last();
        sorting_orders_the_same_texts(shorter);
        inserting_keeps_order(sorted_texts(shorter), list.last());
        assert(list =~= shorter.push(list.last()));
    } else {
        assert(sorted_texts(list) =~= list);
    }
}

// ---------------------------------------------------------------------------
// Quoting

/// A text as Rust's `{:?}` writes it: between double quotes, with what cannot be read escaped.
pub uninterp spec fn quoted(s: Seq<char>) -> Seq<char>;

/// `<str as Debug>::fmt` through `format!("{s:?}")`. Which characters it escapes follows Unicode's
/// tables; what is claimed is that the result is the same for the same text.
#[verifier::external_body]
pub(crate) fn quote(s: &str) -> (r: String)
    ensures
        r@ == quoted(s@),
{
    format!("{s:?}")
}

// ---------------------------------------------------------------------------
// Numbers

/// The decimal digits of a number.
pub open spec fn decimal(n: nat) -> Seq<char>
    decreases n,
{
    if n < 10 {
        seq![('0' as u32 + n) as u32 as char]
    } else {
        decimal(n / 10).push(('0' as u32 + n % 10) as u32 as char)
    }
}

/// Writes a number in decimal.
pub fn decimal_text(n: u64) -> (r: String)
    ensures
        r@ == decimal(n as nat),
    decreases n,
{
    let digit: u8 = 48 + (n % 10) as u8;
    if n < 10 {
        let mut r = String::new();
        r.push(digit as char);
        assert(r@ =~= decimal(n as nat));
        r
    } else {
        let mut r = decimal_text(n / 10);
        r.push(digit as char);
        r
    }
}

} // verus!
