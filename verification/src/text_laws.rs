//! What holds of every text that is searched, split, joined or trimmed.
use vstd::prelude::*;
use crate::text::{
    before_first, comes_before, decimal, ends_with, find_from, find_from_is_first, holds,
    is_white_space, joined, last_position_before, lines_of, occurs_at, position_from,
    replaced_char, rsplit_once_on, split_at_text, split_on, split_once_on, starts_with,
    trim_end_of, trim_start_of, trimmed, without_prefix, without_suffix,
};

verus! {

/// Whether a text is free of a character.
pub open spec fn free_of(s: Seq<char>, c: char) -> bool {
    forall|k: int| 0 <= k < s.len() ==> #[trigger] s[k] != c
}

// ---------------------------------------------------------------------------
// Prefixes and suffixes

/// What stands behind a prefix is what is left without it; where nothing is left, no text behind the
/// prefix makes up the whole.
pub proof fn a_prefix_comes_off(prefix: Seq<char>, rest: Seq<char>)
    ensures
        without_prefix(prefix + rest, prefix) == Some(rest),
        starts_with(prefix + rest, prefix),
        forall|s: Seq<char>, left: Seq<char>|
            #[trigger] without_prefix(s, prefix) == Some(left) ==> s == #[trigger] (prefix + left),
        forall|s: Seq<char>| #[trigger] starts_with(s, prefix) <==> without_prefix(s, prefix) is Some,
{
    let whole = prefix + rest;
    assert(whole.subrange(0, prefix.len() as int) =~= prefix);
    assert(whole.skip(prefix.len() as int) =~= rest);
    assert forall|s: Seq<char>, left: Seq<char>| #[trigger]
        without_prefix(s, prefix) == Some(left) implies s == #[trigger] (prefix + left) by {
        assert(s =~= s.subrange(0, prefix.len() as int) + s.skip(prefix.len() as int));
    }
}

/// What stands before a suffix is what is left without it.
pub proof fn a_suffix_comes_off(rest: Seq<char>, suffix: Seq<char>)
    ensures
        without_suffix(rest + suffix, suffix) == Some(rest),
        ends_with(rest + suffix, suffix),
        forall|s: Seq<char>, left: Seq<char>|
            #[trigger] without_suffix(s, suffix) == Some(left) ==> s == #[trigger] (left + suffix),
        forall|s: Seq<char>| #[trigger] ends_with(s, suffix) <==> without_suffix(s, suffix) is Some,
{
    let whole = rest + suffix;
    assert(whole.subrange(rest.len() as int, whole.len() as int) =~= suffix);
    assert(whole.take(rest.len() as int) =~= rest);
    assert forall|s: Seq<char>, left: Seq<char>| #[trigger]
        without_suffix(s, suffix) == Some(left) implies s == #[trigger] (left + suffix) by {
        let at = s.len() - suffix.len();
        assert(s =~= s.take(at) + s.subrange(at, s.len() as int));
    }
}

/// A text holds another exactly where it is made of something, the other, and something.
pub proof fn a_text_holds_its_parts(before: Seq<char>, needle: Seq<char>, after: Seq<char>)
    ensures
        holds(before + needle + after, needle),
        forall|s: Seq<char>| #[trigger] holds(s, needle) ==> exists|i: int|
            {
                &&& 0 <= i <= s.len() - needle.len()
                &&& #[trigger] s.subrange(i, i + needle.len()) == needle
            },
{
    let whole = before + needle + after;
    assert(whole.subrange(before.len() as int, before.len() as int + needle.len()) =~= needle);
    assert(occurs_at(whole, needle, before.len() as int));
    find_from_is_first(whole, needle, 0);
    assert forall|s: Seq<char>| #[trigger] holds(s, needle) implies exists|i: int|
        {
            &&& 0 <= i <= s.len() - needle.len()
            &&& #[trigger] s.subrange(i, i + needle.len()) == needle
        } by {
        find_from_is_first(s, needle, 0);
        let i = crate::text::find_from(s, needle, 0)->0;
        assert(s.subrange(i, i + needle.len()) == needle);
    }
}

// ---------------------------------------------------------------------------
// Splitting

proof fn the_first_is_found(s: Seq<char>, c: char, at: int, from: int)
    requires
        0 <= from <= at < s.len(),
        s[at] == c,
        forall|k: int| 0 <= k < at ==> #[trigger] s[k] != c,
    ensures
        position_from(s, c, from) == Some(at),
    decreases at - from,
{
    if from < at {
        assert(s[from] != c);
        the_first_is_found(s, c, at, from + 1);
    }
}

proof fn none_is_found(s: Seq<char>, c: char, from: int)
    requires
        0 <= from,
        free_of(s, c),
    ensures
        position_from(s, c, from) is None,
    decreases s.len() - from,
{
    if from < s.len() {
        assert(s[from] != c);
        none_is_found(s, c, from + 1);
    }
}

proof fn the_last_is_found(s: Seq<char>, c: char, at: int, to: int)
    requires
        0 <= at < to <= s.len(),
        s[at] == c,
        forall|k: int| at < k < s.len() ==> #[trigger] s[k] != c,
    ensures
        last_position_before(s, c, to) == Some(at),
    decreases to,
{
    if to - 1 > at {
        assert(s[to - 1] != c);
        the_last_is_found(s, c, at, to - 1);
    }
}

/// A text is split at the first separator: what is before it holds none.
pub proof fn a_text_is_split_at_the_first(before: Seq<char>, c: char, after: Seq<char>)
    requires
        free_of(before, c),
    ensures
        split_once_on(before.push(c) + after, c) == Some((before, after)),
        before_first(before.push(c) + after, c) == before,
{
    let whole = before.push(c) + after;
    assert forall|k: int| 0 <= k < before.len() implies #[trigger] whole[k] != c by {
        assert(whole[k] == before[k]);
    }
    the_first_is_found(whole, c, before.len() as int, 0);
    assert(whole.take(before.len() as int) =~= before);
    assert(whole.skip(before.len() as int + 1) =~= after);
}

/// A text without the separator is not split.
pub proof fn a_text_without_it_is_not_split(s: Seq<char>, c: char)
    requires
        free_of(s, c),
    ensures
        split_once_on(s, c) is None,
        before_first(s, c) == s,
        split_on(s, c) == seq![s],
{
    none_is_found(s, c, 0);
}

/// From behind, a text is split at the last separator: what follows it holds none.
pub proof fn a_text_is_split_at_the_last(before: Seq<char>, c: char, after: Seq<char>)
    requires
        free_of(after, c),
    ensures
        rsplit_once_on(before.push(c) + after, c) == Some((before, after)),
{
    let whole = before.push(c) + after;
    let at = before.len() as int;
    assert forall|k: int| at < k < whole.len() implies #[trigger] whole[k] != c by {
        assert(whole[k] == after[k - at - 1]);
    }
    the_last_is_found(whole, c, at, whole.len() as int);
    assert(whole.take(at) =~= before);
    assert(whole.skip(at + 1) =~= after);
}

/// A first part that holds no separator is the first of the parts, and what follows has the others.
pub proof fn parts_come_one_by_one(first: Seq<char>, c: char, rest: Seq<char>)
    requires
        free_of(first, c),
    ensures
        split_on(first.push(c) + rest, c) == seq![first] + split_on(rest, c),
{
    let whole = first.push(c) + rest;
    assert forall|k: int| 0 <= k < first.len() implies #[trigger] whole[k] != c by {
        assert(whole[k] == first[k]);
    }
    the_first_is_found(whole, c, first.len() as int, 0);
    assert(whole.take(first.len() as int) =~= first);
    assert(whole.skip(first.len() as int + 1) =~= rest);
}

proof fn joining_from_the_front(parts: Seq<Seq<char>>, sep: Seq<char>)
    requires
        parts.len() > 1,
    ensures
        joined(parts, sep) == parts[0] + sep + joined(parts.skip(1), sep),
    decreases parts.len(),
{
    let shorter = parts.drop_last();
    let rest = parts.skip(1);
    if parts.len() == 2 {
        assert(shorter[0] == parts[0]);
        assert(rest[0] == parts[1]);
        assert(joined(shorter, sep) == parts[0]);
        assert(joined(rest, sep) == parts[1]);
    } else {
        joining_from_the_front(shorter, sep);
        assert(shorter.skip(1) =~= rest.drop_last());
        assert(rest.last() == parts.last());
        assert(joined(parts, sep) =~= parts[0] + sep + joined(rest, sep));
    }
}

/// What is joined with a separator comes apart at it into the same parts, where none of them holds it.
pub proof fn what_is_joined_comes_apart(parts: Seq<Seq<char>>, c: char)
    requires
        parts.len() > 0,
        forall|k: int| 0 <= k < parts.len() ==> free_of(#[trigger] parts[k], c),
    ensures
        split_on(joined(parts, seq![c]), c) == parts,
    decreases parts.len(),
{
    if parts.len() == 1 {
        assert(free_of(parts[0], c));
        a_text_without_it_is_not_split(parts[0], c);
        assert(seq![parts[0]] =~= parts);
    } else {
        let rest = parts.skip(1);
        joining_from_the_front(parts, seq![c]);
        assert forall|k: int| 0 <= k < rest.len() implies free_of(#[trigger] rest[k], c) by {
            assert(rest[k] == parts[k + 1]);
        }
        what_is_joined_comes_apart(rest, c);
        assert(free_of(parts[0], c));
        parts_come_one_by_one(parts[0], c, joined(rest, seq![c]));
        assert(joined(parts, seq![c]) =~= parts[0].push(c) + joined(rest, seq![c]));
        assert(seq![parts[0]] + rest =~= parts);
    }
}

/// A line that holds no line feed, and does not end with a carriage return, is a line; what follows the
/// line feed behind it has the other lines. A carriage return before the line feed is no part of it.
pub proof fn lines_come_one_by_one(line: Seq<char>, rest: Seq<char>)
    requires
        free_of(line, '\n'),
        line.len() > 0 ==> line.last() != '\r',
    ensures
        lines_of(line.push('\n') + rest) == seq![line] + lines_of(rest),
        lines_of(line.push('\r').push('\n') + rest) == seq![line] + lines_of(rest),
        line.len() > 0 ==> lines_of(line) == seq![line],
        lines_of(Seq::empty()) == Seq::<Seq<char>>::empty(),
{
    let whole = line.push('\n') + rest;
    assert forall|k: int| 0 <= k < line.len() implies #[trigger] whole[k] != '\n' by {
        assert(whole[k] == line[k]);
    }
    the_first_is_found(whole, '\n', line.len() as int, 0);
    assert(whole.take(line.len() as int) =~= line);
    assert(whole.skip(line.len() as int + 1) =~= rest);
    let returned = line.push('\r').push('\n') + rest;
    let long = line.push('\r');
    assert forall|k: int| 0 <= k < long.len() implies #[trigger] returned[k] != '\n' by {
        assert(returned[k] == long[k]);
        if k < line.len() {
            assert(long[k] == line[k]);
        }
    }
    the_first_is_found(returned, '\n', long.len() as int, 0);
    assert(returned.take(long.len() as int) =~= long);
    assert(long.drop_last() =~= line);
    assert(returned.skip(long.len() as int + 1) =~= rest);
    none_is_found(line, '\n', 0);
}

// ---------------------------------------------------------------------------
// Trimming

/// Whether a text is white space and nothing else.
pub open spec fn is_space(s: Seq<char>) -> bool {
    forall|k: int| 0 <= k < s.len() ==> is_white_space(#[trigger] s[k])
}

/// White space before a text that starts with none is what is taken off its start.
pub proof fn leading_space_goes(before: Seq<char>, core: Seq<char>)
    requires
        is_space(before),
        core.len() > 0 ==> !is_white_space(core[0]),
    ensures
        trim_start_of(before + core) == core,
    decreases before.len(),
{
    let whole = before + core;
    if before.len() > 0 {
        assert(is_white_space(before[0]));
        assert(whole[0] == before[0]);
        let shorter = before.drop_first();
        assert forall|k: int| 0 <= k < shorter.len() implies is_white_space(#[trigger] shorter[k]) by {
            assert(shorter[k] == before[k + 1]);
        }
        assert(whole.drop_first() =~= shorter + core);
        leading_space_goes(shorter, core);
    } else {
        assert(whole =~= core);
    }
}

proof fn trailing_space_goes(core: Seq<char>, after: Seq<char>)
    requires
        is_space(after),
        core.len() > 0 ==> !is_white_space(core.last()),
    ensures
        trim_end_of(core + after) == core,
    decreases after.len(),
{
    let whole = core + after;
    if after.len() > 0 {
        assert(is_white_space(after[after.len() - 1]));
        assert(whole.last() == after[after.len() - 1]);
        let shorter = after.drop_last();
        assert forall|k: int| 0 <= k < shorter.len() implies is_white_space(#[trigger] shorter[k]) by {
            assert(shorter[k] == after[k]);
        }
        assert(whole.drop_last() =~= core + shorter);
        trailing_space_goes(core, shorter);
    } else {
        assert(whole =~= core);
    }
}

/// White space around a text that neither starts nor ends with any is what trimming takes off.
pub proof fn space_around_is_trimmed(before: Seq<char>, core: Seq<char>, after: Seq<char>)
    requires
        is_space(before),
        is_space(after),
        core.len() > 0,
        !is_white_space(core[0]),
        !is_white_space(core.last()),
    ensures
        trimmed(before + core + after) == core,
        trimmed(core) == core,
{
    assert(before + core + after =~= before + (core + after));
    leading_space_goes(before, core + after);
    trailing_space_goes(core, after);
    let none: Seq<char> = Seq::empty();
    assert(none + core =~= core);
    assert(core + none =~= core);
    leading_space_goes(none, core);
    trailing_space_goes(core, none);
}

// ---------------------------------------------------------------------------
// Searching and replacing

/// A text is split at the first place where a separator stands in it, and is what comes before it, the
/// separator, and what comes behind it. It is not split where the separator stands nowhere.
pub proof fn a_text_is_split_at_a_separator(s: Seq<char>, sep: Seq<char>)
    ensures
        match split_at_text(s, sep) {
            Some((before, after)) => s == before + sep + after && forall|j: int|
                0 <= j < before.len() ==> (#[trigger] s.subrange(j, j + sep.len())) != sep,
            None => !holds(s, sep),
        },
{
    find_from_is_first(s, sep, 0);
    if let Some(i) = find_from(s, sep, 0) {
        let before = s.take(i);
        let after = s.skip(i + sep.len());
        let here = s.subrange(i, i + sep.len());
        assert(s =~= before + here + after);
        assert forall|j: int| 0 <= j < i implies (#[trigger] s.subrange(j, j + sep.len())) != sep by {
            assert(!occurs_at(s, sep, j));
        }
    }
}

/// One character takes the place of another, each where it stood, and nothing else changes.
pub proof fn one_character_is_replaced(s: Seq<char>, from: char, to: char)
    ensures
        replaced_char(s, from, to).len() == s.len(),
        forall|k: int|
            0 <= k < s.len() ==> #[trigger] replaced_char(s, from, to)[k] == if s[k] == from {
                to
            } else {
                s[k]
            },
{
}

/// The value of a decimal digit, which is that of no other character.
pub open spec fn digit_value(c: char) -> int {
    if '0' <= c <= '9' {
        c as int - '0' as int
    } else {
        -1
    }
}

/// A number is written in decimal: by its digits, the last of which is what is left of it by tens, and the
/// others what it has tens of.
pub proof fn a_number_is_written_by_its_digits(n: nat)
    ensures
        decimal(n).len() > 0,
        digit_value(decimal(n).last()) == n % 10,
        n < 10 ==> decimal(n).len() == 1,
        n >= 10 ==> decimal(n).drop_last() == decimal(n / 10),
{
    if n >= 10 {
        assert(decimal(n).drop_last() =~= decimal(n / 10));
    }
}

// ---------------------------------------------------------------------------
// Order

/// What two texts start with alike does not decide their order.
pub proof fn what_is_shared_decides_nothing(front: Seq<char>, a: Seq<char>, b: Seq<char>)
    ensures
        comes_before(front + a, front + b) == comes_before(a, b),
    decreases front.len(),
{
    if front.len() > 0 {
        let rest = front.skip(1);
        assert((front + a)[0] == front[0]);
        assert((front + b)[0] == front[0]);
        assert((front + a).skip(1) =~= rest + a);
        assert((front + b).skip(1) =~= rest + b);
        what_is_shared_decides_nothing(rest, a, b);
    } else {
        assert(front + a =~= a);
        assert(front + b =~= b);
    }
}

/// The first characters in which two texts differ decide which comes first: the one with the lower code
/// point. A text comes before every longer one that starts with it.
pub proof fn the_first_difference_decides(
    front: Seq<char>,
    x: char,
    a: Seq<char>,
    y: char,
    b: Seq<char>,
)
    requires
        x != y,
    ensures
        comes_before(front.push(x) + a, front.push(y) + b) <==> (x as int) < (y as int),
        comes_before(front, front.push(x) + a),
        !comes_before(front.push(x) + a, front),
{
    let left = seq![x] + a;
    let right = seq![y] + b;
    let none = Seq::<char>::empty();
    assert(front.push(x) + a =~= front + left);
    assert(front.push(y) + b =~= front + right);
    assert(front + none =~= front);
    what_is_shared_decides_nothing(front, left, right);
    what_is_shared_decides_nothing(front, none, left);
    what_is_shared_decides_nothing(front, left, none);
    assert(left[0] == x && right[0] == y);
}

} // verus!
