//! Answers, kept to the size that is configured.
use vstd::prelude::*;
use vstd::utf8::*;
use crate::errors::{hinted, hinted_failure, render, rendered};
use crate::text::{decimal, decimal_text, owned, slice_bytes};

verus! {

/// The advice where a result is too large.
pub open spec fn overrun_hint() -> Seq<char> {
    "ask for less: narrow relative_path, lower max_matches, drop include_body, or raise tools.max_answer_chars in .biskit/settings.yml"@
}

/// The last character boundary at or before a position.
pub open spec fn boundary_before(bytes: Seq<u8>, at: int) -> int
    decreases at,
{
    if at <= 0 {
        0
    } else if is_char_boundary(bytes, at) {
        at
    } else {
        boundary_before(bytes, at - 1)
    }
}

/// Where a text is cut that may have `limit` bytes: behind its last whole character that fits.
pub open spec fn cut_at(bytes: Seq<u8>, limit: int) -> int {
    if bytes.len() <= limit {
        bytes.len() as int
    } else {
        boundary_before(bytes, limit)
    }
}

/// Cuts a text to a number of bytes without cutting a character in two.
pub fn truncate_at_char_boundary(value: &str, limit: usize) -> (r: &str)
    ensures
        encode_utf8(r@) == encode_utf8(value@).subrange(
            0,
            cut_at(encode_utf8(value@), limit as int),
        ),
        r@ == value@.take(r@.len() as int),
        r@.len() <= value@.len(),
        encode_utf8(r@).len() <= limit,
{
    let ghost bytes = encode_utf8(value@);
    proof {
        encode_utf8_valid_utf8(value@);
        encode_utf8_decode_utf8(value@);
        is_char_boundary_start_end_of_seq(bytes);
    }
    let size: usize = value.as_bytes().len();
    if size <= limit {
        proof {
            assert(bytes.subrange(0, bytes.len() as int) =~= bytes);
            assert(value@.take(value@.len() as int) =~= value@);
        }
        return value;
    }
    let mut end: usize = limit;
    while end > 0 && !value.is_char_boundary(end)
        invariant
            end <= limit < bytes.len(),
            bytes == encode_utf8(value@),
            boundary_before(bytes, limit as int) == boundary_before(bytes, end as int),
        decreases end,
    {
        end = end - 1;
    }
    let cut = slice_bytes(value, 0, end);
    proof {
        let head = bytes.subrange(0, end as int);
        let tail = bytes.subrange(end as int, bytes.len() as int);
        decode_utf8_split(bytes, end as int);
        assert(cut@ == decode_utf8(head));
        assert(value@ == decode_utf8(head) + decode_utf8(tail));
        assert(value@.take(cut@.len() as int) =~= cut@);
    }
    cut
}

/// What a serialised result is answered with: itself, or a refusal that names what to narrow where
/// it is over the limit. An oversized result is refused rather than cut, because half a document is
/// not readable at all. A limit of zero is none.
pub open spec fn sized_answer(tool: Seq<char>, result: Seq<char>, limit: int) -> Result<
    Seq<char>,
    Seq<char>,
> {
    let size = encode_utf8(result).len();
    if limit > 0 && size > limit {
        Err(
            rendered(
                tool,
                hinted_failure(
                    "the result is "@ + decimal(size as nat)
                        + " characters, over the tools.max_answer_chars limit of "@ + decimal(
                        limit as nat,
                    ),
                    overrun_hint(),
                ),
            ),
        )
    } else {
        Ok(result)
    }
}

/// Answers with a serialised result, unless it is over the limit.
pub fn ok(tool: &str, result: String, limit: usize) -> (r: Result<String, String>)
    ensures
        match r {
            Ok(answer) => sized_answer(tool@, result@, limit as int) == Ok::<Seq<char>, Seq<char>>(
                answer@,
            ),
            Err(refusal) => sized_answer(tool@, result@, limit as int) == Err::<
                Seq<char>,
                Seq<char>,
            >(refusal@),
        },
{
    let size: usize = result.as_str().as_bytes().len();
    if limit > 0 && size > limit {
        let mut message = owned("the result is ");
        message.append(decimal_text(size as u64).as_str());
        message.append(" characters, over the tools.max_answer_chars limit of ");
        message.append(decimal_text(limit as u64).as_str());
        let overrun = hinted(
            message,
            "ask for less: narrow relative_path, lower max_matches, drop include_body, or raise tools.max_answer_chars in .biskit/settings.yml",
        );
        return Err(render(tool, &overrun));
    }
    Ok(result)
}

/// Whether a text is answered: itself, or cut to the limit with a note that says so. Prose survives
/// being cut in a way a document does not. A limit of zero is none.
pub open spec fn is_text_answer(answer: Seq<char>, value: Seq<char>, limit: int) -> bool {
    let bytes = encode_utf8(value);
    if limit > 0 && bytes.len() > limit {
        exists|kept: int|
            #![trigger value.take(kept)]
            {
                &&& 0 <= kept <= value.len()
                &&& encode_utf8(value.take(kept)) == bytes.subrange(0, cut_at(bytes, limit))
                &&& answer == value.take(kept) + "\n\n[truncated: "@ + decimal(limit as nat)
                    + " of "@ + decimal(bytes.len())
                    + " characters shown, limited by tools.max_answer_chars]"@
            }
    } else {
        answer == value
    }
}

/// Answers with a text, cut where it is over the limit.
pub fn text(value: String, limit: usize) -> (r: String)
    ensures
        is_text_answer(r@, value@, limit as int),
{
    let size: usize = value.as_str().as_bytes().len();
    if limit > 0 && size > limit {
        let cut = truncate_at_char_boundary(value.as_str(), limit);
        let ghost kept = cut@.len() as int;
        assert(value@.take(kept) == cut@);
        let mut r = owned(cut);
        r.append("\n\n[truncated: ");
        r.append(decimal_text(limit as u64).as_str());
        r.append(" of ");
        r.append(decimal_text(size as u64).as_str());
        r.append(" characters shown, limited by tools.max_answer_chars]");
        return r;
    }
    value
}

/// A text that is cut ends with a whole character, and the next one would not have fitted.
pub proof fn a_cut_loses_no_more_than_it_must(bytes: Seq<u8>, limit: int, other: int)
    requires
        0 <= limit < bytes.len(),
        cut_at(bytes, limit) < other <= limit,
    ensures
        !is_char_boundary(bytes, other),
    decreases limit,
{
    if limit > 0 && !is_char_boundary(bytes, limit) && other < limit {
        a_cut_loses_no_more_than_it_must(bytes, limit - 1, other);
    }
}

} // verus!
