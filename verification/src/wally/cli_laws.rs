//! What is made of what a program printed.
use vstd::prelude::*;
use super::cli::{
    an_escape_ends_ahead, command_end, control_end, discovered, escape_end, first_said,
    install_result, is_letter, located, lossy_text, merged, unpainted, InstallRun,
};
use crate::text::{lines_of, trim_end_of, trimmed};
use crate::text_laws::free_of;

verus! {

/// What was configured is taken or refused, and nothing else is looked at; only where nothing is
/// configured is what stands on the path taken.
pub proof fn what_is_configured_comes_first(
    configured: Option<(Seq<char>, bool)>,
    has_path: bool,
    on_path: Option<Seq<char>>,
)
    ensures
        match discovered(configured, has_path, on_path) {
            Ok(found) => match configured {
                Some((path, is_file)) => is_file && found == path,
                None => has_path && on_path == Some(found),
            },
            Err(_) => match configured {
                Some((_, is_file)) => !is_file,
                None => !has_path || on_path is None,
            },
        },
{
}

/// What two streams say is put together: a stream that says nothing leaves the other as it is, and of two
/// that say something, the first comes before the second, on lines of their own.
pub proof fn both_streams_are_kept(stdout: Seq<char>, stderr: Seq<char>)
    ensures
        trimmed(stdout).len() == 0 ==> merged(stdout, stderr) == stderr,
        trimmed(stderr).len() == 0 && trimmed(stdout).len() > 0 ==> merged(stdout, stderr) == stdout,
        trimmed(stdout).len() > 0 && trimmed(stderr).len() > 0 ==> merged(stdout, stderr)
            == trim_end_of(stdout).push('\n') + trim_end_of(stderr),
{
    reveal_strlit("\n");
    assert(trim_end_of(stdout) + "\n"@ =~= trim_end_of(stdout).push('\n'));
}

/// The first line that says anything is the first that is not white space only, without the white space
/// around it.
pub proof fn the_first_line_that_speaks(all: Seq<Seq<char>>, from: int)
    requires
        0 <= from <= all.len(),
    ensures
        match first_said(all, from) {
            Some(line) => exists|i: int|
                {
                    &&& from <= i < all.len()
                    &&& trimmed(#[trigger] all[i]) == line
                    &&& line.len() > 0
                    &&& forall|j: int|
                        from <= j < i ==> trimmed(#[trigger] all[j]).len() == 0
                },
            None => forall|j: int|
                from <= j < all.len() ==> trimmed(#[trigger] all[j]).len() == 0,
        },
    decreases all.len() - from,
{
    if from < all.len() && trimmed(all[from]).len() == 0 {
        the_first_line_that_speaks(all, from + 1);
        if let Some(line) = first_said(all, from + 1) {
            let i = choose|i: int|
                {
                    &&& from + 1 <= i < all.len()
                    &&& trimmed(#[trigger] all[i]) == line
                    &&& line.len() > 0
                    &&& forall|j: int|
                        from + 1 <= j < i ==> trimmed(#[trigger] all[j]).len() == 0
                };
            assert forall|j: int| from <= j < i implies trimmed(#[trigger] all[j]).len() == 0 by {}
            assert(trimmed(all[i]) == line);
        }
    }
}

/// A program that ran tells its version on the first line it prints that says anything. One that did not
/// is not available.
pub proof fn a_version_is_the_first_line_printed(
    path: Seq<char>,
    success: bool,
    status: Seq<char>,
    stdout: Seq<char>,
    stderr: Seq<char>,
)
    ensures
        match located(path, success, status, stdout, stderr) {
            Ok(version) => success && match first_said(lines_of(stdout), 0) {
                Some(line) => version == line,
                None => version == "unknown"@,
            },
            Err(_) => !success,
        },
{
}

/// An install that ended well answers with what it printed; one that did not run, did not finish or failed
/// does not.
pub proof fn only_a_finished_install_succeeds(run: InstallRun)
    ensures
        match install_result(run) {
            Ok(printed) => run matches InstallRun::Ended(output) && output.success && printed
                == trimmed(
                unpainted(merged(lossy_text(output.stdout@), lossy_text(output.stderr@)), 0),
            ),
            Err(_) => run matches InstallRun::Ended(output) ==> !output.success,
        },
{
}

// ---------------------------------------------------------------------------
// Paint

proof fn what_is_behind_decides(a: Seq<char>, b: Seq<char>, i: int)
    requires
        0 <= i <= b.len(),
    ensures
        control_end(a + b, a.len() + i) == a.len() + control_end(b, i),
        command_end(a + b, a.len() + i) == a.len() + command_end(b, i),
    decreases b.len() - i,
{
    let whole = a + b;
    if i < b.len() {
        assert(whole[a.len() + i] == b[i]);
        if i + 1 < b.len() {
            assert(whole[a.len() + i + 1] == b[i + 1]);
        }
        what_is_behind_decides(a, b, i + 1);
    }
}

proof fn an_escape_ends_where_it_did(a: Seq<char>, b: Seq<char>, i: int)
    requires
        0 <= i < b.len(),
    ensures
        escape_end(a + b, a.len() + i) == a.len() + escape_end(b, i),
{
    let whole = a + b;
    if i + 1 < b.len() {
        assert(whole[a.len() + i + 1] == b[i + 1]);
        what_is_behind_decides(a, b, i + 2);
    }
}

proof fn what_is_before_does_not_count(a: Seq<char>, b: Seq<char>, i: int)
    requires
        0 <= i <= b.len(),
    ensures
        unpainted(a + b, a.len() + i) == unpainted(b, i),
    decreases b.len() - i,
{
    let whole = a + b;
    if i < b.len() {
        assert(whole[a.len() + i] == b[i]);
        if b[i] != '\u{1b}' {
            what_is_before_does_not_count(a, b, i + 1);
        } else {
            an_escape_ends_where_it_did(a, b, i);
            an_escape_ends_ahead(b, i);
            what_is_before_does_not_count(a, b, escape_end(b, i));
        }
    }
}

proof fn plain_text_stays(a: Seq<char>, b: Seq<char>, i: int)
    requires
        0 <= i <= a.len(),
        free_of(a, '\u{1b}'),
    ensures
        unpainted(a + b, i) == a.skip(i) + unpainted(b, 0),
    decreases a.len() - i,
{
    let whole = a + b;
    if i < a.len() {
        assert(whole[i] == a[i]);
        plain_text_stays(a, b, i + 1);
        assert(seq![a[i]] + (a.skip(i + 1) + unpainted(b, 0)) =~= a.skip(i) + unpainted(b, 0));
    } else {
        what_is_before_does_not_count(a, b, 0);
        assert(a.skip(i) + unpainted(b, 0) =~= unpainted(b, 0));
    }
}

/// Text without an escape stays as it is, and what follows it loses its own.
pub proof fn text_without_escapes_stays(text: Seq<char>, rest: Seq<char>)
    requires
        free_of(text, '\u{1b}'),
    ensures
        unpainted(text, 0) == text,
        unpainted(text + rest, 0) == text + unpainted(rest, 0),
{
    plain_text_stays(text, rest, 0);
    assert(text.skip(0) =~= text);
    let none = Seq::<char>::empty();
    plain_text_stays(text, none, 0);
    assert(text + none =~= text);
    assert(text.skip(0) + unpainted(none, 0) =~= text);
}

proof fn a_control_ends_with_its_letter(s: Seq<char>, i: int, end: int)
    requires
        0 <= i <= end < s.len(),
        is_letter(s[end]),
        forall|k: int| i <= k < end ==> !is_letter(#[trigger] s[k]),
    ensures
        control_end(s, i) == end + 1,
    decreases end - i,
{
    if i < end {
        assert(!is_letter(s[i]));
        a_control_ends_with_its_letter(s, i + 1, end);
    }
}

/// A colour goes: an escape, a bracket, what is no letter, and the letter that ends it.
pub proof fn a_colour_goes(code: Seq<char>, letter: char, rest: Seq<char>)
    requires
        'a' <= letter <= 'z' || 'A' <= letter <= 'Z',
        forall|k: int|
            0 <= k < code.len() ==> !('a' <= #[trigger] code[k] <= 'z') && !('A' <= code[k] <= 'Z'),
    ensures
        unpainted(seq!['\u{1b}', '['] + code.push(letter) + rest, 0) == unpainted(rest, 0),
{
    let paint = seq!['\u{1b}', '['] + code.push(letter);
    let whole = paint + rest;
    let end = 2 + code.len() as int;
    assert(whole[0] == '\u{1b}' && whole[1] == '[');
    assert(whole[end] == letter);
    assert forall|k: int| 2 <= k < end implies !is_letter(#[trigger] whole[k]) by {
        assert(whole[k] == code[k - 2]);
    }
    a_control_ends_with_its_letter(whole, 2, end);
    assert(escape_end(whole, 0) == paint.len());
    what_is_before_does_not_count(paint, rest, 0);
}

proof fn a_command_ends_with_its_bell(s: Seq<char>, i: int, end: int)
    requires
        0 <= i <= end < s.len(),
        s[end] == '\u{7}',
        forall|k: int| i <= k < end ==> #[trigger] s[k] != '\u{7}' && s[k] != '\u{1b}',
    ensures
        command_end(s, i) == end + 1,
    decreases end - i,
{
    if i < end {
        assert(s[i] != '\u{7}');
        a_command_ends_with_its_bell(s, i + 1, end);
    }
}

/// A title or a link goes: an escape, a closing bracket, what is neither a bell nor an escape, and the
/// bell that ends it.
pub proof fn a_title_goes(title: Seq<char>, rest: Seq<char>)
    requires
        free_of(title, '\u{7}'),
        free_of(title, '\u{1b}'),
    ensures
        unpainted(seq!['\u{1b}', ']'] + title.push('\u{7}') + rest, 0) == unpainted(rest, 0),
{
    let paint = seq!['\u{1b}', ']'] + title.push('\u{7}');
    let whole = paint + rest;
    let end = 2 + title.len() as int;
    assert(whole[0] == '\u{1b}' && whole[1] == ']');
    assert(whole[end] == '\u{7}');
    assert forall|k: int| 2 <= k < end implies #[trigger] whole[k] != '\u{7}' && whole[k]
        != '\u{1b}' by {
        assert(whole[k] == title[k - 2]);
    }
    a_command_ends_with_its_bell(whole, 2, end);
    assert(escape_end(whole, 0) == paint.len());
    what_is_before_does_not_count(paint, rest, 0);
}

} // verus!
