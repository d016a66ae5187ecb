//! What a graph takes from its files.
use vstd::prelude::*;
use vstd::utf8::*;
use super::{direction_word, directions_named, Direction};
use super::blanking::blanked;
use super::building::{bindings_of, file_calls, newest_of, total_len_of, BuildModel, FileMetadata};
use super::call_laws::{every_require_is_found, is_told};
use super::files::{files_asked, path_before, path_key, required_text};
use super::scan::{bound_to, requires_from, CallModel, KindModel};
use super::string_require::{module_files, required_base, DiskModel};
use crate::roblox::lexing::literal_from;
use crate::text::{is_white_space, replaced_char, trimmed};
use crate::text_laws::{is_space, space_around_is_trimmed, what_is_shared_decides_nothing};

verus! {

// ---------------------------------------------------------------------------
// Sources

/// What stands in comments does not count: files whose sources are the same once comments are blanked have
/// the same calls and bind the same names.
pub proof fn comments_call_nothing(b: BuildModel, c: BuildModel, i: int)
    requires
        0 <= i < b.files.len(),
        0 <= i < c.files.len(),
        b.shared_require == c.shared_require,
        blanked(encode_utf8(b.files[i].source)) == blanked(encode_utf8(c.files[i].source)),
    ensures
        file_calls(b, i) == file_calls(c, i),
        bindings_of(b, i) == bindings_of(c, i),
{
}

/// Shared calls count only where they are asked for, and not in a file that binds the word itself. All
/// others are `require` calls that stand in the source once its comments are blanked.
pub proof fn shared_calls_count_where_they_are_asked_for(b: BuildModel, i: int, k: int)
    requires
        0 <= i < b.files.len(),
        0 <= k < file_calls(b, i).len(),
        !b.shared_require || bound_to(
            bindings_of(b, i),
            "shared"@,
            bindings_of(b, i).len() as int,
        ) is Some,
    ensures
        file_calls(b, i)[k].kind == KindModel::Require,
        is_told(blanked(encode_utf8(b.files[i].source)), file_calls(b, i)[k], false),
{
    let bytes = blanked(encode_utf8(b.files[i].source));
    every_require_is_found(bytes, 0, Seq::empty());
    assert(file_calls(b, i) == requires_from(bytes, 0));
    assert(is_told(bytes, requires_from(bytes, 0)[k], false));
}

// ---------------------------------------------------------------------------
// Stamps

/// The time a set of files is told by is that of the youngest of them: one of them has it, and none has a
/// later one. There is none where no file has a time.
pub proof fn the_youngest_file_tells_the_time(files: Seq<Option<FileMetadata>>, n: int)
    requires
        0 <= n <= files.len(),
    ensures
        match newest_of(files, n) {
            Some(newest) => {
                &&& exists|i: int|
                    0 <= i < n && ((#[trigger] files[i]) matches Some(file) && file.modified_nanos
                        == Some(newest))
                &&& forall|i: int|
                    0 <= i < n ==> ((#[trigger] files[i]) matches Some(file)
                        ==> (file.modified_nanos matches Some(at) ==> at <= newest))
            },
            None => forall|i: int|
                0 <= i < n ==> ((#[trigger] files[i]) matches Some(file)
                    ==> file.modified_nanos is None),
        },
    decreases n,
{
    if n > 0 {
        the_youngest_file_tells_the_time(files, n - 1);
        if let Some(newest) = newest_of(files, n) {
            if newest_of(files, n - 1) == Some(newest) {
                let i = choose|i: int|
                    0 <= i < n - 1 && ((#[trigger] files[i]) matches Some(file)
                        && file.modified_nanos == Some(newest));
                assert(files[i] is Some);
            } else {
                assert(files[n - 1] is Some);
            }
        }
    }
}

/// The length of a set of files is that of each taken together: one more file adds its own, and one that
/// the disk says nothing of adds none.
pub proof fn lengths_add_up(files: Seq<Option<FileMetadata>>, file: Option<FileMetadata>)
    ensures
        total_len_of(files.push(file), files.len() as int + 1) == total_len_of(
            files,
            files.len() as int,
        ) + match file {
            Some(metadata) => metadata.len as int,
            None => 0,
        },
        files.len() == 0 ==> total_len_of(files, files.len() as int) == 0,
{
    the_first_files_decide(files, files.push(file), files.len() as int);
}

proof fn the_first_files_decide(
    a: Seq<Option<FileMetadata>>,
    b: Seq<Option<FileMetadata>>,
    n: int,
)
    requires
        0 <= n <= a.len(),
        n <= b.len(),
        forall|k: int| 0 <= k < n ==> #[trigger] a[k] == b[k],
    ensures
        total_len_of(a, n) == total_len_of(b, n),
    decreases n,
{
    if n > 0 {
        the_first_files_decide(a, b, n - 1);
        assert(a[n - 1] == b[n - 1]);
    }
}

// ---------------------------------------------------------------------------
// Files on disk

/// Whether one of the string requires of a file may mean a file.
pub open spec fn may_mean(
    calls: Seq<CallModel>,
    path: Seq<char>,
    disk: DiskModel,
    k: int,
    file: Seq<char>,
) -> bool {
    required_text(calls[k].expression) matches Some(literal) && (required_base(disk, literal, path)
        matches Ok(base) && module_files(base).contains(file))
}

/// The disk is asked about each file that a string require of the source may mean, and about no other.
pub proof fn the_disk_is_asked_about_each_candidate(
    calls: Seq<CallModel>,
    path: Seq<char>,
    disk: DiskModel,
    n: int,
    file: Seq<char>,
)
    requires
        0 <= n <= calls.len(),
    ensures
        files_asked(calls, path, disk, n).contains(file) <==> exists|k: int|
            0 <= k < n && #[trigger] may_mean(calls, path, disk, k, file),
    decreases n,
{
    if n > 0 {
        the_disk_is_asked_about_each_candidate(calls, path, disk, n - 1, file);
        let before = files_asked(calls, path, disk, n - 1);
        let now = files_asked(calls, path, disk, n);
        let added = match required_text(calls[n - 1].expression) {
            Some(literal) => match required_base(disk, literal, path) {
                Ok(base) => module_files(base),
                Err(_) => Seq::empty(),
            },
            None => Seq::empty(),
        };
        assert(now == before + added);
        assert(added.contains(file) <==> may_mean(calls, path, disk, n - 1, file));
        if before.contains(file) {
            let j = choose|j: int| 0 <= j < before.len() && before[j] == file;
            assert(now[j] == file);
        }
        if added.contains(file) {
            let j = choose|j: int| 0 <= j < added.len() && added[j] == file;
            assert(now[before.len() + j] == file);
        }
        if now.contains(file) {
            let j = choose|j: int| 0 <= j < now.len() && now[j] == file;
            if j < before.len() {
                assert(before[j] == file);
            } else {
                assert(added[j - before.len()] == file);
            }
        }
    }
}

// ---------------------------------------------------------------------------
// Directions and order

/// A word asks for the direction it names, and for both where it says so or nothing is said. White space
/// around it does not count, and any other word asks for none.
pub proof fn a_word_asks_for_its_direction(word: Seq<char>)
    ensures
        directions_named(direction_word(None)) == Some(
            seq![Direction::Dependencies, Direction::Dependents],
        ),
        match directions_named(direction_word(Some(word))) {
            Some(asked) => {
                &&& asked.contains(Direction::Dependencies) <==> trimmed(word) != "dependents"@
                &&& asked.contains(Direction::Dependents) <==> trimmed(word) != "dependencies"@
                &&& asked.len() == if trimmed(word) == "both"@ {
                    2int
                } else {
                    1
                }
            },
            None => trimmed(word) != "both"@ && trimmed(word) != "dependencies"@ && trimmed(word)
                != "dependents"@,
        },
{
    reveal_strlit("both");
    reveal_strlit("dependencies");
    reveal_strlit("dependents");
    let both = "both"@;
    let none = Seq::<char>::empty();
    space_around_is_trimmed(none, both, none);
    assert("both"@[0] != "dependencies"@[0]);
    assert("both"@[0] != "dependents"@[0]);
    assert("dependencies"@.len() != "dependents"@.len());
    let all = seq![Direction::Dependencies, Direction::Dependents];
    assert(all[0] == Direction::Dependencies && all[1] == Direction::Dependents);
    let one = seq![Direction::Dependencies];
    assert(one[0] == Direction::Dependencies);
    let other = seq![Direction::Dependents];
    assert(other[0] == Direction::Dependents);
}

/// What a directory holds comes before a file beside it whose name starts with that of the directory, and
/// in one directory names come in the order of their characters.
pub proof fn a_directory_comes_before_longer_names(
    directory: Seq<char>,
    inside: Seq<char>,
    c: char,
    rest: Seq<char>,
)
    requires
        c != '\0',
        c != '/',
    ensures
        path_before(directory.push('/') + inside, directory.push(c) + rest),
        !path_before(directory.push(c) + rest, directory.push('/') + inside),
{
    let front = replaced_char(directory, '/', '\0');
    let a = seq!['\0'] + replaced_char(inside, '/', '\0');
    let b = seq![c] + replaced_char(rest, '/', '\0');
    assert(path_key(directory.push('/') + inside) =~= front + a);
    assert(path_key(directory.push(c) + rest) =~= front + b);
    what_is_shared_decides_nothing(front, a, b);
    what_is_shared_decides_nothing(front, b, a);
    assert(a[0] == '\0' && b[0] == c);
    assert('\0' < c);
}

/// A require that is given a string is a require of what its quotes hold, whichever quotes they are.
pub proof fn a_string_require_is_of_its_text(
    quote: char,
    before: Seq<char>,
    text: Seq<char>,
    after: Seq<char>,
)
    requires
        quote == '"' || quote == '\'',
        is_space(before),
        is_space(after),
        forall|k: int| 0 <= k < text.len() ==> #[trigger] text[k] != quote && text[k] != '\\',
    ensures
        required_text(before + (seq![quote] + text + seq![quote]) + after) == Some(text),
{
    let said = seq![quote] + text + seq![quote];
    assert(said[0] == quote);
    assert(said.last() == quote);
    assert(!is_white_space('"') && !is_white_space('\''));
    space_around_is_trimmed(before, said, after);
    let end = 1 + text.len() as int;
    assert(said[end] == quote);
    assert forall|k: int| 1 <= k < end implies #[trigger] said[k] != quote && said[k] != '\\' by {
        assert(said[k] == text[k - 1]);
    }
    a_literal_is_its_text(said, 1, end, quote);
    assert(said.subrange(1, end) =~= text);
}

proof fn a_literal_is_its_text(whole: Seq<char>, i: int, to: int, quote: char)
    requires
        0 <= i <= to < whole.len(),
        whole[to] == quote,
        quote != '\\',
        forall|k: int| 1 <= k < to ==> #[trigger] whole[k] != quote && whole[k] != '\\',
        1 <= i,
    ensures
        literal_from(whole, i, quote) == (whole.subrange(i, to), to + 1),
    decreases to - i,
{
    if i < to {
        assert(whole[i] != quote);
        a_literal_is_its_text(whole, i + 1, to, quote);
        assert(seq![whole[i]] + whole.subrange(i + 1, to) =~= whole.subrange(i, to));
    } else {
        assert(whole.subrange(i, to) =~= Seq::<char>::empty());
    }
}

} // verus!
