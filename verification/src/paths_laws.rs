//! What holds of every path.
use vstd::prelude::*;
use crate::paths::{
    behind_prefix, clean_parts, cleaned, cleaned_on, is_below, is_rooted, joined_on, joined_path,
    name_of, parent_of, parent_on, parts_of, parts_that_count, prefix_end, prefix_of, told_from,
    without_tail,
};
use crate::text::{joined, last_position_before, replaced_char, split_on, starts_with};
use crate::text_laws::{a_prefix_comes_off, free_of, what_is_joined_comes_apart};

verus! {

/// Whether a text can be the name of a file or a directory: it holds no slash, and is neither nothing nor
/// a dot nor two.
pub open spec fn is_name(name: Seq<char>) -> bool {
    free_of(name, '/') && name.len() > 0 && name != "."@ && name != ".."@
}

/// Whether every part of a path is a name.
pub open spec fn are_names(names: Seq<Seq<char>>) -> bool {
    forall|k: int| 0 <= k < names.len() ==> is_name(#[trigger] names[k])
}

/// The path made of names, from the root or not.
pub open spec fn path_of(rooted: bool, names: Seq<Seq<char>>) -> Seq<char> {
    if rooted {
        "/"@ + joined(names, "/"@)
    } else {
        joined(names, "/"@)
    }
}

proof fn slashes_are_one_character()
    ensures
        "/"@ == seq!['/'],
        "."@.len() == 1 && "."@[0] == '.',
        ".."@.len() == 2 && ".."@[0] == '.',
        free_of("."@, '/'),
        free_of(".."@, '/'),
{
    reveal_strlit("/");
    reveal_strlit(".");
    reveal_strlit("..");
    assert("/"@ =~= seq!['/']);
}

proof fn joining_behind_nothing(parts: Seq<Seq<char>>)
    requires
        parts.len() > 0,
    ensures
        joined(seq![Seq::<char>::empty()] + parts, "/"@) == "/"@ + joined(parts, "/"@),
    decreases parts.len(),
{
    let none = Seq::<char>::empty();
    let all = seq![none] + parts;
    if parts.len() == 1 {
        assert(all.drop_last() =~= seq![none]);
        assert(joined(seq![none], "/"@) == none);
        assert(joined(all, "/"@) =~= "/"@ + parts[0]);
    } else {
        let shorter = parts.drop_last();
        joining_behind_nothing(shorter);
        assert(all.drop_last() =~= seq![none] + shorter);
        assert(joined(all, "/"@) =~= "/"@ + joined(parts, "/"@));
    }
}

/// The parts between the slashes of a path made of parts.
proof fn a_path_comes_apart(rooted: bool, parts: Seq<Seq<char>>)
    requires
        parts.len() > 0,
        forall|k: int| 0 <= k < parts.len() ==> free_of(#[trigger] parts[k], '/'),
    ensures
        split_on(path_of(rooted, parts), '/') == if rooted {
            seq![Seq::<char>::empty()] + parts
        } else {
            parts
        },
{
    slashes_are_one_character();
    if rooted {
        let none = Seq::<char>::empty();
        let all = seq![none] + parts;
        joining_behind_nothing(parts);
        assert forall|k: int| 0 <= k < all.len() implies free_of(#[trigger] all[k], '/') by {
            if k > 0 {
                assert(all[k] == parts[k - 1]);
            }
        }
        what_is_joined_comes_apart(all, '/');
    } else {
        what_is_joined_comes_apart(parts, '/');
    }
}

// ---------------------------------------------------------------------------
// Dots

proof fn cleaning_goes_on(x: Seq<Seq<char>>, y: Seq<Seq<char>>, rest: Seq<Seq<char>>, n: int)
    requires
        clean_parts(x, x.len() as int) == clean_parts(y, y.len() as int),
        0 <= n <= rest.len(),
    ensures
        clean_parts(x + rest, x.len() + n) == clean_parts(y + rest, y.len() + n),
    decreases n,
{
    if n == 0 {
        cleaning_a_prefix(x, rest, x.len() as int);
        cleaning_a_prefix(y, rest, y.len() as int);
    } else {
        cleaning_goes_on(x, y, rest, n - 1);
        assert((x + rest)[x.len() + n - 1] == rest[n - 1]);
        assert((y + rest)[y.len() + n - 1] == rest[n - 1]);
    }
}

proof fn cleaning_a_prefix(x: Seq<Seq<char>>, rest: Seq<Seq<char>>, n: int)
    requires
        0 <= n <= x.len(),
    ensures
        clean_parts(x + rest, n) == clean_parts(x, n),
    decreases n,
{
    if n > 0 {
        cleaning_a_prefix(x, rest, n - 1);
        assert((x + rest)[n - 1] == x[n - 1]);
    }
}

proof fn names_stay(names: Seq<Seq<char>>, n: int)
    requires
        are_names(names),
        0 <= n <= names.len(),
    ensures
        clean_parts(names, n) == names.take(n),
    decreases n,
{
    if n > 0 {
        names_stay(names, n - 1);
        assert(is_name(names[n - 1]));
        assert(names.take(n) =~= names.take(n - 1).push(names[n - 1]));
    } else {
        assert(names.take(0) =~= Seq::empty());
    }
}

proof fn cleaning_behind_the_root(parts: Seq<Seq<char>>, n: int)
    requires
        0 <= n <= parts.len(),
    ensures
        clean_parts(seq![Seq::<char>::empty()] + parts, n + 1) == clean_parts(parts, n),
    decreases n,
{
    let all = seq![Seq::<char>::empty()] + parts;
    if n > 0 {
        cleaning_behind_the_root(parts, n - 1);
        assert(all[n] == parts[n - 1]);
    } else {
        assert(all[0] == Seq::<char>::empty());
        assert(clean_parts(all, 0) == Seq::<Seq<char>>::empty());
    }
}

proof fn cleaned_is_clean_parts(rooted: bool, parts: Seq<Seq<char>>)
    requires
        parts.len() > 0,
        forall|k: int| 0 <= k < parts.len() ==> free_of(#[trigger] parts[k], '/'),
        !rooted ==> parts[0].len() > 0,
    ensures
        cleaned(path_of(rooted, parts)) == path_of(
            rooted,
            clean_parts(parts, parts.len() as int),
        ),
{
    slashes_are_one_character();
    a_path_comes_apart(rooted, parts);
    let path = path_of(rooted, parts);
    if rooted {
        cleaning_behind_the_root(parts, parts.len() as int);
        assert(path[0] == '/');
    } else {
        starts_as_its_first_part(parts);
        assert(path[0] == parts[0][0]);
        assert(parts[0][0] != '/');
    }
}

proof fn starts_as_its_first_part(parts: Seq<Seq<char>>)
    requires
        parts.len() > 0,
    ensures
        starts_with(joined(parts, "/"@), parts[0]),
        joined(parts, "/"@).len() >= parts[0].len(),
    decreases parts.len(),
{
    let whole = joined(parts, "/"@);
    if parts.len() == 1 {
        assert(whole.subrange(0, parts[0].len() as int) =~= parts[0]);
    } else {
        let shorter = parts.drop_last();
        starts_as_its_first_part(shorter);
        let before = joined(shorter, "/"@);
        assert(shorter[0] == parts[0]);
        assert(whole.subrange(0, parts[0].len() as int) =~= before.subrange(
            0,
            parts[0].len() as int,
        ));
    }
}

/// A path made of names is clean as it is. A dot in it, or an empty part, makes no difference, and a name
/// with two dots behind it is as good as neither; behind the root, two dots make no difference.
pub proof fn dots_are_taken_out(
    rooted: bool,
    before: Seq<Seq<char>>,
    name: Seq<char>,
    after: Seq<Seq<char>>,
)
    requires
        are_names(before),
        are_names(after),
        is_name(name),
        before.len() + after.len() > 0,
    ensures
        cleaned(path_of(rooted, before + after)) == path_of(rooted, before + after),
        before.len() > 0 ==> cleaned(path_of(rooted, before + seq!["."@] + after)) == path_of(
            rooted,
            before + after,
        ),
        cleaned(path_of(rooted, before + seq![name, ".."@] + after)) == path_of(
            rooted,
            before + after,
        ),
        rooted ==> cleaned(path_of(rooted, seq![".."@] + before + after)) == path_of(
            rooted,
            before + after,
        ),
{
    slashes_are_one_character();
    let plain = before + after;
    assert(are_names(plain)) by {
        assert forall|k: int| 0 <= k < plain.len() implies is_name(#[trigger] plain[k]) by {
            if k < before.len() {
                assert(plain[k] == before[k]);
            } else {
                assert(plain[k] == after[k - before.len()]);
            }
        }
    }
    assert forall|k: int| 0 <= k < plain.len() implies free_of(#[trigger] plain[k], '/') by {
        assert(is_name(plain[k]));
    }
    names_stay(plain, plain.len() as int);
    assert(plain.take(plain.len() as int) =~= plain);
    assert(is_name(plain[0]));
    cleaned_is_clean_parts(rooted, plain);

    let dotted = before + seq!["."@];
    cleaning_a_prefix(before, seq!["."@], before.len() as int);
    assert(dotted[before.len() as int] == "."@);
    assert(clean_parts(dotted, dotted.len() as int) == clean_parts(before, before.len() as int));
    cleaning_goes_on(dotted, before, after, after.len() as int);
    let with_dot = dotted + after;
    assert forall|k: int| 0 <= k < with_dot.len() implies free_of(#[trigger] with_dot[k], '/') by {
        if k < before.len() {
            assert(is_name(before[k]));
        } else if k > before.len() {
            assert(is_name(after[k - before.len() - 1]));
        } else {
            assert(with_dot[k] == "."@);
        }
    }
    if before.len() > 0 {
        assert(with_dot[0] == before[0]);
        assert(is_name(before[0]));
        cleaned_is_clean_parts(rooted, with_dot);
    }

    let tail = seq![name, ".."@];
    let up = before + tail;
    cleaning_a_prefix(before, tail, before.len() as int);
    assert(up[before.len() as int] == name);
    assert(up[before.len() as int + 1] == ".."@);
    let had = clean_parts(before, before.len() as int);
    assert(clean_parts(up, before.len() as int + 1) == had.push(name));
    assert(had.push(name).drop_last() =~= had);
    assert(clean_parts(up, up.len() as int) == had);
    cleaning_goes_on(up, before, after, after.len() as int);
    let with_up = up + after;
    assert forall|k: int| 0 <= k < with_up.len() implies free_of(#[trigger] with_up[k], '/') by {
        if k < before.len() {
            assert(is_name(before[k]));
        } else if k == before.len() {
            assert(with_up[k] == name);
        } else if k == before.len() + 1 {
            assert(with_up[k] == ".."@);
        } else {
            assert(is_name(after[k - before.len() - 2]));
        }
    }
    assert(with_up[0].len() > 0) by {
        if before.len() > 0 {
            assert(is_name(before[0]));
        }
    }
    cleaned_is_clean_parts(rooted, with_up);

    if rooted {
        let lead = seq![".."@];
        let none = Seq::<Seq<char>>::empty();
        assert(lead[0] == ".."@);
        assert(clean_parts(lead, 0) == none);
        assert(clean_parts(lead, 1) == none);
        assert(clean_parts(none, 0) == none);
        cleaning_goes_on(lead, none, plain, plain.len() as int);
        assert(none + plain =~= plain);
        assert(lead + plain =~= lead + before + after);
        let with_lead = lead + before + after;
        assert forall|k: int| 0 <= k < with_lead.len() implies free_of(#[trigger] with_lead[k], '/') by {
            if k > 0 {
                assert(with_lead[k] == plain[k - 1]);
                assert(is_name(plain[k - 1]));
            }
        }
        cleaned_is_clean_parts(rooted, with_lead);
    }
}

// ---------------------------------------------------------------------------
// Below a directory

proof fn names_count(parts: Seq<Seq<char>>, n: int)
    requires
        are_names(parts),
        0 <= n <= parts.len(),
    ensures
        parts_that_count(parts, n) == parts.take(n),
    decreases n,
{
    if n > 0 {
        names_count(parts, n - 1);
        assert(is_name(parts[n - 1]));
        assert(parts.take(n) =~= parts.take(n - 1).push(parts[n - 1]));
    } else {
        assert(parts.take(0) =~= Seq::empty());
    }
}

proof fn names_count_behind_the_root(parts: Seq<Seq<char>>, n: int)
    requires
        are_names(parts),
        0 <= n <= parts.len(),
    ensures
        parts_that_count(seq![Seq::<char>::empty()] + parts, n + 1) == parts.take(n),
    decreases n,
{
    let all = seq![Seq::<char>::empty()] + parts;
    if n > 0 {
        names_count_behind_the_root(parts, n - 1);
        assert(is_name(parts[n - 1]));
        assert(all[n] == parts[n - 1]);
        assert(parts.take(n) =~= parts.take(n - 1).push(parts[n - 1]));
    } else {
        assert(all[0] == Seq::<char>::empty());
        assert(parts_that_count(all, 0) == Seq::<Seq<char>>::empty());
        assert(parts.take(0) =~= Seq::empty());
    }
}

proof fn parts_are_the_names(rooted: bool, names: Seq<Seq<char>>)
    requires
        are_names(names),
        names.len() > 0,
    ensures
        parts_of(path_of(rooted, names)) == names,
        is_rooted(path_of(rooted, names)) == rooted,
{
    slashes_are_one_character();
    assert forall|k: int| 0 <= k < names.len() implies free_of(#[trigger] names[k], '/') by {
        assert(is_name(names[k]));
    }
    a_path_comes_apart(rooted, names);
    assert(names.take(names.len() as int) =~= names);
    let path = path_of(rooted, names);
    if rooted {
        names_count_behind_the_root(names, names.len() as int);
        a_prefix_comes_off("/"@, joined(names, "/"@));
    } else {
        names_count(names, names.len() as int);
        starts_as_its_first_part(names);
        assert(is_name(names[0]));
        assert(path[0] == path.subrange(0, names[0].len() as int)[0]);
        assert(names[0][0] != '/');
        if is_rooted(path) {
            assert(path.subrange(0, 1)[0] == '/');
        }
    }
}

/// A path is below a directory exactly where its names start with those of the directory and both start
/// at the root or neither does; told from the directory, it is the names that are left.
pub proof fn what_is_below_is_told_by_the_names_left(
    rooted: bool,
    directory: Seq<Seq<char>>,
    other: bool,
    names: Seq<Seq<char>>,
)
    requires
        are_names(directory),
        are_names(names),
        directory.len() > 0,
        names.len() > 0,
    ensures
        is_below(path_of(other, names), path_of(rooted, directory)) <==> rooted == other
            && directory.len() <= names.len() && names.take(directory.len() as int) == directory,
        is_below(path_of(other, names), path_of(rooted, directory)) ==> told_from(
            path_of(rooted, directory),
            path_of(other, names),
        ) == Some(joined(names.skip(directory.len() as int), "/"@)),
        !is_below(path_of(other, names), path_of(rooted, directory)) ==> told_from(
            path_of(rooted, directory),
            path_of(other, names),
        ) is None,
{
    reveal_strlit("");
    parts_are_the_names(rooted, directory);
    parts_are_the_names(other, names);
    if directory.len() <= names.len() {
        assert(names.take(directory.len() as int) =~= names.subrange(0, directory.len() as int));
    }
    let rest = joined(names.skip(directory.len() as int), "/"@);
    assert(""@ + rest =~= rest);
}

// ---------------------------------------------------------------------------
// Going up and joining

/// Whether a text is a path that is written without a tail: it does not end with a slash or a slash and a
/// dot.
pub open spec fn has_no_tail(path: Seq<char>) -> bool {
    &&& path.len() > 0
    &&& path.last() != '/'
    &&& path.len() > 1 ==> !(path.last() == '.' && path[path.len() - 2] == '/')
}

/// A name in a directory stands in that directory, and is its last name; put below the directory again, it
/// is the same path. In the root it stands in the root, and alone it stands in no named directory.
pub proof fn a_name_stands_in_its_directory(directory: Seq<char>, name: Seq<char>)
    requires
        has_no_tail(directory),
        is_name(name),
    ensures
        parent_of(directory + "/"@ + name) == Some(directory),
        name_of(directory + "/"@ + name) == Some(name),
        joined_path(directory, name) == directory + "/"@ + name,
        parent_of("/"@ + name) == Some("/"@),
        parent_of(name) == Some(Seq::<char>::empty()),
        joined_path(directory, "/"@ + name) == "/"@ + name,
{
    in_a_directory(directory, name);
    in_the_root(directory, name);
    alone(name);
}

proof fn in_a_directory(directory: Seq<char>, name: Seq<char>)
    requires
        has_no_tail(directory),
        is_name(name),
    ensures
        parent_of(directory + "/"@ + name) == Some(directory),
        name_of(directory + "/"@ + name) == Some(name),
        joined_path(directory, name) == directory + "/"@ + name,
{
    slashes_are_one_character();
    let path = directory + "/"@ + name;
    let at = directory.len() as int;
    assert(path[at] == '/');
    a_name_has_no_tail(directory.push('/'), name);
    assert(directory.push('/') + name =~= path);
    assert(path.len() > 1);
    the_slash_before(path, name, at, path.len() as int);
    let above = path.take(at + 1);
    assert(above =~= directory.push('/'));
    assert(above.drop_last() =~= directory);
    assert(without_tail(directory) == directory);
    assert(above.last() == '/');
    assert(without_tail(above) == without_tail(above.drop_last()));
    assert(path.skip(at + 1) =~= name);
    assert(name[0] != '/');
}

proof fn in_the_root(directory: Seq<char>, name: Seq<char>)
    requires
        is_name(name),
    ensures
        parent_of("/"@ + name) == Some("/"@),
        joined_path(directory, "/"@ + name) == "/"@ + name,
{
    slashes_are_one_character();
    let root = "/"@ + name;
    a_name_has_no_tail(seq!['/'], name);
    assert(seq!['/'] + name =~= root);
    the_slash_before(root, name, 0, root.len() as int);
    assert(root.take(1) =~= "/"@);
    assert(root.len() > 1);
    assert(root[0] == '/');
    assert(without_tail("/"@) == "/"@);
}

proof fn alone(name: Seq<char>)
    requires
        is_name(name),
    ensures
        parent_of(name) == Some(Seq::<char>::empty()),
{
    slashes_are_one_character();
    let none = Seq::<char>::empty();
    a_name_has_no_tail(none, name);
    assert(none + name =~= name);
    no_slash_before(name, name.len() as int);
    assert(name[0] != '/');
    assert("/"@[0] == '/');
}

proof fn a_name_has_no_tail(before: Seq<char>, name: Seq<char>)
    requires
        is_name(name),
        before.len() > 0 ==> before.last() == '/',
    ensures
        without_tail(before + name) == before + name,
{
    slashes_are_one_character();
    let path = before + name;
    assert(path.last() == name.last());
    assert(name[name.len() - 1] != '/');
    if path.len() > 1 && path.last() == '.' && path[path.len() - 2] == '/' {
        if name.len() == 1 {
            assert(name =~= "."@);
        } else {
            assert(path[path.len() - 2] == name[name.len() - 2]);
        }
    }
}

proof fn the_slash_before(path: Seq<char>, name: Seq<char>, at: int, to: int)
    requires
        free_of(name, '/'),
        0 <= at < to <= path.len(),
        path[at] == '/',
        path.len() == at + 1 + name.len(),
        forall|k: int| at < k < path.len() ==> #[trigger] path[k] == name[k - at - 1],
    ensures
        last_position_before(path, '/', to) == Some(at),
    decreases to,
{
    if to - 1 > at {
        assert(path[to - 1] == name[to - 1 - at - 1]);
        the_slash_before(path, name, at, to - 1);
    }
}

proof fn no_slash_before(name: Seq<char>, to: int)
    requires
        free_of(name, '/'),
        0 <= to <= name.len(),
    ensures
        last_position_before(name, '/', to) is None,
    decreases to,
{
    if to > 0 {
        assert(name[to - 1] != '/');
        no_slash_before(name, to - 1);
    }
}

/// Where the system is not Windows, its forms of these are the plain ones. On Windows a drive stays in
/// front whatever is done with what stands behind it, and a path of another drive stands for itself.
pub proof fn a_drive_stays_in_front(letter: char, other: char, rest: Seq<char>, part: Seq<char>)
    requires
        'A' <= letter <= 'Z' || 'a' <= letter <= 'z',
        'A' <= other <= 'Z' || 'a' <= other <= 'z',
        rest.len() > 0,
        rest[0] == '/',
        part.len() > 0,
        part[0] != '/',
        part.len() >= 2 ==> part[1] != ':',
        !part.contains('\\'),
    ensures
        ({
            let drive = seq![letter, ':'];
            let path = drive + rest;
            &&& cleaned_on(true, path) == drive + cleaned(rest)
            &&& parent_on(true, path) == (match parent_of(rest) {
                Some(up) => Some(drive + up),
                None => None,
            })
            &&& joined_on(true, path, seq!['/'] + part) == drive + (seq!['/'] + part)
            &&& joined_on(true, path, seq![other, ':', '/'] + part) == seq![other, ':', '/'] + part
            &&& cleaned_on(false, path) == cleaned(path)
            &&& parent_on(false, path) == parent_of(path)
            &&& joined_on(false, path, part) == joined_path(path, part)
        }),
{
    slashes_are_one_character();
    reveal_strlit("//");
    reveal_strlit("//?/UNC/");
    let drive = seq![letter, ':'];
    let path = drive + rest;
    assert(path[1] == ':' && path[0] == letter);
    assert(prefix_of(path) =~= drive);
    assert(behind_prefix(path) =~= rest);
    let rooted = seq!['/'] + part;
    assert(replaced_char(rooted, '\\', '/') =~= rooted) by {
        assert forall|k: int| 0 <= k < rooted.len() implies rooted[k] != '\\' by {
            if k > 0 {
                assert(rooted[k] == part[k - 1]);
                assert(part.contains(part[k - 1]));
            }
        }
    }
    assert(rooted[0] == '/' && rooted[1] == part[0]);
    assert(prefix_end(rooted) == 0) by {
        if starts_with(rooted, "//"@) {
            assert(rooted.subrange(0, 2)[1] == rooted[1]);
        }
        if starts_with(rooted, "//?/UNC/"@) {
            assert(rooted.subrange(0, 8)[1] == rooted[1]);
        }
    }
    a_prefix_comes_off("/"@, part);
    assert("/"@ + part =~= rooted);
    let elsewhere = seq![other, ':', '/'] + part;
    assert(replaced_char(elsewhere, '\\', '/') =~= elsewhere) by {
        assert forall|k: int| 0 <= k < elsewhere.len() implies elsewhere[k] != '\\' by {
            if k > 2 {
                assert(elsewhere[k] == part[k - 3]);
                assert(part.contains(part[k - 3]));
            }
        }
    }
    assert(elsewhere[1] == ':' && elsewhere[0] == other);
}

} // verus!
