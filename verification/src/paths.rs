//! Paths as texts with forward slashes.
use vstd::prelude::*;
use crate::text::{
    ascii_lowercase, has_prefix, join, joined, last_position_before, owned, replace_char,
    replaced_char, rfind_char, same_text, slice_text, split, split_on, starts_with, to_ascii_lower,
    to_chars,
};

verus! {

/// A path without the slashes and the single dots it ends with. A root stays a root, and a dot that is
/// all of a path stays.
pub open spec fn without_tail(path: Seq<char>) -> Seq<char>
    decreases path.len(),
{
    if path.len() > 1 && (path.last() == '/' || (path.last() == '.' && path[path.len() - 2] == '/')) {
        without_tail(path.drop_last())
    } else {
        path
    }
}

/// The directory a path stands in: what is left of it without its last name. A root stands in none,
/// and neither does a path that is nothing.
pub open spec fn parent_of(path: Seq<char>) -> Option<Seq<char>> {
    let whole = without_tail(path);
    if whole.len() == 0 || whole == "/"@ {
        None
    } else {
        match last_position_before(whole, '/', whole.len() as int) {
            Some(i) => Some(without_tail(whole.take(i + 1))),
            None => Some(Seq::empty()),
        }
    }
}

/// The last name of a path, where it has one: a root, `.` and `..` are no names.
pub open spec fn name_of(path: Seq<char>) -> Option<Seq<char>> {
    let whole = without_tail(path);
    let name = match last_position_before(whole, '/', whole.len() as int) {
        Some(i) => whole.skip(i + 1),
        None => whole,
    };
    if name.len() == 0 || name == "."@ || name == ".."@ {
        None
    } else {
        Some(name)
    }
}

proof fn tail_is_cut(path: Seq<char>)
    ensures
        without_tail(path).len() <= path.len(),
        path.len() > 0 ==> without_tail(path).len() > 0,
        without_tail(path).len() > 1 ==> without_tail(path).last() != '/',
    decreases path.len(),
{
    if path.len() > 1 && (path.last() == '/' || (path.last() == '.' && path[path.len() - 2] == '/')) {
        tail_is_cut(path.drop_last());
    }
}

pub proof fn parent_is_shorter(path: Seq<char>)
    ensures
        parent_of(path) matches Some(up) ==> up.len() < path.len(),
{
    reveal_strlit("/");
    let whole = without_tail(path);
    tail_is_cut(path);
    last_position_is_inside(whole, '/', whole.len() as int);
    if let Some(i) = last_position_before(whole, '/', whole.len() as int) {
        tail_is_cut(whole.take(i + 1));
        if whole.len() == 1 {
            assert(whole =~= "/"@);
        }
    }
}

pub proof fn last_position_is_inside(s: Seq<char>, c: char, to: int)
    requires
        to <= s.len(),
    ensures
        last_position_before(s, c, to) matches Some(i) ==> 0 <= i < to && s[i] == c,
    decreases to,
{
    if to > 0 && s[to - 1] != c {
        last_position_is_inside(s, c, to - 1);
    }
}

/// Where a path ends that is cut to its first `end` characters, without its tail.
fn tail_start(chars: &Vec<char>, end: usize) -> (to: usize)
    requires
        end <= chars@.len(),
    ensures
        to <= end,
        chars@.take(to as int) == without_tail(chars@.take(end as int)),
{
    let mut to: usize = end;
    while to > 1 && (chars[to - 1] == '/' || (chars[to - 1] == '.' && chars[to - 2] == '/'))
        invariant
            to <= end <= chars@.len(),
            without_tail(chars@.take(to as int)) == without_tail(chars@.take(end as int)),
        decreases to,
    {
        assert(chars@.take(to as int).drop_last() =~= chars@.take(to - 1));
        to = to - 1;
    }
    to
}

/// The directory a path stands in.
pub fn parent(path: &str) -> (r: Option<String>)
    ensures
        r.deep_view() == parent_of(path@),
{
    let chars = to_chars(path);
    let to = tail_start(&chars, chars.len());
    assert(path@.take(path@.len() as int) =~= path@);
    let whole = to_chars(slice_text(&chars, 0, to).as_str());
    assert(whole@ =~= without_tail(path@));
    proof {
        reveal_strlit("/");
        assert(whole@.len() == 1 && whole@[0] == '/' ==> whole@ =~= "/"@);
    }
    if whole.len() == 0 || (whole.len() == 1 && whole[0] == '/') {
        return None;
    }
    match rfind_char(&whole, '/') {
        Some(i) => {
            let end = tail_start(&whole, i + 1);
            assert(whole@.take(end as int) =~= whole@.subrange(0, end as int));
            Some(slice_text(&whole, 0, end))
        },
        None => Some(String::new()),
    }
}

/// The last name of a path.
pub fn file_name(path: &str) -> (r: Option<String>)
    ensures
        r.deep_view() == name_of(path@),
{
    let chars = to_chars(path);
    let to = tail_start(&chars, chars.len());
    assert(path@.take(path@.len() as int) =~= path@);
    let whole = to_chars(slice_text(&chars, 0, to).as_str());
    assert(whole@ =~= without_tail(path@));
    let from: usize = match rfind_char(&whole, '/') {
        Some(i) => i + 1,
        None => 0,
    };
    let name = slice_text(&whole, from, whole.len());
    proof {
        let ghost_name = match last_position_before(whole@, '/', whole@.len() as int) {
            Some(i) => whole@.skip(i + 1),
            None => whole@,
        };
        assert(name@ =~= ghost_name);
    }
    if name.as_str().is_empty() || same_text(name.as_str(), ".") || same_text(name.as_str(), "..") {
        None
    } else {
        Some(name)
    }
}

/// A path below a directory; an absolute path stands for itself.
pub open spec fn joined_path(base: Seq<char>, part: Seq<char>) -> Seq<char> {
    if part.len() > 0 && part[0] == '/' {
        part
    } else if base.len() == 0 || base.last() == '/' {
        base + part
    } else {
        base + "/"@ + part
    }
}

/// Puts a path below a directory.
pub fn join_path(base: &str, part: &str) -> (r: String)
    ensures
        r@ == joined_path(base@, part@),
{
    let parts = to_chars(part);
    if parts.len() > 0 && parts[0] == '/' {
        return owned(part);
    }
    let bases = to_chars(base);
    let mut r = owned(base);
    if !(bases.len() == 0 || bases[bases.len() - 1] == '/') {
        r.append("/");
    }
    r.append(part);
    r
}

/// Whether a path starts with a drive, such as `C:`.
pub open spec fn has_drive(path: Seq<char>) -> bool {
    path.len() >= 2 && path[1] == ':' && ('a' <= path[0] <= 'z' || 'A' <= path[0] <= 'Z')
}

fn with_drive(path: &str) -> (b: bool)
    ensures
        b == has_drive(path@),
{
    let chars = to_chars(path);
    chars.len() >= 2 && chars[1] == ':' && (('a' <= chars[0] && chars[0] <= 'z') || ('A' <= chars[0]
        && chars[0] <= 'Z'))
}

/// Where the first slash at `from` or behind it stands, or the end of the path.
pub open spec fn slash_from(path: Seq<char>, from: int) -> int
    decreases path.len() - from,
{
    if from >= path.len() {
        path.len() as int
    } else if path[from] == '/' {
        from
    } else {
        slash_from(path, from + 1)
    }
}

/// Where the share of a server ends whose names start at `from`, or 0 where there are not both.
pub open spec fn share_end(path: Seq<char>, from: int) -> int {
    let server = slash_from(path, from);
    let share = slash_from(path, server + 1);
    if from < server && server + 1 < share {
        share
    } else {
        0
    }
}

/// Where the prefix ends that a path starts with on Windows: a drive, or the share of a server.
pub open spec fn prefix_end(path: Seq<char>) -> int {
    if has_drive(path) {
        2
    } else if starts_with(path, "//?/UNC/"@) {
        share_end(path, 8)
    } else if starts_with(path, "//"@) {
        share_end(path, 2)
    } else {
        0
    }
}

/// The prefix a path starts with on Windows, or nothing.
pub open spec fn prefix_of(path: Seq<char>) -> Seq<char> {
    path.take(prefix_end(path))
}

/// What stands behind the prefix of a path on Windows. A share alone is its own root.
pub open spec fn behind_prefix(path: Seq<char>) -> Seq<char> {
    if path.len() > 0 && prefix_end(path) == path.len() && !has_drive(path) {
        "/"@
    } else {
        path.skip(prefix_end(path))
    }
}

proof fn slash_is_inside(path: Seq<char>, from: int)
    requires
        0 <= from,
    ensures
        from <= path.len() ==> from <= slash_from(path, from) <= path.len(),
        from > path.len() ==> slash_from(path, from) == path.len(),
    decreases path.len() - from,
{
    if from < path.len() {
        slash_is_inside(path, from + 1);
    }
}

pub proof fn prefix_is_inside(path: Seq<char>)
    ensures
        0 <= prefix_end(path) <= path.len(),
        prefix_end(path) == path.len() ==> path.len() != 1,
{
    reveal_strlit("//");
    reveal_strlit("//?/UNC/");
    slash_is_inside(path, 2);
    slash_is_inside(path, slash_from(path, 2) + 1);
    slash_is_inside(path, 8);
    slash_is_inside(path, slash_from(path, 8) + 1);
}

fn find_slash(chars: &Vec<char>, from: usize) -> (r: usize)
    requires
        from <= chars@.len(),
    ensures
        r == slash_from(chars@, from as int),
        from <= r <= chars@.len(),
{
    let mut i: usize = from;
    while i < chars.len() && chars[i] != '/'
        invariant
            from <= i <= chars@.len(),
            slash_from(chars@, from as int) == slash_from(chars@, i as int),
        decreases chars@.len() - i,
    {
        i = i + 1;
    }
    i
}

fn find_share_end(chars: &Vec<char>, from: usize) -> (r: usize)
    requires
        from <= chars@.len(),
    ensures
        r == share_end(chars@, from as int),
        r <= chars@.len(),
{
    let server = find_slash(chars, from);
    if server == chars.len() {
        return 0;
    }
    let share = find_slash(chars, server + 1);
    if from < server && server + 1 < share {
        share
    } else {
        0
    }
}

/// Parts a path into its prefix on Windows and what stands behind it.
fn part_prefix(path: &str) -> (r: (String, String))
    ensures
        r.0@ == prefix_of(path@),
        r.1@ == behind_prefix(path@),
{
    let chars = to_chars(path);
    proof {
        reveal_strlit("//");
        reveal_strlit("//?/UNC/");
    }
    let drive = with_drive(path);
    let end: usize = if drive {
        2
    } else if has_prefix(path, "//?/UNC/") {
        find_share_end(&chars, 8)
    } else if has_prefix(path, "//") {
        find_share_end(&chars, 2)
    } else {
        0
    };
    let prefix = slice_text(&chars, 0, end);
    assert(prefix@ =~= prefix_of(path@));
    if chars.len() > 0 && end == chars.len() && !drive {
        return (prefix, owned("/"));
    }
    let rest = slice_text(&chars, end, chars.len());
    assert(rest@ =~= path@.skip(end as int));
    (prefix, rest)
}

/// A path below a directory, as Windows joins them or as other systems do. Windows takes either slash;
/// a path with a drive or a share stands for itself, and one that starts at a root stands on the drive
/// or the share of the directory. What is told from where a drive stands follows it without a slash.
pub open spec fn joined_on(windows: bool, base: Seq<char>, part: Seq<char>) -> Seq<char> {
    let said = replaced_char(part, '\\', '/');
    if !windows {
        joined_path(base, part)
    } else if prefix_end(said) > 0 {
        said
    } else if is_rooted(said) {
        prefix_of(base) + said
    } else if has_drive(base) && base.len() == 2 {
        base + said
    } else {
        joined_path(base, said)
    }
}

/// Puts a path below a directory, as the system does.
pub fn join_on(windows: bool, base: &str, part: &str) -> (r: String)
    ensures
        r@ == joined_on(windows, base@, part@),
{
    if !windows {
        return join_path(base, part);
    }
    let said = replace_char(part, '\\', '/');
    let (prefix, _) = part_prefix(said.as_str());
    proof {
        prefix_is_inside(said@);
    }
    if !prefix.as_str().is_empty() {
        return said;
    }
    let (mut r, rest) = part_prefix(base);
    if has_prefix(said.as_str(), "/") {
        r.append(said.as_str());
        return r;
    }
    if with_drive(base) && rest.as_str().is_empty() {
        assert(base@.len() == 2);
        assert(prefix_of(base@) =~= base@);
        r.append(said.as_str());
        return r;
    }
    join_path(base, said.as_str())
}

/// The directory a path stands in, as the system sees it. Windows takes no drive and no share for a
/// name.
pub open spec fn parent_on(windows: bool, path: Seq<char>) -> Option<Seq<char>> {
    if !windows {
        parent_of(path)
    } else {
        match parent_of(behind_prefix(path)) {
            Some(up) => Some(prefix_of(path) + up),
            None => None,
        }
    }
}

pub proof fn parent_on_is_shorter(windows: bool, path: Seq<char>)
    ensures
        parent_on(windows, path) matches Some(up) ==> up.len() < path.len(),
{
    reveal_strlit("/");
    parent_is_shorter(path);
    parent_is_shorter(behind_prefix(path));
    prefix_is_inside(path);
    if behind_prefix(path) == "/"@ {
        assert(without_tail("/"@) == "/"@);
    }
}

/// The directory a path stands in, as the system sees it.
pub fn directory_on(windows: bool, path: &str) -> (r: Option<String>)
    ensures
        r.deep_view() == parent_on(windows, path@),
{
    if !windows {
        return parent(path);
    }
    let (mut prefix, rest) = part_prefix(path);
    match parent(rest.as_str()) {
        Some(up) => {
            prefix.append(up.as_str());
            Some(prefix)
        },
        None => None,
    }
}

/// Whether a part of a path between slashes counts: nothing does not, and a single dot only where the
/// path starts with it.
pub open spec fn counts(parts: Seq<Seq<char>>, i: int) -> bool {
    parts[i].len() > 0 && (i == 0 || parts[i] != "."@)
}

/// Those of the first `n` parts of a path that count.
pub open spec fn parts_that_count(parts: Seq<Seq<char>>, n: int) -> Seq<Seq<char>>
    decreases n,
{
    if n <= 0 {
        Seq::empty()
    } else if counts(parts, n - 1) {
        parts_that_count(parts, n - 1).push(parts[n - 1])
    } else {
        parts_that_count(parts, n - 1)
    }
}

/// The parts a path is made of.
pub open spec fn parts_of(path: Seq<char>) -> Seq<Seq<char>> {
    let parts = split_on(path, '/');
    parts_that_count(parts, parts.len() as int)
}

/// Whether a path starts at a root.
pub open spec fn is_rooted(path: Seq<char>) -> bool {
    starts_with(path, "/"@)
}

/// Whether a path is a directory or stands somewhere below it: part by part, however often a slash is
/// written.
pub open spec fn is_below(path: Seq<char>, directory: Seq<char>) -> bool {
    (parts_of(directory).len() == 0 && !is_rooted(directory)) || (is_rooted(path) == is_rooted(
        directory,
    ) && starts_with(parts_of(path), parts_of(directory)))
}

/// The parts a path is made of.
fn path_parts(path: &str) -> (r: Vec<String>)
    ensures
        r.deep_view() == parts_of(path@),
{
    let parts = split(path, '/');
    let ghost all = parts.deep_view();
    let mut found: Vec<String> = Vec::new();
    let mut i: usize = 0;
    assert(found.deep_view() =~= parts_that_count(all, 0));
    while i < parts.len()
        invariant
            i <= parts@.len(),
            all == parts.deep_view(),
            found.deep_view() == parts_that_count(all, i as int),
        decreases parts@.len() - i,
    {
        let part = parts[i].as_str();
        assert(all[i as int] == part@);
        let ghost before = found.deep_view();
        if !part.is_empty() && (i == 0 || !same_text(part, ".")) {
            found.push(owned(part));
            assert(found.deep_view() =~= before.push(part@));
        }
        i = i + 1;
    }
    found
}

fn parts_start_with(parts: &Vec<String>, first: &Vec<String>) -> (b: bool)
    ensures
        b == starts_with(parts.deep_view(), first.deep_view()),
{
    let ghost all = parts.deep_view();
    let ghost wanted = first.deep_view();
    if first.len() > parts.len() {
        return false;
    }
    let mut i: usize = 0;
    while i < first.len()
        invariant
            i <= first@.len() <= parts@.len(),
            all == parts.deep_view(),
            wanted == first.deep_view(),
            forall|k: int| 0 <= k < i ==> #[trigger] all[k] == wanted[k],
        decreases first@.len() - i,
    {
        assert(all[i as int] == parts@[i as int]@);
        assert(wanted[i as int] == first@[i as int]@);
        if !same_text(parts[i].as_str(), first[i].as_str()) {
            proof {
                if starts_with(all, wanted) {
                    assert(all.subrange(0, wanted.len() as int)[i as int] == wanted[i as int]);
                }
            }
            return false;
        }
        i = i + 1;
    }
    assert(all.subrange(0, wanted.len() as int) =~= wanted);
    true
}

/// Decides whether a path is a directory or stands somewhere below it.
pub fn below(path: &str, directory: &str) -> (b: bool)
    ensures
        b == is_below(path@, directory@),
{
    let inner = path_parts(path);
    let outer = path_parts(directory);
    let rooted = has_prefix(directory, "/");
    assert(outer.deep_view().len() == outer@.len());
    (outer.len() == 0 && !rooted) || (has_prefix(path, "/") == rooted && parts_start_with(
        &inner,
        &outer,
    ))
}

/// The names among the first `n` parts of a path, `.` left out and each `..` taken back with the
/// name before it.
pub open spec fn clean_parts(parts: Seq<Seq<char>>, n: int) -> Seq<Seq<char>>
    decreases n,
{
    if n <= 0 {
        Seq::empty()
    } else {
        let before = clean_parts(parts, n - 1);
        let part = parts[n - 1];
        if part.len() == 0 || part == "."@ {
            before
        } else if part == ".."@ {
            if before.len() > 0 {
                before.drop_last()
            } else {
                before
            }
        } else {
            before.push(part)
        }
    }
}

/// A path without `.` and `..`.
pub open spec fn cleaned(path: Seq<char>) -> Seq<char> {
    let parts = split_on(path, '/');
    let names = joined(clean_parts(parts, parts.len() as int), "/"@);
    if path.len() > 0 && path[0] == '/' {
        "/"@ + names
    } else {
        names
    }
}

/// Takes `.` and `..` out of a path.
pub fn normalize_path(path: &str) -> (r: String)
    ensures
        r@ == cleaned(path@),
{
    let parts = split(path, '/');
    let ghost all = parts.deep_view();
    let mut names: Vec<String> = Vec::new();
    let mut i: usize = 0;
    assert(names.deep_view() =~= clean_parts(all, 0));
    while i < parts.len()
        invariant
            i <= parts@.len(),
            all == parts.deep_view(),
            names.deep_view() == clean_parts(all, i as int),
        decreases parts@.len() - i,
    {
        let part = parts[i].as_str();
        assert(all[i as int] == part@);
        let ghost before = names.deep_view();
        if part.is_empty() || same_text(part, ".") {
        } else if same_text(part, "..") {
            assert(before.len() == names@.len());
            if names.len() > 0 {
                names.pop();
                assert(names.deep_view() =~= before.drop_last());
            }
        } else {
            names.push(owned(part));
            assert(names.deep_view() =~= before.push(part@));
        }
        i = i + 1;
    }
    let chars = to_chars(path);
    let tail = join(&names, "/");
    if chars.len() > 0 && chars[0] == '/' {
        let mut r = owned("/");
        r.append(tail.as_str());
        r
    } else {
        tail
    }
}

/// A path without `.` and `..`, as the system sees it: on Windows no `..` takes a drive or a share back.
pub open spec fn cleaned_on(windows: bool, path: Seq<char>) -> Seq<char> {
    if windows {
        prefix_of(path) + cleaned(behind_prefix(path))
    } else {
        cleaned(path)
    }
}

/// Takes `.` and `..` out of a path, as the system does.
pub fn normalize_on(windows: bool, path: &str) -> (r: String)
    ensures
        r@ == cleaned_on(windows, path@),
{
    if !windows {
        return normalize_path(path);
    }
    let (mut prefix, rest) = part_prefix(path);
    prefix.append(normalize_path(rest.as_str()).as_str());
    prefix
}

/// Whether two prefixes name the same: the letter of a drive is the same in either case.
pub open spec fn is_same_prefix(a: Seq<char>, b: Seq<char>) -> bool {
    a == b || (has_drive(a) && has_drive(b) && ascii_lowercase(a) == ascii_lowercase(b))
}

/// Whether a path is a directory or stands somewhere below it, as the system sees it.
pub open spec fn is_below_on(windows: bool, path: Seq<char>, directory: Seq<char>) -> bool {
    if windows {
        directory.len() == 0 || (is_same_prefix(prefix_of(path), prefix_of(directory)) && is_below(
            behind_prefix(path),
            behind_prefix(directory),
        ))
    } else {
        is_below(path, directory)
    }
}

/// Decides whether a path is a directory or stands somewhere below it, as the system does.
pub fn below_on(windows: bool, path: &str, directory: &str) -> (b: bool)
    ensures
        b == is_below_on(windows, path@, directory@),
{
    if !windows {
        return below(path, directory);
    }
    if directory.is_empty() {
        return true;
    }
    let (prefix, rest) = part_prefix(path);
    let (outer, above) = part_prefix(directory);
    let same = same_text(prefix.as_str(), outer.as_str()) || (with_drive(prefix.as_str())
        && with_drive(outer.as_str()) && same_text(
        to_ascii_lower(prefix.as_str()).as_str(),
        to_ascii_lower(outer.as_str()).as_str(),
    ));
    same && below(rest.as_str(), above.as_str())
}

/// A path told from a directory, where it is below it.
pub open spec fn told_from(directory: Seq<char>, path: Seq<char>) -> Option<Seq<char>> {
    let root = if is_rooted(path) && !is_rooted(directory) {
        "/"@
    } else {
        ""@
    };
    if is_below(path, directory) {
        Some(root + joined(parts_of(path).skip(parts_of(directory).len() as int), "/"@))
    } else {
        None
    }
}

/// Tells a path from a directory it is below.
pub fn relative_path(directory: &str, path: &str) -> (r: Option<String>)
    ensures
        r.deep_view() == told_from(directory@, path@),
{
    if !below(path, directory) {
        return None;
    }
    let outer = path_parts(directory);
    let parts = path_parts(path);
    assert(outer.deep_view().len() == outer@.len());
    let ghost all = parts.deep_view();
    let from: usize = outer.len();
    let mut rest: Vec<String> = Vec::new();
    let mut i: usize = from;
    assert(rest.deep_view() =~= all.subrange(from as int, from as int));
    while i < parts.len()
        invariant
            from <= i <= parts@.len(),
            all == parts.deep_view(),
            rest.deep_view() == all.subrange(from as int, i as int),
        decreases parts@.len() - i,
    {
        let ghost before = rest.deep_view();
        assert(all[i as int] == parts@[i as int]@);
        rest.push(owned(parts[i].as_str()));
        assert(rest.deep_view() =~= before.push(all[i as int]));
        assert(rest.deep_view() =~= all.subrange(from as int, i + 1));
        i = i + 1;
    }
    assert(rest.deep_view() =~= all.skip(from as int));
    let mut r = if has_prefix(path, "/") && !has_prefix(directory, "/") {
        owned("/")
    } else {
        owned("")
    };
    r.append(join(&rest, "/").as_str());
    Some(r)
}

/// A path told from a directory, where it is below it, as the system sees it.
pub open spec fn told_from_on(windows: bool, directory: Seq<char>, path: Seq<char>) -> Option<
    Seq<char>,
> {
    if !windows {
        told_from(directory, path)
    } else if !is_below_on(windows, path, directory) {
        None
    } else if directory.len() == 0 {
        match told_from(directory, behind_prefix(path)) {
            Some(told) => Some(prefix_of(path) + told),
            None => None,
        }
    } else {
        told_from(behind_prefix(directory), behind_prefix(path))
    }
}

/// Tells a path from a directory it is below, as the system does.
pub fn relative_path_on(windows: bool, directory: &str, path: &str) -> (r: Option<String>)
    ensures
        r.deep_view() == told_from_on(windows, directory@, path@),
{
    if !windows {
        return relative_path(directory, path);
    }
    if !below_on(windows, path, directory) {
        return None;
    }
    let (mut prefix, rest) = part_prefix(path);
    if directory.is_empty() {
        match relative_path(directory, rest.as_str()) {
            Some(told) => {
                prefix.append(told.as_str());
                Some(prefix)
            },
            None => None,
        }
    } else {
        let (_, above) = part_prefix(directory);
        relative_path(above.as_str(), rest.as_str())
    }
}

} // verus!
