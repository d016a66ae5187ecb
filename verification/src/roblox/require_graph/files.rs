//! Which files the graph is built from, and which files on disk it has to be told about.
use vstd::prelude::*;
use vstd::utf8::*;
use super::blanking::{blank_comments, blanked};
use super::scan::{find_requires, requires_from, CallModel};
use super::string_require::{
    module_files, required_base, string_require_candidates, DiskFacts, DiskModel,
};
use crate::lines::LineIndex;
use crate::roblox::lexing::{literal_from, read_string};
use crate::roblox::sourcemap::{is_luau_path, names_luau};
use crate::text::{comes_before, owned, replace_char, replaced_char, to_chars, trim, trimmed};
use crate::text_map::TextMap;

verus! {

/// Whether a text can be a path: no path on disk holds a NUL.
pub open spec fn can_be_path(path: Seq<char>) -> bool {
    !path.contains('\0')
}

/// A path with its segments told apart by a character that comes before every other.
pub open spec fn path_key(path: Seq<char>) -> Seq<char> {
    replaced_char(path, '/', '\0')
}

/// Whether a path comes before another, segment by segment: a directory comes before a file whose
/// name starts with that of the directory.
pub open spec fn path_before(a: Seq<char>, b: Seq<char>) -> bool {
    comes_before(path_key(a), path_key(b))
}

proof fn keys_tell_paths_apart(a: Seq<char>, b: Seq<char>)
    requires
        can_be_path(a),
        can_be_path(b),
        path_key(a) == path_key(b),
    ensures
        a == b,
{
    assert(a.len() == path_key(a).len());
    assert(b.len() == path_key(b).len());
    assert forall|i: int| 0 <= i < a.len() implies a[i] == b[i] by {
        assert(a.contains(a[i]) && b.contains(b[i]));
        assert(path_key(a)[i] == if a[i] == '/' {
            '\0'
        } else {
            a[i]
        });
        assert(path_key(b)[i] == if b[i] == '/' {
            '\0'
        } else {
            b[i]
        });
    }
    assert(a =~= b);
}

/// What a map from keys to paths holds: the paths of a set, each under its key.
spec fn holds_paths(found: Map<Seq<char>, String>, paths: Set<Seq<char>>) -> bool {
    &&& forall|key: Seq<char>| #[trigger]
        found.contains_key(key) ==> paths.contains(found[key]@) && path_key(found[key]@) == key
    &&& forall|path: Seq<char>| #[trigger]
        paths.contains(path) ==> found.contains_key(path_key(path))
}

/// What the first `n + 1` of a list hold is what the first `n` hold, and one more.
proof fn one_more_is_held(all: Seq<Seq<char>>, n: int, path: Seq<char>)
    requires
        0 <= n < all.len(),
    ensures
        all.take(n + 1).contains(path) <==> all.take(n).contains(path) || all[n] == path,
{
    let more = all.take(n + 1);
    if more.contains(path) {
        let k = choose|k: int| 0 <= k < more.len() && more[k] == path;
        if k < n {
            assert(all.take(n)[k] == path);
        }
    }
    if all.take(n).contains(path) {
        let k = choose|k: int| 0 <= k < n && #[trigger] all.take(n)[k] == path;
        assert(more[k] == path);
    }
    assert(more[n] == all[n]);
}

fn gather(found: &mut TextMap<String>, path: &str, paths: Ghost<Set<Seq<char>>>)
    requires
        holds_paths(old(found)@, paths@),
        can_be_path(path@),
        forall|other: Seq<char>| #[trigger] paths@.contains(other) ==> can_be_path(other),
    ensures
        holds_paths(final(found)@, paths@.insert(path@)),
{
    found.insert(replace_char(path, '/', '\0'), owned(path));
    proof {
        let now = paths@.insert(path@);
        assert forall|key: Seq<char>| #[trigger] found@.contains_key(key) implies now.contains(
            found@[key]@,
        ) && path_key(found@[key]@) == key by {
            if key != path_key(path@) {
                assert(old(found)@.contains_key(key));
            }
        }
        assert forall|p: Seq<char>| #[trigger] now.contains(p) implies found@.contains_key(
            path_key(p),
        ) by {
            if p != path@ {
                assert(paths@.contains(p));
            }
        }
    }
}

/// The files the graph is built from: the Luau files the walk of the project came upon, and those
/// the sourcemap names, each once, in the order of their paths.
///
/// The walk honours the ignore set, which commonly hides `Packages/`. Those modules are still in the
/// game and are still required by name, so what the sourcemap names is in whatever the walk left
/// out.
pub fn luau_files(walked: &Vec<String>, named: &Vec<String>) -> (r: Vec<String>)
    requires
        forall|i: int| 0 <= i < walked@.len() ==> can_be_path((#[trigger] walked@[i])@),
        forall|i: int| 0 <= i < named@.len() ==> can_be_path((#[trigger] named@[i])@),
    ensures
        forall|path: Seq<char>| #[trigger]
            r.deep_view().contains(path) <==> (walked.deep_view().contains(path) && names_luau(path))
                || named.deep_view().contains(path),
        forall|i: int, j: int|
            0 <= i < j < r@.len() ==> path_before((#[trigger] r@[i])@, (#[trigger] r@[j])@),
{
    let mut found: TextMap<String> = TextMap::new();
    let ghost mut paths: Set<Seq<char>> = Set::empty();
    let mut i: usize = 0;
    while i < walked.len()
        invariant
            i <= walked@.len(),
            forall|k: int| 0 <= k < walked@.len() ==> can_be_path((#[trigger] walked@[k])@),
            forall|path: Seq<char>| #[trigger] paths.contains(path) ==> can_be_path(path),
            forall|path: Seq<char>| #[trigger]
                paths.contains(path) <==> walked.deep_view().take(i as int).contains(path)
                    && names_luau(path),
            holds_paths(found@, paths),
        decreases walked@.len() - i,
    {
        let path = walked[i].as_str();
        let ghost all = walked.deep_view();
        if is_luau_path(path) {
            gather(&mut found, path, Ghost(paths));
            proof {
                paths = paths.insert(path@);
            }
        }
        proof {
            assert forall|p: Seq<char>| #[trigger] paths.contains(p) <==> all.take(i + 1).contains(p)
                && names_luau(p) by {
                one_more_is_held(all, i as int, p);
            }
        }
        i = i + 1;
    }
    let ghost walk = paths;
    assert(walked.deep_view().take(i as int) =~= walked.deep_view());
    i = 0;
    while i < named.len()
        invariant
            i <= named@.len(),
            forall|k: int| 0 <= k < named@.len() ==> can_be_path((#[trigger] named@[k])@),
            forall|path: Seq<char>| #[trigger] paths.contains(path) ==> can_be_path(path),
            forall|path: Seq<char>| #[trigger]
                paths.contains(path) <==> walk.contains(path) || named.deep_view().take(
                    i as int,
                ).contains(path),
            holds_paths(found@, paths),
        decreases named@.len() - i,
    {
        let path = named[i].as_str();
        let ghost all = named.deep_view();
        gather(&mut found, path, Ghost(paths));
        proof {
            paths = paths.insert(path@);
            assert forall|p: Seq<char>| #[trigger] paths.contains(p) <==> walk.contains(p)
                || all.take(i + 1).contains(p) by {
                one_more_is_held(all, i as int, p);
            }
        }
        i = i + 1;
    }
    assert(named.deep_view().take(i as int) =~= named.deep_view());
    let count: usize = found.len();
    let mut r: Vec<String> = Vec::new();
    i = 0;
    while i < count
        invariant
            i <= count,
            count == found.names().len(),
            r.deep_view() == found.names().take(i as int).map_values(
                |key: Seq<char>| found@[key]@,
            ),
        decreases count - i,
    {
        let ghost before = r.deep_view();
        r.push(owned(found.value_at(i).as_str()));
        assert(r.deep_view() =~= before.push(found@[found.names()[i as int]]@));
        assert(r.deep_view() =~= found.names().take(i + 1).map_values(
            |key: Seq<char>| found@[key]@,
        ));
        i = i + 1;
    }
    assert forall|k: int| 0 <= k < count implies (#[trigger] r@[k])@ == found@[found.names()[k]]@ by {
        assert(r.deep_view()[k] == r@[k]@);
    }
    proof {
        assert forall|path: Seq<char>| #[trigger] r.deep_view().contains(path) <==> paths.contains(
            path,
        ) by {
            if r.deep_view().contains(path) {
                let k = choose|k: int| 0 <= k < r.deep_view().len() && r.deep_view()[k] == path;
                assert(r@[k]@ == path);
            }
            if paths.contains(path) {
                let key = path_key(path);
                assert(found@.contains_key(key));
                let k = choose|k: int| 0 <= k < found.names().len() && found.names()[k] == key;
                assert(r@[k]@ == found@[key]@);
                assert(path_key(found@[key]@) == key);
                keys_tell_paths_apart(r@[k]@, path);
                assert(r.deep_view()[k] == path);
            }
        }
        assert forall|k: int, l: int| 0 <= k < l < r@.len() implies path_before(
            (#[trigger] r@[k])@,
            (#[trigger] r@[l])@,
        ) by {
            assert(comes_before(found.names()[k], found.names()[l]));
        }
    }
    r
}

// ---------------------------------------------------------------------------
// What the disk is asked

/// The text of a require that is a string require.
pub open spec fn required_text(expression: Seq<char>) -> Option<Seq<char>> {
    let said = trimmed(expression);
    if said.len() > 0 && (said[0] == '"' || said[0] == '\'') {
        Some(literal_from(said, 1, said[0]).0)
    } else {
        None
    }
}

/// The files the string requires among the first `n` calls of a file may mean.
pub open spec fn files_asked(calls: Seq<CallModel>, path: Seq<char>, disk: DiskModel, n: int) -> Seq<
    Seq<char>,
>
    decreases n,
{
    if n <= 0 {
        Seq::empty()
    } else {
        files_asked(calls, path, disk, n - 1) + match required_text(calls[n - 1].expression) {
            Some(literal) => match required_base(disk, literal, path) {
                Ok(base) => module_files(base),
                Err(_) => Seq::empty(),
            },
            None => Seq::empty(),
        }
    }
}

/// The files whose presence on disk decides what the string requires of a file resolve to. They
/// follow from the project's root and aliases; what is on disk does not bear on them.
pub fn candidate_files(source: &str, path: &str, disk: &DiskFacts) -> (r: Vec<String>)
    ensures
        ({
            let calls = requires_from(blanked(encode_utf8(source@)), 0);
            r.deep_view() == files_asked(calls, path@, disk.deep_view(), calls.len() as int)
        }),
{
    let code = blank_comments(source);
    let lines = LineIndex::new(code.as_str());
    let calls = find_requires(code.as_str(), &lines);
    let ghost all = calls.deep_view();
    let mut r: Vec<String> = Vec::new();
    let mut i: usize = 0;
    assert(r.deep_view() =~= files_asked(all, path@, disk.deep_view(), 0));
    while i < calls.len()
        invariant
            i <= calls@.len(),
            all == calls.deep_view(),
            r.deep_view() == files_asked(all, path@, disk.deep_view(), i as int),
        decreases calls@.len() - i,
    {
        assert(all[i as int] == calls@[i as int].deep_view());
        let said = trim(calls[i].expression.as_str());
        let chars = to_chars(said);
        let ghost before = r.deep_view();
        let mut more: Vec<String> = Vec::new();
        assert(more.deep_view() =~= Seq::empty());
        if chars.len() > 0 && (chars[0] == '"' || chars[0] == '\'') {
            let (literal, _) = read_string(&chars, 0, chars[0]);
            more = string_require_candidates(literal.as_str(), path, disk);
        }
        let ghost asked = more.deep_view();
        r.append(&mut more);
        assert(r.deep_view() =~= before + asked);
        i = i + 1;
    }
    r
}

} // verus!
