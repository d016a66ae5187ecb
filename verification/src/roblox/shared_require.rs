//! Resolution for the `shared("Name")` string require.
//!
//! Sawhorse Roblox frameworks give the `shared` global a `__call` metamethod, so `shared("Foo")` is
//! a runtime require of the module whose file is named `Foo.luau`. A root-level `init.luau` carries
//! no name of its own in project-relative paths, so it is not indexed at all.
use vstd::prelude::*;
use super::require_graph::scan::bound_to;
use super::sourcemap::{after_last_slash, node_wf, nodes_of_file, NodeModel, Sourcemap};
use crate::text::{
    ascii_lowercase, ends_with, find_char, has_suffix, join, joined, owned, position_from,
    replace_char, replaced_char, rfind_char, same_text, slice_text, sort_texts, sorted_texts,
    split, split_on, strip_suffix, to_ascii_lower, to_chars, without_suffix,
};

verus! {

/// What a `shared("Name")` lookup came to.
#[derive(Debug, PartialEq, Eq)]
pub enum Resolution {
    /// The project-relative path of the module the call resolves to.
    Found(String),
    NotFound,
    /// Every candidate that tied for nearest, sorted.
    Ambiguous(Vec<String>),
}

pub enum ResolutionModel {
    Found(Seq<char>),
    NotFound,
    Ambiguous(Seq<Seq<char>>),
}

impl DeepView for Resolution {
    type V = ResolutionModel;

    open spec fn deep_view(&self) -> ResolutionModel {
        match self {
            Resolution::Found(path) => ResolutionModel::Found(path@),
            Resolution::NotFound => ResolutionModel::NotFound,
            Resolution::Ambiguous(paths) => ResolutionModel::Ambiguous(paths.deep_view()),
        }
    }
}

struct Entry {
    relative_path: String,
    /// The file stem, small letters.
    key: String,
    /// Root-relative, extension stripped, forward-slashed, lowercased, with `dir/init.luau` folded
    /// under `dir`. What a needle carrying path segments is matched against.
    key_path: String,
}

pub struct EntryModel {
    pub relative_path: Seq<char>,
    pub key: Seq<char>,
    pub key_path: Seq<char>,
}

impl DeepView for Entry {
    type V = EntryModel;

    closed spec fn deep_view(&self) -> EntryModel {
        EntryModel {
            relative_path: self.relative_path@,
            key: self.key@,
            key_path: self.key_path@,
        }
    }
}

/// Case-insensitive index of the project's Luau files, by file stem.
pub struct SharedIndex {
    entries: Vec<Entry>,
    /// Project-relative path to the name proximity is scored against: the sourcemap virtual path
    /// where the file has one, the file path where it does not.
    module_names: Vec<(String, String)>,
}

// ---------------------------------------------------------------------------
// Names

/// A path without a Luau extension, where it has one.
pub open spec fn without_luau(path: Seq<char>) -> Option<Seq<char>> {
    match without_suffix(path, ".luau"@) {
        Some(rest) => Some(rest),
        None => without_suffix(path, ".lua"@),
    }
}

/// What stands before the last slash of a text.
pub open spec fn before_last_slash(path: Seq<char>) -> Seq<char> {
    match crate::text::last_position_before(path, '/', path.len() as int) {
        Some(i) => path.take(i),
        None => Seq::empty(),
    }
}

/// The stem and match path of a file, or nothing when the file cannot be one. Rojo collapses
/// `dir/init.luau` into an instance named `dir`.
pub open spec fn key_of(relative_path: Seq<char>) -> Option<(Seq<char>, Seq<char>)> {
    match without_luau(relative_path) {
        None => None,
        Some(bare) => {
            let path = if ascii_lowercase(after_last_slash(bare)) == "init"@ {
                before_last_slash(bare)
            } else {
                bare
            };
            let stem = after_last_slash(path);
            if stem.len() == 0 {
                None
            } else {
                Some((ascii_lowercase(stem), ascii_lowercase(path)))
            }
        },
    }
}

/// What follows the last slash.
pub fn last_segment(path: &str) -> (r: String)
    ensures
        r@ == after_last_slash(path@),
{
    let chars = to_chars(path);
    match rfind_char(&chars, '/') {
        Some(i) => {
            assert(path@.skip(i + 1) =~= path@.subrange(i + 1, path@.len() as int));
            slice_text(&chars, i + 1, chars.len())
        },
        None => owned(path),
    }
}

fn leading_segments(path: &str) -> (r: String)
    ensures
        r@ == before_last_slash(path@),
{
    let chars = to_chars(path);
    match rfind_char(&chars, '/') {
        Some(i) => {
            assert(path@.take(i as int) =~= path@.subrange(0, i as int));
            slice_text(&chars, 0, i)
        },
        None => String::new(),
    }
}

fn strip_luau_extension<'a>(path: &'a str) -> (r: Option<&'a str>)
    ensures
        r.deep_view() == without_luau(path@),
{
    match strip_suffix(path, ".luau") {
        Some(rest) => Some(rest),
        None => strip_suffix(path, ".lua"),
    }
}

fn index_key_for(relative_path: &str) -> (r: Option<(String, String)>)
    ensures
        r.deep_view() == key_of(relative_path@),
{
    match strip_luau_extension(relative_path) {
        None => None,
        Some(bare) => {
            let last = to_ascii_lower(last_segment(bare).as_str());
            let path = if same_text(last.as_str(), "init") {
                leading_segments(bare)
            } else {
                owned(bare)
            };
            let stem = last_segment(path.as_str());
            if stem.as_str().is_empty() {
                None
            } else {
                Some((to_ascii_lower(stem.as_str()), to_ascii_lower(path.as_str())))
            }
        },
    }
}

/// The names from the root down to a node; the root is reported by its label.
pub open spec fn lineage(nodes: Seq<NodeModel>, i: int) -> Seq<Seq<char>>
    decreases i,
{
    match nodes[i].parent {
        None => seq![nodes[i].instance_path],
        Some(p) => if 0 <= p < i {
            lineage(nodes, p).push(nodes[i].name)
        } else {
            seq![nodes[i].instance_path]
        },
    }
}

/// The name proximity is scored against: the path of instances where the sourcemap has the file,
/// the file's own path where it does not.
pub open spec fn module_name_of(nodes: Seq<NodeModel>, relative_path: Seq<char>) -> Seq<char> {
    let found = nodes_of_file(nodes, relative_path);
    if found.len() == 0 {
        relative_path
    } else {
        joined(lineage(nodes, found[0]), "/"@)
    }
}

fn module_name(sourcemap: &Sourcemap, relative_path: &str) -> (r: String)
    requires
        sourcemap.wf(),
    ensures
        r@ == module_name_of(sourcemap@, relative_path@),
{
    let ghost nodes = sourcemap@;
    let found = sourcemap.nodes_for_file(relative_path);
    assert(found@.map_values(|v: usize| v as int).len() == found@.len());
    if found.len() == 0 {
        return owned(relative_path);
    }
    let mut current: usize = found[0];
    assert(nodes_of_file(nodes, relative_path@)[0] == current as int);
    let ghost whole = lineage(nodes, current as int);
    // Collected from the node up, so the first is last.
    let mut upward: Vec<String> = Vec::new();
    assert(whole =~= lineage(nodes, current as int) + upward.deep_view().reverse());
    loop
        invariant_except_break
            whole == lineage(nodes, current as int) + upward.deep_view().reverse(),
        invariant
            sourcemap.wf(),
            nodes == sourcemap@,
            current < nodes.len(),
        ensures
            whole == upward.deep_view().reverse(),
        decreases current,
    {
        let node = sourcemap.node(current);
        assert(node_wf(nodes, current as int));
        let ghost before = upward.deep_view();
        match node.parent {
            Some(parent) => {
                upward.push(node.name.clone());
                proof {
                    assert(upward.deep_view() =~= before.push(nodes[current as int].name));
                    assert(lineage(nodes, parent as int).push(nodes[current as int].name)
                        + before.reverse() =~= lineage(nodes, parent as int)
                        + upward.deep_view().reverse());
                }
                current = parent;
            },
            None => {
                upward.push(node.instance_path.clone());
                proof {
                    assert(upward.deep_view() =~= before.push(nodes[current as int].instance_path));
                    assert(seq![nodes[current as int].instance_path] + before.reverse()
                        =~= upward.deep_view().reverse());
                }
                break;
            },
        }
    }
    let mut segments: Vec<String> = Vec::new();
    let mut i: usize = upward.len();
    while i > 0
        invariant
            i <= upward@.len(),
            whole == upward.deep_view().reverse(),
            segments.deep_view() == whole.take(upward@.len() - i),
        decreases i,
    {
        let ghost before = segments.deep_view();
        segments.push(upward[i - 1].clone());
        assert(upward.deep_view()[i - 1] == whole[upward@.len() - i]);
        assert(segments.deep_view() =~= before.push(whole[upward@.len() - i]));
        assert(segments.deep_view() =~= whole.take(upward@.len() - i + 1));
        i = i - 1;
    }
    assert(whole.take(upward@.len() as int) =~= whole);
    join(&segments, "/")
}

// ---------------------------------------------------------------------------
// Matching

/// What a name is looked up as: small letters, forward slashes, and no extension.
pub open spec fn needle_of(name: Seq<char>) -> Seq<char> {
    let plain = replaced_char(ascii_lowercase(name), '\\', '/');
    if plain.len() > 5 && ends_with(plain, ".luau"@) {
        plain.take(plain.len() - 5)
    } else if plain.len() > 4 && ends_with(plain, ".lua"@) {
        plain.take(plain.len() - 4)
    } else {
        plain
    }
}

fn needle(name: &str) -> (r: String)
    ensures
        r@ == needle_of(name@),
{
    proof {
        reveal_strlit(".luau");
        reveal_strlit(".lua");
    }
    let plain = replace_char(to_ascii_lower(name).as_str(), '\\', '/');
    let len = plain.as_str().unicode_len();
    if len > 5 {
        if let Some(rest) = strip_suffix(plain.as_str(), ".luau") {
            return owned(rest);
        }
    }
    if len > 4 {
        if let Some(rest) = strip_suffix(plain.as_str(), ".lua") {
            return owned(rest);
        }
    }
    plain
}

/// Whether a path ends with a suffix on a `/` boundary, or is exactly the suffix.
pub open spec fn ends_on_boundary(path: Seq<char>, suffix: Seq<char>) -> bool {
    ||| path == suffix
    ||| path.len() > suffix.len() && path[path.len() - suffix.len() - 1] == '/' && ends_with(
        path,
        suffix,
    )
}

fn ends_with_path_suffix(path: &str, suffix: &str) -> (b: bool)
    ensures
        b == ends_on_boundary(path@, suffix@),
{
    if same_text(path, suffix) {
        return true;
    }
    let chars = to_chars(path);
    let wanted = suffix.unicode_len();
    if chars.len() <= wanted {
        return false;
    }
    chars[chars.len() - wanted - 1] == '/' && has_suffix(path, suffix)
}

/// How many leading texts two lists share.
pub open spec fn shared_prefix(left: Seq<Seq<char>>, right: Seq<Seq<char>>) -> int
    decreases left.len(),
{
    if left.len() == 0 || right.len() == 0 || left[0] != right[0] {
        0
    } else {
        1 + shared_prefix(left.skip(1), right.skip(1))
    }
}

/// The segments of a name. Module names are `/`-separated virtual paths with a sourcemap loaded
/// and file paths without one, so both separators count.
pub open spec fn name_segments(name: Seq<char>) -> Seq<Seq<char>> {
    split_on(replaced_char(name, '\\', '/'), '/')
}

/// How near two names are: the leading segments they share.
pub open spec fn nearness(left: Seq<char>, right: Seq<char>) -> int {
    shared_prefix(name_segments(left), name_segments(right))
}

/// Leading segments two paths share.
pub fn common_segment_count(left: &str, right: &str) -> (count: usize)
    ensures
        count == nearness(left@, right@),
{
    let a = split(replace_char(left, '\\', '/').as_str(), '/');
    let b = split(replace_char(right, '\\', '/').as_str(), '/');
    let ghost ours = a.deep_view();
    let ghost theirs = b.deep_view();
    let mut i: usize = 0;
    assert(ours.skip(0) =~= ours);
    assert(theirs.skip(0) =~= theirs);
    while i < a.len() && i < b.len() && same_text(a[i].as_str(), b[i].as_str())
        invariant
            i <= a@.len(),
            i <= b@.len(),
            ours == a.deep_view(),
            theirs == b.deep_view(),
            shared_prefix(ours, theirs) == i + shared_prefix(
                ours.skip(i as int),
                theirs.skip(i as int),
            ),
        decreases a@.len() - i,
    {
        assert(ours.skip(i as int)[0] == a@[i as int]@);
        assert(theirs.skip(i as int)[0] == b@[i as int]@);
        assert(ours.skip(i as int).skip(1) =~= ours.skip(i + 1));
        assert(theirs.skip(i as int).skip(1) =~= theirs.skip(i + 1));
        i = i + 1;
    }
    proof {
        if i < a@.len() && i < b@.len() {
            assert(ours.skip(i as int)[0] == a@[i as int]@);
            assert(theirs.skip(i as int)[0] == b@[i as int]@);
        }
    }
    i
}

/// Whether a file is a candidate: it carries the stem, its path ends with the needle where that
/// has segments, and it is not the requiring file.
pub open spec fn is_candidate(
    entry: EntryModel,
    wanted: Seq<char>,
    requiring: Seq<char>,
) -> bool {
    &&& entry.key == after_last_slash(wanted)
    &&& wanted.contains('/') ==> ends_on_boundary(entry.key_path, wanted)
    &&& entry.relative_path != requiring
}

/// The candidates among the first `n` files, in order.
pub open spec fn candidates(
    entries: Seq<EntryModel>,
    wanted: Seq<char>,
    requiring: Seq<char>,
    n: int,
) -> Seq<Seq<char>>
    decreases n,
{
    if n <= 0 {
        Seq::empty()
    } else if is_candidate(entries[n - 1], wanted, requiring) {
        candidates(entries, wanted, requiring, n - 1).push(entries[n - 1].relative_path)
    } else {
        candidates(entries, wanted, requiring, n - 1)
    }
}

/// The name a path is scored by.
pub open spec fn scored_name(names: Seq<(Seq<char>, Seq<char>)>, path: Seq<char>) -> Seq<char> {
    match bound_to(names, path, names.len() as int) {
        Some(name) => name,
        None => path,
    }
}

/// How near a candidate is to the requiring file.
pub open spec fn score(
    names: Seq<(Seq<char>, Seq<char>)>,
    path: Seq<char>,
    requiring: Seq<char>,
) -> int {
    nearness(scored_name(names, path), scored_name(names, requiring))
}

/// The highest score among the first `n` candidates.
pub open spec fn top_score(
    names: Seq<(Seq<char>, Seq<char>)>,
    paths: Seq<Seq<char>>,
    requiring: Seq<char>,
    n: int,
) -> int
    decreases n,
{
    if n <= 0 {
        0
    } else {
        let before = top_score(names, paths, requiring, n - 1);
        let here = score(names, paths[n - 1], requiring);
        if here > before {
            here
        } else {
            before
        }
    }
}

/// Those among the first `n` candidates that have the score given.
pub open spec fn scoring(
    names: Seq<(Seq<char>, Seq<char>)>,
    paths: Seq<Seq<char>>,
    requiring: Seq<char>,
    top: int,
    n: int,
) -> Seq<Seq<char>>
    decreases n,
{
    if n <= 0 {
        Seq::empty()
    } else if score(names, paths[n - 1], requiring) == top {
        scoring(names, paths, requiring, top, n - 1).push(paths[n - 1])
    } else {
        scoring(names, paths, requiring, top, n - 1)
    }
}

/// The candidates nearest to the requiring file.
pub open spec fn nearest(
    names: Seq<(Seq<char>, Seq<char>)>,
    paths: Seq<Seq<char>>,
    requiring: Seq<char>,
) -> Seq<Seq<char>> {
    scoring(
        names,
        paths,
        requiring,
        top_score(names, paths, requiring, paths.len() as int),
        paths.len() as int,
    )
}

/// What a lookup comes to: the only candidate, the nearest of several, or a tie.
pub open spec fn resolution(
    entries: Seq<EntryModel>,
    names: Seq<(Seq<char>, Seq<char>)>,
    name: Seq<char>,
    requiring: Seq<char>,
) -> ResolutionModel {
    let paths = candidates(entries, needle_of(name), requiring, entries.len() as int);
    if name.len() == 0 || paths.len() == 0 {
        ResolutionModel::NotFound
    } else if paths.len() == 1 {
        ResolutionModel::Found(paths[0])
    } else {
        let best = nearest(names, paths, requiring);
        if best.len() == 1 {
            ResolutionModel::Found(best[0])
        } else {
            ResolutionModel::Ambiguous(sorted_texts(best))
        }
    }
}

/// The files of a list that carry a stem, in order, among the first `n`.
pub open spec fn entries_of(paths: Seq<Seq<char>>, n: int) -> Seq<EntryModel>
    decreases n,
{
    if n <= 0 {
        Seq::empty()
    } else {
        match key_of(paths[n - 1]) {
            Some((key, key_path)) => entries_of(paths, n - 1).push(
                EntryModel { relative_path: paths[n - 1], key, key_path },
            ),
            None => entries_of(paths, n - 1),
        }
    }
}

/// Every file with the name it is scored by.
pub open spec fn names_of(nodes: Seq<NodeModel>, paths: Seq<Seq<char>>) -> Seq<
    (Seq<char>, Seq<char>),
> {
    paths.map_values(|path: Seq<char>| (path, module_name_of(nodes, path)))
}

impl SharedIndex {
    /// The files the index can be asked about.
    pub closed spec fn entries_model(&self) -> Seq<EntryModel> {
        self.entries.deep_view()
    }

    /// The names proximity is scored by.
    pub closed spec fn names_model(&self) -> Seq<(Seq<char>, Seq<char>)> {
        self.module_names.deep_view()
    }

    /// Indexes the files of a project.
    pub fn build(relative_paths: &Vec<String>, sourcemap: &Sourcemap) -> (r: SharedIndex)
        requires
            sourcemap.wf(),
        ensures
            r.entries_model() == entries_of(
                relative_paths.deep_view(),
                relative_paths@.len() as int,
            ),
            r.names_model() == names_of(sourcemap@, relative_paths.deep_view()),
    {
        let ghost paths = relative_paths.deep_view();
        let ghost all_names = names_of(sourcemap@, paths);
        let mut entries: Vec<Entry> = Vec::new();
        let mut module_names: Vec<(String, String)> = Vec::new();
        let mut i: usize = 0;
        assert(entries.deep_view() =~= entries_of(paths, 0));
        assert(module_names.deep_view() =~= all_names.take(0));
        while i < relative_paths.len()
            invariant
                sourcemap.wf(),
                i <= relative_paths@.len(),
                paths == relative_paths.deep_view(),
                all_names == names_of(sourcemap@, paths),
                entries.deep_view() == entries_of(paths, i as int),
                module_names.deep_view() == all_names.take(i as int),
            decreases relative_paths@.len() - i,
        {
            let path = relative_paths[i].as_str();
            assert(paths[i as int] == path@);
            let ghost names_before = module_names.deep_view();
            module_names.push((owned(path), module_name(sourcemap, path)));
            assert(module_names.deep_view() =~= names_before.push(all_names[i as int]));
            assert(module_names.deep_view() =~= all_names.take(i + 1));
            let ghost before = entries.deep_view();
            match index_key_for(path) {
                Some((key, key_path)) => {
                    let ghost entry = EntryModel {
                        relative_path: path@,
                        key: key@,
                        key_path: key_path@,
                    };
                    entries.push(Entry { relative_path: owned(path), key, key_path });
                    assert(entries.deep_view() =~= before.push(entry));
                },
                None => {},
            }
            i = i + 1;
        }
        assert(all_names.take(i as int) =~= all_names);
        SharedIndex { entries, module_names }
    }

    /// How many files carry a stem the index can be asked about.
    pub fn len(&self) -> (r: usize)
        ensures
            r == self.entries_model().len(),
    {
        self.entries.len()
    }

    /// Whether no file carries a stem the index can be asked about.
    pub fn is_empty(&self) -> (r: bool)
        ensures
            r == (self.entries_model().len() == 0),
    {
        self.entries.len() == 0
    }

    fn name_scored(&self, path: &str) -> (r: String)
        ensures
            r@ == scored_name(self.names_model(), path@),
    {
        let ghost names = self.names_model();
        let mut i: usize = self.module_names.len();
        while i > 0
            invariant
                i <= self.module_names@.len(),
                names == self.module_names.deep_view(),
                names == self.names_model(),
                bound_to(names, path@, names.len() as int) == bound_to(names, path@, i as int),
            decreases i,
        {
            assert(names[i - 1] == self.module_names@[i - 1].deep_view());
            if same_text(self.module_names[i - 1].0.as_str(), path) {
                return self.module_names[i - 1].1.clone();
            }
            i = i - 1;
        }
        owned(path)
    }

    fn matching(&self, wanted: &str, requiring: &str) -> (r: Vec<String>)
        ensures
            r.deep_view() == candidates(
                self.entries_model(),
                wanted@,
                requiring@,
                self.entries_model().len() as int,
            ),
    {
        let ghost all = self.entries_model();
        let chars = to_chars(wanted);
        let qualified = match find_char(&chars, '/', 0) {
            Some(i) => {
                assert(wanted@.contains('/')) by {
                    assert(wanted@[i as int] == '/');
                }
                true
            },
            None => {
                proof {
                    absent_is_not_contained(wanted@, '/', 0);
                }
                false
            },
        };
        let key = last_segment(wanted);
        let mut found: Vec<String> = Vec::new();
        let mut i: usize = 0;
        assert(found.deep_view() =~= candidates(all, wanted@, requiring@, 0));
        while i < self.entries.len()
            invariant
                i <= self.entries@.len(),
                all == self.entries.deep_view(),
                qualified == wanted@.contains('/'),
                key@ == after_last_slash(wanted@),
                found.deep_view() == candidates(all, wanted@, requiring@, i as int),
            decreases self.entries@.len() - i,
        {
            let entry = &self.entries[i];
            assert(all[i as int] == entry.deep_view());
            let ghost before = found.deep_view();
            if same_text(entry.key.as_str(), key.as_str()) && (!qualified || ends_with_path_suffix(
                entry.key_path.as_str(),
                wanted,
            )) && !same_text(entry.relative_path.as_str(), requiring) {
                found.push(entry.relative_path.clone());
                assert(found.deep_view() =~= before.push(all[i as int].relative_path));
            }
            i = i + 1;
        }
        found
    }

    fn nearest_of(&self, paths: &Vec<String>, requiring: &str) -> (r: Vec<String>)
        ensures
            r.deep_view() == nearest(self.names_model(), paths.deep_view(), requiring@),
    {
        let ghost names = self.names_model();
        let ghost all = paths.deep_view();
        let from = self.name_scored(requiring);
        let mut scores: Vec<usize> = Vec::new();
        let mut top: usize = 0;
        let mut i: usize = 0;
        while i < paths.len()
            invariant
                i <= paths@.len(),
                all == paths.deep_view(),
                names == self.names_model(),
                from@ == scored_name(names, requiring@),
                scores@.len() == i,
                forall|k: int|
                    0 <= k < i ==> #[trigger] scores@[k] == score(names, all[k], requiring@),
                top == top_score(names, all, requiring@, i as int),
            decreases paths@.len() - i,
        {
            let name = self.name_scored(paths[i].as_str());
            assert(all[i as int] == paths@[i as int]@);
            let here = common_segment_count(name.as_str(), from.as_str());
            scores.push(here);
            if here > top {
                top = here;
            }
            i = i + 1;
        }
        let mut best: Vec<String> = Vec::new();
        let mut k: usize = 0;
        assert(best.deep_view() =~= scoring(names, all, requiring@, top as int, 0));
        while k < paths.len()
            invariant
                k <= paths@.len(),
                all == paths.deep_view(),
                scores@.len() == paths@.len(),
                forall|j: int|
                    0 <= j < paths@.len() ==> #[trigger] scores@[j] == score(
                        names,
                        all[j],
                        requiring@,
                    ),
                best.deep_view() == scoring(names, all, requiring@, top as int, k as int),
            decreases paths@.len() - k,
        {
            let ghost before = best.deep_view();
            if scores[k] == top {
                best.push(paths[k].clone());
                assert(best.deep_view() =~= before.push(all[k as int]));
            }
            k = k + 1;
        }
        best
    }

    /// `name` is a bare stem (`"Foo"`) or a partial path (`"jobs/Foo"`), case-insensitive.
    ///
    /// Where several files match, the one sharing the longest leading path with the requiring module
    /// wins, which with a sourcemap loaded is instance-tree proximity and without one is directory
    /// proximity. A genuine tie is reported rather than guessed at.
    pub fn resolve(&self, name: &str, requiring_relative_path: &str) -> (r: Resolution)
        ensures
            r.deep_view() == resolution(
                self.entries_model(),
                self.names_model(),
                name@,
                requiring_relative_path@,
            ),
    {
        if name.is_empty() {
            return Resolution::NotFound;
        }
        let wanted = needle(name);
        let paths = self.matching(wanted.as_str(), requiring_relative_path);
        assert(paths.deep_view().len() == paths@.len());
        if paths.len() == 0 {
            return Resolution::NotFound;
        }
        if paths.len() == 1 {
            assert(paths.deep_view()[0] == paths@[0]@);
            return Resolution::Found(paths[0].clone());
        }
        let best = self.nearest_of(&paths, requiring_relative_path);
        assert(best.deep_view().len() == best@.len());
        if best.len() == 1 {
            assert(best.deep_view()[0] == best@[0]@);
            return Resolution::Found(best[0].clone());
        }
        Resolution::Ambiguous(sort_texts(&best))
    }
}

proof fn absent_is_not_contained(s: Seq<char>, c: char, from: int)
    requires
        0 <= from,
        position_from(s, c, from) is None,
    ensures
        forall|k: int| from <= k < s.len() ==> s[k] != c,
    decreases s.len() - from,
{
    if from < s.len() {
        absent_is_not_contained(s, c, from + 1);
    }
}

// ---------------------------------------------------------------------------
// What holds of every lookup

/// Whether a path is that of a candidate among the first `n` files.
pub open spec fn is_candidate_path(
    entries: Seq<EntryModel>,
    wanted: Seq<char>,
    requiring: Seq<char>,
    n: int,
    path: Seq<char>,
) -> bool {
    exists|e: int|
        0 <= e < n && is_candidate(#[trigger] entries[e], wanted, requiring)
            && entries[e].relative_path == path
}

proof fn candidates_are_entries(
    entries: Seq<EntryModel>,
    wanted: Seq<char>,
    requiring: Seq<char>,
    n: int,
)
    requires
        0 <= n <= entries.len(),
    ensures
        forall|k: int|
            0 <= k < candidates(entries, wanted, requiring, n).len() ==> is_candidate_path(
                entries,
                wanted,
                requiring,
                n,
                #[trigger] candidates(entries, wanted, requiring, n)[k],
            ),
    decreases n,
{
    if n > 0 {
        candidates_are_entries(entries, wanted, requiring, n - 1);
        let before = candidates(entries, wanted, requiring, n - 1);
        let after = candidates(entries, wanted, requiring, n);
        assert forall|k: int| 0 <= k < after.len() implies is_candidate_path(
            entries,
            wanted,
            requiring,
            n,
            #[trigger] after[k],
        ) by {
            if k < before.len() {
                assert(after[k] == before[k]);
                let e = choose|e: int|
                    0 <= e < n - 1 && is_candidate(#[trigger] entries[e], wanted, requiring)
                        && entries[e].relative_path == before[k];
                assert(is_candidate(entries[e], wanted, requiring));
            } else {
                assert(is_candidate(entries[n - 1], wanted, requiring));
            }
        }
    }
}

/// Whether a path stands among the first `n` and has the score given.
spec fn has_score(
    names: Seq<(Seq<char>, Seq<char>)>,
    paths: Seq<Seq<char>>,
    requiring: Seq<char>,
    top: int,
    n: int,
    path: Seq<char>,
) -> bool {
    exists|p: int|
        0 <= p < n && #[trigger] paths[p] == path && score(names, paths[p], requiring) == top
}

proof fn scoring_picks(
    names: Seq<(Seq<char>, Seq<char>)>,
    paths: Seq<Seq<char>>,
    requiring: Seq<char>,
    top: int,
    n: int,
)
    requires
        0 <= n <= paths.len(),
    ensures
        forall|k: int|
            0 <= k < scoring(names, paths, requiring, top, n).len() ==> has_score(
                names,
                paths,
                requiring,
                top,
                n,
                #[trigger] scoring(names, paths, requiring, top, n)[k],
            ),
    decreases n,
{
    if n > 0 {
        scoring_picks(names, paths, requiring, top, n - 1);
        let before = scoring(names, paths, requiring, top, n - 1);
        let after = scoring(names, paths, requiring, top, n);
        assert forall|k: int| 0 <= k < after.len() implies has_score(
            names,
            paths,
            requiring,
            top,
            n,
            #[trigger] after[k],
        ) by {
            if k < before.len() {
                assert(after[k] == before[k]);
                let p = choose|p: int|
                    0 <= p < n - 1 && #[trigger] paths[p] == before[k] && score(
                        names,
                        paths[p],
                        requiring,
                    ) == top;
                assert(paths[p] == after[k]);
            } else {
                assert(paths[n - 1] == after[k]);
            }
        }
    }
}

proof fn shared_prefix_is_nat(left: Seq<Seq<char>>, right: Seq<Seq<char>>)
    ensures
        shared_prefix(left, right) >= 0,
    decreases left.len(),
{
    if left.len() > 0 && right.len() > 0 && left[0] == right[0] {
        shared_prefix_is_nat(left.skip(1), right.skip(1));
    }
}

pub proof fn top_score_is_top(
    names: Seq<(Seq<char>, Seq<char>)>,
    paths: Seq<Seq<char>>,
    requiring: Seq<char>,
    n: int,
)
    requires
        0 <= n <= paths.len(),
    ensures
        forall|p: int|
            0 <= p < n ==> score(names, #[trigger] paths[p], requiring) <= top_score(
                names,
                paths,
                requiring,
                n,
            ),
        n > 0 ==> exists|p: int|
            0 <= p < n && score(names, #[trigger] paths[p], requiring) == top_score(
                names,
                paths,
                requiring,
                n,
            ),
    decreases n,
{
    if n > 0 {
        top_score_is_top(names, paths, requiring, n - 1);
        shared_prefix_is_nat(
            name_segments(scored_name(names, paths[n - 1])),
            name_segments(scored_name(names, requiring)),
        );
        let top = top_score(names, paths, requiring, n);
        if score(names, paths[n - 1], requiring) == top {
            assert(score(names, paths[n - 1], requiring) == top);
        } else {
            let p = choose|p: int|
                0 <= p < n - 1 && score(names, #[trigger] paths[p], requiring) == top_score(
                    names,
                    paths,
                    requiring,
                    n - 1,
                );
            assert(score(names, paths[p], requiring) == top);
        }
    }
}

/// A module never resolves to itself, and what a lookup finds is an indexed file that carries the
/// name and is at least as near as every other one that does.
pub proof fn a_lookup_finds_the_nearest_other_file(
    entries: Seq<EntryModel>,
    names: Seq<(Seq<char>, Seq<char>)>,
    name: Seq<char>,
    requiring: Seq<char>,
)
    ensures
        resolution(entries, names, name, requiring) matches ResolutionModel::Found(path) ==> path
            != requiring && is_candidate_path(
            entries,
            needle_of(name),
            requiring,
            entries.len() as int,
            path,
        ),
        resolution(entries, names, name, requiring) matches ResolutionModel::Found(path)
            ==> forall|k: int|
            0 <= k < candidates(
                entries,
                needle_of(name),
                requiring,
                entries.len() as int,
            ).len() ==> score(
                names,
                #[trigger] candidates(entries, needle_of(name), requiring, entries.len() as int)[k],
                requiring,
            ) <= score(names, path, requiring),
{
    let wanted = needle_of(name);
    let n = entries.len() as int;
    let paths = candidates(entries, wanted, requiring, n);
    candidates_are_entries(entries, wanted, requiring, n);
    top_score_is_top(names, paths, requiring, paths.len() as int);
    let top = top_score(names, paths, requiring, paths.len() as int);
    scoring_picks(names, paths, requiring, top, paths.len() as int);
    if let ResolutionModel::Found(path) = resolution(entries, names, name, requiring) {
        if paths.len() == 1 {
            assert(paths[0] == path);
        } else {
            let best = nearest(names, paths, requiring);
            assert(best[0] == path);
            let p = choose|p: int|
                0 <= p < paths.len() && #[trigger] paths[p] == best[0] && score(
                    names,
                    paths[p],
                    requiring,
                ) == top;
            assert(paths[p] == path);
        }
    }
}

/// Case makes no difference to a lookup, and neither does which slash a path is written with.
pub proof fn a_lookup_ignores_case_and_separators(
    entries: Seq<EntryModel>,
    names: Seq<(Seq<char>, Seq<char>)>,
    name: Seq<char>,
    other: Seq<char>,
    requiring: Seq<char>,
)
    requires
        replaced_char(ascii_lowercase(name), '\\', '/') == replaced_char(
            ascii_lowercase(other),
            '\\',
            '/',
        ),
    ensures
        resolution(entries, names, name, requiring) == resolution(entries, names, other, requiring),
{
    assert(replaced_char(ascii_lowercase(name), '\\', '/').len() == name.len());
    assert(replaced_char(ascii_lowercase(other), '\\', '/').len() == other.len());
}

proof fn scoring_counts(
    names: Seq<(Seq<char>, Seq<char>)>,
    paths: Seq<Seq<char>>,
    requiring: Seq<char>,
    top: int,
    n: int,
    j: int,
    k: int,
)
    requires
        0 <= j < k < paths.len(),
        0 <= n <= paths.len(),
        score(names, paths[j], requiring) == top,
        score(names, paths[k], requiring) == top,
    ensures
        n > j ==> scoring(names, paths, requiring, top, n).len() >= 1,
        n > k ==> scoring(names, paths, requiring, top, n).len() >= 2,
    decreases n,
{
    if n > 0 {
        scoring_counts(names, paths, requiring, top, n - 1, j, k);
    }
}

/// A tie is not guessed at: where two of the candidates are the nearest ones alike, a lookup finds
/// neither and tells of the tie.
pub proof fn a_tie_is_not_guessed_at(
    entries: Seq<EntryModel>,
    names: Seq<(Seq<char>, Seq<char>)>,
    name: Seq<char>,
    requiring: Seq<char>,
    j: int,
    k: int,
)
    requires
        name.len() > 0,
        ({
            let paths = candidates(entries, needle_of(name), requiring, entries.len() as int);
            &&& 0 <= j < k < paths.len()
            &&& score(names, paths[j], requiring) == score(names, paths[k], requiring)
            &&& forall|p: int|
                0 <= p < paths.len() ==> score(names, #[trigger] paths[p], requiring) <= score(
                    names,
                    paths[j],
                    requiring,
                )
        }),
    ensures
        resolution(entries, names, name, requiring) is Ambiguous,
{
    let paths = candidates(entries, needle_of(name), requiring, entries.len() as int);
    let n = paths.len() as int;
    top_score_is_top(names, paths, requiring, n);
    let top = top_score(names, paths, requiring, n);
    let p = choose|p: int| 0 <= p < n && score(names, #[trigger] paths[p], requiring) == top;
    assert(score(names, paths[p], requiring) <= score(names, paths[j], requiring));
    assert(score(names, paths[j], requiring) == top);
    scoring_counts(names, paths, requiring, top, n, j, k);
}

} // verus!
