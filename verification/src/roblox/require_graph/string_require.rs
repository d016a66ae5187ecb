//! String requires: relative paths and `.luaurc` aliases.
use vstd::prelude::*;
use crate::json::{
    document_in, json_model, member, members_model, members_model_items, parse_json, Json,
    JsonModel,
};
use crate::paths::{
    below_on, cleaned_on, directory_on, is_below_on, join_on, joined_on, normalize_on, parent_on,
    parent_on_is_shorter, relative_path_on, told_from_on,
};
use crate::text::{
    has_prefix, join, joined, lines, lines_of, list_holds, owned, same_text, split_once,
    split_once_on, starts_with, strip_prefix, trim_start, trim_start_of, without_prefix,
};

verus! {

/// The aliases a directory's `.luaurc` names.
#[derive(Debug)]
pub struct AliasTable {
    pub directory: String,
    pub aliases: Vec<(String, String)>,
}

pub struct TableModel {
    pub directory: Seq<char>,
    pub aliases: Seq<(Seq<char>, Seq<char>)>,
}

impl DeepView for AliasTable {
    type V = TableModel;

    open spec fn deep_view(&self) -> TableModel {
        TableModel { directory: self.directory@, aliases: self.aliases.deep_view() }
    }
}

/// What is known of the disk: whether it is one that Windows reads, where the project is, which
/// aliases apply where, and which of the files a string require may mean are there.
#[derive(Debug)]
pub struct DiskFacts {
    pub windows: bool,
    pub root: String,
    pub tables: Vec<AliasTable>,
    pub files: Vec<String>,
}

pub struct DiskModel {
    pub windows: bool,
    pub root: Seq<char>,
    pub tables: Seq<TableModel>,
    pub files: Seq<Seq<char>>,
}

impl DeepView for DiskFacts {
    type V = DiskModel;

    open spec fn deep_view(&self) -> DiskModel {
        DiskModel {
            windows: self.windows,
            root: self.root@,
            tables: self.tables.deep_view(),
            files: self.files.deep_view(),
        }
    }
}

// ---------------------------------------------------------------------------
// Reading .luaurc

/// A line with nothing left of it where it is a comment.
pub open spec fn uncommented(line: Seq<char>) -> Seq<char> {
    if starts_with(trim_start_of(line), "//"@) {
        Seq::empty()
    } else {
        line
    }
}

/// A text with its comment lines emptied.
pub open spec fn without_comment_lines(raw: Seq<char>) -> Seq<char> {
    joined(lines_of(raw).map_values(|line: Seq<char>| uncommented(line)), "\n"@)
}

fn strip_comment_lines(raw: &str) -> (r: String)
    ensures
        r@ == without_comment_lines(raw@),
{
    let all = lines(raw);
    let ghost kept_model = all.deep_view().map_values(|line: Seq<char>| uncommented(line));
    let mut kept: Vec<String> = Vec::new();
    let mut i: usize = 0;
    while i < all.len()
        invariant
            i <= all@.len(),
            kept_model == all.deep_view().map_values(|line: Seq<char>| uncommented(line)),
            kept.deep_view() == kept_model.take(i as int),
        decreases all@.len() - i,
    {
        let line = all[i].as_str();
        let ghost before = kept.deep_view();
        kept.push(
            if has_prefix(trim_start(line), "//") {
                String::new()
            } else {
                owned(line)
            },
        );
        assert(kept.deep_view() =~= before.push(kept_model[i as int]));
        assert(kept.deep_view() =~= kept_model.take(i + 1));
        i = i + 1;
    }
    assert(kept_model.take(i as int) =~= kept_model);
    join(&kept, "\n")
}

/// The members of an object among the first `n` that are texts.
pub open spec fn text_members(members: Seq<(Seq<char>, JsonModel)>, n: int) -> Seq<
    (Seq<char>, Seq<char>),
>
    decreases n,
{
    if n <= 0 {
        Seq::empty()
    } else {
        match members[n - 1].1 {
            JsonModel::Text(text) => text_members(members, n - 1).push((members[n - 1].0, text)),
            _ => text_members(members, n - 1),
        }
    }
}

/// The aliases of a parsed `.luaurc`.
pub open spec fn aliases_of(document: Option<JsonModel>) -> Seq<(Seq<char>, Seq<char>)> {
    match document {
        Some(held) => match member(held, "aliases"@) {
            Some(JsonModel::Object(members)) => text_members(members, members.len() as int),
            _ => Seq::empty(),
        },
        None => Seq::empty(),
    }
}

/// The aliases of a parsed `.luaurc`: the members of its `aliases` that are texts.
pub fn aliases_in(document: &Option<Json>) -> (r: Vec<(String, String)>)
    ensures
        r.deep_view() == aliases_of(document.deep_view()),
{
    let mut found: Vec<(String, String)> = Vec::new();
    assert(found.deep_view() =~= Seq::empty());
    if let Some(held) = document {
        if let Some(Json::Object(members)) = held.get("aliases") {
            let ghost model = members_model(members@);
            proof {
                members_model_items(members@);
            }
            let mut i: usize = 0;
            while i < members.len()
                invariant
                    i <= members@.len(),
                    model == members_model(members@),
                    model.len() == members@.len(),
                    forall|k: int|
                        0 <= k < members@.len() ==> #[trigger] model[k] == (
                            members@[k].0@,
                            json_model(members@[k].1),
                        ),
                    found.deep_view() == text_members(model, i as int),
                decreases members@.len() - i,
            {
                let ghost before = found.deep_view();
                assert(model[i as int].0 == members@[i as int].0@);
                match members[i].1.as_text() {
                    Some(target) => {
                        let ghost pair = (members@[i as int].0@, target@);
                        found.push((members[i].0.clone(), owned(target)));
                        assert(found.deep_view() =~= before.push(pair));
                    },
                    None => {},
                }
                i = i + 1;
            }
        }
    }
    found
}

/// Reads the aliases of a `.luaurc`, comment lines allowed; one that is no JSON names none.
pub fn read_aliases(raw: &str) -> (r: Vec<(String, String)>)
    ensures
        r.deep_view() == aliases_of(document_in(without_comment_lines(raw@))),
{
    aliases_in(&parse_json(strip_comment_lines(raw).as_str()))
}

// ---------------------------------------------------------------------------
// Looking aliases up

/// The text a name is paired with, from `from` on.
pub open spec fn paired_with(
    pairs: Seq<(Seq<char>, Seq<char>)>,
    name: Seq<char>,
    from: int,
) -> Option<Seq<char>>
    decreases pairs.len() - from,
{
    if from < 0 || from >= pairs.len() {
        None
    } else if pairs[from].0 == name {
        Some(pairs[from].1)
    } else {
        paired_with(pairs, name, from + 1)
    }
}

fn find_pair<'a>(pairs: &'a Vec<(String, String)>, name: &str) -> (r: Option<&'a str>)
    ensures
        r.deep_view() == paired_with(pairs.deep_view(), name@, 0),
{
    let ghost all = pairs.deep_view();
    let mut i: usize = 0;
    while i < pairs.len()
        invariant
            i <= pairs@.len(),
            all == pairs.deep_view(),
            paired_with(all, name@, 0) == paired_with(all, name@, i as int),
        decreases pairs@.len() - i,
    {
        assert(all[i as int] == pairs@[i as int].deep_view());
        if same_text(pairs[i].0.as_str(), name) {
            return Some(pairs[i].1.as_str());
        }
        i = i + 1;
    }
    None
}

/// The aliases that apply in a directory, from table `from` on.
pub open spec fn table_of(tables: Seq<TableModel>, directory: Seq<char>, from: int) -> Seq<
    (Seq<char>, Seq<char>),
>
    decreases tables.len() - from,
{
    if from < 0 || from >= tables.len() {
        Seq::empty()
    } else if tables[from].directory == directory {
        tables[from].aliases
    } else {
        table_of(tables, directory, from + 1)
    }
}

/// What an alias means in a directory: the nearest directory up to the project root whose
/// `.luaurc` names it decides.
pub open spec fn alias_target(disk: DiskModel, directory: Seq<char>, alias: Seq<char>) -> Option<
    Seq<char>,
>
    decreases directory.len(),
{
    if !is_below_on(disk.windows, directory, disk.root) {
        None
    } else {
        match paired_with(table_of(disk.tables, directory, 0), alias, 0) {
            Some(target) => Some(joined_on(disk.windows, directory, target)),
            None => {
                proof {
                    parent_on_is_shorter(disk.windows, directory);
                }
                match parent_on(disk.windows, directory) {
                    Some(up) => alias_target(disk, up, alias),
                    None => None,
                }
            },
        }
    }
}

impl DiskFacts {
    fn target_here(&self, directory: &str, alias: &str) -> (r: Option<&str>)
        ensures
            r.deep_view() == paired_with(
                table_of(self.deep_view().tables, directory@, 0),
                alias@,
                0,
            ),
    {
        let ghost all = self.tables.deep_view();
        let mut i: usize = 0;
        while i < self.tables.len()
            invariant
                i <= self.tables@.len(),
                all == self.tables.deep_view(),
                all == self.deep_view().tables,
                table_of(all, directory@, 0) == table_of(all, directory@, i as int),
            decreases self.tables@.len() - i,
        {
            assert(all[i as int] == self.tables@[i as int].deep_view());
            if same_text(self.tables[i].directory.as_str(), directory) {
                return find_pair(&self.tables[i].aliases, alias);
            }
            i = i + 1;
        }
        None
    }

    /// What an alias means in a directory.
    pub fn lookup(&self, directory: &str, alias: &str) -> (r: Option<String>)
        ensures
            r.deep_view() == alias_target(self.deep_view(), directory@, alias@),
    {
        let mut here = owned(directory);
        loop
            invariant
                alias_target(self.deep_view(), directory@, alias@) == alias_target(
                    self.deep_view(),
                    here@,
                    alias@,
                ),
            decreases here@.len(),
        {
            if !below_on(self.windows, here.as_str(), self.root.as_str()) {
                return None;
            }
            if let Some(target) = self.target_here(here.as_str(), alias) {
                return Some(join_on(self.windows, here.as_str(), target));
            }
            proof {
                parent_on_is_shorter(self.windows, here@);
            }
            match directory_on(self.windows, here.as_str()) {
                Some(up) => {
                    here = up;
                },
                None => {
                    return None;
                },
            }
        }
    }
}

// ---------------------------------------------------------------------------
// Resolving

/// The path a string require means, before an extension is put to it.
pub open spec fn required_base(disk: DiskModel, literal: Seq<char>, path: Seq<char>) -> Result<
    Seq<char>,
    Seq<char>,
> {
    match parent_on(disk.windows, path) {
        None => Err("the requiring file has no directory"@),
        Some(directory) => match without_prefix(literal, "@"@) {
            Some(rest) => {
                let (alias, remainder) = match split_once_on(rest, '/') {
                    Some((alias, remainder)) => (alias, remainder),
                    None => (rest, Seq::empty()),
                };
                match alias_target(disk, directory, alias) {
                    None => Err(
                        "no .luaurc alias named @"@ + alias + " applies to this file"@,
                    ),
                    Some(resolved) => Ok(
                        if remainder.len() == 0 {
                            resolved
                        } else {
                            joined_on(disk.windows, resolved, remainder)
                        },
                    ),
                }
            },
            None => if starts_with(literal, "./"@) || starts_with(literal, "../"@) {
                Ok(joined_on(disk.windows, directory, literal))
            } else {
                Err("a string require that is neither an alias nor a relative path"@)
            },
        },
    }
}

/// The files a string require may mean, in the order they are looked for.
pub open spec fn module_files(base: Seq<char>) -> Seq<Seq<char>> {
    seq![base + ".luau"@, base + ".lua"@, base + "/init.luau"@, base + "/init.lua"@]
}

/// The project-relative path of a file, where it is on disk and in the project.
pub open spec fn file_on_disk(disk: DiskModel, file: Seq<char>) -> Option<Seq<char>> {
    if disk.files.contains(file) {
        told_from_on(disk.windows, disk.root, cleaned_on(disk.windows, file))
    } else {
        None
    }
}

/// The first of the files looked for, from `from` on, that is on disk.
pub open spec fn first_on_disk(disk: DiskModel, wanted: Seq<Seq<char>>, from: int) -> Option<
    Seq<char>,
>
    decreases wanted.len() - from,
{
    if from < 0 || from >= wanted.len() {
        None
    } else {
        match file_on_disk(disk, wanted[from]) {
            Some(relative) => Some(relative),
            None => first_on_disk(disk, wanted, from + 1),
        }
    }
}

/// The file a string require resolves to, or why it resolves to none.
pub open spec fn string_require_target(
    disk: DiskModel,
    literal: Seq<char>,
    path: Seq<char>,
) -> Result<Seq<char>, Seq<char>> {
    match required_base(disk, literal, path) {
        Err(reason) => Err(reason),
        Ok(base) => match first_on_disk(disk, module_files(base), 0) {
            Some(relative) => Ok(relative),
            None => Err(literal + " does not name a file on disk"@),
        },
    }
}

fn base_of(literal: &str, path: &str, disk: &DiskFacts) -> (r: Result<String, String>)
    ensures
        match r {
            Ok(base) => required_base(disk.deep_view(), literal@, path@) == Ok::<
                Seq<char>,
                Seq<char>,
            >(base@),
            Err(reason) => required_base(disk.deep_view(), literal@, path@) == Err::<
                Seq<char>,
                Seq<char>,
            >(reason@),
        },
{
    let directory = match directory_on(disk.windows, path) {
        Some(directory) => directory,
        None => {
            return Err(owned("the requiring file has no directory"));
        },
    };
    match strip_prefix(literal, "@") {
        Some(rest) => {
            let (alias, remainder) = match split_once(rest, '/') {
                Some((alias, remainder)) => (alias, remainder),
                None => (owned(rest), String::new()),
            };
            match disk.lookup(directory.as_str(), alias.as_str()) {
                None => {
                    let mut reason = owned("no .luaurc alias named @");
                    reason.append(alias.as_str());
                    reason.append(" applies to this file");
                    Err(reason)
                },
                Some(resolved) => {
                    if remainder.as_str().is_empty() {
                        Ok(resolved)
                    } else {
                        Ok(join_on(disk.windows, resolved.as_str(), remainder.as_str()))
                    }
                },
            }
        },
        None => {
            if has_prefix(literal, "./") || has_prefix(literal, "../") {
                Ok(join_on(disk.windows, directory.as_str(), literal))
            } else {
                Err(owned("a string require that is neither an alias nor a relative path"))
            }
        },
    }
}

fn with_suffix(base: &str, suffix: &str) -> (r: String)
    ensures
        r@ == base@ + suffix@,
{
    let mut r = owned(base);
    r.append(suffix);
    r
}

fn files_of(base: &str) -> (r: Vec<String>)
    ensures
        r.deep_view() == module_files(base@),
{
    let mut files: Vec<String> = Vec::new();
    files.push(with_suffix(base, ".luau"));
    files.push(with_suffix(base, ".lua"));
    files.push(with_suffix(base, "/init.luau"));
    files.push(with_suffix(base, "/init.lua"));
    assert(files.deep_view() =~= module_files(base@));
    files
}

/// The files a string require may mean, so that it can be told which of them are on disk.
pub fn string_require_candidates(literal: &str, path: &str, disk: &DiskFacts) -> (r: Vec<String>)
    ensures
        r.deep_view() == (match required_base(disk.deep_view(), literal@, path@) {
            Ok(base) => module_files(base),
            Err(_) => Seq::empty(),
        }),
{
    match base_of(literal, path, disk) {
        Ok(base) => files_of(base.as_str()),
        Err(_) => {
            let none: Vec<String> = Vec::new();
            assert(none.deep_view() =~= Seq::empty());
            none
        },
    }
}

/// Resolves a string require of the file at `path`.
pub fn resolve_string_require(literal: &str, path: &str, disk: &DiskFacts) -> (r: Result<
    String,
    String,
>)
    ensures
        match r {
            Ok(relative) => string_require_target(disk.deep_view(), literal@, path@) == Ok::<
                Seq<char>,
                Seq<char>,
            >(relative@),
            Err(reason) => string_require_target(disk.deep_view(), literal@, path@) == Err::<
                Seq<char>,
                Seq<char>,
            >(reason@),
        },
{
    let base = match base_of(literal, path, disk) {
        Ok(base) => base,
        Err(reason) => {
            return Err(reason);
        },
    };
    let wanted = files_of(base.as_str());
    let ghost all = wanted.deep_view();
    let mut i: usize = 0;
    while i < wanted.len()
        invariant
            i <= wanted@.len(),
            all == wanted.deep_view(),
            all == module_files(base@),
            required_base(disk.deep_view(), literal@, path@) == Ok::<Seq<char>, Seq<char>>(base@),
            first_on_disk(disk.deep_view(), all, 0) == first_on_disk(
                disk.deep_view(),
                all,
                i as int,
            ),
        decreases wanted@.len() - i,
    {
        assert(all[i as int] == wanted@[i as int]@);
        if list_holds(&disk.files, wanted[i].as_str()) {
            if let Some(relative) = relative_path_on(
                disk.windows,
                disk.root.as_str(),
                normalize_on(disk.windows, wanted[i].as_str()).as_str(),
            ) {
                return Ok(relative);
            }
        }
        i = i + 1;
    }
    Err(with_suffix(literal, " does not name a file on disk"))
}

} // verus!
