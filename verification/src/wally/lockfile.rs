//! What wally.lock resolved.
use vstd::prelude::*;
use super::package::{package_text, PackageModel, PackageName};
use super::toml::{
    document_contents, entries_model_items, entry_at, find_entry, find_text, list_model,
    list_model_items, parse_document, parsed_document, read_item, text_at, text_of, toml_model,
    Toml, TomlModel,
};
use crate::errors::{caused, caused_failure, Failure};
use crate::text::{owned, owned_list, rsplit_once, rsplit_once_on, same_text};
use crate::text_map::TextMap;

verus! {

/// The parts of wally.lock Biskit reads: what each package resolved to, and the root's aliases.
#[derive(Debug)]
pub struct Lockfile {
    /// Alias to resolved version, taken from the root package's dependency list.
    by_alias: TextMap<String>,
    /// Package name to every resolved version, for the entries no alias reaches.
    by_name: TextMap<Vec<String>>,
}

/// What a lockfile says.
pub struct LockModel {
    pub by_alias: Map<Seq<char>, Seq<char>>,
    pub by_name: Map<Seq<char>, Seq<Seq<char>>>,
}

impl View for Lockfile {
    type V = LockModel;

    closed spec fn view(&self) -> LockModel {
        lock_model(self.by_alias@, self.by_name@)
    }
}

/// What two tables say together.
pub open spec fn lock_model(
    by_alias: Map<Seq<char>, String>,
    by_name: Map<Seq<char>, Vec<String>>,
) -> LockModel {
    LockModel {
        by_alias: by_alias.map_values(|version: String| version@),
        by_name: by_name.map_values(|versions: Vec<String>| versions.deep_view()),
    }
}

/// A lockfile that says nothing.
pub open spec fn empty_lock() -> LockModel {
    LockModel { by_alias: Map::empty(), by_name: Map::empty() }
}

/// The alias and the version of a dependency, which is written as a pair of the alias and
/// `scope/name@version`.
pub open spec fn dependency_in(dependency: TomlModel) -> Option<(Seq<char>, Seq<char>)> {
    match dependency {
        TomlModel::List(pair) => if pair.len() < 2 {
            None
        } else {
            match (text_of(pair[0]), text_of(pair[1])) {
                (Some(alias), Some(id)) => match rsplit_once_on(id, '@') {
                    Some((_, version)) => Some((alias, version)),
                    None => None,
                },
                _ => None,
            }
        },
        _ => None,
    }
}

/// The aliases known once the first `n` dependencies are read.
pub open spec fn with_dependencies(
    had: Map<Seq<char>, Seq<char>>,
    dependencies: Seq<TomlModel>,
    n: int,
) -> Map<Seq<char>, Seq<char>>
    decreases n,
{
    if n <= 0 {
        had
    } else {
        let before = with_dependencies(had, dependencies, n - 1);
        match dependency_in(dependencies[n - 1]) {
            Some((alias, version)) => before.insert(alias, version),
            None => before,
        }
    }
}

/// The versions known once one more of a name is read.
pub open spec fn with_version(
    had: Map<Seq<char>, Seq<Seq<char>>>,
    name: Seq<char>,
    version: Seq<char>,
) -> Map<Seq<char>, Seq<Seq<char>>> {
    let versions = if had.contains_key(name) {
        had[name]
    } else {
        Seq::empty()
    };
    had.insert(name, versions.push(version))
}

/// What is known once one more package is read. Only the root's dependency list carries the
/// aliases wally.toml wrote.
pub open spec fn with_package(had: LockModel, package: TomlModel, root: Option<Seq<char>>) -> LockModel {
    match package {
        TomlModel::Table(entries) => match text_at(entries, "name"@) {
            None => had,
            Some(name) => LockModel {
                by_name: match text_at(entries, "version"@) {
                    Some(version) => with_version(had.by_name, name, version),
                    None => had.by_name,
                },
                by_alias: if root == Some(name) {
                    match entry_at(entries, "dependencies"@) {
                        Some(TomlModel::List(list)) => with_dependencies(
                            had.by_alias,
                            list,
                            list.len() as int,
                        ),
                        _ => had.by_alias,
                    }
                } else {
                    had.by_alias
                },
            },
        },
        _ => had,
    }
}

/// What the first `n` packages say.
pub open spec fn lock_of_packages(packages: Seq<TomlModel>, root: Option<Seq<char>>, n: int) -> LockModel
    decreases n,
{
    if n <= 0 {
        empty_lock()
    } else {
        with_package(lock_of_packages(packages, root, n - 1), packages[n - 1], root)
    }
}

/// What a document says as a lockfile.
pub open spec fn lock_in(contents: Map<Seq<char>, TomlModel>, root: Option<Seq<char>>) -> LockModel {
    if contents.contains_key("package"@) {
        match contents["package"@] {
            TomlModel::Tables(packages) => lock_of_packages(packages, root, packages.len() as int),
            _ => empty_lock(),
        }
    } else {
        empty_lock()
    }
}

/// The version an alias resolved to, or else the only version its package resolved to.
pub open spec fn resolved_version(lock: LockModel, alias: Seq<char>, package: PackageModel) -> Option<
    Seq<char>,
> {
    let name = package_text(package);
    if lock.by_alias.contains_key(alias) {
        Some(lock.by_alias[alias])
    } else if lock.by_name.contains_key(name) && lock.by_name[name].len() == 1 {
        Some(lock.by_name[name][0])
    } else {
        None
    }
}

fn read_dependency(dependency: &Toml) -> (r: Option<(String, String)>)
    ensures
        r.deep_view() == dependency_in(toml_model(*dependency)),
{
    match dependency {
        Toml::List(pair) => {
            proof {
                list_model_items(pair@);
            }
            if pair.len() < 2 {
                return None;
            }
            match (pair[0].as_text(), pair[1].as_text()) {
                (Some(alias), Some(id)) => match rsplit_once(id, '@') {
                    Some((_, version)) => Some((owned(alias), version)),
                    None => None,
                },
                _ => None,
            }
        },
        _ => None,
    }
}

fn read_dependencies(by_alias: &mut TextMap<String>, list: &Vec<Toml>)
    ensures
        final(by_alias)@.map_values(|version: String| version@) == with_dependencies(
            old(by_alias)@.map_values(|version: String| version@),
            list_model(list@),
            list@.len() as int,
        ),
{
    let ghost had = by_alias@.map_values(|version: String| version@);
    let ghost model = list_model(list@);
    proof {
        list_model_items(list@);
    }
    let mut i: usize = 0;
    while i < list.len()
        invariant
            i <= list@.len(),
            model == list_model(list@),
            forall|k: int| 0 <= k < list@.len() ==> #[trigger] model[k] == toml_model(list@[k]),
            by_alias@.map_values(|version: String| version@) == with_dependencies(
                had,
                model,
                i as int,
            ),
        decreases list@.len() - i,
    {
        assert(model[i as int] == toml_model(list@[i as int]));
        if let Some((alias, version)) = read_dependency(&list[i]) {
            let ghost before = by_alias@;
            let ghost key = alias@;
            let ghost said = version@;
            by_alias.insert(alias, version);
            assert(by_alias@.map_values(|version: String| version@) =~= before.map_values(
                |version: String| version@,
            ).insert(key, said));
        }
        i = i + 1;
    }
}

fn push_version(by_name: &mut TextMap<Vec<String>>, name: &str, version: &str)
    ensures
        final(by_name)@.map_values(|versions: Vec<String>| versions.deep_view()) == with_version(
            old(by_name)@.map_values(|versions: Vec<String>| versions.deep_view()),
            name@,
            version@,
        ),
{
    let ghost before = by_name@;
    let mut versions: Vec<String> = match by_name.get(name) {
        Some(had) => owned_list(had),
        None => Vec::new(),
    };
    let ghost had = versions.deep_view();
    assert(before.contains_key(name@) ==> had == before[name@].deep_view());
    assert(!before.contains_key(name@) ==> had =~= Seq::empty());
    versions.push(owned(version));
    assert(versions.deep_view() =~= had.push(version@));
    by_name.insert(owned(name), versions);
    assert(by_name@.map_values(|versions: Vec<String>| versions.deep_view()) =~= with_version(
        before.map_values(|versions: Vec<String>| versions.deep_view()),
        name@,
        version@,
    ));
}

impl Lockfile {
    fn empty() -> (r: Lockfile)
        ensures
            r@ == empty_lock(),
    {
        let r = Lockfile { by_alias: TextMap::new(), by_name: TextMap::new() };
        assert(r@.by_alias =~= empty_lock().by_alias);
        assert(r@.by_name =~= empty_lock().by_name);
        r
    }

    fn read_package(&mut self, package: &Toml, root_name: Option<&str>)
        ensures
            final(self)@ == with_package(old(self)@, toml_model(*package), root_name.deep_view()),
    {
        let ghost had = self@;
        let entries = match package {
            Toml::Table(entries) => entries,
            _ => {
                return;
            },
        };
        let name = match find_text(entries, "name") {
            Some(name) => name,
            None => {
                return;
            },
        };
        if let Some(version) = find_text(entries, "version") {
            push_version(&mut self.by_name, name, version);
        }
        let is_root = match root_name {
            Some(root) => same_text(root, name),
            None => false,
        };
        if !is_root {
            return;
        }
        if let Some(at) = find_entry(entries, "dependencies") {
            proof {
                entries_model_items(entries@);
            }
            if let Toml::List(list) = &entries[at].1 {
                proof {
                    list_model_items(list@);
                }
                read_dependencies(&mut self.by_alias, list);
            }
        }
    }

    /// Reads what a document says as a lockfile. `root_name` is the manifest's own `[package] name`,
    /// which is the one lockfile entry whose dependency list carries the aliases wally.toml wrote.
    pub fn read(document: &toml_edit::DocumentMut, root_name: Option<&str>) -> (r: Lockfile)
        ensures
            r@ == lock_in(document_contents(*document), root_name.deep_view()),
    {
        let mut lock = Lockfile::empty();
        if let Some(Toml::Tables(packages)) = read_item(document, "package") {
            let ghost model = list_model(packages@);
            proof {
                list_model_items(packages@);
            }
            let mut i: usize = 0;
            while i < packages.len()
                invariant
                    i <= packages@.len(),
                    model == list_model(packages@),
                    forall|k: int|
                        0 <= k < packages@.len() ==> #[trigger] model[k] == toml_model(
                            packages@[k],
                        ),
                    lock@ == lock_of_packages(model, root_name.deep_view(), i as int),
                decreases packages@.len() - i,
            {
                assert(model[i as int] == toml_model(packages@[i as int]));
                lock.read_package(&packages[i], root_name);
                i = i + 1;
            }
        }
        lock
    }

    /// Reads the text of a lockfile.
    pub fn parse(raw: &str, root_name: Option<&str>) -> (r: Result<Lockfile, Failure>)
        ensures
            match r {
                Ok(lock) => parsed_document(raw@) matches Ok(document) && lock@ == lock_in(
                    document_contents(document),
                    root_name.deep_view(),
                ),
                Err(failure) => parsed_document(raw@) matches Err(problem) && failure.deep_view()
                    == caused_failure("failed to parse wally.lock"@, problem),
            },
    {
        match parse_document(raw) {
            Ok(document) => Ok(Lockfile::read(&document, root_name)),
            Err(problem) => Err(caused(owned("failed to parse wally.lock"), problem)),
        }
    }

    /// The version this alias resolved to, falling back to the name when the root entry is absent.
    pub fn resolved(&self, alias: &str, name: &PackageName) -> (r: Option<String>)
        ensures
            r.deep_view() == resolved_version(self@, alias@, name@),
    {
        if let Some(version) = self.by_alias.get(alias) {
            return Some(version.clone());
        }
        match self.by_name.get(name.text().as_str()) {
            Some(versions) => {
                assert(versions.deep_view().len() == versions@.len());
                if versions.len() == 1 {
                    assert(versions.deep_view()[0] == versions@[0]@);
                    Some(versions[0].clone())
                } else {
                    None
                }
            },
            None => None,
        }
    }
}

} // verus!
