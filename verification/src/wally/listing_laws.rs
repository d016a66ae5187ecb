//! What holds of every listing of the packages a project declares.
use vstd::prelude::*;
use super::lockfile::{
    dependency_in, lock_in, lock_of_packages, resolved_version, with_dependencies, LockModel,
};
use super::manifest::{
    declared_entry, declared_packages, install_path_of, install_probes, probe_of, probes_in,
    summary_of, DeclaredModel,
};
use super::package::{
    a_requirement_reads_back, all_realms, directory_of, is_segment, package_text, requirement_in,
    section_of, PackageModel, Realm,
};
use super::toml::{entry_at, entry_position, table_at, text_at, TomlModel};
use super::versions::requirement_allows;
use crate::picking::{one_more_is_picked, rises};
use crate::text::{starts_with, trimmed};
use crate::text_laws::{a_prefix_comes_off, a_text_is_split_at_the_last, free_of};

verus! {

// ---------------------------------------------------------------------------
// Where packages are installed

/// The directory of a realm, and the table its dependencies stand in.
pub open spec fn is_place_of(realm: Realm, directory: Seq<char>, section: Seq<char>) -> bool {
    match realm {
        Realm::Shared => directory == "Packages"@ && section == "dependencies"@,
        Realm::Server => directory == "ServerPackages"@ && section == "server-dependencies"@,
        Realm::Dev => directory == "DevPackages"@ && section == "dev-dependencies"@,
    }
}

/// A version of a package is installed below the directory of its realm, in a directory named after its
/// scope, its name and the version. Packages of different realms never share one.
pub proof fn a_realm_has_its_own_directory(
    realm: Realm,
    package: PackageModel,
    version: Seq<char>,
    directory: Seq<char>,
    section: Seq<char>,
)
    requires
        is_place_of(realm, directory, section),
    ensures
        install_path_of(realm, package, version) == directory + "/_Index/"@ + package.scope + "_"@
            + package.name + "@"@ + version,
        starts_with(install_path_of(realm, package, version), directory + "/"@),
        section_of(realm) == section,
        forall|other: Realm, one: PackageModel, v: Seq<char>|
            other != realm ==> #[trigger] install_path_of(other, one, v) != install_path_of(
                realm,
                package,
                version,
            ),
{
    reveal_strlit("Packages");
    reveal_strlit("ServerPackages");
    reveal_strlit("DevPackages");
    reveal_strlit("/");
    reveal_strlit("/_Index/");
    let path = install_path_of(realm, package, version);
    let rest = "_Index/"@ + package.scope + "_"@ + package.name + "@"@ + version;
    reveal_strlit("_Index/");
    assert(path =~= directory + "/_Index/"@ + package.scope + "_"@ + package.name + "@"@ + version);
    assert(path =~= (directory + "/"@) + path.skip(directory.len() as int + 1));
    a_prefix_comes_off(directory + "/"@, path.skip(directory.len() as int + 1));
    assert(path[0] == directory[0]);
    assert forall|other: Realm, one: PackageModel, v: Seq<char>|
        other != realm implies #[trigger] install_path_of(other, one, v) != path by {
        assert(install_path_of(other, one, v)[0] == directory_of(other)[0]);
    }
}

/// Whether a listing tells that a declaration is installed as it should be: below the directory of its
/// realm, where the package's own folder is there.
pub open spec fn tells_installation(
    told: DeclaredModel,
    realm: Realm,
    package: PackageModel,
    resolved: Option<Seq<char>>,
    directories: Seq<Seq<char>>,
    packages: Seq<Seq<char>>,
    directory: Seq<char>,
) -> bool {
    match resolved {
        None => !told.installed && told.install_path is None,
        Some(version) => {
            let path = directory + "/_Index/"@ + package.scope + "_"@ + package.name + "@"@ + version;
            &&& told.installed <==> packages.contains(path)
            &&& told.install_path == (if directories.contains(path) {
                Some(path)
            } else {
                None
            })
        },
    }
}

/// A declaration is listed with its package, its requirement, its realm and the version that the lockfile
/// resolved it to. It is looked for below the directory of its own realm and told as installed exactly
/// where the folder is there. It is noted as out of date exactly where the version resolved is not allowed
/// by the requirement, and carries no note only where it is installed and not out of date.
pub proof fn a_declaration_is_looked_for_in_its_realm(
    alias: Seq<char>,
    package: PackageModel,
    version_req: Seq<char>,
    realm: Realm,
    lock: Option<LockModel>,
    directories: Seq<Seq<char>>,
    packages: Seq<Seq<char>>,
    directory: Seq<char>,
    section: Seq<char>,
)
    requires
        is_place_of(realm, directory, section),
        is_segment(package.scope),
        is_segment(package.name),
        trimmed(version_req) == version_req,
    ensures
        ({
            let entry = (
                alias,
                TomlModel::Text(package.scope + "/"@ + package.name + "@"@ + version_req),
            );
            let told = declared_entry(entry, realm, lock, directories, packages);
            let resolved = match lock {
                Some(held) => resolved_version(held, alias, package),
                None => None,
            };
            &&& told.alias == alias
            &&& told.package == package.scope + "/"@ + package.name
            &&& told.scope == package.scope
            &&& told.name == package.name
            &&& told.version_req == version_req
            &&& told.realm == realm
            &&& told.section == section
            &&& told.resolved_version == resolved
            &&& tells_installation(
                told,
                realm,
                package,
                resolved,
                directories,
                packages,
                directory,
            )
            &&& told.lock_out_of_date <==> (resolved matches Some(version) && requirement_allows(
                version_req,
                version,
            ) == Some(false))
            &&& told.note is None <==> told.installed && !told.lock_out_of_date
            &&& probe_of(entry, realm, lock) == (match resolved {
                Some(version) => Some(
                    (
                        directory + "/_Index/"@ + package.scope + "_"@ + package.name + "@"@ + version,
                        package.name,
                    ),
                ),
                None => None,
            })
        }),
{
    a_requirement_reads_back(package, version_req);
    let resolved = match lock {
        Some(held) => resolved_version(held, alias, package),
        None => None,
    };
    a_realm_has_its_own_directory(realm, package, version_req, directory, section);
    if let Some(version) = resolved {
        a_realm_has_its_own_directory(realm, package, version, directory, section);
    }
}

/// An entry that is no text, or that names no package, is listed under its alias and in its realm with a
/// note, as neither resolved nor installed, and nothing is looked for on disk.
pub proof fn an_entry_that_cannot_be_read_is_noted(
    entry: (Seq<char>, TomlModel),
    realm: Realm,
    lock: Option<LockModel>,
    directories: Seq<Seq<char>>,
    packages: Seq<Seq<char>>,
)
    requires
        match entry.1 {
            TomlModel::Text(text) => requirement_in(text) is Err,
            _ => true,
        },
    ensures
        ({
            let told = declared_entry(entry, realm, lock, directories, packages);
            &&& told.alias == entry.0
            &&& told.realm == realm
            &&& told.section == section_of(realm)
            &&& told.note is Some
            &&& !told.installed
            &&& told.install_path is None
            &&& told.resolved_version is None
            &&& !told.lock_out_of_date
            &&& told.package == (match entry.1 {
                TomlModel::Text(text) => text,
                _ => Seq::empty(),
            })
            &&& probe_of(entry, realm, lock) is None
        }),
{
}

// ---------------------------------------------------------------------------
// Every declaration is listed

/// How many entries a table has.
pub open spec fn entries_under(contents: Map<Seq<char>, TomlModel>, section: Seq<char>) -> int {
    match table_at(contents, section) {
        Some(entries) => entries.len() as int,
        None => 0,
    }
}

/// Every entry of the three tables is listed, shared ones first, then those of the server, then those for
/// development, each table in its order; and nothing else is.
pub proof fn every_declaration_is_listed(
    contents: Map<Seq<char>, TomlModel>,
    lock: Option<LockModel>,
    directories: Seq<Seq<char>>,
    packages: Seq<Seq<char>>,
)
    ensures
        ({
            let told = declared_packages(contents, lock, directories, packages, 3);
            let shared = entries_under(contents, "dependencies"@);
            let server = entries_under(contents, "server-dependencies"@);
            let dev = entries_under(contents, "dev-dependencies"@);
            &&& told.len() == shared + server + dev
            &&& forall|i: int|
                0 <= i < shared ==> #[trigger] told[i] == declared_entry(
                    table_at(contents, "dependencies"@)->0[i],
                    Realm::Shared,
                    lock,
                    directories,
                    packages,
                )
            &&& forall|i: int|
                shared <= i < shared + server ==> #[trigger] told[i] == declared_entry(
                    table_at(contents, "server-dependencies"@)->0[i - shared],
                    Realm::Server,
                    lock,
                    directories,
                    packages,
                )
            &&& forall|i: int|
                shared + server <= i < told.len() ==> #[trigger] told[i] == declared_entry(
                    table_at(contents, "dev-dependencies"@)->0[i - shared - server],
                    Realm::Dev,
                    lock,
                    directories,
                    packages,
                )
        }),
{
    reveal_with_fuel(declared_packages, 4);
    assert(all_realms()[0] == Realm::Shared);
    assert(all_realms()[1] == Realm::Server);
    assert(all_realms()[2] == Realm::Dev);
}

proof fn probes_hold_each(
    entries: Seq<(Seq<char>, TomlModel)>,
    realm: Realm,
    lock: Option<LockModel>,
    n: int,
    i: int,
)
    requires
        0 <= i < n <= entries.len(),
    ensures
        probe_of(entries[i], realm, lock) matches Some(probe) ==> probes_in(
            entries,
            realm,
            lock,
            n,
        ).contains(probe),
    decreases n,
{
    let all = probes_in(entries, realm, lock, n);
    let before = probes_in(entries, realm, lock, n - 1);
    if i == n - 1 {
        if let Some(probe) = probe_of(entries[i], realm, lock) {
            assert(all[before.len() as int] == probe);
        }
    } else {
        probes_hold_each(entries, realm, lock, n - 1, i);
        if let Some(probe) = probe_of(entries[i], realm, lock) {
            let k = choose|k: int| 0 <= k < before.len() && before[k] == probe;
            assert(all[k] == probe);
        }
    }
}

/// Whatever a listing asks of the disk is looked for: the probe of every entry is among those made.
pub proof fn every_entry_is_probed(
    contents: Map<Seq<char>, TomlModel>,
    lock: Option<LockModel>,
    realm: Realm,
    i: int,
)
    requires
        0 <= i < entries_under(contents, section_of(realm)),
    ensures
        probe_of(table_at(contents, section_of(realm))->0[i], realm, lock) matches Some(probe)
            ==> install_probes(contents, lock, 3).contains(probe),
{
    reveal_with_fuel(install_probes, 4);
    assert(all_realms()[0] == Realm::Shared);
    assert(all_realms()[1] == Realm::Server);
    assert(all_realms()[2] == Realm::Dev);
    let entries = table_at(contents, section_of(realm))->0;
    probes_hold_each(entries, realm, lock, entries.len() as int, i);
    if let Some(probe) = probe_of(entries[i], realm, lock) {
        let here = probes_in(entries, realm, lock, entries.len() as int);
        let k = choose|k: int| 0 <= k < here.len() && here[k] == probe;
        let all = install_probes(contents, lock, 3);
        let one = install_probes(contents, lock, 1);
        let two = install_probes(contents, lock, 2);
        match realm {
            Realm::Shared => {
                assert(one[k] == probe);
                assert(two[k] == probe);
                assert(all[k] == probe);
            },
            Realm::Server => {
                assert(two[one.len() + k] == probe);
                assert(all[one.len() + k] == probe);
            },
            Realm::Dev => {
                assert(all[two.len() + k] == probe);
            },
        }
    }
}

/// What a manifest says of its own package is what stands under those keys of its `package` table, and
/// nothing where it says none.
pub proof fn a_manifest_says_what_it_is(
    contents: Map<Seq<char>, TomlModel>,
    entries: Seq<(Seq<char>, TomlModel)>,
    i: int,
)
    requires
        contents.contains_key("package"@),
        contents["package"@] == TomlModel::Table(entries),
        0 <= i < entries.len(),
        entries[i].1 is Text,
        forall|j: int| 0 <= j < i ==> (#[trigger] entries[j]).0 != entries[i].0,
    ensures
        ({
            let told = summary_of(contents);
            let said = entries[i].1->Text_0;
            &&& entries[i].0 == "name"@ ==> told.name == said
            &&& entries[i].0 == "version"@ ==> told.version == said
            &&& entries[i].0 == "realm"@ ==> told.realm == said
            &&& entries[i].0 == "registry"@ ==> told.registry == said
        }),
{
    the_first_of_a_key(entries, entries[i].0, 0, i);
}

proof fn the_first_of_a_key(
    entries: Seq<(Seq<char>, TomlModel)>,
    key: Seq<char>,
    from: int,
    at: int,
)
    requires
        0 <= from <= at < entries.len(),
        entries[at].0 == key,
        forall|j: int| 0 <= j < at ==> (#[trigger] entries[j]).0 != key,
    ensures
        entry_position(entries, key, from) == Some(at),
    decreases at - from,
{
    if from < at {
        assert(entries[from].0 != key);
        the_first_of_a_key(entries, key, from + 1, at);
    }
}

// ---------------------------------------------------------------------------
// What a lockfile resolved

/// Whether a package of a lockfile is of a name.
pub open spec fn is_named(package: TomlModel, name: Seq<char>) -> bool {
    package matches TomlModel::Table(entries) && text_at(entries, "name"@) == Some(name)
}

/// Whether a package of a lockfile is a version of a name.
pub open spec fn is_version(package: TomlModel, name: Seq<char>, version: Seq<char>) -> bool {
    is_named(package, name) && (package matches TomlModel::Table(entries) && text_at(
        entries,
        "version"@,
    ) == Some(version))
}

/// Whether a dependency of a package is written for an alias: a pair of it and a package with a version.
pub open spec fn is_written_for(
    dependency: TomlModel,
    alias: Seq<char>,
    package: Seq<char>,
    version: Seq<char>,
) -> bool {
    dependency matches TomlModel::List(pair) && pair.len() >= 2 && pair[0] == TomlModel::Text(alias)
        && pair[1] == TomlModel::Text(package.push('@') + version)
}

proof fn a_dependency_is_read(
    dependency: TomlModel,
    alias: Seq<char>,
    package: Seq<char>,
    version: Seq<char>,
)
    requires
        is_written_for(dependency, alias, package, version),
        free_of(version, '@'),
    ensures
        dependency_in(dependency) == Some((alias, version)),
{
    a_text_is_split_at_the_last(package, '@', version);
}

/// Whether a dependency is for an alias at all.
pub open spec fn is_for(dependency: TomlModel, alias: Seq<char>) -> bool {
    dependency matches TomlModel::List(pair) && pair.len() >= 2 && pair[0] == TomlModel::Text(alias)
}

proof fn later_dependencies_leave_it(
    had: Map<Seq<char>, Seq<char>>,
    dependencies: Seq<TomlModel>,
    alias: Seq<char>,
    from: int,
    n: int,
)
    requires
        0 <= from <= n <= dependencies.len(),
        forall|k: int| from <= k < n ==> !is_for(#[trigger] dependencies[k], alias),
    ensures
        with_dependencies(had, dependencies, n).contains_key(alias) == with_dependencies(
            had,
            dependencies,
            from,
        ).contains_key(alias),
        with_dependencies(had, dependencies, from).contains_key(alias) ==> with_dependencies(
            had,
            dependencies,
            n,
        )[alias] == with_dependencies(had, dependencies, from)[alias],
    decreases n,
{
    if from < n {
        later_dependencies_leave_it(had, dependencies, alias, from, n - 1);
        assert(!is_for(dependencies[n - 1], alias));
    }
}

/// The aliases a package lists where it is the root, and none of another.
pub open spec fn dependencies_of(package: TomlModel) -> Seq<TomlModel> {
    match package {
        TomlModel::Table(entries) => match entry_at(entries, "dependencies"@) {
            Some(TomlModel::List(list)) => list,
            _ => Seq::empty(),
        },
        _ => Seq::empty(),
    }
}

proof fn later_packages_leave_it(
    packages: Seq<TomlModel>,
    root: Option<Seq<char>>,
    alias: Seq<char>,
    from: int,
    n: int,
)
    requires
        0 <= from <= n <= packages.len(),
        forall|p: int|
            from <= p < n && (root matches Some(name) && is_named(#[trigger] packages[p], name))
                ==> forall|d: int|
                0 <= d < dependencies_of(packages[p]).len() ==> !is_for(
                    #[trigger] dependencies_of(packages[p])[d],
                    alias,
                ),
    ensures
        lock_of_packages(packages, root, n).by_alias.contains_key(alias) == lock_of_packages(
            packages,
            root,
            from,
        ).by_alias.contains_key(alias),
        lock_of_packages(packages, root, from).by_alias.contains_key(alias) ==> lock_of_packages(
            packages,
            root,
            n,
        ).by_alias[alias] == lock_of_packages(packages, root, from).by_alias[alias],
    decreases n,
{
    if from < n {
        later_packages_leave_it(packages, root, alias, from, n - 1);
        let had = lock_of_packages(packages, root, n - 1);
        let package = packages[n - 1];
        if let TomlModel::Table(entries) = package {
            if let Some(name) = text_at(entries, "name"@) {
                if root == Some(name) {
                    assert(is_named(packages[n - 1], name));
                    let list = dependencies_of(package);
                    later_dependencies_leave_it(had.by_alias, list, alias, 0, list.len() as int);
                }
            }
        }
    }
}

/// Whatever package it is asked for, an alias is resolved to the version that the root of the lockfile
/// lists for it, where that is listed last.
pub proof fn an_alias_resolves_to_what_the_root_lists(
    contents: Map<Seq<char>, TomlModel>,
    packages: Seq<TomlModel>,
    root: Seq<char>,
    p: int,
    d: int,
    alias: Seq<char>,
    named: Seq<char>,
    version: Seq<char>,
    package: PackageModel,
)
    requires
        contents.contains_key("package"@),
        contents["package"@] == TomlModel::Tables(packages),
        0 <= p < packages.len(),
        is_named(packages[p], root),
        0 <= d < dependencies_of(packages[p]).len(),
        is_written_for(dependencies_of(packages[p])[d], alias, named, version),
        free_of(version, '@'),
        forall|k: int|
            d < k < dependencies_of(packages[p]).len() ==> !is_for(
                #[trigger] dependencies_of(packages[p])[k],
                alias,
            ),
        forall|q: int| p < q < packages.len() ==> !is_named(#[trigger] packages[q], root),
    ensures
        resolved_version(lock_in(contents, Some(root)), alias, package) == Some(version),
{
    let before = lock_of_packages(packages, Some(root), p);
    let list = dependencies_of(packages[p]);
    a_dependency_is_read(list[d], alias, named, version);
    later_dependencies_leave_it(before.by_alias, list, alias, d + 1, list.len() as int);
    later_packages_leave_it(packages, Some(root), alias, p + 1, packages.len() as int);
}

proof fn versions_of_a_name(
    packages: Seq<TomlModel>,
    root: Option<Seq<char>>,
    name: Seq<char>,
    n: int,
) -> (at: Seq<int>)
    requires
        0 <= n <= packages.len(),
    ensures
        rises(at),
        forall|i: int|
            #[trigger] at.contains(i) <==> 0 <= i < n && exists|version: Seq<char>|
                #[trigger] is_version(packages[i], name, version),
        ({
            let known = lock_of_packages(packages, root, n).by_name;
            &&& known.contains_key(name) <==> at.len() > 0
            &&& known.contains_key(name) ==> known[name].len() == at.len() && forall|k: int|
                0 <= k < at.len() ==> is_version(packages[at[k]], name, #[trigger] known[name][k])
        }),
    decreases n,
{
    if n == 0 {
        Seq::empty()
    } else {
        let had = versions_of_a_name(packages, root, name, n - 1);
        let package = packages[n - 1];
        let before = lock_of_packages(packages, root, n - 1).by_name;
        let known = lock_of_packages(packages, root, n).by_name;
        assert forall|k: int| 0 <= k < had.len() implies #[trigger] had[k] < n - 1 by {
            assert(had.contains(had[k]));
        }
        if exists|version: Seq<char>| #[trigger] is_version(package, name, version) {
            let version = choose|version: Seq<char>| #[trigger] is_version(package, name, version);
            one_more_is_picked(had, n - 1);
            let at = had.push(n - 1);
            assert forall|k: int| 0 <= k < at.len() implies is_version(
                packages[at[k]],
                name,
                #[trigger] known[name][k],
            ) by {
                if k < had.len() {
                    assert(before[name][k] == known[name][k]);
                    assert(at[k] == had[k]);
                }
            }
            at
        } else {
            if let TomlModel::Table(entries) = package {
                if let (Some(told), Some(version)) = (
                    text_at(entries, "name"@),
                    text_at(entries, "version"@),
                ) {
                    assert(told != name) by {
                        if told == name {
                            assert(is_version(package, name, version));
                        }
                    }
                }
            }
            had
        }
    }
}

/// An alias that the root does not list is resolved to the only version there is of its package; where
/// there is none, or more than one, it is not resolved.
pub proof fn other_packages_resolve_to_their_only_version(
    contents: Map<Seq<char>, TomlModel>,
    packages: Seq<TomlModel>,
    root: Option<Seq<char>>,
    alias: Seq<char>,
    package: PackageModel,
)
    requires
        contents.contains_key("package"@),
        contents["package"@] == TomlModel::Tables(packages),
        forall|p: int|
            0 <= p < packages.len() && (root matches Some(name) && is_named(
                #[trigger] packages[p],
                name,
            )) ==> forall|d: int|
                0 <= d < dependencies_of(packages[p]).len() ==> !is_for(
                    #[trigger] dependencies_of(packages[p])[d],
                    alias,
                ),
    ensures
        ({
            let name = package.scope + "/"@ + package.name;
            match resolved_version(lock_in(contents, root), alias, package) {
                Some(version) => exists|p: int|
                    {
                        &&& 0 <= p < packages.len()
                        &&& #[trigger] is_version(packages[p], name, version)
                        &&& forall|q: int, other: Seq<char>|
                            0 <= q < packages.len() && #[trigger] is_version(
                                packages[q],
                                name,
                                other,
                            ) ==> q == p
                    },
                None => (forall|p: int, version: Seq<char>|
                    0 <= p < packages.len() ==> !#[trigger] is_version(packages[p], name, version))
                    || exists|p: int, q: int|
                    {
                        &&& 0 <= p < q < packages.len()
                        &&& #[trigger] has_version(packages[p], name)
                        &&& #[trigger] has_version(packages[q], name)
                    },
            }
        }),
{
    let name = package.scope + "/"@ + package.name;
    later_packages_leave_it(packages, root, alias, 0, packages.len() as int);
    let at = versions_of_a_name(packages, root, name, packages.len() as int);
    let known = lock_of_packages(packages, root, packages.len() as int).by_name;
    assert(package_text(package) == name);
    match resolved_version(lock_in(contents, root), alias, package) {
        Some(version) => {
            assert(at.len() == 1);
            assert(at.contains(at[0]));
            assert(is_version(packages[at[0]], name, known[name][0]));
            assert forall|q: int, other: Seq<char>|
                0 <= q < packages.len() && #[trigger] is_version(
                    packages[q],
                    name,
                    other,
                ) implies q == at[0] by {
                assert(at.contains(q));
            }
        },
        None => {
            if at.len() == 0 {
                assert forall|p: int, version: Seq<char>|
                    0 <= p < packages.len() implies !#[trigger] is_version(
                    packages[p],
                    name,
                    version,
                ) by {
                    assert(!at.contains(p));
                }
            } else {
                assert(at.len() > 1);
                assert(at[0] < at[1]);
                assert(at.contains(at[0]) && at.contains(at[1]));
                assert(has_version(packages[at[0]], name));
                assert(has_version(packages[at[1]], name));
            }
        },
    }
}

/// Whether a package of a lockfile is some version of a name.
pub open spec fn has_version(package: TomlModel, name: Seq<char>) -> bool {
    exists|version: Seq<char>| #[trigger] is_version(package, name, version)
}

} // verus!
