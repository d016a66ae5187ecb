//! wally.toml: what it declares, and edits that leave the rest of it as it was.
use vstd::prelude::*;
use super::lockfile::{resolved_version, LockModel, Lockfile};
use super::package::{
    all_realms, directory_of, index_directory_of, package_text, requirement_in, section_of,
    sections_differ, split_requirement, PackageModel, PackageName, Realm,
};
use super::toml::{
    add_table, contents_with, contents_without, document_contents, document_text, document_with,
    document_with_table, document_without, entries_model, entries_model_items, entries_without,
    find_text, keys_apart, parse_document, parsed_document, put_entry, read_item, read_table,
    remove_entry, table_at, text_at, text_of, toml_model, write_document, Toml, TomlModel,
};
use super::versions::{requirement_allows, version_is_allowed};
use crate::errors::{bare_failure, caused, caused_failure, hinted, hinted_failure, unhinted, Failure, FailureModel};
use crate::text::{join, joined, list_holds, owned, quote, quoted, same_text, trim, trimmed};

verus! {

/// The file a project declares its packages in.
pub const MANIFEST_FILE: &'static str = "wally.toml";

/// The file Wally records what it resolved in.
pub const LOCKFILE_FILE: &'static str = "wally.lock";

/// What a manifest says of the package it belongs to.
#[derive(Debug)]
pub struct ManifestPackage {
    pub name: String,
    pub version: String,
    pub realm: String,
    pub registry: String,
}

pub struct ManifestPackageModel {
    pub name: Seq<char>,
    pub version: Seq<char>,
    pub realm: Seq<char>,
    pub registry: Seq<char>,
}

/// One entry of a wally.toml dependency table, joined to what wally.lock and disk say about it.
#[derive(Debug)]
pub struct DeclaredPackage {
    /// The key in wally.toml, which is the name the package is required by.
    pub alias: String,
    pub package: String,
    pub scope: String,
    pub name: String,
    pub version_req: String,
    pub realm: Realm,
    pub section: &'static str,
    /// The version wally.lock resolved the requirement to, absent when nothing has resolved it.
    pub resolved_version: Option<String>,
    pub installed: bool,
    pub install_path: Option<String>,
    /// True when the resolved version no longer satisfies the requirement in wally.toml.
    pub lock_out_of_date: bool,
    pub note: Option<String>,
}

pub struct DeclaredModel {
    pub alias: Seq<char>,
    pub package: Seq<char>,
    pub scope: Seq<char>,
    pub name: Seq<char>,
    pub version_req: Seq<char>,
    pub realm: Realm,
    pub section: Seq<char>,
    pub resolved_version: Option<Seq<char>>,
    pub installed: bool,
    pub install_path: Option<Seq<char>>,
    pub lock_out_of_date: bool,
    pub note: Option<Seq<char>>,
}

/// A package that was removed from a manifest.
#[derive(Debug)]
pub struct RemovedPackage {
    pub alias: String,
    pub package: String,
    pub version_req: String,
    pub realm: Realm,
}

pub struct RemovedModel {
    pub alias: Seq<char>,
    pub package: Seq<char>,
    pub version_req: Seq<char>,
    pub realm: Realm,
}

/// What stands on disk of the packages of a project: the index directories that are there, and
/// those among them that hold the package's own folder.
#[derive(Debug)]
pub struct InstalledPackages {
    pub directories: Vec<String>,
    pub packages: Vec<String>,
}

/// A manifest, and the text it was read from.
#[derive(Debug)]
pub struct Manifest {
    document: toml_edit::DocumentMut,
    original: String,
}

impl DeepView for ManifestPackage {
    type V = ManifestPackageModel;

    open spec fn deep_view(&self) -> ManifestPackageModel {
        ManifestPackageModel {
            name: self.name@,
            version: self.version@,
            realm: self.realm@,
            registry: self.registry@,
        }
    }
}

impl DeepView for DeclaredPackage {
    type V = DeclaredModel;

    open spec fn deep_view(&self) -> DeclaredModel {
        DeclaredModel {
            alias: self.alias@,
            package: self.package@,
            scope: self.scope@,
            name: self.name@,
            version_req: self.version_req@,
            realm: self.realm,
            section: self.section@,
            resolved_version: self.resolved_version.deep_view(),
            installed: self.installed,
            install_path: self.install_path.deep_view(),
            lock_out_of_date: self.lock_out_of_date,
            note: self.note.deep_view(),
        }
    }
}

impl DeepView for RemovedPackage {
    type V = RemovedModel;

    open spec fn deep_view(&self) -> RemovedModel {
        RemovedModel {
            alias: self.alias@,
            package: self.package@,
            version_req: self.version_req@,
            realm: self.realm,
        }
    }
}

/// The contents of a manifest.
impl View for Manifest {
    type V = Map<Seq<char>, TomlModel>;

    closed spec fn view(&self) -> Map<Seq<char>, TomlModel> {
        document_contents(self.document)
    }
}

impl Manifest {
    /// The text the manifest was read from.
    pub closed spec fn original_text(&self) -> Seq<char> {
        self.original@
    }

    /// The document the manifest is written from, with its comments and layout.
    pub closed spec fn document_model(&self) -> toml_edit::DocumentMut {
        self.document
    }

    /// The text the manifest is written as.
    pub open spec fn written(&self) -> Seq<char> {
        document_text(self.document_model())
    }
}

// ---------------------------------------------------------------------------
// Declarations

/// Whether an entry declares a package.
pub open spec fn declares(held: TomlModel, package: PackageModel) -> bool {
    match text_of(held) {
        Some(text) => match requirement_in(text) {
            Ok((found, _)) => found == package,
            Err(_) => false,
        },
        None => false,
    }
}

/// The first entry from `from` on that declares a package.
pub open spec fn first_declaring(
    entries: Seq<(Seq<char>, TomlModel)>,
    package: PackageModel,
    from: int,
) -> Option<int>
    decreases entries.len() - from,
{
    if from < 0 || from >= entries.len() {
        None
    } else if declares(entries[from].1, package) {
        Some(from)
    } else {
        first_declaring(entries, package, from + 1)
    }
}

/// The first declaration of a package from realm `k` on, with its alias and its requirement as
/// written.
pub open spec fn first_declaration(
    contents: Map<Seq<char>, TomlModel>,
    package: PackageModel,
    k: int,
) -> Option<(Realm, Seq<char>, Seq<char>)>
    decreases 3 - k,
{
    if k < 0 || k >= 3 {
        None
    } else {
        let realm = all_realms()[k];
        let later = first_declaration(contents, package, k + 1);
        match table_at(contents, section_of(realm)) {
            Some(entries) => match first_declaring(entries, package, 0) {
                Some(i) => Some((realm, entries[i].0, text_of(entries[i].1)->0)),
                None => later,
            },
            None => later,
        }
    }
}

/// A declaration a lookup found: its realm, alias, requirement as written, and package name.
pub struct DeclarationModel {
    pub realm: Realm,
    pub alias: Seq<char>,
    pub requirement: Seq<char>,
    pub package: Seq<char>,
}

/// The package a requirement names, or nothing where it names none.
pub open spec fn package_named(requirement: Seq<char>) -> Seq<char> {
    match requirement_in(requirement) {
        Ok((package, _)) => package_text(package),
        Err(_) => Seq::empty(),
    }
}

/// What the first `n` entries of a realm's table declare of a target, by alias or by package name.
pub open spec fn declarations_in(
    entries: Seq<(Seq<char>, TomlModel)>,
    realm: Realm,
    target: Seq<char>,
    n: int,
) -> Seq<DeclarationModel>
    decreases n,
{
    if n <= 0 {
        Seq::empty()
    } else {
        let before = declarations_in(entries, realm, target, n - 1);
        match text_of(entries[n - 1].1) {
            Some(requirement) => {
                let alias = entries[n - 1].0;
                let package = package_named(requirement);
                if alias == target || package == target {
                    before.push(DeclarationModel { realm, alias, requirement, package })
                } else {
                    before
                }
            },
            None => before,
        }
    }
}

/// What the first `n` of some realms declare of a target.
pub open spec fn declarations_of(
    contents: Map<Seq<char>, TomlModel>,
    realms: Seq<Realm>,
    target: Seq<char>,
    n: int,
) -> Seq<DeclarationModel>
    decreases n,
{
    if n <= 0 {
        Seq::empty()
    } else {
        let before = declarations_of(contents, realms, target, n - 1);
        match table_at(contents, section_of(realms[n - 1])) {
            Some(entries) => before + declarations_in(
                entries,
                realms[n - 1],
                target,
                entries.len() as int,
            ),
            None => before,
        }
    }
}

/// Where a declaration stands.
pub open spec fn place_of(declaration: DeclarationModel) -> Seq<char> {
    declaration.alias + " under ["@ + section_of(declaration.realm) + "]"@
}

/// Where declarations stand, listed.
pub open spec fn listing_of(declarations: Seq<DeclarationModel>) -> Seq<char> {
    joined(declarations.map_values(|declaration: DeclarationModel| place_of(declaration)), ", "@)
}

// ---------------------------------------------------------------------------
// Insertion

/// What is left of a table's first `n` entries once those that declare a package are gone, and with
/// them the entry of an alias where one is given.
pub open spec fn swept_entries(
    entries: Seq<(Seq<char>, TomlModel)>,
    package: PackageModel,
    alias: Option<Seq<char>>,
    n: int,
) -> Seq<(Seq<char>, TomlModel)>
    decreases n,
{
    if n <= 0 {
        Seq::empty()
    } else {
        let before = swept_entries(entries, package, alias, n - 1);
        if declares(entries[n - 1].1, package) || alias == Some(entries[n - 1].0) {
            before
        } else {
            before.push(entries[n - 1])
        }
    }
}

/// The alias that is swept out of a realm's table: the one about to be written, in the realm it is
/// written to.
pub open spec fn swept_alias(alias: Seq<char>, realm: Realm, other: Realm) -> Option<Seq<char>> {
    if other == realm {
        Some(alias)
    } else {
        None
    }
}

/// A manifest once the first `k` realms are swept.
pub open spec fn swept(
    contents: Map<Seq<char>, TomlModel>,
    package: PackageModel,
    alias: Seq<char>,
    realm: Realm,
    k: int,
) -> Map<Seq<char>, TomlModel>
    decreases k,
{
    if k <= 0 {
        contents
    } else {
        let before = swept(contents, package, alias, realm, k - 1);
        let other = all_realms()[k - 1];
        match table_at(before, section_of(other)) {
            Some(entries) => before.insert(
                section_of(other),
                TomlModel::Table(
                    swept_entries(
                        entries,
                        package,
                        swept_alias(alias, realm, other),
                        entries.len() as int,
                    ),
                ),
            ),
            None => before,
        }
    }
}

/// The requirement that a sweep of one table displaces.
pub open spec fn displaced_in(
    entries: Seq<(Seq<char>, TomlModel)>,
    package: PackageModel,
    alias: Option<Seq<char>>,
) -> Option<Seq<char>> {
    match first_declaring(entries, package, 0) {
        Some(i) => text_of(entries[i].1),
        None => match alias {
            Some(key) => text_at(entries, key),
            None => None,
        },
    }
}

/// The first requirement that the sweep of the first `k` realms displaces.
pub open spec fn displaced(
    contents: Map<Seq<char>, TomlModel>,
    package: PackageModel,
    alias: Seq<char>,
    realm: Realm,
    k: int,
) -> Option<Seq<char>>
    decreases k,
{
    if k <= 0 {
        None
    } else {
        let other = all_realms()[k - 1];
        match displaced(contents, package, alias, realm, k - 1) {
            Some(requirement) => Some(requirement),
            None => match table_at(contents, section_of(other)) {
                Some(entries) => displaced_in(entries, package, swept_alias(alias, realm, other)),
                None => None,
            },
        }
    }
}

/// A manifest that has a realm's table.
pub open spec fn with_section(contents: Map<Seq<char>, TomlModel>, section: Seq<char>) -> Map<
    Seq<char>,
    TomlModel,
> {
    if contents.contains_key(section) {
        contents
    } else {
        contents.insert(section, TomlModel::Table(Seq::empty()))
    }
}

/// What is written for a package and a requirement on its version.
pub open spec fn written_requirement(package: PackageModel, version_req: Seq<char>) -> Seq<char> {
    package_text(package) + "@"@ + version_req
}

/// The refusal to declare a package a second time.
pub open spec fn already_declared(
    found: (Realm, Seq<char>, Seq<char>),
    package: PackageModel,
    realm: Realm,
) -> FailureModel {
    let said = package_text(package) + " is already declared as "@ + found.1 + " = "@ + quoted(
        found.2,
    ) + " under ["@ + section_of(found.0) + "]"@;
    if found.0 == realm {
        hinted_failure(
            said,
            "pass overwrite to replace the requirement, or call remove_wally_package first"@,
        )
    } else {
        hinted_failure(
            said + ", and this call would put it under ["@ + section_of(realm) + "]"@,
            "a package is declared in one realm only, so pass overwrite to move it into ["@
                + section_of(realm) + "], or call remove_wally_package first"@,
        )
    }
}

/// What an insertion answers.
pub open spec fn insertion(
    contents: Map<Seq<char>, TomlModel>,
    alias: Seq<char>,
    package: PackageModel,
    realm: Realm,
    overwrite: bool,
) -> Result<Option<Seq<char>>, FailureModel> {
    let found = first_declaration(contents, package, 0);
    if found is Some && !overwrite {
        Err(already_declared(found->0, package, realm))
    } else if table_at(
        with_section(swept(contents, package, alias, realm, 3), section_of(realm)),
        section_of(realm),
    ) is None {
        Err(
            bare_failure(
                "["@ + section_of(realm)
                    + "] in wally.toml is not a table, so no dependency can be written to it"@,
            ),
        )
    } else {
        Ok(displaced(contents, package, alias, realm, 3))
    }
}

/// A manifest after an insertion.
pub open spec fn after_insertion(
    contents: Map<Seq<char>, TomlModel>,
    alias: Seq<char>,
    package: PackageModel,
    version_req: Seq<char>,
    realm: Realm,
    overwrite: bool,
) -> Map<Seq<char>, TomlModel> {
    if first_declaration(contents, package, 0) is Some && !overwrite {
        contents
    } else {
        contents_with(
            with_section(swept(contents, package, alias, realm, 3), section_of(realm)),
            section_of(realm),
            alias,
            written_requirement(package, version_req),
        )
    }
}

/// A document once those of a table's first `n` entries that declare a package are taken out of it one
/// by one, and with them the entry of an alias where one is given.
pub open spec fn document_without_entries(
    document: toml_edit::DocumentMut,
    section: Seq<char>,
    entries: Seq<(Seq<char>, TomlModel)>,
    package: PackageModel,
    alias: Option<Seq<char>>,
    n: int,
) -> toml_edit::DocumentMut
    decreases n,
{
    if n <= 0 {
        document
    } else {
        let before = document_without_entries(document, section, entries, package, alias, n - 1);
        if declares(entries[n - 1].1, package) || alias == Some(entries[n - 1].0) {
            document_without(before, section, entries[n - 1].0)
        } else {
            before
        }
    }
}

/// A document once one realm is swept.
pub open spec fn document_swept_in(
    document: toml_edit::DocumentMut,
    package: PackageModel,
    alias: Seq<char>,
    realm: Realm,
    other: Realm,
) -> toml_edit::DocumentMut {
    match table_at(document_contents(document), section_of(other)) {
        Some(entries) => document_without_entries(
            document,
            section_of(other),
            entries,
            package,
            swept_alias(alias, realm, other),
            entries.len() as int,
        ),
        None => document,
    }
}

/// A document once the first `k` realms are swept.
pub open spec fn document_swept(
    document: toml_edit::DocumentMut,
    package: PackageModel,
    alias: Seq<char>,
    realm: Realm,
    k: int,
) -> toml_edit::DocumentMut
    decreases k,
{
    if k <= 0 {
        document
    } else {
        document_swept_in(
            document_swept(document, package, alias, realm, k - 1),
            package,
            alias,
            realm,
            all_realms()[k - 1],
        )
    }
}

/// The document of a manifest after an insertion: what was read, with the swept entries taken out and
/// the new one put in, and nothing else done to it.
pub open spec fn document_after_insertion(
    document: toml_edit::DocumentMut,
    alias: Seq<char>,
    package: PackageModel,
    version_req: Seq<char>,
    realm: Realm,
    overwrite: bool,
) -> toml_edit::DocumentMut {
    let section = section_of(realm);
    let clean = document_swept(document, package, alias, realm, 3);
    let requirement = written_requirement(package, version_req);
    if first_declaration(document_contents(document), package, 0) is Some && !overwrite {
        document
    } else if !document_contents(clean).contains_key(section) {
        document_with(document_with_table(clean, section), section, alias, requirement)
    } else if table_at(document_contents(clean), section) is Some {
        document_with(clean, section, alias, requirement)
    } else {
        clean
    }
}

// ---------------------------------------------------------------------------
// Removal

/// The document of a manifest after a removal: what was read, with the one entry taken out, and
/// nothing else done to it.
pub open spec fn document_after_removal(
    document: toml_edit::DocumentMut,
    target: Seq<char>,
    realm: Option<Realm>,
) -> toml_edit::DocumentMut {
    let found = removal_matches(document_contents(document), target, realm);
    if found.len() == 1 {
        document_without(document, section_of(found[0].realm), found[0].alias)
    } else {
        document
    }
}

/// The realms a removal looks in.
pub open spec fn removal_realms(realm: Option<Realm>) -> Seq<Realm> {
    match realm {
        Some(one) => seq![one],
        None => all_realms(),
    }
}

/// The declarations a removal finds.
pub open spec fn removal_matches(
    contents: Map<Seq<char>, TomlModel>,
    target: Seq<char>,
    realm: Option<Realm>,
) -> Seq<DeclarationModel> {
    let realms = removal_realms(realm);
    declarations_of(contents, realms, target, realms.len() as int)
}

/// What a removal answers.
pub open spec fn removal(
    contents: Map<Seq<char>, TomlModel>,
    target: Seq<char>,
    realm: Option<Realm>,
) -> Result<RemovedModel, FailureModel> {
    let found = removal_matches(contents, target, realm);
    let elsewhere = declarations_of(contents, all_realms(), target, 3);
    if found.len() == 0 {
        if realm is Some && elsewhere.len() > 0 {
            Err(
                hinted_failure(
                    "wally.toml declares "@ + quoted(target) + " as "@ + listing_of(elsewhere)
                        + ", not under ["@ + section_of(realm->0) + "]"@,
                    "omit realm, or pass the realm it is declared in. A package is declared in one realm only, so realm is needed only when wally.toml was hand written to say otherwise"@,
                ),
            )
        } else {
            Err(
                hinted_failure(
                    "wally.toml declares no dependency "@ + quoted(target),
                    "call list_wally_packages to see what wally.toml declares"@,
                ),
            )
        }
    } else if found.len() > 1 {
        Err(
            hinted_failure(
                quoted(target) + " is declared more than once: "@ + listing_of(found),
                "pass realm to say which one to remove"@,
            ),
        )
    } else {
        Ok(
            RemovedModel {
                alias: found[0].alias,
                package: found[0].package,
                version_req: match requirement_in(found[0].requirement) {
                    Ok((_, Some(version))) => version,
                    _ => Seq::empty(),
                },
                realm: found[0].realm,
            },
        )
    }
}

/// A manifest after a removal.
pub open spec fn after_removal(
    contents: Map<Seq<char>, TomlModel>,
    target: Seq<char>,
    realm: Option<Realm>,
) -> Map<Seq<char>, TomlModel> {
    let found = removal_matches(contents, target, realm);
    if found.len() == 1 {
        contents_without(contents, section_of(found[0].realm), found[0].alias)
    } else {
        contents
    }
}

// ---------------------------------------------------------------------------
// What is declared

/// The text that stands under a key of one of the tables.
pub open spec fn text_in_table(
    contents: Map<Seq<char>, TomlModel>,
    section: Seq<char>,
    key: Seq<char>,
) -> Option<Seq<char>> {
    match table_at(contents, section) {
        Some(entries) => text_at(entries, key),
        None => None,
    }
}

/// A text, or nothing where there is none.
pub open spec fn text_or_nothing(text: Option<Seq<char>>) -> Seq<char> {
    match text {
        Some(held) => held,
        None => Seq::empty(),
    }
}

/// What a manifest says of the package it belongs to.
pub open spec fn summary_of(contents: Map<Seq<char>, TomlModel>) -> ManifestPackageModel {
    ManifestPackageModel {
        name: text_or_nothing(text_in_table(contents, "package"@, "name"@)),
        version: text_or_nothing(text_in_table(contents, "package"@, "version"@)),
        realm: text_or_nothing(text_in_table(contents, "package"@, "realm"@)),
        registry: text_or_nothing(text_in_table(contents, "package"@, "registry"@)),
    }
}

/// The directory a version of a package is installed into.
pub open spec fn install_path_of(realm: Realm, package: PackageModel, version: Seq<char>) -> Seq<
    char,
> {
    directory_of(realm) + "/_Index/"@ + index_directory_of(package, version)
}

/// What a lockfile resolved a declaration to, where there is a lockfile.
pub open spec fn resolved_in(lock: Option<LockModel>, alias: Seq<char>, package: PackageModel) -> Option<
    Seq<char>,
> {
    match lock {
        Some(held) => resolved_version(held, alias, package),
        None => None,
    }
}

/// What is noted of a declaration.
pub open spec fn declaration_note(
    package: PackageModel,
    resolved: bool,
    installed: bool,
    present: bool,
    out_of_date: bool,
) -> Option<Seq<char>> {
    if out_of_date {
        Some(
            "wally.lock resolved a version the requirement in wally.toml no longer allows. Run `wally install` to re-resolve."@,
        )
    } else if !resolved {
        Some("wally.lock does not resolve this requirement, so it has never been installed"@)
    } else if installed {
        None
    } else if present {
        Some(
            "the index directory exists but holds no "@ + quoted(package.name)
                + " folder, so it was left half written by an install that did not finish; run `wally install` to rebuild it"@,
        )
    } else {
        Some("resolved in wally.lock but absent from disk; run `wally install` to restore it"@)
    }
}

/// A declaration that cannot be read.
pub open spec fn unreadable_declaration(
    alias: Seq<char>,
    package: Seq<char>,
    realm: Realm,
    note: Seq<char>,
) -> DeclaredModel {
    DeclaredModel {
        alias,
        package,
        scope: Seq::empty(),
        name: Seq::empty(),
        version_req: Seq::empty(),
        realm,
        section: section_of(realm),
        resolved_version: None,
        installed: false,
        install_path: None,
        lock_out_of_date: false,
        note: Some(note),
    }
}

/// What an entry declares, joined to what the lockfile resolved and to what is on disk.
pub open spec fn declared_entry(
    entry: (Seq<char>, TomlModel),
    realm: Realm,
    lock: Option<LockModel>,
    directories: Seq<Seq<char>>,
    packages: Seq<Seq<char>>,
) -> DeclaredModel {
    let alias = entry.0;
    match text_of(entry.1) {
        None => unreadable_declaration(
            alias,
            Seq::empty(),
            realm,
            "this entry is not a string, so it is not a requirement Wally can read"@,
        ),
        Some(requirement) => match requirement_in(requirement) {
            Err(_) => unreadable_declaration(
                alias,
                requirement,
                realm,
                "this entry is not a package requirement Wally can parse; it should read SCOPE/NAME@VERSION, such as \"roblox/roact@^1.4.2\", not "@
                    + quoted(requirement),
            ),
            Ok((package, version)) => {
                let version_req = text_or_nothing(version);
                let resolved = resolved_in(lock, alias, package);
                let path = match resolved {
                    Some(found) => Some(install_path_of(realm, package, found)),
                    None => None,
                };
                let present = path is Some && directories.contains(path->0);
                let installed = path is Some && packages.contains(path->0);
                let out_of_date = resolved is Some && requirement_allows(version_req, resolved->0)
                    == Some(false);
                DeclaredModel {
                    alias,
                    package: package_text(package),
                    scope: package.scope,
                    name: package.name,
                    version_req,
                    realm,
                    section: section_of(realm),
                    resolved_version: resolved,
                    installed,
                    install_path: if present {
                        path
                    } else {
                        None
                    },
                    lock_out_of_date: out_of_date,
                    note: declaration_note(
                        package,
                        resolved is Some,
                        installed,
                        present,
                        out_of_date,
                    ),
                }
            },
        },
    }
}

/// What the first `k` realms declare.
pub open spec fn declared_packages(
    contents: Map<Seq<char>, TomlModel>,
    lock: Option<LockModel>,
    directories: Seq<Seq<char>>,
    packages: Seq<Seq<char>>,
    k: int,
) -> Seq<DeclaredModel>
    decreases k,
{
    if k <= 0 {
        Seq::empty()
    } else {
        let before = declared_packages(contents, lock, directories, packages, k - 1);
        let realm = all_realms()[k - 1];
        match table_at(contents, section_of(realm)) {
            Some(entries) => before + entries.map_values(
                |entry: (Seq<char>, TomlModel)|
                    declared_entry(entry, realm, lock, directories, packages),
            ),
            None => before,
        }
    }
}

/// The directory and the folder in it that tell whether an entry is installed.
pub open spec fn probe_of(
    entry: (Seq<char>, TomlModel),
    realm: Realm,
    lock: Option<LockModel>,
) -> Option<(Seq<char>, Seq<char>)> {
    match text_of(entry.1) {
        Some(requirement) => match requirement_in(requirement) {
            Ok((package, _)) => match resolved_in(lock, entry.0, package) {
                Some(version) => Some((install_path_of(realm, package, version), package.name)),
                None => None,
            },
            Err(_) => None,
        },
        None => None,
    }
}

/// What is to be looked for on disk for the first `n` entries of a realm's table.
pub open spec fn probes_in(
    entries: Seq<(Seq<char>, TomlModel)>,
    realm: Realm,
    lock: Option<LockModel>,
    n: int,
) -> Seq<(Seq<char>, Seq<char>)>
    decreases n,
{
    if n <= 0 {
        Seq::empty()
    } else {
        let before = probes_in(entries, realm, lock, n - 1);
        match probe_of(entries[n - 1], realm, lock) {
            Some(probe) => before.push(probe),
            None => before,
        }
    }
}

/// What is to be looked for on disk for the first `k` realms.
pub open spec fn install_probes(
    contents: Map<Seq<char>, TomlModel>,
    lock: Option<LockModel>,
    k: int,
) -> Seq<(Seq<char>, Seq<char>)>
    decreases k,
{
    if k <= 0 {
        Seq::empty()
    } else {
        let before = install_probes(contents, lock, k - 1);
        let realm = all_realms()[k - 1];
        match table_at(contents, section_of(realm)) {
            Some(entries) => before + probes_in(entries, realm, lock, entries.len() as int),
            None => before,
        }
    }
}

/// A lockfile that may be missing, as contracts write it.
pub open spec fn lock_view(lock: Option<&Lockfile>) -> Option<LockModel> {
    match lock {
        Some(held) => Some(held@),
        None => None,
    }
}

fn unreadable(alias: &str, package: &str, realm: Realm, note: String) -> (r: DeclaredPackage)
    ensures
        r.deep_view() == unreadable_declaration(alias@, package@, realm, note@),
{
    let r = DeclaredPackage {
        alias: owned(alias),
        package: owned(package),
        scope: String::new(),
        name: String::new(),
        version_req: String::new(),
        realm,
        section: realm.section(),
        resolved_version: None,
        installed: false,
        install_path: None,
        lock_out_of_date: false,
        note: Some(note),
    };
    assert(r.scope@ =~= Seq::empty());
    r
}

fn install_path(realm: Realm, package: &PackageName, version: &str) -> (r: String)
    ensures
        r@ == install_path_of(realm, package@, version@),
{
    let mut r = owned(realm.directory());
    r.append("/_Index/");
    r.append(package.index_directory(version).as_str());
    r
}

fn resolve_in(lock: Option<&Lockfile>, alias: &str, package: &PackageName) -> (r: Option<String>)
    ensures
        r.deep_view() == resolved_in(lock_view(lock), alias@, package@),
{
    match lock {
        Some(held) => held.resolved(alias, package),
        None => None,
    }
}

fn note_on(
    package: &PackageName,
    resolved: bool,
    installed: bool,
    present: bool,
    out_of_date: bool,
) -> (r: Option<String>)
    ensures
        r.deep_view() == declaration_note(package@, resolved, installed, present, out_of_date),
{
    if out_of_date {
        return Some(
            owned(
                "wally.lock resolved a version the requirement in wally.toml no longer allows. Run `wally install` to re-resolve.",
            ),
        );
    }
    if !resolved {
        return Some(
            owned("wally.lock does not resolve this requirement, so it has never been installed"),
        );
    }
    if installed {
        return None;
    }
    if present {
        let mut note = owned("the index directory exists but holds no ");
        note.append(quote(package.name()).as_str());
        note.append(
            " folder, so it was left half written by an install that did not finish; run `wally install` to rebuild it",
        );
        return Some(note);
    }
    Some(owned("resolved in wally.lock but absent from disk; run `wally install` to restore it"))
}

/// Joins one entry of a dependency table to what the lockfile resolved and to what is on disk.
pub fn describe(
    alias: &str,
    requirement: &str,
    realm: Realm,
    lockfile: Option<&Lockfile>,
    disk: &InstalledPackages,
) -> (r: DeclaredPackage)
    ensures
        r.deep_view() == declared_entry(
            (alias@, TomlModel::Text(requirement@)),
            realm,
            lock_view(lockfile),
            disk.directories.deep_view(),
            disk.packages.deep_view(),
        ),
{
    let (package, version) = match split_requirement(requirement) {
        Ok(parts) => parts,
        Err(_) => {
            let mut note = owned(
                "this entry is not a package requirement Wally can parse; it should read SCOPE/NAME@VERSION, such as \"roblox/roact@^1.4.2\", not ",
            );
            note.append(quote(requirement).as_str());
            return unreadable(alias, requirement, realm, note);
        },
    };
    let version_req: String = match version {
        Some(version) => version,
        None => String::new(),
    };
    assert(version is None ==> version_req@ =~= Seq::empty());
    let resolved = resolve_in(lockfile, alias, &package);
    let path: Option<String> = match &resolved {
        Some(found) => Some(install_path(realm, &package, found.as_str())),
        None => None,
    };
    let present = match &path {
        Some(held) => list_holds(&disk.directories, held.as_str()),
        None => false,
    };
    let installed = match &path {
        Some(held) => list_holds(&disk.packages, held.as_str()),
        None => false,
    };
    let lock_out_of_date = match &resolved {
        Some(found) => match version_is_allowed(version_req.as_str(), found.as_str()) {
            Some(allowed) => !allowed,
            None => false,
        },
        None => false,
    };
    let note = note_on(&package, resolved.is_some(), installed, present, lock_out_of_date);
    DeclaredPackage {
        alias: owned(alias),
        package: package.text(),
        scope: owned(package.scope()),
        name: owned(package.name()),
        version_req,
        realm,
        section: realm.section(),
        resolved_version: resolved,
        installed,
        install_path: if present {
            path
        } else {
            None
        },
        lock_out_of_date,
        note,
    }
}

fn probe_for(entry: &(String, Toml), realm: Realm, lock: Option<&Lockfile>) -> (r: Option<
    (String, String),
>)
    ensures
        r.deep_view() == probe_of((entry.0@, toml_model(entry.1)), realm, lock_view(lock)),
{
    match entry.1.as_text() {
        Some(requirement) => match split_requirement(requirement) {
            Ok((package, _)) => match resolve_in(lock, entry.0.as_str(), &package) {
                Some(version) => Some(
                    (install_path(realm, &package, version.as_str()), owned(package.name())),
                ),
                None => None,
            },
            Err(_) => None,
        },
        None => None,
    }
}

impl Manifest {
    /// Reads a manifest: its text, where the project has one.
    pub fn load(contents: Option<String>) -> (r: Result<Manifest, Failure>)
        ensures
            match r {
                Ok(manifest) => {
                    &&& contents matches Some(raw)
                    &&& parsed_document(raw@) matches Ok(document)
                    &&& manifest@ == document_contents(document)
                    &&& manifest.document_model() == document
                    &&& manifest.original_text() == raw@
                },
                Err(failure) => match contents {
                    None => failure.deep_view() == hinted_failure(
                        "this project has no wally.toml"@,
                        "run `wally init` in the project root to create one, or check that Biskit's project root is the directory that owns wally.toml"@,
                    ),
                    Some(raw) => parsed_document(raw@) matches Err(problem) && failure.deep_view()
                        == caused_failure("failed to parse wally.toml"@, problem),
                },
            },
    {
        let raw = match contents {
            Some(raw) => raw,
            None => {
                return Err(
                    hinted(
                        owned("this project has no wally.toml"),
                        "run `wally init` in the project root to create one, or check that Biskit's project root is the directory that owns wally.toml",
                    ),
                );
            },
        };
        match parse_document(raw.as_str()) {
            Ok(document) => Ok(Manifest { document, original: raw }),
            Err(problem) => Err(caused(owned("failed to parse wally.toml"), problem)),
        }
    }

    /// The text to save the manifest as.
    pub fn text(&self) -> (r: String)
        ensures
            r@ == self.written(),
    {
        write_document(&self.document)
    }

    /// The file exactly as it was read, which is what a rolled-back edit is restored to.
    pub fn original(&self) -> (r: &str)
        ensures
            r@ == self.original_text(),
    {
        self.original.as_str()
    }

    fn read_text(&self, section: &str, key: &str) -> (r: Option<String>)
        ensures
            r.deep_view() == text_in_table(self@, section@, key@),
    {
        match read_table(&self.document, section) {
            Some(entries) => owned_text(find_text(&entries, key)),
            None => None,
        }
    }

    fn read_or_nothing(&self, section: &str, key: &str) -> (r: String)
        ensures
            r@ == text_or_nothing(text_in_table(self@, section@, key@)),
    {
        match self.read_text(section, key) {
            Some(text) => text,
            None => String::new(),
        }
    }

    /// Whether wally.toml says where shared packages sit in the datamodel. Wally refuses to link a
    /// server or dev package that depends on a shared one until it does.
    pub fn declares_shared_place(&self) -> (b: bool)
        ensures
            b == (text_in_table(self@, "place"@, "shared-packages"@) matches Some(place) && trimmed(
                place,
            ).len() > 0),
    {
        match self.read_text("place", "shared-packages") {
            Some(place) => !trim(place.as_str()).is_empty(),
            None => false,
        }
    }

    /// The `[package] name` this manifest declares, which names the root entry in wally.lock.
    pub fn own_name(&self) -> (r: Option<String>)
        ensures
            r.deep_view() == text_in_table(self@, "package"@, "name"@),
    {
        self.read_text("package", "name")
    }

    /// What the manifest says of the package it belongs to.
    pub fn package_summary(&self) -> (r: ManifestPackage)
        ensures
            r.deep_view() == summary_of(self@),
    {
        ManifestPackage {
            name: self.read_or_nothing("package", "name"),
            version: self.read_or_nothing("package", "version"),
            realm: self.read_or_nothing("package", "realm"),
            registry: self.read_or_nothing("package", "registry"),
        }
    }

    /// The directories, each with the folder in it, that tell which packages are on disk.
    pub fn probes(&self, lockfile: Option<&Lockfile>) -> (r: Vec<(String, String)>)
        ensures
            r.deep_view() == install_probes(self@, lock_view(lockfile), 3),
    {
        let ghost lock = lock_view(lockfile);
        let realms = Realm::all();
        let mut found: Vec<(String, String)> = Vec::new();
        let mut k: usize = 0;
        assert(found.deep_view() =~= install_probes(self@, lock, 0));
        while k < realms.len()
            invariant
                k <= realms@.len(),
                realms@ == all_realms(),
                lock == lock_view(lockfile),
                found.deep_view() == install_probes(self@, lock, k as int),
            decreases realms@.len() - k,
        {
            let realm = realms[k];
            if let Some(entries) = read_table(&self.document, realm.section()) {
                let ghost model = entries_model(entries@);
                let ghost start = found.deep_view();
                proof {
                    entries_model_items(entries@);
                    assert(start + probes_in(model, realm, lock, 0) =~= start);
                }
                let mut i: usize = 0;
                while i < entries.len()
                    invariant
                        i <= entries@.len(),
                        model == entries_model(entries@),
                        model.len() == entries@.len(),
                        forall|j: int|
                            0 <= j < entries@.len() ==> #[trigger] model[j] == (
                                entries@[j].0@,
                                toml_model(entries@[j].1),
                            ),
                        lock == lock_view(lockfile),
                        found.deep_view() == start + probes_in(model, realm, lock, i as int),
                    decreases entries@.len() - i,
                {
                    assert(model[i as int] == (
                        entries@[i as int].0@,
                        toml_model(entries@[i as int].1),
                    ));
                    let ghost before = found.deep_view();
                    let ghost had = probes_in(model, realm, lock, i as int);
                    if let Some(probe) = probe_for(&entries[i], realm, lockfile) {
                        let ghost said = probe.deep_view();
                        found.push(probe);
                        assert(found.deep_view() =~= before.push(said));
                        assert(before.push(said) =~= start + had.push(said));
                    }
                    i = i + 1;
                }
            }
            k = k + 1;
        }
        found
    }

    /// Every declared dependency, in realm order, joined to the lockfile and to disk.
    pub fn declared(&self, lockfile: Option<&Lockfile>, disk: &InstalledPackages) -> (r: Vec<
        DeclaredPackage,
    >)
        ensures
            r.deep_view() == declared_packages(
                self@,
                lock_view(lockfile),
                disk.directories.deep_view(),
                disk.packages.deep_view(),
                3,
            ),
    {
        let ghost lock = lock_view(lockfile);
        let ghost directories = disk.directories.deep_view();
        let ghost packages = disk.packages.deep_view();
        let realms = Realm::all();
        let mut found: Vec<DeclaredPackage> = Vec::new();
        let mut k: usize = 0;
        assert(found.deep_view() =~= declared_packages(self@, lock, directories, packages, 0));
        while k < realms.len()
            invariant
                k <= realms@.len(),
                realms@ == all_realms(),
                lock == lock_view(lockfile),
                directories == disk.directories.deep_view(),
                packages == disk.packages.deep_view(),
                found.deep_view() == declared_packages(
                    self@,
                    lock,
                    directories,
                    packages,
                    k as int,
                ),
            decreases realms@.len() - k,
        {
            let realm = realms[k];
            if let Some(entries) = read_table(&self.document, realm.section()) {
                let ghost model = entries_model(entries@);
                let ghost here = model.map_values(
                    |entry: (Seq<char>, TomlModel)|
                        declared_entry(entry, realm, lock, directories, packages),
                );
                let ghost start = found.deep_view();
                proof {
                    entries_model_items(entries@);
                    assert(start + here.take(0) =~= start);
                }
                let mut i: usize = 0;
                while i < entries.len()
                    invariant
                        i <= entries@.len(),
                        model == entries_model(entries@),
                        model.len() == entries@.len(),
                        forall|j: int|
                            0 <= j < entries@.len() ==> #[trigger] model[j] == (
                                entries@[j].0@,
                                toml_model(entries@[j].1),
                            ),
                        lock == lock_view(lockfile),
                        directories == disk.directories.deep_view(),
                        packages == disk.packages.deep_view(),
                        here == model.map_values(
                            |entry: (Seq<char>, TomlModel)|
                                declared_entry(entry, realm, lock, directories, packages),
                        ),
                        found.deep_view() == start + here.take(i as int),
                    decreases entries@.len() - i,
                {
                    assert(model[i as int] == (
                        entries@[i as int].0@,
                        toml_model(entries@[i as int].1),
                    ));
                    let ghost before = found.deep_view();
                    let alias = entries[i].0.as_str();
                    let declared = match entries[i].1.as_text() {
                        Some(requirement) => describe(alias, requirement, realm, lockfile, disk),
                        None => {
                            assert(""@ =~= Seq::empty()) by {
                                reveal_strlit("");
                            }
                            unreadable(
                                alias,
                                "",
                                realm,
                                owned(
                                    "this entry is not a string, so it is not a requirement Wally can read",
                                ),
                            )
                        },
                    };
                    let ghost said = declared.deep_view();
                    assert(said == here[i as int]);
                    found.push(declared);
                    assert(found.deep_view() =~= before.push(said));
                    assert(found.deep_view() =~= start + here.take(i + 1));
                    i = i + 1;
                }
                assert(here.take(i as int) =~= here);
            }
            k = k + 1;
        }
        found
    }
}

// ---------------------------------------------------------------------------
// Searching

fn entry_declares(held: &Toml, name: &PackageName) -> (b: bool)
    ensures
        b == declares(toml_model(*held), name@),
{
    match held.as_text() {
        Some(text) => match split_requirement(text) {
            Ok((found, _)) => found.same(name),
            Err(_) => false,
        },
        None => false,
    }
}

fn find_declaring(entries: &Vec<(String, Toml)>, name: &PackageName) -> (r: Option<usize>)
    ensures
        match r {
            Some(i) => first_declaring(entries_model(entries@), name@, 0) == Some(i as int) && i
                < entries@.len() && declares(entries_model(entries@)[i as int].1, name@),
            None => first_declaring(entries_model(entries@), name@, 0) is None,
        },
{
    let ghost model = entries_model(entries@);
    proof {
        entries_model_items(entries@);
    }
    let mut i: usize = 0;
    while i < entries.len()
        invariant
            i <= entries@.len(),
            model == entries_model(entries@),
            model.len() == entries@.len(),
            forall|k: int|
                0 <= k < entries@.len() ==> #[trigger] model[k] == (
                    entries@[k].0@,
                    toml_model(entries@[k].1),
                ),
            first_declaring(model, name@, 0) == first_declaring(model, name@, i as int),
        decreases entries@.len() - i,
    {
        assert(model[i as int].1 == toml_model(entries@[i as int].1));
        if entry_declares(&entries[i].1, name) {
            return Some(i);
        }
        i = i + 1;
    }
    None
}

fn owned_text(text: Option<&str>) -> (r: Option<String>)
    ensures
        r.deep_view() == text.deep_view(),
{
    match text {
        Some(held) => Some(owned(held)),
        None => None,
    }
}

fn or_nothing(text: Option<&str>) -> (r: String)
    ensures
        r@ == (match text.deep_view() {
            Some(held) => held,
            None => Seq::empty(),
        }),
{
    match text {
        Some(held) => owned(held),
        None => String::new(),
    }
}

/// A declaration found by a lookup.
struct Declaration {
    realm: Realm,
    alias: String,
    requirement: String,
    package: String,
}

impl DeepView for Declaration {
    type V = DeclarationModel;

    closed spec fn deep_view(&self) -> DeclarationModel {
        DeclarationModel {
            realm: self.realm,
            alias: self.alias@,
            requirement: self.requirement@,
            package: self.package@,
        }
    }
}

fn name_of_package(requirement: &str) -> (r: String)
    ensures
        r@ == package_named(requirement@),
{
    match split_requirement(requirement) {
        Ok((package, _)) => package.text(),
        Err(_) => String::new(),
    }
}

fn push_declarations(
    found: &mut Vec<Declaration>,
    entries: &Vec<(String, Toml)>,
    realm: Realm,
    target: &str,
)
    ensures
        final(found).deep_view() == old(found).deep_view() + declarations_in(
            entries_model(entries@),
            realm,
            target@,
            entries@.len() as int,
        ),
{
    let ghost start = found.deep_view();
    let ghost model = entries_model(entries@);
    proof {
        entries_model_items(entries@);
        assert(start + declarations_in(model, realm, target@, 0) =~= start);
    }
    let mut i: usize = 0;
    while i < entries.len()
        invariant
            i <= entries@.len(),
            model == entries_model(entries@),
            model.len() == entries@.len(),
            forall|k: int|
                0 <= k < entries@.len() ==> #[trigger] model[k] == (
                    entries@[k].0@,
                    toml_model(entries@[k].1),
                ),
            found.deep_view() == start + declarations_in(model, realm, target@, i as int),
        decreases entries@.len() - i,
    {
        assert(model[i as int].1 == toml_model(entries@[i as int].1));
        let ghost before = found.deep_view();
        let ghost had = declarations_in(model, realm, target@, i as int);
        if let Some(requirement) = entries[i].1.as_text() {
            let alias = entries[i].0.as_str();
            let package = name_of_package(requirement);
            if same_text(alias, target) || same_text(package.as_str(), target) {
                let declaration = Declaration {
                    realm,
                    alias: owned(alias),
                    requirement: owned(requirement),
                    package,
                };
                let ghost said = declaration.deep_view();
                found.push(declaration);
                assert(found.deep_view() =~= before.push(said));
                assert(before.push(said) =~= start + had.push(said));
            }
        }
        i = i + 1;
    }
}

fn listed(declarations: &Vec<Declaration>) -> (r: String)
    ensures
        r@ == listing_of(declarations.deep_view()),
{
    let ghost all = declarations.deep_view().map_values(
        |declaration: DeclarationModel| place_of(declaration),
    );
    let mut places: Vec<String> = Vec::new();
    let mut i: usize = 0;
    while i < declarations.len()
        invariant
            i <= declarations@.len(),
            all == declarations.deep_view().map_values(
                |declaration: DeclarationModel| place_of(declaration),
            ),
            places.deep_view() == all.take(i as int),
        decreases declarations@.len() - i,
    {
        assert(declarations.deep_view()[i as int] == declarations@[i as int].deep_view());
        let ghost before = places.deep_view();
        let mut place = declarations[i].alias.clone();
        place.append(" under [");
        place.append(declarations[i].realm.section());
        place.append("]");
        let ghost said = place@;
        places.push(place);
        assert(places.deep_view() =~= before.push(said));
        assert(places.deep_view() =~= all.take(i + 1));
        i = i + 1;
    }
    assert(all.take(i as int) =~= all);
    join(&places, ", ")
}

// ---------------------------------------------------------------------------
// Sweeping

proof fn without_one(s: Seq<(Seq<char>, TomlModel)>, p: int, n: int)
    requires
        0 <= p < s.len(),
        0 <= n <= s.len(),
        forall|k: int| 0 <= k < s.len() && k != p ==> (#[trigger] s[k]).0 != s[p].0,
    ensures
        entries_without(s, s[p].0, n) == (if n <= p {
            s.take(n)
        } else {
            s.take(p) + s.subrange(p + 1, n)
        }),
    decreases n,
{
    if n > 0 {
        without_one(s, p, n - 1);
        if n <= p {
            assert(s.take(n) =~= s.take(n - 1).push(s[n - 1]));
        } else if n - 1 == p {
            assert(s.take(p) + s.subrange(p + 1, n) =~= s.take(p));
        } else {
            assert(s.take(p) + s.subrange(p + 1, n) =~= (s.take(p) + s.subrange(p + 1, n - 1)).push(
                s[n - 1],
            ));
        }
    } else {
        assert(s.take(0) =~= Seq::empty());
    }
}

proof fn swept_come_from(
    entries: Seq<(Seq<char>, TomlModel)>,
    package: PackageModel,
    alias: Option<Seq<char>>,
    n: int,
)
    requires
        0 <= n <= entries.len(),
    ensures
        forall|k: int|
            0 <= k < swept_entries(entries, package, alias, n).len() ==> exists|j: int|
                0 <= j < n && #[trigger] swept_entries(entries, package, alias, n)[k]
                    == #[trigger] entries[j],
    decreases n,
{
    if n > 0 {
        swept_come_from(entries, package, alias, n - 1);
        let before = swept_entries(entries, package, alias, n - 1);
        let now = swept_entries(entries, package, alias, n);
        assert forall|k: int| 0 <= k < now.len() implies exists|j: int|
            0 <= j < n && #[trigger] now[k] == #[trigger] entries[j] by {
            if k < before.len() {
                let j = choose|j: int| 0 <= j < n - 1 && before[k] == #[trigger] entries[j];
                assert(now[k] == entries[j]);
            } else {
                assert(now[k] == entries[n - 1]);
            }
        }
    }
}

proof fn sweeping_one(
    entries: Seq<(Seq<char>, TomlModel)>,
    package: PackageModel,
    alias: Option<Seq<char>>,
    i: int,
)
    requires
        0 <= i < entries.len(),
        keys_apart(entries),
    ensures
        ({
            let rest = swept_entries(entries, package, alias, i) + entries.skip(i);
            entries_without(rest, entries[i].0, rest.len() as int) == swept_entries(
                entries,
                package,
                alias,
                i,
            ) + entries.skip(i + 1)
        }),
{
    let head = swept_entries(entries, package, alias, i);
    let rest = head + entries.skip(i);
    let p = head.len() as int;
    swept_come_from(entries, package, alias, i);
    assert(rest[p] == entries[i]);
    assert forall|k: int| 0 <= k < rest.len() && k != p implies (#[trigger] rest[k]).0
        != rest[p].0 by {
        if k < p {
            assert(rest[k] == head[k]);
            let j = choose|j: int| 0 <= j < i && head[k] == #[trigger] entries[j];
            assert(entries[j].0 != entries[i].0);
        } else {
            assert(rest[k] == entries[i + (k - p)]);
            assert(entries[i].0 != entries[i + (k - p)].0);
        }
    }
    without_one(rest, p, rest.len() as int);
    assert(rest.take(p) + rest.subrange(p + 1, rest.len() as int) =~= head + entries.skip(i + 1));
}

proof fn a_sweep_stays_in_its_sections(
    contents: Map<Seq<char>, TomlModel>,
    package: PackageModel,
    alias: Seq<char>,
    realm: Realm,
    k: int,
    key: Seq<char>,
)
    requires
        0 <= k <= 3,
        forall|j: int| 0 <= j < k ==> key != section_of(#[trigger] all_realms()[j]),
    ensures
        swept(contents, package, alias, realm, k).contains_key(key) == contents.contains_key(key),
        contents.contains_key(key) ==> swept(contents, package, alias, realm, k)[key]
            == contents[key],
        table_at(swept(contents, package, alias, realm, k), key) == table_at(contents, key),
    decreases k,
{
    if k > 0 {
        a_sweep_stays_in_its_sections(contents, package, alias, realm, k - 1, key);
        assert(key != section_of(all_realms()[k - 1]));
    }
}

proof fn later_sections_are_untouched(k: int)
    requires
        0 <= k < 3,
    ensures
        forall|j: int|
            0 <= j < k ==> section_of(all_realms()[k]) != section_of(#[trigger] all_realms()[j]),
{
    sections_differ();
    assert forall|j: int| 0 <= j < k implies section_of(all_realms()[k]) != section_of(
        #[trigger] all_realms()[j],
    ) by {
        assert(all_realms()[k] != all_realms()[j]);
    }
}

impl Manifest {
    /// Takes what names a package out of one realm's table, and with it the entry of the alias
    /// about to be written; answers the requirement that this displaced.
    fn sweep(&mut self, name: &PackageName, alias: &str, realm: Realm, other: Realm) -> (r: Option<
        String,
    >)
        ensures
            final(self).original_text() == old(self).original_text(),
            final(self).document_model() == document_swept_in(
                old(self).document_model(),
                name@,
                alias@,
                realm,
                other,
            ),
            match table_at(old(self)@, section_of(other)) {
                Some(entries) => {
                    &&& final(self)@ == old(self)@.insert(
                        section_of(other),
                        TomlModel::Table(
                            swept_entries(
                                entries,
                                name@,
                                swept_alias(alias@, realm, other),
                                entries.len() as int,
                            ),
                        ),
                    )
                    &&& r.deep_view() == displaced_in(
                        entries,
                        name@,
                        swept_alias(alias@, realm, other),
                    )
                },
                None => final(self)@ == old(self)@ && r is None,
            },
    {
        let ghost start = self@;
        let ghost section = section_of(other);
        let ghost key = swept_alias(alias@, realm, other);
        let entries = match read_table(&self.document, other.section()) {
            Some(entries) => entries,
            None => {
                return None;
            },
        };
        let ghost model = entries_model(entries@);
        proof {
            entries_model_items(entries@);
        }
        let here = other == realm;
        let displaced: Option<String> = match find_declaring(&entries, name) {
            Some(i) => owned_text(entries[i].1.as_text()),
            None => {
                if here {
                    owned_text(find_text(&entries, alias))
                } else {
                    None
                }
            },
        };
        let mut i: usize = 0;
        proof {
            assert(swept_entries(model, name@, key, 0) + model.skip(0) =~= model);
            assert(self@ =~= start.insert(
                section,
                TomlModel::Table(swept_entries(model, name@, key, 0) + model.skip(0)),
            ));
        }
        while i < entries.len()
            invariant
                i <= entries@.len(),
                model == entries_model(entries@),
                model.len() == entries@.len(),
                forall|k: int|
                    0 <= k < entries@.len() ==> #[trigger] model[k] == (
                        entries@[k].0@,
                        toml_model(entries@[k].1),
                    ),
                keys_apart(model),
                here == (other == realm),
                key == swept_alias(alias@, realm, other),
                section == section_of(other),
                self.original_text() == old(self).original_text(),
                self.document_model() == document_without_entries(
                    old(self).document_model(),
                    section,
                    model,
                    name@,
                    key,
                    i as int,
                ),
                self@ == start.insert(
                    section,
                    TomlModel::Table(
                        swept_entries(model, name@, key, i as int) + model.skip(i as int),
                    ),
                ),
            decreases entries@.len() - i,
        {
            let ghost table = swept_entries(model, name@, key, i as int) + model.skip(i as int);
            let ghost now = self@;
            assert(model[i as int] == (entries@[i as int].0@, toml_model(entries@[i as int].1)));
            assert(table_at(now, section) == Some(table));
            if entry_declares(&entries[i].1, name) || (here && same_text(
                entries[i].0.as_str(),
                alias,
            )) {
                remove_entry(&mut self.document, other.section(), entries[i].0.as_str());
                proof {
                    sweeping_one(model, name@, key, i as int);
                    assert(self@ =~= start.insert(
                        section,
                        TomlModel::Table(
                            swept_entries(model, name@, key, i + 1) + model.skip(i + 1),
                        ),
                    ));
                }
            } else {
                proof {
                    assert(swept_entries(model, name@, key, i + 1) + model.skip(i + 1) =~= table);
                }
            }
            i = i + 1;
        }
        proof {
            let all = swept_entries(model, name@, key, i as int);
            assert(all + model.skip(i as int) =~= all);
        }
        displaced
    }

    fn find(&self, name: &PackageName) -> (r: Option<(Realm, String, String)>)
        ensures
            match r {
                Some(found) => first_declaration(self@, name@, 0) == Some(
                    (found.0, found.1@, found.2@),
                ),
                None => first_declaration(self@, name@, 0) is None,
            },
    {
        let realms = Realm::all();
        let mut k: usize = 0;
        while k < realms.len()
            invariant
                k <= realms@.len(),
                realms@ == all_realms(),
                first_declaration(self@, name@, 0) == first_declaration(self@, name@, k as int),
            decreases realms@.len() - k,
        {
            let realm = realms[k];
            if let Some(entries) = read_table(&self.document, realm.section()) {
                if let Some(i) = find_declaring(&entries, name) {
                    proof {
                        entries_model_items(entries@);
                    }
                    let requirement = or_nothing(entries[i].1.as_text());
                    return Some((realm, entries[i].0.clone(), requirement));
                }
            }
            k = k + 1;
        }
        None
    }

    /// Writes a requirement into a realm's table, returning what it replaced.
    ///
    /// A package lives in exactly one realm here: an insert sweeps its declarations out of the
    /// other two, so `overwrite` is what moves a package between realms rather than duplicating it.
    pub fn insert(
        &mut self,
        alias: &str,
        name: &PackageName,
        version_req: &str,
        realm: Realm,
        overwrite: bool,
    ) -> (r: Result<Option<String>, Failure>)
        ensures
            final(self)@ == after_insertion(
                old(self)@,
                alias@,
                name@,
                version_req@,
                realm,
                overwrite,
            ),
            final(self).document_model() == document_after_insertion(
                old(self).document_model(),
                alias@,
                name@,
                version_req@,
                realm,
                overwrite,
            ),
            final(self).original_text() == old(self).original_text(),
            match r {
                Ok(replaced) => insertion(old(self)@, alias@, name@, realm, overwrite) == Ok::<
                    Option<Seq<char>>,
                    FailureModel,
                >(replaced.deep_view()),
                Err(failure) => insertion(old(self)@, alias@, name@, realm, overwrite) == Err::<
                    Option<Seq<char>>,
                    FailureModel,
                >(failure.deep_view()),
            },
    {
        let ghost start = self@;
        if !overwrite {
            if let Some((found, existing_alias, existing)) = self.find(name) {
                let mut message = name.text();
                message.append(" is already declared as ");
                message.append(existing_alias.as_str());
                message.append(" = ");
                message.append(quote(existing.as_str()).as_str());
                message.append(" under [");
                message.append(found.section());
                message.append("]");
                if found == realm {
                    return Err(
                        hinted(
                            message,
                            "pass overwrite to replace the requirement, or call remove_wally_package first",
                        ),
                    );
                }
                message.append(", and this call would put it under [");
                message.append(realm.section());
                message.append("]");
                let mut hint = owned(
                    "a package is declared in one realm only, so pass overwrite to move it into [",
                );
                hint.append(realm.section());
                hint.append("], or call remove_wally_package first");
                return Err(hinted(message, hint.as_str()));
            }
        }
        let realms = Realm::all();
        let mut replaced: Option<String> = None;
        let mut k: usize = 0;
        while k < realms.len()
            invariant
                k <= realms@.len(),
                realms@ == all_realms(),
                self.original_text() == old(self).original_text(),
                self@ == swept(start, name@, alias@, realm, k as int),
                self.document_model() == document_swept(
                    old(self).document_model(),
                    name@,
                    alias@,
                    realm,
                    k as int,
                ),
                replaced.deep_view() == displaced(start, name@, alias@, realm, k as int),
            decreases realms@.len() - k,
        {
            proof {
                later_sections_are_untouched(k as int);
                a_sweep_stays_in_its_sections(
                    start,
                    name@,
                    alias@,
                    realm,
                    k as int,
                    section_of(all_realms()[k as int]),
                );
            }
            let gone = self.sweep(name, alias, realm, realms[k]);
            if replaced.is_none() {
                replaced = gone;
            }
            k = k + 1;
        }
        let section = realm.section();
        match read_item(&self.document, section) {
            None => {
                add_table(&mut self.document, section);
            },
            Some(Toml::Table(_)) => {},
            Some(_) => {
                let mut message = owned("[");
                message.append(section);
                message.append(
                    "] in wally.toml is not a table, so no dependency can be written to it",
                );
                return Err(unhinted(message));
            },
        }
        let mut requirement = name.text();
        requirement.append("@");
        requirement.append(version_req);
        put_entry(&mut self.document, section, alias, requirement.as_str());
        Ok(replaced)
    }

    fn declarations(&self, target: &str, realms: &Vec<Realm>) -> (r: Vec<Declaration>)
        ensures
            r.deep_view() == declarations_of(self@, realms@, target@, realms@.len() as int),
    {
        let mut found: Vec<Declaration> = Vec::new();
        let mut k: usize = 0;
        assert(found.deep_view() =~= declarations_of(self@, realms@, target@, 0));
        while k < realms.len()
            invariant
                k <= realms@.len(),
                found.deep_view() == declarations_of(self@, realms@, target@, k as int),
            decreases realms@.len() - k,
        {
            if let Some(entries) = read_table(&self.document, realms[k].section()) {
                proof {
                    entries_model_items(entries@);
                }
                push_declarations(&mut found, &entries, realms[k], target);
            }
            k = k + 1;
        }
        found
    }

    /// Removes a dependency named by package name or by alias.
    pub fn remove(&mut self, target: &str, realm: Option<Realm>) -> (r: Result<
        RemovedPackage,
        Failure,
    >)
        ensures
            final(self)@ == after_removal(old(self)@, target@, realm),
            final(self).document_model() == document_after_removal(
                old(self).document_model(),
                target@,
                realm,
            ),
            final(self).original_text() == old(self).original_text(),
            match r {
                Ok(removed) => removal(old(self)@, target@, realm) == Ok::<
                    RemovedModel,
                    FailureModel,
                >(removed.deep_view()),
                Err(failure) => removal(old(self)@, target@, realm) == Err::<
                    RemovedModel,
                    FailureModel,
                >(failure.deep_view()),
            },
    {
        let realms: Vec<Realm> = match realm {
            Some(one) => vec![one],
            None => Realm::all(),
        };
        assert(realms@ =~= removal_realms(realm));
        let found = self.declarations(target, &realms);
        assert(found.deep_view().len() == found@.len());
        if found.len() == 0 {
            if let Some(requested) = realm {
                let elsewhere = self.declarations(target, &Realm::all());
                assert(elsewhere.deep_view().len() == elsewhere@.len());
                if elsewhere.len() > 0 {
                    let mut message = owned("wally.toml declares ");
                    message.append(quote(target).as_str());
                    message.append(" as ");
                    message.append(listed(&elsewhere).as_str());
                    message.append(", not under [");
                    message.append(requested.section());
                    message.append("]");
                    return Err(
                        hinted(
                            message,
                            "omit realm, or pass the realm it is declared in. A package is declared in one realm only, so realm is needed only when wally.toml was hand written to say otherwise",
                        ),
                    );
                }
            }
            let mut message = owned("wally.toml declares no dependency ");
            message.append(quote(target).as_str());
            return Err(
                hinted(message, "call list_wally_packages to see what wally.toml declares"),
            );
        }
        if found.len() > 1 {
            let mut message = quote(target);
            message.append(" is declared more than once: ");
            message.append(listed(&found).as_str());
            return Err(hinted(message, "pass realm to say which one to remove"));
        }
        let declaration = &found[0];
        assert(found.deep_view()[0] == declaration.deep_view());
        remove_entry(
            &mut self.document,
            declaration.realm.section(),
            declaration.alias.as_str(),
        );
        let version_req: String = match split_requirement(declaration.requirement.as_str()) {
            Ok((_, Some(version))) => version,
            _ => String::new(),
        };
        Ok(
            RemovedPackage {
                alias: declaration.alias.clone(),
                version_req,
                package: declaration.package.clone(),
                realm: declaration.realm,
            },
        )
    }
}

} // verus!
