//! What the Wally tools answer.
use vstd::prelude::*;
use super::cli::{install, install_result, InstallRun, WallyProgram};
use super::lockfile::Lockfile;
use super::manifest::{
    after_insertion, after_removal, declared_packages, document_after_insertion,
    document_after_removal, insertion, lock_view, removal, summary_of, text_in_table, DeclaredModel,
    DeclaredPackage, InstalledPackages, Manifest, ManifestPackage, RemovedModel, RemovedPackage,
};
use super::package::{
    alias_of, check_alias, check_version_req, default_alias, is_alias, package_text, realm_in,
    requirement_in, section_of, split_requirement, version_req_in, PackageModel, PackageName, Realm,
};
use super::registry::SearchHit;
use super::toml::{document_contents, parsed_document, TomlModel};
use crate::errors::{caused_failure, hinted, hinted_failure, rehinted, Failure, FailureModel};
use crate::text::{
    contains_text, decimal, decimal_text, holds, join, joined, owned, quote, quoted, same_text,
    trim, trimmed,
};

verus! {

/// The packages of a project.
#[derive(Debug)]
pub struct PackageListing {
    pub manifest_path: String,
    pub package: ManifestPackage,
    pub wally: WallyProgram,
    pub lockfile_present: bool,
    pub packages: Vec<DeclaredPackage>,
    pub note: Option<String>,
}

/// What a search found.
#[derive(Debug)]
pub struct SearchAnswer {
    pub query: String,
    pub registry: String,
    pub results: Vec<SearchHit>,
    pub truncated: bool,
    /// How many packages matched before `max_results` cut the list.
    pub matched_count: Option<usize>,
    pub note: Option<String>,
}

/// A change of the manifest.
#[derive(Debug)]
pub struct ManifestChange {
    pub manifest_path: String,
    pub alias: String,
    pub package: String,
    pub version_req: String,
    pub realm: Realm,
    /// The wally.toml table the entry was written to or removed from.
    pub section: &'static str,
    /// The requirement this one displaced, when it replaced an existing declaration.
    pub replaced: Option<String>,
    /// Whether `wally install` ran, which is not a claim about what is on disk. Ask
    /// `list_wally_packages` for that.
    pub install_ran: bool,
    pub install_output: Option<String>,
    pub note: Option<String>,
}

pub struct ChangeModel {
    pub manifest_path: Seq<char>,
    pub alias: Seq<char>,
    pub package: Seq<char>,
    pub version_req: Seq<char>,
    pub realm: Realm,
    pub section: Seq<char>,
    pub replaced: Option<Seq<char>>,
    pub install_ran: bool,
    pub install_output: Option<Seq<char>>,
    pub note: Option<Seq<char>>,
}

impl DeepView for ManifestChange {
    type V = ChangeModel;

    open spec fn deep_view(&self) -> ChangeModel {
        ChangeModel {
            manifest_path: self.manifest_path@,
            alias: self.alias@,
            package: self.package@,
            version_req: self.version_req@,
            realm: self.realm,
            section: self.section@,
            replaced: self.replaced.deep_view(),
            install_ran: self.install_ran,
            install_output: self.install_output.deep_view(),
            note: self.note.deep_view(),
        }
    }
}

/// A request to add a package.
#[derive(Debug)]
pub struct AddRequest<'a> {
    pub package: &'a str,
    pub version: Option<&'a str>,
    pub realm: Option<&'a str>,
    pub alias: Option<&'a str>,
    pub overwrite: bool,
    pub install: bool,
}

/// A request to remove a package.
#[derive(Debug)]
pub struct RemoveRequest<'a> {
    pub package: &'a str,
    pub realm: Option<&'a str>,
    pub install: bool,
}

// ---------------------------------------------------------------------------
// Listing

/// How many of the first `n` packages are not installed.
pub open spec fn missing_count(packages: Seq<DeclaredModel>, n: int) -> int
    decreases n,
{
    if n <= 0 {
        0
    } else if packages[n - 1].installed {
        missing_count(packages, n - 1)
    } else {
        missing_count(packages, n - 1) + 1
    }
}

/// The note on a listing.
pub open spec fn listing_note(lockfile_present: bool, packages: Seq<DeclaredModel>) -> Option<
    Seq<char>,
> {
    let missing = missing_count(packages, packages.len() as int);
    if packages.len() == 0 {
        Some("wally.toml declares no dependencies yet"@)
    } else if !lockfile_present {
        Some(
            "there is no wally.lock, so nothing has been resolved or installed. Run add_wally_package, or `wally install` for what is already declared."@,
        )
    } else if missing == 0 {
        None
    } else {
        Some(
            decimal(missing as nat)
                + " declared package(s) are not on disk, so requires into them will fail until `wally install` runs"@,
        )
    }
}

fn count_missing(packages: &Vec<DeclaredPackage>) -> (r: u64)
    ensures
        r == missing_count(packages.deep_view(), packages@.len() as int),
{
    let ghost all = packages.deep_view();
    let mut missing: u64 = 0;
    let mut i: usize = 0;
    while i < packages.len()
        invariant
            i <= packages@.len(),
            all == packages.deep_view(),
            missing == missing_count(all, i as int),
            missing <= i,
        decreases packages@.len() - i,
    {
        assert(all[i as int] == packages@[i as int].deep_view());
        if !packages[i].installed {
            missing = missing + 1;
        }
        i = i + 1;
    }
    missing
}

fn note_on_listing(lockfile_present: bool, packages: &Vec<DeclaredPackage>) -> (r: Option<String>)
    ensures
        r.deep_view() == listing_note(lockfile_present, packages.deep_view()),
{
    let count: usize = packages.len();
    assert(packages.deep_view().len() == count);
    if count == 0 {
        return Some(owned("wally.toml declares no dependencies yet"));
    }
    if !lockfile_present {
        return Some(
            owned(
                "there is no wally.lock, so nothing has been resolved or installed. Run add_wally_package, or `wally install` for what is already declared.",
            ),
        );
    }
    let missing: u64 = count_missing(packages);
    if missing == 0 {
        return None;
    }
    let mut note = decimal_text(missing);
    note.append(
        " declared package(s) are not on disk, so requires into them will fail until `wally install` runs",
    );
    Some(note)
}

/// What wally.toml declares, what wally.lock resolved it to, and what is on disk.
pub fn list(
    manifest: &Manifest,
    lockfile: Option<&Lockfile>,
    program: WallyProgram,
    disk: &InstalledPackages,
) -> (r: PackageListing)
    ensures
        r.manifest_path@ == "wally.toml"@,
        r.package.deep_view() == summary_of(manifest@),
        r.wally == program,
        r.lockfile_present == lockfile.is_some(),
        r.packages.deep_view() == declared_packages(
            manifest@,
            lock_view(lockfile),
            disk.directories.deep_view(),
            disk.packages.deep_view(),
            3,
        ),
        r.note.deep_view() == listing_note(lockfile.is_some(), r.packages.deep_view()),
{
    let packages = manifest.declared(lockfile, disk);
    let lockfile_present = lockfile.is_some();
    let note = note_on_listing(lockfile_present, &packages);
    PackageListing {
        manifest_path: owned("wally.toml"),
        package: manifest.package_summary(),
        wally: program,
        lockfile_present,
        packages,
        note,
    }
}

/// The packages among the first `n` that were resolved and are not on disk.
pub open spec fn missing_packages_of(packages: Seq<DeclaredModel>, n: int) -> Seq<Seq<char>>
    decreases n,
{
    if n <= 0 {
        Seq::empty()
    } else {
        let before = missing_packages_of(packages, n - 1);
        if !packages[n - 1].installed && packages[n - 1].resolved_version is Some {
            before.push(packages[n - 1].package)
        } else {
            before
        }
    }
}

/// Every declared package the lockfile resolved that is not on disk, for reporting after a failed
/// install took the tree down with it.
pub fn missing_from_disk(packages: &Vec<DeclaredPackage>) -> (r: Vec<String>)
    ensures
        r.deep_view() == missing_packages_of(packages.deep_view(), packages@.len() as int),
{
    let ghost all = packages.deep_view();
    let mut missing: Vec<String> = Vec::new();
    let mut i: usize = 0;
    assert(missing.deep_view() =~= missing_packages_of(all, 0));
    while i < packages.len()
        invariant
            i <= packages@.len(),
            all == packages.deep_view(),
            missing.deep_view() == missing_packages_of(all, i as int),
        decreases packages@.len() - i,
    {
        assert(all[i as int] == packages@[i as int].deep_view());
        let ghost before = missing.deep_view();
        if !packages[i].installed && packages[i].resolved_version.is_some() {
            missing.push(packages[i].package.clone());
            assert(missing.deep_view() =~= before.push(all[i as int].package));
        }
        i = i + 1;
    }
    missing
}

// ---------------------------------------------------------------------------
// Searching

/// The query to send, where one may be sent.
pub open spec fn search_query(query: Seq<char>, max_results: int) -> Result<Seq<char>, FailureModel> {
    if trimmed(query).len() == 0 {
        Err(
            hinted_failure(
                "the search query is empty"@,
                "pass a name, scope, or word from a description, such as \"promise\""@,
            ),
        )
    } else if max_results == 0 {
        Err(
            hinted_failure(
                "max_results is 0, so a search could return nothing whatever matched"@,
                "pass a max_results of 1 or more, or omit it to take the wally.max_search_results default"@,
            ),
        )
    } else {
        Ok(trimmed(query))
    }
}

/// Checks a search before it is sent.
pub fn check_search(query: &str, max_results: usize) -> (r: Result<String, Failure>)
    ensures
        match r {
            Ok(sent) => search_query(query@, max_results as int) == Ok::<Seq<char>, FailureModel>(
                sent@,
            ),
            Err(failure) => search_query(query@, max_results as int) == Err::<
                Seq<char>,
                FailureModel,
            >(failure.deep_view()),
        },
{
    let text = trim(query);
    if text.is_empty() {
        return Err(
            hinted(
                owned("the search query is empty"),
                "pass a name, scope, or word from a description, such as \"promise\"",
            ),
        );
    }
    if max_results == 0 {
        return Err(
            hinted(
                owned("max_results is 0, so a search could return nothing whatever matched"),
                "pass a max_results of 1 or more, or omit it to take the wally.max_search_results default",
            ),
        );
    }
    Ok(owned(text))
}

/// The note on what a search found.
pub open spec fn search_note(matched: int, max_results: int) -> Option<Seq<char>> {
    if matched > max_results {
        Some(
            decimal(matched as nat) + " packages matched and the list was cut to "@ + decimal(
                max_results as nat,
            ) + ". Narrow the query or raise max_results."@,
        )
    } else if matched == 0 {
        Some(
            "no packages matched. The registry matches on scope, name, and description, so try a shorter or more general word."@,
        )
    } else {
        None
    }
}

/// Answers a search with what the registry found, cut to what was asked for.
pub fn search_answer(
    query: String,
    registry: String,
    hits: Vec<SearchHit>,
    max_results: usize,
) -> (r: SearchAnswer)
    ensures
        r.query@ == query@,
        r.registry@ == registry@,
        r.truncated == (hits@.len() > max_results),
        r.results.deep_view() == (if hits@.len() > max_results {
            hits.deep_view().take(max_results as int)
        } else {
            hits.deep_view()
        }),
        r.matched_count == (if hits@.len() > max_results {
            Some(hits@.len() as usize)
        } else {
            None
        }),
        r.note.deep_view() == search_note(hits@.len() as int, max_results as int),
{
    let mut results = hits;
    let matched: usize = results.len();
    let ghost all = results.deep_view();
    assert(all.len() == matched);
    let truncated = matched > max_results;
    let note: Option<String> = if truncated {
        let mut note = decimal_text(matched as u64);
        note.append(" packages matched and the list was cut to ");
        note.append(decimal_text(max_results as u64).as_str());
        note.append(". Narrow the query or raise max_results.");
        Some(note)
    } else if matched == 0 {
        Some(
            owned(
                "no packages matched. The registry matches on scope, name, and description, so try a shorter or more general word.",
            ),
        )
    } else {
        None
    };
    if truncated {
        results.truncate(max_results);
        assert(results.deep_view() =~= all.take(max_results as int));
    }
    SearchAnswer {
        query,
        registry,
        results,
        truncated,
        matched_count: if truncated {
            Some(matched)
        } else {
            None
        },
        note,
    }
}

// ---------------------------------------------------------------------------
// Adding

/// What a request to add asks for: the package, and the requirement on its version where it gives
/// one.
pub open spec fn requested_package(package: Seq<char>, version: Option<Seq<char>>) -> Result<
    (PackageModel, Option<Seq<char>>),
    FailureModel,
> {
    match requirement_in(package) {
        Err(failure) => Err(failure),
        Ok((name, inline)) => match (version, inline) {
            (Some(explicit), Some(written)) => if trimmed(explicit) != written {
                Err(
                    hinted_failure(
                        "two different versions were given: "@ + quoted(written)
                            + " in package and "@ + quoted(explicit) + " in version"@,
                        "give the version once: either inside package as \"scope/name@^1.0.0\" or as the version argument"@,
                    ),
                )
            } else {
                checked_version(name, explicit)
            },
            (Some(explicit), None) => checked_version(name, explicit),
            (None, Some(written)) => checked_version(name, written),
            (None, None) => Ok((name, None)),
        },
    }
}

pub open spec fn checked_version(name: PackageModel, version: Seq<char>) -> Result<
    (PackageModel, Option<Seq<char>>),
    FailureModel,
> {
    match version_req_in(version) {
        Ok(kept) => Ok((name, Some(kept))),
        Err(failure) => Err(failure),
    }
}

fn check_version(name: PackageName, version: &str) -> (r: Result<
    (PackageName, Option<String>),
    Failure,
>)
    ensures
        match r {
            Ok(requested) => checked_version(name@, version@) == Ok::<
                (PackageModel, Option<Seq<char>>),
                FailureModel,
            >((requested.0@, requested.1.deep_view())),
            Err(failure) => checked_version(name@, version@) == Err::<
                (PackageModel, Option<Seq<char>>),
                FailureModel,
            >(failure.deep_view()),
        },
{
    match check_version_req(version) {
        Ok(kept) => Ok((name, Some(kept))),
        Err(failure) => Err(failure),
    }
}

/// Reads which package a request asks for, and at which version. Where it says nothing of the
/// version, the newest published one is to be looked up.
pub fn read_addition(request: &AddRequest<'_>) -> (r: Result<
    (PackageName, Option<String>),
    Failure,
>)
    ensures
        match r {
            Ok(requested) => requested_package(request.package@, request.version.deep_view()) == Ok::<
                (PackageModel, Option<Seq<char>>),
                FailureModel,
            >((requested.0@, requested.1.deep_view())),
            Err(failure) => requested_package(request.package@, request.version.deep_view())
                == Err::<(PackageModel, Option<Seq<char>>), FailureModel>(failure.deep_view()),
        },
{
    let (name, inline) = match split_requirement(request.package) {
        Ok(parts) => parts,
        Err(failure) => {
            return Err(failure);
        },
    };
    match (request.version, inline) {
        (Some(explicit), Some(written)) => {
            if !same_text(trim(explicit), written.as_str()) {
                let mut message = owned("two different versions were given: ");
                message.append(quote(written.as_str()).as_str());
                message.append(" in package and ");
                message.append(quote(explicit).as_str());
                message.append(" in version");
                return Err(
                    hinted(
                        message,
                        "give the version once: either inside package as \"scope/name@^1.0.0\" or as the version argument",
                    ),
                );
            }
            check_version(name, explicit)
        },
        (Some(explicit), None) => check_version(name, explicit),
        (None, Some(written)) => check_version(name, written.as_str()),
        (None, None) => Ok((name, None)),
    }
}

/// The requirement that pins a published version.
pub fn pin(version: &str) -> (r: String)
    ensures
        r@ == "^"@ + version@,
{
    let mut r = owned("^");
    r.append(version);
    r
}

/// Where a request to add puts a package, and under which alias.
pub open spec fn requested_place(
    name: PackageModel,
    realm: Option<Seq<char>>,
    alias: Option<Seq<char>>,
) -> Result<(Realm, Seq<char>), FailureModel> {
    match realm_in(realm) {
        Err(failure) => Err(failure),
        Ok(place) => match alias {
            None => Ok((place, alias_of(name.name))),
            Some(text) => if is_alias(trimmed(text)) {
                Ok((place, trimmed(text)))
            } else {
                Err(
                    hinted_failure(
                        "invalid alias: "@ + quoted(trimmed(text)),
                        "the alias becomes the module's name under Packages/, so it must read as a Luau identifier, such as \"Roact\""@,
                    ),
                )
            },
        },
    }
}

/// Reads where a request puts a package, and under which alias.
pub fn place_addition(name: &PackageName, request: &AddRequest<'_>) -> (r: Result<
    (Realm, String),
    Failure,
>)
    ensures
        match r {
            Ok(place) => requested_place(
                name@,
                request.realm.deep_view(),
                request.alias.deep_view(),
            ) == Ok::<(Realm, Seq<char>), FailureModel>((place.0, place.1@)),
            Err(failure) => requested_place(
                name@,
                request.realm.deep_view(),
                request.alias.deep_view(),
            ) == Err::<(Realm, Seq<char>), FailureModel>(failure.deep_view()),
        },
{
    let realm = match Realm::parse(request.realm) {
        Ok(realm) => realm,
        Err(failure) => {
            return Err(failure);
        },
    };
    match request.alias {
        None => Ok((realm, default_alias(name))),
        Some(text) => match check_alias(text) {
            Ok(alias) => Ok((realm, owned(alias))),
            Err(failure) => Err(failure),
        },
    }
}

/// The note on a manifest that was edited without an install.
pub open spec fn no_install_note() -> Seq<char> {
    "wally.toml was edited but `wally install` was not run, because install was false. The manifest and the package tree disagree until it runs."@
}

/// The note on a manifest that does not say where shared packages sit.
pub open spec fn no_place_note() -> Seq<char> {
    "wally.toml declares no [place] shared-packages, so Wally cannot link a server or dev package that depends on a shared one, and the install will fail for any package that does. Add, for example: [place] with shared-packages = \"game.ReplicatedStorage.Packages\"."@
}

/// The note on an addition.
pub open spec fn addition_note(installed: bool, unplaced: bool) -> Option<Seq<char>> {
    if !installed && unplaced {
        Some(no_install_note() + " "@ + no_place_note())
    } else if !installed {
        Some(no_install_note())
    } else if unplaced {
        Some(no_place_note())
    } else {
        None
    }
}

/// What an edit of the manifest that added a package is answered with. `placed` says whether the
/// manifest told where shared packages sit, and `install_output` is what the install printed where
/// one was run.
pub fn addition(
    name: &PackageName,
    alias: String,
    version_req: String,
    realm: Realm,
    placed: bool,
    replaced: Option<String>,
    install_output: Option<String>,
) -> (r: ManifestChange)
    ensures
        r.deep_view() == addition_of(
            name@,
            version_req@,
            alias@,
            realm,
            placed,
            replaced.deep_view(),
            install_output.deep_view(),
        ),
{
    let install_ran = install_output.is_some();
    let unplaced = realm != Realm::Shared && !placed;
    let note: Option<String> = if !install_ran {
        let mut note = owned(
            "wally.toml was edited but `wally install` was not run, because install was false. The manifest and the package tree disagree until it runs.",
        );
        if unplaced {
            note.append(" ");
            note.append(
                "wally.toml declares no [place] shared-packages, so Wally cannot link a server or dev package that depends on a shared one, and the install will fail for any package that does. Add, for example: [place] with shared-packages = \"game.ReplicatedStorage.Packages\".",
            );
        }
        Some(note)
    } else if unplaced {
        Some(
            owned(
                "wally.toml declares no [place] shared-packages, so Wally cannot link a server or dev package that depends on a shared one, and the install will fail for any package that does. Add, for example: [place] with shared-packages = \"game.ReplicatedStorage.Packages\".",
            ),
        )
    } else {
        None
    };
    ManifestChange {
        manifest_path: owned("wally.toml"),
        alias,
        package: name.text(),
        version_req,
        realm,
        section: realm.section(),
        replaced,
        install_ran,
        install_output,
        note,
    }
}

/// What an edit of the manifest produced: the manifest to save, the text it held before, and what
/// the answer needs to tell.
#[derive(Debug)]
pub struct Edit {
    pub manifest: Manifest,
    pub original: String,
    pub alias: String,
    pub realm: Realm,
    pub placed: bool,
    pub replaced: Option<String>,
}

/// Whether a manifest says where shared packages sit.
pub open spec fn says_shared_place(contents: Map<Seq<char>, TomlModel>) -> bool {
    match text_in_table(contents, "place"@, "shared-packages"@) {
        Some(place) => trimmed(place).len() > 0,
        None => false,
    }
}

/// The failure of an edit that adds a package: a place that cannot be read, no manifest, a manifest
/// that cannot be parsed, or a package that may not be declared.
pub open spec fn addition_failure(
    name: PackageModel,
    realm: Option<Seq<char>>,
    alias: Option<Seq<char>>,
    overwrite: bool,
    manifest: Option<Seq<char>>,
) -> Option<FailureModel> {
    match requested_place(name, realm, alias) {
        Err(failure) => Some(failure),
        Ok((place, key)) => match manifest_in(manifest) {
            Err(failure) => Some(failure),
            Ok(contents) => match insertion(contents, key, name, place, overwrite) {
                Err(failure) => Some(failure),
                Ok(_) => None,
            },
        },
    }
}

/// What a manifest holds, where there is one that can be read.
pub open spec fn manifest_in(text: Option<Seq<char>>) -> Result<
    Map<Seq<char>, TomlModel>,
    FailureModel,
> {
    match text {
        None => Err(
            hinted_failure(
                "this project has no wally.toml"@,
                "run `wally init` in the project root to create one, or check that Biskit's project root is the directory that owns wally.toml"@,
            ),
        ),
        Some(raw) => match parsed_document(raw) {
            Ok(document) => Ok(document_contents(document)),
            Err(problem) => Err(caused_failure("failed to parse wally.toml"@, problem)),
        },
    }
}

/// Writes a dependency into wally.toml: `manifest_text` is the text of the file, where there is
/// one, and `version_req` the requirement that was read or looked up for the request.
pub fn edit_addition(
    name: &PackageName,
    version_req: &str,
    request: &AddRequest<'_>,
    manifest_text: Option<String>,
) -> (r: Result<Edit, Failure>)
    ensures
        match r {
            Ok(edit) => {
                &&& requested_place(name@, request.realm.deep_view(), request.alias.deep_view())
                    == Ok::<(Realm, Seq<char>), FailureModel>((edit.realm, edit.alias@))
                &&& manifest_in(manifest_text.deep_view()) matches Ok(contents)
                &&& insertion(contents, edit.alias@, name@, edit.realm, request.overwrite) == Ok::<
                    Option<Seq<char>>,
                    FailureModel,
                >(edit.replaced.deep_view())
                &&& edit.manifest@ == after_insertion(
                    contents,
                    edit.alias@,
                    name@,
                    version_req@,
                    edit.realm,
                    request.overwrite,
                )
                &&& edit.manifest.document_model() == document_after_insertion(
                    parsed_document(edit.original@)->Ok_0,
                    edit.alias@,
                    name@,
                    version_req@,
                    edit.realm,
                    request.overwrite,
                )
                &&& edit.placed == says_shared_place(contents)
                &&& manifest_text.deep_view() == Some(edit.original@)
            },
            Err(failure) => addition_failure(
                name@,
                request.realm.deep_view(),
                request.alias.deep_view(),
                request.overwrite,
                manifest_text.deep_view(),
            ) == Some(failure.deep_view()),
        },
{
    let (realm, alias) = match place_addition(name, request) {
        Ok(place) => place,
        Err(failure) => {
            return Err(failure);
        },
    };
    let mut manifest = match Manifest::load(manifest_text) {
        Ok(manifest) => manifest,
        Err(failure) => {
            return Err(failure);
        },
    };
    let original = owned(manifest.original());
    let placed = manifest.declares_shared_place();
    match manifest.insert(alias.as_str(), name, version_req, realm, request.overwrite) {
        Ok(replaced) => Ok(Edit { manifest, original, alias, realm, placed, replaced }),
        Err(failure) => Err(failure),
    }
}

// ---------------------------------------------------------------------------
// Removing

/// What a request to remove asks for: the target, and the realm where it names one.
pub open spec fn requested_removal(package: Seq<char>, realm: Option<Seq<char>>) -> Result<
    (Seq<char>, Option<Realm>),
    FailureModel,
> {
    match realm {
        None => Ok((trimmed(package), None)),
        Some(text) => match realm_in(Some(text)) {
            Ok(place) => Ok((trimmed(package), Some(place))),
            Err(failure) => Err(failure),
        },
    }
}

/// Reads which package a request asks to remove, and from which realm.
pub fn read_removal(request: &RemoveRequest<'_>) -> (r: Result<(String, Option<Realm>), Failure>)
    ensures
        match r {
            Ok(target) => requested_removal(request.package@, request.realm.deep_view()) == Ok::<
                (Seq<char>, Option<Realm>),
                FailureModel,
            >((target.0@, target.1)),
            Err(failure) => requested_removal(request.package@, request.realm.deep_view()) == Err::<
                (Seq<char>, Option<Realm>),
                FailureModel,
            >(failure.deep_view()),
        },
{
    let realm: Option<Realm> = match request.realm {
        None => None,
        Some(text) => match Realm::parse(Some(text)) {
            Ok(realm) => Some(realm),
            Err(failure) => {
                return Err(failure);
            },
        },
    };
    Ok((owned(trim(request.package)), realm))
}

/// Drops a dependency from wally.toml, whose text is given where there is one: the manifest to save,
/// the text it held before, and what was removed.
pub fn edit_removal(target: &str, realm: Option<Realm>, manifest_text: Option<String>) -> (r: Result<
    (Manifest, String, RemovedPackage),
    Failure,
>)
    ensures
        match manifest_in(manifest_text.deep_view()) {
            Err(expected) => r matches Err(failure) && failure.deep_view() == expected,
            Ok(contents) => match r {
                Ok(edit) => {
                    &&& removal(contents, target@, realm) == Ok::<RemovedModel, FailureModel>(
                        edit.2.deep_view(),
                    )
                    &&& edit.0@ == after_removal(contents, target@, realm)
                    &&& edit.0.document_model() == document_after_removal(
                        parsed_document(edit.1@)->Ok_0,
                        target@,
                        realm,
                    )
                    &&& manifest_text.deep_view() == Some(edit.1@)
                },
                Err(failure) => removal(contents, target@, realm) == Err::<
                    RemovedModel,
                    FailureModel,
                >(failure.deep_view()),
            },
        },
{
    let mut manifest = match Manifest::load(manifest_text) {
        Ok(manifest) => manifest,
        Err(failure) => {
            return Err(failure);
        },
    };
    let original = owned(manifest.original());
    match manifest.remove(target, realm) {
        Ok(removed) => Ok((manifest, original, removed)),
        Err(failure) => Err(failure),
    }
}

/// What an edit of the manifest that removed a package is answered with.
pub fn removal_report(removed: RemovedPackage, install_output: Option<String>) -> (r:
    ManifestChange)
    ensures
        r.deep_view() == removal_of(removed.deep_view(), install_output.deep_view()),
{
    let install_ran = install_output.is_some();
    let note: Option<String> = if install_ran {
        None
    } else {
        let mut note = owned(
            "wally.toml was edited but `wally install` was not run, because install was false. The manifest and the package tree disagree until it runs.",
        );
        note.append(" The removed package is still on disk until then.");
        Some(note)
    };
    ManifestChange {
        manifest_path: owned("wally.toml"),
        alias: removed.alias,
        package: removed.package,
        version_req: removed.version_req,
        realm: removed.realm,
        section: removed.realm.section(),
        replaced: None,
        install_ran,
        install_output,
        note,
    }
}

// ---------------------------------------------------------------------------
// After the edit

/// What follows once an edit was saved and, where that was asked for, installed: the answer, or an
/// edit to be undone. What undoes it is the text the manifest was read from.
#[derive(Debug)]
pub enum AfterInstall {
    Answer(ManifestChange),
    RollBack { original: String, failure: Failure },
}

/// What an addition is answered with, as contracts write it.
pub open spec fn addition_of(
    name: PackageModel,
    version_req: Seq<char>,
    alias: Seq<char>,
    realm: Realm,
    placed: bool,
    replaced: Option<Seq<char>>,
    install_output: Option<Seq<char>>,
) -> ChangeModel {
    ChangeModel {
        manifest_path: "wally.toml"@,
        alias,
        package: package_text(name),
        version_req,
        realm,
        section: section_of(realm),
        replaced,
        install_ran: install_output is Some,
        install_output,
        note: addition_note(install_output is Some, realm != Realm::Shared && !placed),
    }
}

/// What a removal is answered with, as contracts write it.
pub open spec fn removal_of(removed: RemovedModel, install_output: Option<Seq<char>>) -> ChangeModel {
    ChangeModel {
        manifest_path: "wally.toml"@,
        alias: removed.alias,
        package: removed.package,
        version_req: removed.version_req,
        realm: removed.realm,
        section: section_of(removed.realm),
        replaced: None,
        install_ran: install_output is Some,
        install_output,
        note: if install_output is Some {
            None
        } else {
            Some(no_install_note() + " The removed package is still on disk until then."@)
        },
    }
}

/// Decides what follows an addition that was saved. `run` is how the install ended, where one was
/// asked for.
pub fn conclude_addition(
    name: &PackageName,
    version_req: String,
    edit: Edit,
    run: Option<InstallRun>,
) -> (r: AfterInstall)
    ensures
        match run {
            None => r matches AfterInstall::Answer(change) && change.deep_view() == addition_of(
                name@,
                version_req@,
                edit.alias@,
                edit.realm,
                edit.placed,
                edit.replaced.deep_view(),
                None,
            ),
            Some(ended) => match install_result(ended) {
                Ok(printed) => r matches AfterInstall::Answer(change) && change.deep_view()
                    == addition_of(
                    name@,
                    version_req@,
                    edit.alias@,
                    edit.realm,
                    edit.placed,
                    edit.replaced.deep_view(),
                    Some(printed),
                ),
                Err(problem) => r matches AfterInstall::RollBack { original, failure } && original@
                    == edit.original@ && failure.deep_view() == problem,
            },
        },
{
    let output: Option<String> = match run {
        None => None,
        Some(ended) => match install(ended) {
            Ok(printed) => Some(printed),
            Err(failure) => {
                return AfterInstall::RollBack { original: edit.original, failure };
            },
        },
    };
    AfterInstall::Answer(
        addition(name, edit.alias, version_req, edit.realm, edit.placed, edit.replaced, output),
    )
}

/// Decides what follows a removal that was saved. `original` is the text the manifest was read
/// from, and `run` how the install ended, where one was asked for.
pub fn conclude_removal(
    removed: RemovedPackage,
    original: String,
    run: Option<InstallRun>,
) -> (r: AfterInstall)
    ensures
        match run {
            None => r matches AfterInstall::Answer(change) && change.deep_view() == removal_of(
                removed.deep_view(),
                None,
            ),
            Some(ended) => match install_result(ended) {
                Ok(printed) => r matches AfterInstall::Answer(change) && change.deep_view()
                    == removal_of(removed.deep_view(), Some(printed)),
                Err(problem) => r matches AfterInstall::RollBack { original: put_back, failure }
                    && put_back@ == original@ && failure.deep_view() == problem,
            },
        },
{
    let output: Option<String> = match run {
        None => None,
        Some(ended) => match install(ended) {
            Ok(printed) => Some(printed),
            Err(failure) => {
                return AfterInstall::RollBack { original, failure };
            },
        },
    };
    AfterInstall::Answer(removal_report(removed, output))
}

// ---------------------------------------------------------------------------
// Failed installs

/// The advice after an install that failed: what became of the manifest, what may be missing, and
/// what Wally complained about where that is known.
pub open spec fn failed_install_hint(
    printed: Seq<char>,
    rolled_back: bool,
    missing: Seq<Seq<char>>,
) -> Seq<char> {
    let manifest = if rolled_back {
        "the wally.toml edit was rolled back, so the manifest reads as it did before this call. "@
    } else {
        "the wally.toml edit could not be rolled back, so the manifest still holds it. "@
    };
    let tree = manifest
        + "`wally install` deletes Packages, ServerPackages, and DevPackages before it rebuilds them, so packages unrelated to this call may now be missing from disk. Run `wally install` again once the cause is fixed to restore them."@;
    let named = if missing.len() == 0 {
        tree
    } else {
        tree + " Not on disk now: "@ + joined(missing, ", "@) + "."@
    };
    if holds(printed, "shared dependency"@) || holds(printed, "shared packages are placed"@) {
        named + " "@
            + "Wally needs wally.toml to say where shared packages sit in the datamodel before a server or dev package may depend on one. Add a [place] table with shared-packages = \"game.ReplicatedStorage.Packages\", pointing at wherever this place puts Packages."@
    } else {
        named
    }
}

/// What an install that failed is answered with, once the manifest was put back the way it was, or
/// could not be.
///
/// A failed install is not a no-op: Wally has already emptied the package tree by the time it gives
/// up. Undoing the manifest edit at least leaves the manifest telling the truth, and the error says
/// what is still missing from disk.
pub fn failed_install(failure: Failure, rolled_back: bool, missing: &Vec<String>) -> (r: Failure)
    ensures
        r.deep_view() == (FailureModel {
            hint: Some(failed_install_hint(failure.message@, rolled_back, missing.deep_view())),
            ..failure.deep_view()
        }),
{
    let mut hint = if rolled_back {
        owned(
            "the wally.toml edit was rolled back, so the manifest reads as it did before this call. ",
        )
    } else {
        owned("the wally.toml edit could not be rolled back, so the manifest still holds it. ")
    };
    hint.append(
        "`wally install` deletes Packages, ServerPackages, and DevPackages before it rebuilds them, so packages unrelated to this call may now be missing from disk. Run `wally install` again once the cause is fixed to restore them.",
    );
    assert(missing.deep_view().len() == missing@.len());
    if missing.len() > 0 {
        hint.append(" Not on disk now: ");
        hint.append(join(missing, ", ").as_str());
        hint.append(".");
    }
    if contains_text(failure.message.as_str(), "shared dependency") || contains_text(
        failure.message.as_str(),
        "shared packages are placed",
    ) {
        hint.append(" ");
        hint.append(
            "Wally needs wally.toml to say where shared packages sit in the datamodel before a server or dev package may depend on one. Add a [place] table with shared-packages = \"game.ReplicatedStorage.Packages\", pointing at wherever this place puts Packages.",
        );
    }
    rehinted(failure, hint)
}

} // verus!
