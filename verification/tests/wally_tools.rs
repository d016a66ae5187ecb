//! Listing, adding and removing packages.
use biskit_mcp::errors::{hinted, render};
use biskit_mcp::wally::cli::{InstallRun, WallyProgram};
use biskit_mcp::wally::lockfile::Lockfile;
use biskit_mcp::wally::manifest::{InstalledPackages, Manifest};
use biskit_mcp::wally::package::{PackageName, Realm};
use biskit_mcp::wally::registry::{search_hits, RawSearchHit};
use biskit_mcp::wally::tools::{
    addition, check_search, conclude_addition, conclude_removal, edit_addition, edit_removal,
    failed_install, list, missing_from_disk, pin, place_addition, read_addition, read_removal,
    removal_report, search_answer, AddRequest, AfterInstall, RemoveRequest,
};

const MANIFEST: &str = "[package]\nname = \"me/game\"\nversion = \"0.1.0\"\n\n[dependencies]\nRoact = \"roblox/roact@^1.4.2\"\n";

fn request(package: &str) -> AddRequest<'_> {
    AddRequest {
        package,
        version: None,
        realm: None,
        alias: None,
        overwrite: false,
        install: false,
    }
}

fn name(text: &str) -> PackageName {
    PackageName::parse(text).unwrap()
}

#[test]
fn a_version_given_twice_must_be_the_same() {
    let mut asked = request("roblox/roact@^1.4.2");
    asked.version = Some(" ^1.4.2 ");
    let (found, version) = read_addition(&asked).unwrap();
    assert_eq!(found.text(), "roblox/roact");
    assert_eq!(version.as_deref(), Some("^1.4.2"));

    asked.version = Some("^2.0.0");
    assert_eq!(
        read_addition(&asked).unwrap_err().message,
        "two different versions were given: \"^1.4.2\" in package and \"^2.0.0\" in version"
    );
    assert_eq!(read_addition(&request("roblox/roact")).unwrap().1, None);
    assert_eq!(pin("1.4.2"), "^1.4.2");
}

#[test]
fn an_addition_goes_to_the_realm_and_alias_it_names() {
    let mut asked = request("evaera/promise");
    assert_eq!(
        place_addition(&name("evaera/promise"), &asked).unwrap(),
        (Realm::Shared, "Promise".to_string())
    );
    asked.realm = Some("dev");
    asked.alias = Some(" Async ");
    assert_eq!(
        place_addition(&name("evaera/promise"), &asked).unwrap(),
        (Realm::Dev, "Async".to_string())
    );
    asked.alias = Some("not an alias");
    assert!(place_addition(&name("evaera/promise"), &asked).is_err());
}

#[test]
fn an_edit_adds_the_package_and_keeps_the_text_it_started_from() {
    let edit = edit_addition(
        &name("evaera/promise"),
        "^4.0.0",
        &request("evaera/promise"),
        Some(MANIFEST.to_string()),
    )
    .unwrap();
    assert_eq!(edit.original, MANIFEST);
    assert_eq!(edit.alias, "Promise");
    assert!(!edit.placed);
    assert_eq!(edit.replaced, None);
    assert_eq!(
        edit.manifest.text(),
        format!("{MANIFEST}Promise = \"evaera/promise@^4.0.0\"\n")
    );
    assert!(edit_addition(
        &name("evaera/promise"),
        "^4.0.0",
        &request("evaera/promise"),
        None
    )
    .is_err());
    assert_eq!(
        edit_addition(
            &name("evaera/promise"),
            "^4.0.0",
            &request("evaera/promise"),
            Some("not = [toml".to_string())
        )
        .unwrap_err()
        .message,
        "failed to parse wally.toml"
    );
}

#[test]
fn what_was_added_can_be_removed_again() {
    let edit = edit_addition(
        &name("evaera/promise"),
        "^4.0.0",
        &request("evaera/promise"),
        Some(MANIFEST.to_string()),
    )
    .unwrap();
    let (manifest, original, removed) =
        edit_removal("Promise", None, Some(edit.manifest.text())).unwrap();
    assert_eq!(original, edit.manifest.text());
    assert_eq!(manifest.text(), MANIFEST);
    assert_eq!(removed.package, "evaera/promise");

    let report = removal_report(removed, None);
    assert_eq!(report.section, "dependencies");
    assert!(!report.install_ran);
    assert!(report.note.is_some());
}

#[test]
fn a_removal_names_what_it_removes() {
    let asked = RemoveRequest {
        package: " Roact ",
        realm: Some("server"),
        install: true,
    };
    assert_eq!(
        read_removal(&asked).unwrap(),
        ("Roact".to_string(), Some(Realm::Server))
    );
    assert!(read_removal(&RemoveRequest {
        package: "Roact",
        realm: Some("client"),
        install: true
    })
    .is_err());
}

#[test]
fn an_addition_that_was_not_installed_says_so() {
    let change = addition(
        &name("evaera/promise"),
        "Promise".to_string(),
        "^4.0.0".to_string(),
        Realm::Server,
        false,
        None,
        None,
    );
    assert_eq!(change.package, "evaera/promise");
    assert_eq!(change.section, "server-dependencies");
    let note = change.note.unwrap();
    assert!(note.contains("install was false"));
    assert!(note.contains("shared-packages"));

    let installed = addition(
        &name("evaera/promise"),
        "Promise".to_string(),
        "^4.0.0".to_string(),
        Realm::Shared,
        false,
        Some("old".to_string()),
        Some("done".to_string()),
    );
    assert!(installed.install_ran);
    assert_eq!(installed.replaced.as_deref(), Some("old"));
    assert_eq!(installed.note, None);
}

#[test]
fn a_search_is_cut_to_what_was_asked_for() {
    assert_eq!(check_search(" promise ", 5).unwrap(), "promise");
    assert_eq!(
        check_search("  ", 5).unwrap_err().message,
        "the search query is empty"
    );
    assert!(check_search("promise", 0).is_err());

    let raw: Vec<RawSearchHit> = ["a", "b", "c"]
        .iter()
        .map(|hit| RawSearchHit {
            scope: "s".to_string(),
            name: hit.to_string(),
            description: None,
            versions: Vec::new(),
        })
        .collect();
    let answer = search_answer("q".to_string(), "r".to_string(), search_hits(&raw), 2);
    assert_eq!(answer.results.len(), 2);
    assert_eq!(answer.matched_count, Some(3));
    assert_eq!(
        answer.note.as_deref(),
        Some("3 packages matched and the list was cut to 2. Narrow the query or raise max_results.")
    );
    let none = search_answer("q".to_string(), "r".to_string(), Vec::new(), 2);
    assert!(!none.truncated);
    assert!(none.note.unwrap().starts_with("no packages matched."));
}

#[test]
fn a_listing_tells_what_is_missing_from_disk() {
    let manifest = Manifest::load(Some(MANIFEST.to_string())).unwrap();
    let disk = InstalledPackages {
        directories: Vec::new(),
        packages: Vec::new(),
    };
    let listing = list(
        &manifest,
        None,
        WallyProgram {
            path: "wally".to_string(),
            version: "wally 0.3.2".to_string(),
        },
        &disk,
    );
    assert_eq!(listing.manifest_path, "wally.toml");
    assert_eq!(listing.package.name, "me/game");
    assert!(!listing.lockfile_present);
    assert_eq!(listing.packages.len(), 1);
    assert_eq!(
        missing_from_disk(&listing.packages),
        Vec::<String>::new(),
        "nothing resolved it yet, so nothing is missing"
    );

    let lock = "registry = \"x\"\n\n[[package]]\nname = \"roblox/roact\"\nversion = \"1.4.4\"\ndependencies = []\n";
    let lockfile = Lockfile::parse(lock, manifest.own_name().as_deref()).unwrap();
    let declared = manifest.declared(Some(&lockfile), &disk);
    assert_eq!(missing_from_disk(&declared).len(), 1);
    assert!(Lockfile::parse("not = [toml", None).is_err());
}

#[test]
fn a_failed_installation_says_what_became_of_the_manifest() {
    let failure = failed_install(
        hinted("`wally install` failed".to_string(), "look"),
        true,
        &vec!["Roact".to_string()],
    );
    let rendered = render("add_wally_package", &failure);
    assert!(rendered.starts_with("add_wally_package failed: `wally install` failed"));
    assert!(rendered.contains("Roact"), "{rendered}");
}

#[test]
fn an_installation_that_failed_undoes_the_edit() {
    let edit = edit_addition(
        &name("evaera/promise"),
        "^4.0.0",
        &request("evaera/promise"),
        Some(MANIFEST.to_string()),
    )
    .unwrap();
    match conclude_addition(
        &name("evaera/promise"),
        "^4.0.0".to_string(),
        edit,
        Some(InstallRun::TimedOut(5)),
    ) {
        AfterInstall::RollBack { original, failure } => {
            assert_eq!(original, MANIFEST);
            assert_eq!(failure.message, "`wally install` did not finish within 5ms");
        }
        other => panic!("expected a roll back, got {other:?}"),
    }

    let (_, original, removed) =
        edit_removal("Roact", None, Some(MANIFEST.to_string())).unwrap();
    match conclude_removal(removed, original, None) {
        AfterInstall::Answer(change) => {
            assert_eq!(change.alias, "Roact");
            assert!(!change.install_ran);
        }
        other => panic!("expected an answer, got {other:?}"),
    }
}
