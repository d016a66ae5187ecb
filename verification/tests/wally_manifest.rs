//! Reading and editing wally.toml.
use biskit_mcp::errors::render;
use biskit_mcp::wally::lockfile::Lockfile;
use biskit_mcp::wally::manifest::{InstalledPackages, Manifest};
use biskit_mcp::wally::package::{
    check_alias, check_version_req, default_alias, split_requirement, PackageName, Realm,
};

const MANIFEST: &str = "\
# Hand written, and it should stay that way.
[package]
name = \"me/game\"
version = \"0.1.0\"
registry = \"https://github.com/UpliftGames/wally-index\"
realm = \"shared\"

[dependencies]
Roact = \"roblox/roact@^1.4.2\"  # the UI library

[server-dependencies]
ProfileService = \"madstudioroblox/profileservice@^1.0.0\"
";

fn open(contents: &str) -> Manifest {
    Manifest::load(Some(contents.to_string())).unwrap()
}

fn nothing_on_disk() -> InstalledPackages {
    InstalledPackages {
        directories: Vec::new(),
        packages: Vec::new(),
    }
}

#[test]
fn a_missing_manifest_says_so_rather_than_reporting_no_dependencies() {
    let error = Manifest::load(None).unwrap_err();
    assert!(error.message.contains("has no wally.toml"));
}

#[test]
fn comments_and_formatting_survive_an_edit() {
    let mut manifest = open(MANIFEST);
    let name = PackageName::parse("evaera/promise").unwrap();
    manifest
        .insert("Promise", &name, "^4.0.0", Realm::Shared, false)
        .unwrap();
    let written = manifest.text();
    assert!(written.contains("# Hand written, and it should stay that way."));
    assert!(
        written.contains("Roact = \"roblox/roact@^1.4.2\"  # the UI library"),
        "an untouched line kept its trailing comment: {written}"
    );
    assert!(written.contains("Promise = \"evaera/promise@^4.0.0\""));
}

#[test]
fn a_package_already_declared_is_refused_until_overwrite_is_passed() {
    let mut manifest = open(MANIFEST);
    let name = PackageName::parse("roblox/roact").unwrap();

    let error = manifest
        .insert("Roact", &name, "^1.5.0", Realm::Shared, false)
        .unwrap_err();
    assert!(error.message.contains("already declared as Roact"));

    let replaced = manifest
        .insert("Roact", &name, "^1.5.0", Realm::Shared, true)
        .unwrap();
    assert_eq!(replaced.as_deref(), Some("roblox/roact@^1.4.2"));
}

#[test]
fn moving_a_package_to_another_realm_leaves_no_second_declaration() {
    let mut manifest = open(MANIFEST);
    let name = PackageName::parse("roblox/roact").unwrap();

    manifest
        .insert("Roact", &name, "^1.4.2", Realm::Server, true)
        .unwrap();
    let written = manifest.text();
    assert_eq!(
        written.matches("roblox/roact").count(),
        1,
        "the package must be declared once, not in both realms: {written}"
    );

    let reopened = open(&written);
    let declared = reopened.declared(None, &nothing_on_disk());
    let roact = declared.iter().find(|entry| entry.name == "roact").unwrap();
    assert_eq!(roact.realm, Realm::Server);
    assert_eq!(roact.section, "server-dependencies");
}

#[test]
fn renaming_the_alias_of_a_declared_package_does_not_leave_the_old_key() {
    let mut manifest = open(MANIFEST);
    let name = PackageName::parse("roblox/roact").unwrap();

    manifest
        .insert("RoactUi", &name, "^1.4.2", Realm::Shared, true)
        .unwrap();
    let written = manifest.text();
    assert!(written.contains("RoactUi = \"roblox/roact@^1.4.2\""));
    assert!(
        !written.contains("\nRoact = "),
        "the old alias should be gone: {written}"
    );
}

#[test]
fn a_dependency_table_that_does_not_exist_yet_is_created() {
    let mut manifest = open(MANIFEST);
    let name = PackageName::parse("evaera/promise").unwrap();
    manifest
        .insert("Promise", &name, "^4.0.0", Realm::Dev, false)
        .unwrap();
    let written = manifest.text();
    assert!(written.contains("[dev-dependencies]"));
    assert!(written.contains("Promise = \"evaera/promise@^4.0.0\""));
}

#[test]
fn a_package_can_be_removed_by_name_or_by_alias() {
    for target in ["roblox/roact", "Roact"] {
        let mut manifest = open(MANIFEST);
        let removed = manifest.remove(target, None).unwrap();
        assert_eq!(removed.alias, "Roact");
        assert_eq!(removed.package, "roblox/roact");
        assert_eq!(removed.version_req, "^1.4.2");
        assert_eq!(removed.realm, Realm::Shared);

        let written = manifest.text();
        assert!(!written.contains("roblox/roact"), "removing {target:?}");
        assert!(written.contains("madstudioroblox/profileservice"));
    }
}

#[test]
fn removing_something_undeclared_names_it_rather_than_succeeding_quietly() {
    let mut manifest = open(MANIFEST);
    let error = manifest.remove("nobody/nothing", None).unwrap_err();
    assert!(error.message.contains("declares no dependency"));
}

#[test]
fn a_name_declared_in_two_realms_asks_which_one_to_remove() {
    let both = format!("{MANIFEST}\n[dev-dependencies]\nRoact = \"roblox/roact@^1.4.2\"\n");
    let mut manifest = open(&both);

    let error = manifest.remove("roblox/roact", None).unwrap_err();
    let rendered = render("remove_wally_package", &error);
    assert!(rendered.contains("declared more than once"));
    assert!(rendered.contains("Roact under [dependencies]"));
    assert!(rendered.contains("hint: pass realm"));

    assert_eq!(
        manifest
            .remove("roblox/roact", Some(Realm::Dev))
            .unwrap()
            .realm,
        Realm::Dev
    );
}

#[test]
fn a_declared_package_reports_what_the_lockfile_resolved_and_whether_it_is_on_disk() {
    let manifest = open(MANIFEST);
    let lock = "\
registry = \"https://github.com/UpliftGames/wally-index\"

[[package]]
name = \"me/game\"
version = \"0.1.0\"
dependencies = [
\t[\"Roact\", \"roblox/roact@1.4.4\"],
]

[[package]]
name = \"roblox/roact\"
version = \"1.4.4\"
dependencies = []
";
    let lockfile = Lockfile::parse(lock, Some("me/game")).unwrap();
    assert!(manifest.probes(Some(&lockfile)).contains(&(
        "Packages/_Index/roblox_roact@1.4.4".to_string(),
        "roact".to_string()
    )));
    let disk = InstalledPackages {
        directories: vec!["Packages/_Index/roblox_roact@1.4.4".to_string()],
        packages: vec!["Packages/_Index/roblox_roact@1.4.4".to_string()],
    };

    let declared = manifest.declared(Some(&lockfile), &disk);
    let roact = declared.iter().find(|entry| entry.name == "roact").unwrap();

    assert_eq!(roact.resolved_version.as_deref(), Some("1.4.4"));
    assert!(roact.installed);
    assert_eq!(
        roact.install_path.as_deref(),
        Some("Packages/_Index/roblox_roact@1.4.4")
    );
    assert!(!roact.lock_out_of_date);
    assert!(roact.note.is_none());

    let profile = declared
        .iter()
        .find(|entry| entry.name == "profileservice")
        .unwrap();
    assert_eq!(profile.realm, Realm::Server);
    assert!(
        !profile.installed,
        "nothing was written under ServerPackages"
    );
    assert!(profile.install_path.is_none());
    assert!(
        profile
            .note
            .as_deref()
            .is_some_and(|note| note.contains("never been installed"))
    );
}

#[test]
fn an_index_directory_with_nothing_in_it_is_not_reported_as_installed() {
    let manifest = open(MANIFEST);
    let lock = "\
registry = \"x\"

[[package]]
name = \"me/game\"
version = \"0.1.0\"
dependencies = [
\t[\"Roact\", \"roblox/roact@1.4.4\"],
]
";
    let lockfile = Lockfile::parse(lock, Some("me/game")).unwrap();
    let disk = InstalledPackages {
        directories: vec!["Packages/_Index/roblox_roact@1.4.4".to_string()],
        packages: Vec::new(),
    };

    let declared = manifest.declared(Some(&lockfile), &disk);
    let roact = declared.iter().find(|entry| entry.name == "roact").unwrap();

    assert!(
        !roact.installed,
        "a failed install leaves the index directory behind empty, and every require into it \
         still fails"
    );
    assert_eq!(
        roact.install_path.as_deref(),
        Some("Packages/_Index/roblox_roact@1.4.4"),
        "the path is worth naming so the half written directory can be found"
    );
    assert!(
        roact
            .note
            .as_deref()
            .is_some_and(|note| note.contains("half written")),
        "got: {:?}",
        roact.note
    );
}

#[test]
fn a_package_declared_in_another_realm_says_which_one_and_what_would_move_it() {
    let mut manifest = open(MANIFEST);
    let name = PackageName::parse("roblox/roact").unwrap();

    let error = manifest
        .insert("Roact", &name, "^1.4.2", Realm::Dev, false)
        .unwrap_err();
    let rendered = render("add_wally_package", &error);

    assert!(rendered.contains("under [dependencies]"));
    assert!(rendered.contains("[dev-dependencies]"));
    assert!(rendered.contains("hint: a package is declared in one realm only"));
}

#[test]
fn removing_from_the_wrong_realm_says_where_the_package_actually_is() {
    let mut manifest = open(MANIFEST);

    let error = manifest
        .remove("roblox/roact", Some(Realm::Server))
        .unwrap_err();
    let rendered = render("remove_wally_package", &error);

    assert!(
        rendered.contains("Roact under [dependencies]"),
        "the miss must name the section it was found in, not deny the declaration: {rendered}"
    );
    assert!(rendered.contains("not under [server-dependencies]"));
    assert!(rendered.contains("hint: omit realm"));
}

#[test]
fn an_edit_can_be_put_back_byte_for_byte() {
    let mut manifest = open(MANIFEST);
    let original = manifest.original().to_string();

    let name = PackageName::parse("evaera/promise").unwrap();
    manifest
        .insert("Promise", &name, "^4.0.0", Realm::Shared, false)
        .unwrap();
    assert_ne!(manifest.text(), MANIFEST);

    let written = original;
    assert_eq!(written, MANIFEST, "a rolled back edit leaves no trace");
}

#[test]
fn a_manifest_is_asked_whether_it_says_where_shared_packages_live() {
    let manifest = open(MANIFEST);
    assert!(
        !manifest.declares_shared_place(),
        "this manifest has no [place] table"
    );

    let placed =
        format!("{MANIFEST}\n[place]\nshared-packages = \"game.ReplicatedStorage.Packages\"\n");
    let manifest = open(&placed);
    assert!(manifest.declares_shared_place());

    let blank = format!("{MANIFEST}\n[place]\nshared-packages = \"\"\n");
    let manifest = open(&blank);
    assert!(
        !manifest.declares_shared_place(),
        "an empty value tells Wally nothing"
    );
}

#[test]
fn a_lockfile_version_the_requirement_no_longer_allows_is_called_out() {
    let manifest = open(MANIFEST);
    let lock = "\
registry = \"x\"

[[package]]
name = \"me/game\"
version = \"0.1.0\"
dependencies = [
\t[\"Roact\", \"roblox/roact@0.9.0\"],
]
";
    let lockfile = Lockfile::parse(lock, Some("me/game")).unwrap();
    let declared = manifest.declared(Some(&lockfile), &nothing_on_disk());
    let roact = declared.iter().find(|entry| entry.name == "roact").unwrap();

    assert_eq!(roact.resolved_version.as_deref(), Some("0.9.0"));
    assert!(roact.lock_out_of_date, "0.9.0 does not satisfy ^1.4.2");
    assert!(
        roact
            .note
            .as_deref()
            .is_some_and(|note| note.contains("re-resolve"))
    );
}

#[test]
fn a_lockfile_with_no_root_entry_still_resolves_an_unambiguous_name() {
    let lock = "\
registry = \"x\"

[[package]]
name = \"roblox/roact\"
version = \"1.4.4\"
dependencies = []
";
    let lockfile = Lockfile::parse(lock, Some("me/game")).unwrap();
    let name = PackageName::parse("roblox/roact").unwrap();
    assert_eq!(lockfile.resolved("Roact", &name).as_deref(), Some("1.4.4"));
}

#[test]
fn two_resolved_versions_of_one_name_are_not_guessed_between() {
    let lock = "\
registry = \"x\"

[[package]]
name = \"roblox/roact\"
version = \"1.4.4\"
dependencies = []

[[package]]
name = \"roblox/roact\"
version = \"1.3.0\"
dependencies = []
";
    let lockfile = Lockfile::parse(lock, None).unwrap();
    let name = PackageName::parse("roblox/roact").unwrap();
    assert_eq!(lockfile.resolved("Roact", &name), None);
}

#[test]
fn an_entry_that_is_not_a_requirement_is_reported_rather_than_dropped() {
    let broken = "[package]\nname = \"me/game\"\n\n[dependencies]\nRoact = \"roact\"\n";
    let manifest = open(broken);

    let declared = manifest.declared(None, &nothing_on_disk());
    assert_eq!(declared.len(), 1);
    assert_eq!(declared[0].alias, "Roact");
    assert!(
        declared[0]
            .note
            .as_deref()
            .is_some_and(|note| note.contains("SCOPE/NAME@VERSION"))
    );
}

#[test]
fn package_names_are_held_to_wallys_own_rules() {
    assert_eq!(
        PackageName::parse("roblox/roact").unwrap().text(),
        "roblox/roact"
    );
    assert!(PackageName::parse("roact").is_err(), "a scope is required");
    assert!(PackageName::parse("a/b/c").is_err());
    assert!(PackageName::parse("roblox/ro act").is_err());
    assert!(PackageName::parse("/roact").is_err());

    let uppercase = PackageName::parse("Roblox/Roact").unwrap_err();
    let rendered = render("add_wally_package", &uppercase);
    assert!(
        rendered.contains("hint: Wally names are lower case: try \"roblox\""),
        "the hint should name the lower-case form, got: {rendered}"
    );
}

#[test]
fn a_version_written_inline_is_split_off_the_name() {
    let (name, version) = split_requirement("roblox/roact@^1.4.2").unwrap();
    assert_eq!(name.text(), "roblox/roact");
    assert_eq!(version.as_deref(), Some("^1.4.2"));

    let (name, version) = split_requirement("roblox/roact").unwrap();
    assert_eq!(name.text(), "roblox/roact");
    assert_eq!(version, None);
}

#[test]
fn a_requirement_wally_would_reject_is_refused_before_the_manifest_is_touched() {
    assert!(check_version_req("^1.4.2").is_ok());
    assert!(check_version_req("1.4").is_ok());
    assert!(check_version_req("=1.4.2").is_ok());
    assert!(check_version_req("").is_err());
    assert!(check_version_req("latest").is_err());
}

#[test]
fn the_default_alias_is_the_name_a_require_site_would_write() {
    let alias = |value: &str| default_alias(&PackageName::parse(value).unwrap());
    assert_eq!(alias("roblox/roact"), "Roact");
    assert_eq!(alias("evaera/promise"), "Promise");
    assert_eq!(alias("sleitnick/knit"), "Knit");
    assert_eq!(
        alias("madstudioroblox/profile-service"),
        "Profileservice",
        "hyphens are dropped, since an alias becomes an Instance name"
    );
}

#[test]
fn an_alias_that_is_not_an_identifier_is_refused() {
    assert!(check_alias("Roact").is_ok());
    assert!(check_alias("Roact_17").is_ok());
    assert!(check_alias("17Roact").is_err());
    assert!(check_alias("Ro act").is_err());
    assert!(check_alias("Roact-Ui").is_err());
    assert!(check_alias("").is_err());
}

#[test]
fn realms_map_to_the_tables_and_directories_wally_uses() {
    assert_eq!(Realm::parse(None).unwrap(), Realm::Shared);
    assert_eq!(Realm::parse(Some("SERVER")).unwrap(), Realm::Server);
    assert_eq!(Realm::parse(Some("dev-dependencies")).unwrap(), Realm::Dev);
    assert!(Realm::parse(Some("client")).is_err());

    assert_eq!(Realm::Shared.section(), "dependencies");
    assert_eq!(Realm::Shared.directory(), "Packages");
    assert_eq!(Realm::Server.directory(), "ServerPackages");
    assert_eq!(Realm::Dev.directory(), "DevPackages");
}

#[test]
fn the_index_directory_matches_the_one_wally_unpacks_into() {
    let name = PackageName::parse("roblox/roact").unwrap();
    assert_eq!(name.index_directory("1.4.4"), "roblox_roact@1.4.4");
}

#[test]
fn a_requirement_reads_back_as_it_is_written() {
    let name = PackageName::parse("roblox/roact").unwrap();
    let (read, version) = split_requirement(&format!("{}@{}", name.text(), "^1.4.2")).unwrap();
    assert!(read.same(&name));
    assert!(read.copy().same(&name));
    assert_eq!((read.scope(), read.name()), ("roblox", "roact"));
    assert_eq!(version.as_deref(), Some("^1.4.2"));
    assert!(!read.same(&PackageName::parse("roblox/rodux").unwrap()));
}

#[test]
fn a_manifest_that_is_no_toml_is_refused() {
    assert_eq!(
        Manifest::load(Some("not = [toml".to_string())).unwrap_err().message,
        "failed to parse wally.toml"
    );
    let summary = open(MANIFEST).package_summary();
    assert_eq!(summary.name, "me/game");
    assert_eq!(summary.version, "0.1.0");
    assert_eq!(summary.realm, "shared");
    assert_eq!(open(MANIFEST).own_name().as_deref(), Some("me/game"));
    assert_eq!(Realm::all(), vec![Realm::Shared, Realm::Server, Realm::Dev]);
}

#[test]
fn a_manifest_that_is_no_toml_says_where() {
    let failure = Manifest::load(Some("not = [toml".to_string())).unwrap_err();
    let rendered = render("list_wally_packages", &failure);
    assert!(rendered.contains("failed to parse wally.toml: "), "{rendered}");
    assert!(rendered.contains("line 1"), "{rendered}");
}

#[test]
fn an_entry_that_is_no_text_is_reported_as_unreadable() {
    let declared = open("[dependencies]\nRoact = 1\n").declared(None, &nothing_on_disk());
    assert_eq!(
        declared[0].note.as_deref(),
        Some("this entry is not a string, so it is not a requirement Wally can read")
    );
}
