//! Replacing Biskit by a newer release.
use biskit_mcp::upgrade::{
    asset_name, binary_file_name, check_digest, ending_message, expected_digest, extract_binary,
    latest_tag, next_step, normalize_tag, read_sums, release_hosts, release_url, requested_tag, sibling, Ending,
    Replacing,
};
use std::io::{Cursor, Write};

#[test]
fn a_bare_version_gains_the_tag_prefix() {
    assert_eq!(normalize_tag("0.1.4"), "v0.1.4");
    assert_eq!(normalize_tag("v0.1.4"), "v0.1.4");
}

#[test]
fn the_digest_is_read_from_the_matching_line() {
    let sums = "aaaa  biskit-mcp-linux-x86_64.tar.gz\r\nBBBB  biskit-mcp-windows-x86_64.zip\n";

    assert_eq!(
        expected_digest(sums, "biskit-mcp-windows-x86_64.zip"),
        Some("bbbb".to_string())
    );
    assert_eq!(
        expected_digest(sums, "biskit-mcp-macos-aarch64.tar.gz"),
        None
    );
}

#[test]
fn a_binary_marker_does_not_break_the_name_match() {
    let sums = "aaaa *biskit-mcp-linux-x86_64.tar.gz\n";

    assert_eq!(
        expected_digest(sums, "biskit-mcp-linux-x86_64.tar.gz"),
        Some("aaaa".to_string())
    );
}

#[test]
fn a_name_that_only_ends_with_the_asset_is_not_matched() {
    let sums = "aaaa  nested/biskit-mcp-linux-x86_64.tar.gz\n";

    assert_eq!(
        expected_digest(sums, "biskit-mcp-linux-x86_64.tar.gz"),
        None
    );
}

#[test]
fn the_staging_names_sit_beside_the_executable() {
    let current = "/opt/bin/biskit-mcp.exe";

    assert_eq!(
        sibling(current, "biskit-mcp.exe", "old"),
        "/opt/bin/biskit-mcp.exe.old"
    );
    assert_eq!(
        sibling(current, "biskit-mcp.exe", "new"),
        "/opt/bin/biskit-mcp.exe.new"
    );
}

const TAR_ASSET: &str = "biskit-mcp-linux-x86_64.tar.gz";
const ZIP_ASSET: &str = "biskit-mcp-windows-x86_64.zip";

fn zipped(entries: &[(&str, &[u8])]) -> Vec<u8> {
    let mut writer = zip::ZipWriter::new(Cursor::new(Vec::new()));
    for (name, contents) in entries {
        writer
            .start_file(*name, zip::write::SimpleFileOptions::default())
            .unwrap();
        writer.write_all(contents).unwrap();
    }
    writer.finish().unwrap().into_inner()
}

fn tarred(entries: &[(&str, &[u8])]) -> Vec<u8> {
    let encoder = flate2::write::GzEncoder::new(Vec::new(), flate2::Compression::default());
    let mut builder = tar::Builder::new(encoder);
    for (name, contents) in entries {
        let mut header = tar::Header::new_gnu();
        header.set_size(contents.len() as u64);
        header.set_mode(0o755);
        header.set_cksum();
        builder.append_data(&mut header, *name, *contents).unwrap();
    }
    builder.into_inner().unwrap().finish().unwrap()
}

#[test]
fn the_binary_is_taken_out_of_a_zip_by_its_file_name() {
    let archive = zipped(&[
        ("README.md", b"read me"),
        ("biskit/biskit-mcp.exe", b"the program"),
    ]);
    assert_eq!(
        extract_binary(&archive, ZIP_ASSET, "biskit-mcp.exe").unwrap(),
        b"the program"
    );
}

#[test]
fn the_binary_is_taken_out_of_a_tar_by_its_file_name() {
    let archive = tarred(&[("README.md", b"read me"), ("biskit/biskit-mcp", b"the program")]);
    assert_eq!(
        extract_binary(&archive, TAR_ASSET, "biskit-mcp").unwrap(),
        b"the program"
    );
}

#[test]
fn directories_and_dots_before_the_binary_do_not_hide_it() {
    for path in ["./biskit-mcp", "bin/biskit-mcp", "biskit-mcp-linux-x86_64/./biskit-mcp"] {
        let zip = zipped(&[("bin/a_b", b"other"), (path, b"the program")]);
        let tar = tarred(&[("bin/a_b", b"other"), ("LICENSE", b""), (path, b"the program")]);
        for (archive, asset) in [(zip, ZIP_ASSET), (tar, TAR_ASSET)] {
            assert_eq!(
                extract_binary(&archive, asset, "biskit-mcp").unwrap(),
                b"the program"
            );
        }
    }
}

#[test]
fn a_name_that_only_starts_as_the_binary_is_not_it() {
    let zip = zipped(&[("biskit-mcp/readme", b"other"), ("biskit-mcp.old", b"other")]);
    let tar = tarred(&[("biskit-mcp/readme", b"other"), ("biskit-mcp.old", b"other")]);
    assert!(extract_binary(&zip, ZIP_ASSET, "biskit-mcp").is_err());
    assert!(extract_binary(&tar, TAR_ASSET, "biskit-mcp").is_err());
}

#[test]
fn an_archive_without_the_binary_is_refused() {
    let zip = zipped(&[("README.md", b"read me")]);
    let tar = tarred(&[("README.md", b"read me")]);
    for (archive, asset) in [(zip, ZIP_ASSET), (tar, TAR_ASSET)] {
        let error = extract_binary(&archive, asset, "biskit-mcp").unwrap_err();
        assert!(error.message.contains("biskit-mcp"), "{}", error.message);
    }
}

#[test]
fn what_is_no_archive_is_refused() {
    assert!(extract_binary(b"nothing", ZIP_ASSET, "biskit-mcp").is_err());
    assert!(extract_binary(b"nothing", TAR_ASSET, "biskit-mcp").is_err());
}

#[test]
fn an_asset_is_published_for_some_machines_only() {
    assert_eq!(asset_name("linux", "aarch64").unwrap(), "biskit-mcp-linux-aarch64.tar.gz");
    assert_eq!(asset_name("windows", "x86_64").unwrap(), ZIP_ASSET);
    assert_eq!(
        asset_name("windows", "aarch64").unwrap_err().message,
        "no biskit-mcp release asset is published for windows/aarch64"
    );
    assert_eq!(binary_file_name(true), "biskit-mcp.exe");
    assert_eq!(binary_file_name(false), "biskit-mcp");
}

#[test]
fn the_latest_tag_is_read_from_the_release() {
    assert_eq!(
        latest_tag(br#"{"name": "x", "tag_name": "v1.2.3"}"#).unwrap(),
        "v1.2.3"
    );
    assert_eq!(
        latest_tag(b"{ not json").unwrap_err().message,
        "could not parse the GitHub release response"
    );
    assert_eq!(
        latest_tag(br#"{"tag_name": 1}"#).unwrap_err().message,
        "the latest release does not name a tag"
    );
}

#[test]
fn a_requested_tag_must_say_something() {
    assert_eq!(requested_tag(" 1.0.0 ").unwrap(), "v1.0.0");
    assert_eq!(requested_tag("  ").unwrap_err().message, "--tag was empty");
}

#[test]
fn a_download_is_held_against_the_published_digest() {
    let sums = "abcd  asset.zip\n";
    assert!(check_digest(sums, "asset.zip", "abcd").is_ok());
    assert!(check_digest(sums, "asset.zip", "abce").is_err());
    assert!(check_digest(sums, "other.zip", "abcd").is_err());
    assert_eq!(read_sums(b"abcd  asset.zip\n".to_vec()).unwrap(), sums);
    assert!(read_sums(vec![0xff, 0xfe]).is_err());
    assert_eq!(
        release_url("v1.0.0", "asset.zip"),
        "https://github.com/doctr-oof/biskit-mcp/releases/download/v1.0.0/asset.zip"
    );
}

fn replace(outcomes: &[bool]) -> (Vec<Replacing>, Ending) {
    let mut steps = Vec::new();
    let mut now = Replacing::Write;
    for succeeded in outcomes {
        steps.push(now);
        now = next_step(now, *succeeded);
    }
    match now {
        Replacing::Done(ending) => (steps, ending),
        other => panic!("still at {other:?}"),
    }
}

#[test]
fn the_old_program_is_put_back_where_the_new_one_will_not_move_in() {
    let (steps, ending) = replace(&[true, true, true, false, true, true]);
    assert_eq!(ending, Ending::NotInstalled);
    assert_eq!(
        steps[4..],
        [Replacing::PutBack, Replacing::DiscardUninstalled]
    );
    assert_eq!(replace(&[true, true, true, true, true]).1, Ending::Replaced);
    assert_eq!(
        replace(&[true, true, true, true, false]).1,
        Ending::LeftBehind
    );
    assert_eq!(replace(&[true, true, false, true]).1, Ending::NotMovedAside);
    assert_eq!(replace(&[true, false]).1, Ending::NotExecutable);
    assert_eq!(replace(&[false]).1, Ending::NotWritten);
    assert_eq!(
        ending_message(Ending::NotInstalled, "/bin/b", "/bin/b.new").as_deref(),
        Some("could not install the new /bin/b")
    );
    assert_eq!(
        ending_message(Ending::NotWritten, "/bin/b", "/bin/b.new").as_deref(),
        Some("could not write /bin/b.new")
    );
    assert_eq!(
        ending_message(Ending::NotMovedAside, "/bin/b", "/bin/b.new").as_deref(),
        Some("could not move /bin/b aside")
    );
    assert_eq!(ending_message(Ending::Replaced, "a", "b"), None);
}

#[test]
fn names_of_any_length_in_bytes_are_passed_over() {
    let archive = zipped(&[
        ("ab\u{e9}", b"other"),
        ("\u{e9}\u{e9}.txt", b"other"),
        ("c:ab\u{e9}", b"other"),
        ("con/ab\u{e9}", b"other"),
        ("..\\ab\u{e9}", b"other"),
        ("bin/biskit-mcp", b"the program"),
    ]);
    assert_eq!(
        extract_binary(&archive, ZIP_ASSET, "biskit-mcp").unwrap(),
        b"the program"
    );
}

#[test]
fn a_path_that_leaves_the_archive_names_no_binary() {
    let archive = zipped(&[("../biskit-mcp", b"other"), ("biskit-mcp", b"the program")]);
    assert_eq!(
        extract_binary(&archive, ZIP_ASSET, "biskit-mcp").unwrap(),
        b"the program"
    );
}

#[test]
fn a_failure_says_what_the_reader_said() {
    let archive = extract_binary(b"nothing", ZIP_ASSET, "biskit-mcp").unwrap_err();
    assert_eq!(archive.message, "release asset is not a valid zip archive");
    assert!(archive.cause.is_some_and(|cause| !cause.is_empty()));
    let release = latest_tag(b"{ not json").unwrap_err();
    assert!(release.cause.is_some_and(|cause| cause.contains("line 1")));
    let sums = read_sums(b"\xff".to_vec()).unwrap_err();
    assert!(sums.cause.is_some_and(|cause| cause.contains("utf-8")));
}

#[test]
fn releases_come_from_four_hosts() {
    assert_eq!(
        release_hosts(),
        [
            "api.github.com",
            "github.com",
            "objects.githubusercontent.com",
            "release-assets.githubusercontent.com",
        ]
    );
}
