//! Running Wally.
use biskit_mcp::wally::cli::{
    discover, executable_name, first_line, install, locate, strip_ansi, InstallRun, ProgramOutput,
};

#[test]
fn colour_codes_are_dropped_and_text_is_kept() {
    let painted = "\u{1b}[32m Resolving \u{1b}[0mpackages...\n   Resolved 4 dependencies";
    assert_eq!(
        strip_ansi(painted),
        " Resolving packages...\n   Resolved 4 dependencies"
    );
}

#[test]
fn an_unterminated_escape_does_not_leak_the_escape_character() {
    assert!(!strip_ansi("done\u{1b}[").contains('\u{1b}'));
}

#[test]
fn a_binary_path_that_is_not_a_file_is_refused_before_anything_runs() {
    let error = discover(
        Some(("/definitely/not/here/wally", false)),
        true,
        Some("/usr/bin/wally".to_string()),
    )
    .unwrap_err();
    assert!(error.message.contains("does not point at a file"));
}

#[test]
fn the_first_non_empty_line_is_what_reports_a_version() {
    assert_eq!(
        first_line("\n\nwally 0.3.2\nmore"),
        Some("wally 0.3.2".into())
    );
    assert_eq!(first_line("   \n"), None);
}

fn ended(success: bool, stdout: &[u8], stderr: &[u8]) -> ProgramOutput {
    ProgramOutput {
        success,
        status: "exit status: 1".to_string(),
        stdout: stdout.to_vec(),
        stderr: stderr.to_vec(),
    }
}

#[test]
fn the_program_is_looked_for_where_the_settings_say_and_then_on_the_path() {
    assert_eq!(
        discover(Some(("/opt/wally", true)), false, None).unwrap(),
        "/opt/wally"
    );
    assert_eq!(
        discover(None, true, Some("/usr/bin/wally".to_string())).unwrap(),
        "/usr/bin/wally"
    );
    assert!(discover(None, true, None).is_err());
    assert!(discover(None, false, None).is_err());
    assert_eq!(executable_name(true), "wally.exe");
    assert_eq!(executable_name(false), "wally");
}

#[test]
fn a_program_that_runs_reports_its_version() {
    let found = locate(
        "/usr/bin/wally".to_string(),
        Ok(ended(true, b"wally 0.3.2\n", b"")),
    )
    .unwrap();
    assert_eq!(found.path, "/usr/bin/wally");
    assert_eq!(found.version, "wally 0.3.2");
    assert!(locate("wally".to_string(), Ok(ended(false, b"", b"no manifest"))).is_err());
    assert_eq!(
        locate("wally".to_string(), Err("denied".to_string()))
            .unwrap_err()
            .message,
        "Wally is not available: could not run wally: denied"
    );
}

#[test]
fn what_an_installation_printed_is_cleaned() {
    assert_eq!(
        install(InstallRun::Ended(ended(true, b"\x1b[32mdone\x1b[0m\n", b"warned\n"))).unwrap(),
        "done\nwarned"
    );
    // Bytes that are no UTF-8 do not stop the report.
    assert_eq!(
        install(InstallRun::Ended(ended(true, b"a\xffb", b""))).unwrap(),
        "a\u{fffd}b"
    );
}

#[test]
fn an_installation_that_failed_says_how() {
    assert_eq!(
        install(InstallRun::Ended(ended(false, b"", b"no such package")))
            .unwrap_err()
            .message,
        "`wally install` failed: exit status: 1\n\nno such package"
    );
    assert_eq!(
        install(InstallRun::TimedOut(250)).unwrap_err().message,
        "`wally install` did not finish within 250ms"
    );
    assert_eq!(
        install(InstallRun::NotRun("denied".to_string()))
            .unwrap_err()
            .message,
        "failed to run `wally install`: denied"
    );
}
