//! Paths, read part by part.
use biskit_mcp::paths::{
    below, below_on, directory_on, file_name, join_on, join_path, normalize_on, normalize_path, parent,
    relative_path, relative_path_on,
};

#[test]
fn a_parent_is_what_is_left_without_the_last_name() {
    for (path, up) in [
        ("/p/src/a.luau", "/p/src"),
        ("/p/src/", "/p"),
        ("/p/src/.", "/p"),
        ("a//b", "a"),
        ("./a", "."),
        ("/a", "/"),
        ("a", ""),
    ] {
        assert_eq!(parent(path).as_deref(), Some(up), "failed on {path}");
    }
    assert_eq!(parent("/"), None);
    assert_eq!(parent(""), None);
}

#[test]
fn roots_and_dots_are_no_names() {
    assert_eq!(file_name("/p/src/").as_deref(), Some("src"));
    assert_eq!(file_name("/p/a.luau").as_deref(), Some("a.luau"));
    assert_eq!(file_name("/"), None);
    assert_eq!(file_name("/p/.."), None);
}

#[test]
fn a_drive_makes_a_path_absolute_on_windows_alone() {
    assert_eq!(join_on(true, "C:/p", "D:/lib"), "D:/lib");
    assert_eq!(join_on(true, "C:/p", "..\\lib"), "C:/p/../lib");
    assert_eq!(join_on(true, "C:/p", "/lib"), "C:/lib");
    assert_eq!(join_on(false, "/p", "D:/lib"), "/p/D:/lib");
    assert_eq!(join_on(false, "/p", "/lib"), "/lib");
    assert_eq!(join_path("/p/", "lib"), "/p/lib");
}

#[test]
fn what_is_below_is_told_part_by_part() {
    assert!(below("/p/src", "/p/"));
    assert!(below("/p//src", "/p"));
    assert!(below("/p", "/p/"));
    assert!(!below("/project", "/p"));
    assert!(!below("p/src", "/p"));
    assert_eq!(relative_path("/p/", "/p/src/a.luau").as_deref(), Some("src/a.luau"));
    assert_eq!(relative_path("/q", "/p/a.luau"), None);
    assert_eq!(normalize_path("/p/./src/../b.luau"), "/p/b.luau");
}

#[test]
fn a_share_is_kept_where_a_path_starts_at_a_root() {
    assert_eq!(join_on(true, "//s/h/p", "/x"), "//s/h/x");
    assert_eq!(join_on(true, "//s/h/p", "\\x"), "//s/h/x");
    assert_eq!(join_on(true, "//?/UNC/s/h/p", "/x"), "//?/UNC/s/h/x");
    assert_eq!(join_on(true, "//?/C:/p", "/x"), "//?/C:/x");
    assert_eq!(join_on(true, "C:/p", "//s/h/x"), "//s/h/x");
    assert_eq!(join_on(true, "C:/p", "//x"), "C://x");
    assert_eq!(join_on(true, "C:", "x"), "C:x");
    assert_eq!(join_on(true, "//s/h", "x"), "//s/h/x");
    assert_eq!(join_on(false, "//s/h/p", "/x"), "/x");
}

#[test]
fn no_dots_take_a_drive_or_a_share_back() {
    assert_eq!(normalize_on(true, "C:/../x"), "C:/x");
    assert_eq!(normalize_on(true, "C:../x"), "C:x");
    assert_eq!(normalize_on(true, "//s/h/../../x"), "//s/h/x");
    assert_eq!(normalize_on(true, "//s/h"), "//s/h/");
    assert_eq!(normalize_on(true, "/a/../../x"), "/x");
    assert_eq!(normalize_on(false, "C:/../x"), "x");
}

#[test]
fn drives_and_shares_are_no_names_on_windows() {
    for (path, up) in [
        ("C:/p/a.luau", "C:/p"),
        ("C:/p", "C:/"),
        ("C:p", "C:"),
        ("//s/h/p", "//s/h/"),
    ] {
        assert_eq!(directory_on(true, path).as_deref(), Some(up), "failed on {path}");
    }
    for path in ["C:/", "C:", "//s/h", "//s/h/"] {
        assert_eq!(directory_on(true, path), None, "failed on {path}");
    }
    assert_eq!(directory_on(false, "C:/").as_deref(), Some(""));
}

#[test]
fn a_drive_is_the_same_in_either_case() {
    assert!(below_on(true, "c:/p/src", "C:/p"));
    assert!(!below_on(false, "c:/p/src", "C:/p"));
    assert!(!below_on(true, "C:/P/src", "C:/p"));
    assert!(!below_on(true, "D:/p/src", "C:/p"));
    assert!(below_on(true, "//s/h/src", "//s/h"));
    assert!(below_on(true, "//s/h", "//s/h/"));
    assert!(!below_on(true, "//s/i/src", "//s/h"));
    assert!(below_on(true, "C:/p", ""));
    assert_eq!(relative_path_on(true, "C:/p", "c:/p/src/a.luau").as_deref(), Some("src/a.luau"));
    assert_eq!(relative_path_on(true, "//s/h", "//s/h/a.luau").as_deref(), Some("a.luau"));
    assert_eq!(relative_path_on(true, "", "C:/a.luau").as_deref(), Some("C:/a.luau"));
    assert_eq!(relative_path_on(true, "C:/q", "C:/p/a.luau"), None);
}
