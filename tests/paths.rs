use needlepoint::paths::{
    default_project_name, get_trash_dir, get_trash_filename, project_file_path, trash_filename,
    truncate, validate_path,
};

#[test]
fn test_validate_path_rejects_parent_dir() {
    let result = validate_path("/tmp/project", "../etc/passwd");
    assert!(result.is_err());
    assert!(result.unwrap_err().contains("directory traversal"));
}

#[test]
fn test_validate_path_rejects_absolute() {
    let result = validate_path("/tmp/project", "/etc/passwd");
    assert!(result.is_err());
    assert!(result.unwrap_err().contains("Absolute paths"));
}

#[test]
fn test_validate_path_rejects_empty() {
    let result = validate_path("/tmp/project", "");
    assert!(result.is_err());
    assert!(result.unwrap_err().contains("empty"));
}

#[test]
fn test_validate_path_accepts_normal_paths() {
    let result = validate_path(".", "src/main.rs");
    if let Err(e) = &result {
        assert!(!e.contains("traversal"));
        assert!(!e.contains("Absolute"));
    }
}

#[test]
fn validate_path_joins_relative_paths() {
    assert_eq!(validate_path("/tmp/project", "src/main.rs").unwrap(), "/tmp/project/src/main.rs");
    assert_eq!(validate_path("/tmp/project/", ".gitignore").unwrap(), "/tmp/project/.gitignore");
    assert_eq!(validate_path("/tmp/project", "src/.env").unwrap(), "/tmp/project/src/.env");
    assert_eq!(validate_path("/p", "a..b/c").unwrap(), "/p/a..b/c");
}

#[test]
fn validate_path_rejects_nul_and_inner_parent() {
    assert_eq!(
        validate_path("/p", "a\0b").unwrap_err(),
        "File path contains invalid characters"
    );
    assert_eq!(
        validate_path("/p", "src/../../x").unwrap_err(),
        "Path cannot contain '..' (directory traversal not allowed)"
    );
    assert_eq!(
        validate_path("/p", "..").unwrap_err(),
        "Path cannot contain '..' (directory traversal not allowed)"
    );
}

#[test]
fn validate_path_rejects_backslash_traversal() {
    assert_eq!(
        validate_path("/p", "..\\secret").unwrap_err(),
        "Path cannot traverse outside project directory"
    );
    assert_eq!(
        validate_path("/p", "a\\..\\b").unwrap_err(),
        "Path cannot traverse outside project directory"
    );
}

#[test]
fn trash_locations_and_names() {
    assert_eq!(get_trash_dir("/tmp/project"), "/tmp/project/.needlepoint/trash");
    assert_eq!(project_file_path("/tmp/project"), "/tmp/project/needlepoint.yaml");
    assert_eq!(trash_filename("20240102_030405_006", "src/a\\b.ts"), "20240102_030405_006_src_a_b.ts");
    let name = get_trash_filename("src/x.ts");
    assert!(name.ends_with("_src_x.ts"));
    assert!(!name.contains('/'));
    assert_eq!(name.len(), "20240102_030405_006".len() + "_src_x.ts".len());
}

#[test]
fn truncate_long_and_short_text() {
    assert_eq!(truncate("abcdefghij", 8), "abcde...");
    assert_eq!(truncate("short", 18), "short");
    assert_eq!(truncate("exactly8", 8), "exactly8");
}

#[test]
fn default_name_of_a_project() {
    assert_eq!(default_project_name(), "New Project");
}
