use rust_config_tree::error::ConfigTreeError;
use rust_config_tree::path::{
    absolutize_lexical, absolutize_lexical_from, current_dir_from, join_path, normalize_lexical, resolve_include_path,
    working_dir_for,
};

#[test]
fn normalize_lexical_removes_current_dir_and_parent_segments() {
    assert_eq!(normalize_lexical("/tmp/config/../config.yaml"), "/tmp/config.yaml");
    assert_eq!(normalize_lexical("config/./trading/../server.yaml"), "config/server.yaml");
}

#[test]
fn resolve_include_path_resolves_relative_paths_from_parent_file() {
    assert_eq!(
        resolve_include_path("/app/config/trading.yaml", "trading/server.yaml"),
        "/app/config/trading/server.yaml"
    );
}

#[test]
fn resolve_include_path_keeps_absolute_include_paths() {
    assert_eq!(
        resolve_include_path("/app/config.yaml", "/etc/app/logging.yaml"),
        "/etc/app/logging.yaml"
    );
}

#[test]
fn absolutize_lexical_returns_absolute_paths() {
    let path = absolutize_lexical("config/../config.yaml").unwrap();

    assert!(path.starts_with('/'));
    assert!(path.ends_with("/config.yaml"));
    assert!(!path.contains(".."));
}

#[test]
fn normalize_lexical_example_from_docs() {
    assert_eq!(normalize_lexical("config/./server/../app.yaml"), "config/app.yaml");
}

#[test]
fn normalize_lexical_is_idempotent_on_examples() {
    for p in ["/a/./b/../c", "../x/../../y", "a//b/", "/", "", "./.", "/../a"] {
        let once = normalize_lexical(p);
        assert_eq!(normalize_lexical(&once), once);
    }
}

#[test]
fn normalize_lexical_drops_parent_segments_above_the_start() {
    assert_eq!(normalize_lexical("../a/b"), "a/b");
    assert_eq!(normalize_lexical("a/../../b"), "b");
    assert_eq!(normalize_lexical("/../a"), "/a");
}

#[test]
fn resolve_include_path_from_a_bare_file_name_stays_relative() {
    assert_eq!(resolve_include_path("config.yaml", "child/x.yaml"), "child/x.yaml");
}

#[test]
fn absolutize_lexical_from_joins_relative_paths_to_the_directory() {
    assert_eq!(absolutize_lexical_from("/work", "config/../app.yaml"), "/work/app.yaml");
    assert_eq!(absolutize_lexical_from("/work", "/etc/./app.yaml"), "/etc/app.yaml");
}

#[test]
fn join_path_follows_path_join() {
    assert_eq!(join_path("/tmp/home", ".zshrc"), "/tmp/home/.zshrc");
    assert_eq!(join_path("/tmp/home/", ".zshrc"), "/tmp/home/.zshrc");
    assert_eq!(join_path("", "a"), "a");
    assert_eq!(join_path("/tmp", "/etc/x"), "/etc/x");
}

#[test]
fn current_dir_reads_are_checked_for_a_root() {
    assert_eq!(current_dir_from(Ok("/home/u".to_owned())).unwrap(), "/home/u");
    assert!(matches!(current_dir_from(Ok("C:\\Users\\u".to_owned())), Err(ConfigTreeError::CurrentDir { .. })));
    match current_dir_from(Err("denied".to_owned())) {
        Err(ConfigTreeError::CurrentDir { source }) => assert_eq!(source, "denied"),
        other => panic!("unexpected result: {other:?}"),
    }
    assert_eq!(working_dir_for(&vec!["/a.yaml".to_owned(), "/b/c.yaml".to_owned()]).unwrap(), "/");
}

#[test]
fn normalized_paths_hold_no_dot_components() {
    assert_eq!(normalize_lexical("../a"), "a");
    assert_eq!(normalize_lexical("./x/../../y/."), "y");
    assert_eq!(normalize_lexical("/../a/./b/.."), "/a");
}
