use std::collections::HashMap;

use rust_config_tree::error::ConfigTreeError;
use rust_config_tree::template_tree::{
    choose_template_source, collect_template_targets, collect_template_targets_from, select_template_source,
    TemplateTarget,
};

fn read_includes(files: HashMap<String, String>) -> impl Fn(&str) -> Result<Vec<String>, String> {
    move |path: &str| match files.get(path) {
        Some(content) => Ok(content
            .lines()
            .filter_map(|line| line.strip_prefix("include: "))
            .map(|s| s.to_owned())
            .collect()),
        None => Ok(Vec::new()),
    }
}

#[test]
fn collect_template_targets_recursively_mirrors_output_tree() {
    let root = "/template-targets";
    let mut fs = HashMap::new();
    fs.insert(
        format!("{root}/config.yaml"),
        "include: config/trading.yaml\ninclude: config/logging.toml\n".to_owned(),
    );
    fs.insert(format!("{root}/config/trading.yaml"), "include: trading/server.yaml\n".to_owned());
    fs.insert(format!("{root}/config/trading/server.yaml"), String::new());
    let output_path = format!("{root}/examples/config.example.yaml");

    let targets =
        collect_template_targets_from("/", &format!("{root}/config.yaml"), &output_path, read_includes(fs)).unwrap();

    assert_eq!(targets.len(), 4);
    assert_eq!(targets[0].target_path(), output_path);
    assert_eq!(targets[1].target_path(), format!("{root}/examples/config/trading.yaml"));
    assert_eq!(targets[2].target_path(), format!("{root}/examples/config/trading/server.yaml"));
    assert_eq!(targets[3].target_path(), format!("{root}/examples/config/logging.toml"));
    assert_eq!(targets[1].include_paths(), &["trading/server.yaml".to_owned()]);
}

#[test]
fn select_template_source_prefers_config_then_existing_output_then_output() {
    let config_path = "/nonexistent-template-source/config.yaml";
    let output_path = "/nonexistent-template-source/config.example.yaml";

    assert_eq!(select_template_source(config_path, output_path), output_path);
    assert_eq!(choose_template_source(config_path, output_path, false), output_path);
    assert_eq!(choose_template_source(config_path, output_path, true), config_path);
}

#[test]
fn template_target_into_parts_returns_owned_values() {
    let target = TemplateTarget {
        source_path: "/tmp/config.yaml".to_owned(),
        target_path: "/tmp/config.example.yaml".to_owned(),
        include_paths: vec!["child.yaml".to_owned()],
    };

    assert_eq!(
        target.into_parts(),
        (
            "/tmp/config.yaml".to_owned(),
            "/tmp/config.example.yaml".to_owned(),
            vec!["child.yaml".to_owned()]
        )
    );
}

#[test]
fn template_targets_keep_absolute_declared_paths_for_outputs() {
    let mut fs = HashMap::new();
    fs.insert("/src/config.yaml".to_owned(), "include: /etc/shared.yaml\n".to_owned());
    let targets =
        collect_template_targets_from("/", "/src/config.yaml", "/out/config.example.yaml", read_includes(fs)).unwrap();

    assert_eq!(targets.len(), 2);
    assert_eq!(targets[1].source_path(), "/etc/shared.yaml");
    assert_eq!(targets[1].target_path(), "/etc/shared.yaml");
}

#[test]
fn template_targets_report_cycles_and_reader_failures() {
    let mut fs = HashMap::new();
    fs.insert("/c/a.yaml".to_owned(), "include: b.yaml\n".to_owned());
    fs.insert("/c/b.yaml".to_owned(), "include: a.yaml\n".to_owned());
    let err = collect_template_targets_from("/", "/c/a.yaml", "/o/a.yaml", read_includes(fs)).unwrap_err();
    assert!(matches!(err, ConfigTreeError::IncludeCycle { .. }));

    let failing = |path: &str| -> Result<Vec<String>, String> { Err(format!("cannot read {path}")) };
    let err = collect_template_targets("/c/a.yaml", "/o/a.yaml", failing).unwrap_err();
    match err {
        ConfigTreeError::Load { path, source } => {
            assert_eq!(path, "/o/a.yaml");
            assert_eq!(source, "cannot read /o/a.yaml");
        }
        other => panic!("unexpected error: {other:?}"),
    }
}

#[test]
fn template_collection_reports_the_first_failure_in_traversal_order() {
    let mut fs = HashMap::new();
    fs.insert("/ff/root.yaml".to_owned(), "include: a.yaml\ninclude: b.yaml\n".to_owned());
    fs.insert("/ff/a.yaml".to_owned(), "include: ok.yaml\ninclude: \n".to_owned());
    fs.insert("/ff/b.yaml".to_owned(), "include: \n".to_owned());
    match collect_template_targets_from("/", "/ff/root.yaml", "/o/root.yaml", read_includes(fs)).unwrap_err() {
        ConfigTreeError::EmptyIncludePath { path, index } => {
            assert_eq!(path, "/ff/a.yaml");
            assert_eq!(index, 1);
        }
        other => panic!("unexpected error: {other:?}"),
    }
}
