use std::collections::HashMap;

use rust_config_tree::error::ConfigTreeError;
use rust_config_tree::format::ConfigFormat;
use rust_config_tree::layers::{config_layers, ConfigLayer};
use rust_config_tree::tree::{
    load_config_tree, node_from_load, ConfigNode, ConfigSource, ConfigTree, ConfigTreeOptions, IncludeOrder,
};

fn parse_includes(content: &str) -> Vec<String> {
    content
        .lines()
        .filter_map(|line| line.strip_prefix("include: "))
        .map(|s| s.to_owned())
        .collect()
}

fn reader(files: HashMap<String, String>) -> impl Fn(&str) -> Result<ConfigSource<String>, String> {
    move |path: &str| match files.get(path) {
        Some(content) => Ok(ConfigSource::new(content.clone(), parse_includes(content))),
        None => Err(format!("No such file or directory: {path}")),
    }
}

fn files(entries: &[(&str, &str)]) -> HashMap<String, String> {
    entries.iter().map(|(k, v)| (k.to_string(), v.to_string())).collect()
}

#[test]
fn load_config_tree_recursively_loads_include_tree() {
    let fs = files(&[
        ("/load-tree/config.yaml", "root\ninclude: config/trading.yaml\n"),
        (
            "/load-tree/config/trading.yaml",
            "trading\ninclude: trading/server.yaml\ninclude: trading/logging.yaml\n",
        ),
        ("/load-tree/config/trading/server.yaml", "server\n"),
        ("/load-tree/config/trading/logging.yaml", "logging\n"),
    ]);
    let tree = load_config_tree("/load-tree/config.yaml", reader(fs)).unwrap();
    let values = tree
        .nodes()
        .iter()
        .map(|node| node.value().lines().next().unwrap().to_owned())
        .collect::<Vec<_>>();

    assert_eq!(values, ["root", "trading", "server", "logging"]);
}

#[test]
fn config_tree_options_can_reverse_include_order() {
    let fs = files(&[
        ("/reverse-tree/config.yaml", "root\ninclude: first.yaml\ninclude: second.yaml\n"),
        ("/reverse-tree/first.yaml", "first\n"),
        ("/reverse-tree/second.yaml", "second\n"),
    ]);
    let tree = ConfigTreeOptions::default()
        .include_order(IncludeOrder::Reverse)
        .load("/reverse-tree/config.yaml", reader(fs))
        .unwrap();

    let values = tree.into_values();
    assert_eq!(
        values,
        ["root\ninclude: first.yaml\ninclude: second.yaml\n", "second\n", "first\n"]
    );
}

#[test]
fn load_config_tree_rejects_recursive_include_cycle() {
    let fs = files(&[
        ("/cycle/config.yaml", "include: child.yaml\n"),
        ("/cycle/child.yaml", "include: config.yaml\n"),
    ]);
    let err = load_config_tree("/cycle/config.yaml", reader(fs)).unwrap_err();

    assert!(matches!(err, ConfigTreeError::IncludeCycle { .. }));
    assert!(err.message().contains("recursive config include cycle"));
    assert_eq!(
        err.message(),
        "recursive config include cycle: /cycle/config.yaml -> /cycle/child.yaml -> /cycle/config.yaml"
    );
}

#[test]
fn load_config_tree_skips_previously_loaded_files() {
    let fs = files(&[
        ("/dedupe/config.yaml", "root\ninclude: shared.yaml\ninclude: nested.yaml\n"),
        ("/dedupe/nested.yaml", "nested\ninclude: shared.yaml\n"),
        ("/dedupe/shared.yaml", "shared\n"),
    ]);
    let tree = load_config_tree("/dedupe/config.yaml", reader(fs)).unwrap();

    assert_eq!(tree.nodes().len(), 3);
}

#[test]
fn load_config_tree_wraps_loader_errors_with_path() {
    let path = "/tmp/missing-config-tree-test.yaml";
    let err = load_config_tree(path, reader(HashMap::new())).unwrap_err();

    assert!(matches!(err, ConfigTreeError::Load { .. }));
    assert!(err.message().contains(path));
}

#[test]
fn config_source_exposes_parts() {
    let source = ConfigSource::new("value", vec!["child.yaml".to_owned()]);

    assert_eq!(source.value(), &"value");
    assert_eq!(source.includes(), &["child.yaml".to_owned()]);
    assert_eq!(source.into_parts(), ("value", vec!["child.yaml".to_owned()]));
}

#[test]
fn config_node_exposes_fields() {
    let tree = ConfigTree {
        nodes: vec![ConfigNode {
            path: "/tmp/config.yaml".to_owned(),
            value: "value",
            includes: vec!["child.yaml".to_owned()],
        }],
    };

    let node = &tree.nodes()[0];
    assert_eq!(node.path(), "/tmp/config.yaml");
    assert_eq!(node.value(), &"value");
    assert_eq!(node.includes(), &["child.yaml".to_owned()]);
    assert_eq!(tree.into_nodes()[0].clone().into_value(), "value");
}

#[test]
fn load_config_tree_rejects_empty_declared_paths() {
    let fs = files(&[("/empty/config.yaml", "include: \n")]);
    let err = load_config_tree("/empty/config.yaml", reader(fs)).unwrap_err();

    match &err {
        ConfigTreeError::EmptyIncludePath { path, index } => {
            assert_eq!(path, "/empty/config.yaml");
            assert_eq!(*index, 0);
        }
        other => panic!("unexpected error: {other:?}"),
    }
    assert_eq!(
        err.message(),
        "include path at index 0 in /empty/config.yaml must not be empty"
    );
}

#[test]
fn loaded_tree_paths_are_distinct_and_root_first() {
    let fs = files(&[
        ("/laws/a.yaml", "include: b.yaml\ninclude: ./b.yaml\ninclude: sub/../c.yaml\n"),
        ("/laws/b.yaml", "include: c.yaml\n"),
        ("/laws/c.yaml", ""),
    ]);
    let tree = load_config_tree("/laws/./a.yaml", reader(fs)).unwrap();
    let paths = tree.nodes().iter().map(|n| n.path().to_owned()).collect::<Vec<_>>();

    assert_eq!(paths, ["/laws/a.yaml", "/laws/b.yaml", "/laws/c.yaml"]);
}

#[test]
fn relative_root_paths_are_resolved_against_the_working_directory() {
    let cwd = rust_config_tree::path::current_dir().unwrap();
    let root = rust_config_tree::path::normalize_lexical(&format!("{cwd}/app.yaml"));
    let fs = files(&[(root.as_str(), "")]);
    let tree = ConfigTreeOptions::default().load("./app.yaml", reader(fs)).unwrap();

    assert_eq!(tree.nodes()[0].path(), root);
}

#[test]
fn error_messages_name_the_failure() {
    let e = ConfigTreeError::CurrentDir { source: "denied".to_owned() };
    assert_eq!(e.message(), "failed to resolve current directory");
    let e = ConfigTreeError::Load { path: "/a.yaml".to_owned(), source: "boom".to_owned() };
    assert_eq!(e.message(), "failed to load config /a.yaml: boom");
    let e = ConfigTreeError::EmptyIncludePath { path: "/a.yaml".to_owned(), index: 120 };
    assert_eq!(e.message(), "include path at index 120 in /a.yaml must not be empty");
}

#[test]
fn config_source_converts_from_value_and_paths() {
    let from = ConfigSource::from(("value", vec!["child.yaml".to_owned()]));
    assert_eq!(from, ConfigSource::new("value", vec!["child.yaml".to_owned()]));
    assert_eq!(from.clone().into_parts(), ("value", vec!["child.yaml".to_owned()]));
}

#[test]
fn node_from_load_maps_each_loader_result() {
    match node_from_load::<&str>("/n/a.yaml", Err("gone".to_owned())) {
        Err(ConfigTreeError::Load { path, source }) => {
            assert_eq!(path, "/n/a.yaml");
            assert_eq!(source, "gone");
        }
        other => panic!("unexpected result: {other:?}"),
    }
    let source = ConfigSource::new("v", vec!["x.yaml".to_owned(), String::new(), String::new()]);
    match node_from_load("/n/a.yaml", Ok(source)) {
        Err(ConfigTreeError::EmptyIncludePath { path, index }) => {
            assert_eq!(path, "/n/a.yaml");
            assert_eq!(index, 1);
        }
        other => panic!("unexpected result: {other:?}"),
    }
    let node = node_from_load("/n/a.yaml", Ok(ConfigSource::new("v", vec!["x.yaml".to_owned()]))).unwrap();
    assert_eq!(node.path(), "/n/a.yaml");
    assert_eq!(*node.value(), "v");
    assert_eq!(node.includes(), &["x.yaml".to_owned()]);
}

#[test]
fn loaded_trees_compare_and_clone_by_value() {
    let fs = files(&[("/eq/a.yaml", "include: b.yaml\n"), ("/eq/b.yaml", "")]);
    let a = load_config_tree("/eq/a.yaml", reader(fs.clone())).unwrap();
    let b = load_config_tree("/eq/a.yaml", reader(fs)).unwrap();
    assert_eq!(a, b);
    assert_eq!(a.clone(), b);
}

#[test]
fn cycle_chain_starts_at_the_repeated_file_on_the_walk() {
    let fs = files(&[
        ("/walk/root.yaml", "include: a.yaml\n"),
        ("/walk/a.yaml", "include: b.yaml\n"),
        ("/walk/b.yaml", "include: a.yaml\n"),
    ]);
    let err = load_config_tree("/walk/root.yaml", reader(fs)).unwrap_err();
    match err {
        ConfigTreeError::IncludeCycle { chain } => {
            assert_eq!(chain, ["/walk/a.yaml", "/walk/b.yaml", "/walk/a.yaml"]);
        }
        other => panic!("unexpected error: {other:?}"),
    }
}

#[test]
fn first_empty_path_is_reported_in_traversal_order() {
    let fs = files(&[
        ("/first/root.yaml", "include: a.yaml\ninclude: b.yaml\n"),
        ("/first/a.yaml", "include: ok.yaml\ninclude: \n"),
        ("/first/b.yaml", "include: \n"),
        ("/first/ok.yaml", ""),
    ]);
    match load_config_tree("/first/root.yaml", reader(fs)).unwrap_err() {
        ConfigTreeError::EmptyIncludePath { path, index } => {
            assert_eq!(path, "/first/a.yaml");
            assert_eq!(index, 1);
        }
        other => panic!("unexpected error: {other:?}"),
    }
}

#[test]
fn layers_run_from_the_last_node_to_the_root_then_the_environment() {
    let fs = files(&[
        ("/layers/config.yaml", "include: a.toml\ninclude: b.json\n"),
        ("/layers/a.toml", ""),
        ("/layers/b.json", ""),
    ]);
    let tree = load_config_tree("/layers/config.yaml", reader(fs)).unwrap();
    let layers = config_layers(&tree);
    assert_eq!(
        layers,
        vec![
            ConfigLayer::File { path: "/layers/b.json".to_owned(), format: ConfigFormat::Json },
            ConfigLayer::File { path: "/layers/a.toml".to_owned(), format: ConfigFormat::Toml },
            ConfigLayer::File { path: "/layers/config.yaml".to_owned(), format: ConfigFormat::Yaml },
            ConfigLayer::Environment,
        ]
    );
}

#[test]
fn reverse_order_matches_a_loader_that_reverses_declared_paths() {
    let fs = files(&[
        ("/rev/config.yaml", "include: a.yaml\ninclude: b.yaml\n"),
        ("/rev/a.yaml", "include: c.yaml\ninclude: d.yaml\n"),
        ("/rev/b.yaml", "include: c.yaml\n"),
        ("/rev/c.yaml", ""),
        ("/rev/d.yaml", ""),
    ]);
    let reversed = {
        let fs = fs.clone();
        move |path: &str| -> Result<ConfigSource<String>, String> {
            match fs.get(path) {
                Some(content) => {
                    let mut includes = parse_includes(content);
                    includes.reverse();
                    Ok(ConfigSource::new(content.clone(), includes))
                }
                None => Err(format!("No such file or directory: {path}")),
            }
        }
    };
    let a = ConfigTreeOptions::default()
        .include_order(IncludeOrder::Reverse)
        .load("/rev/config.yaml", reader(fs))
        .unwrap();
    let b = load_config_tree("/rev/config.yaml", reversed).unwrap();
    let paths = |t: &ConfigTree<String>| t.nodes().iter().map(|n| n.path().to_owned()).collect::<Vec<_>>();
    assert_eq!(paths(&a), paths(&b));
    assert_eq!(paths(&a), ["/rev/config.yaml", "/rev/b.yaml", "/rev/c.yaml", "/rev/a.yaml", "/rev/d.yaml"]);
    assert_eq!(a.into_values(), b.into_values());
}
