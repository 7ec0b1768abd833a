use rust_config_tree::config_templates::{bind_template_targets_from, template_targets_for_paths_from};
use rust_config_tree::format::ConfigFormat;
use rust_config_tree::meta::{ConfigField, ConfigMeta, DefaultExpr, FieldKind, LeafKind, MapEntry, MapKey};
use rust_config_tree::render::{render_template, template_for_path};
use rust_config_tree::sections::{
    append_missing_include_paths, direct_child_split_section_paths, normalize_token, schema_path_for_section,
    section_path_for_target_candidates, template_path_for_section,
};
use rust_config_tree::binding::{
    relative_path_from, render_schema_reference, template_with_json_schema_property, template_with_schema_directive,
};
use rust_config_tree::error::ConfigTreeError;
use rust_config_tree::template_text::render_yaml_include;

fn leaf(name: &str, default: Option<DefaultExpr>) -> ConfigField {
    ConfigField {
        name: name.to_owned(),
        doc: Vec::new(),
        kind: FieldKind::Leaf { env: None, kind: LeafKind::Required { default } },
    }
}

fn nested(name: &str, meta: ConfigMeta) -> ConfigField {
    ConfigField { name: name.to_owned(), doc: Vec::new(), kind: FieldKind::Nested { meta: Box::new(meta) } }
}

fn meta(name: &str, fields: Vec<ConfigField>) -> ConfigMeta {
    ConfigMeta { name: name.to_owned(), doc: Vec::new(), fields }
}

fn s(v: &str) -> DefaultExpr {
    DefaultExpr::Str(v.to_owned())
}

fn int_text(v: &str) -> DefaultExpr {
    DefaultExpr::Integer(v.to_owned())
}

fn paths(v: &[&[&str]]) -> Vec<Vec<String>> {
    v.iter().map(|p| p.iter().map(|x| x.to_string()).collect()).collect()
}

fn rendered_template_meta() -> ConfigMeta {
    meta(
        "RenderedTemplateConfig",
        vec![
            leaf("include", Some(DefaultExpr::Array(Vec::new()))),
            leaf("root_value", Some(s("root"))),
            nested("branch", meta("RenderedBranchConfig", vec![leaf("leaf", Some(int_text("42")))])),
            nested(
                "outer",
                meta(
                    "RenderedOuterConfig",
                    vec![
                        leaf("enabled", Some(DefaultExpr::Bool(true))),
                        nested("inner", meta("RenderedInnerConfig", vec![leaf("value", Some(s("value")))])),
                    ],
                ),
            ),
        ],
    )
}

fn test_config_meta() -> ConfigMeta {
    meta(
        "TestConfig",
        vec![
            leaf("include", Some(DefaultExpr::Array(Vec::new()))),
            leaf("mode", Some(s("paper"))),
            nested("server", meta("TestServerConfig", vec![leaf("port", Some(int_text("8080")))])),
        ],
    )
}

fn no_files(_: &str) -> Result<Vec<String>, String> {
    Ok(Vec::new())
}

#[test]
fn config_format_is_inferred_from_extension() {
    assert_eq!(ConfigFormat::from_path("config.yaml"), ConfigFormat::Yaml);
    assert_eq!(ConfigFormat::from_path("config.yml"), ConfigFormat::Yaml);
    assert_eq!(ConfigFormat::from_path("config.toml"), ConfigFormat::Toml);
    assert_eq!(ConfigFormat::from_path("config.json"), ConfigFormat::Json);
    assert_eq!(ConfigFormat::from_path("config.json5"), ConfigFormat::Json);
    assert_eq!(ConfigFormat::from_path("config.unknown"), ConfigFormat::Yaml);
}

#[test]
fn config_format_falls_back_to_yaml_without_extension() {
    assert_eq!(ConfigFormat::from_path("config"), ConfigFormat::Yaml);
    assert_eq!(ConfigFormat::from_path(".toml"), ConfigFormat::Yaml);
    assert_eq!(ConfigFormat::from_path("dir.toml/"), ConfigFormat::Toml);
    assert_eq!(ConfigFormat::from_path("a/b.c.toml"), ConfigFormat::Toml);
}

#[test]
fn template_targets_auto_split_nested_schema_sections() {
    let root = "/rendered-template-config";
    let output_path = format!("{root}/config.example.yaml");
    let overrides = vec![(vec!["branch".to_owned()], "config/custom-branch.yaml".to_owned())];
    let splits = paths(&[&["branch"], &["outer"], &["outer", "inner"]]);
    let all = splits.clone();

    let targets = template_targets_for_paths_from(
        "/",
        &rendered_template_meta(),
        &output_path,
        &output_path,
        &all,
        &splits,
        &Vec::new(),
        &overrides,
        no_files,
    )
    .unwrap();

    assert_eq!(targets.len(), 4);
    assert_eq!(targets[0].path, output_path);
    assert!(targets[0].content.contains("\"config/custom-branch.yaml\""));
    assert!(targets[0].content.contains("\"config/outer.yaml\""));
    assert!(targets[0].content.contains("root_value"));
    assert!(!targets[0].content.contains("branch:"));
    assert!(!targets[0].content.contains("outer:"));

    assert_eq!(targets[1].path, format!("{root}/config/custom-branch.yaml"));
    assert!(targets[1].content.contains("branch:"));
    assert!(!targets[1].content.contains("\nbranch:"));
    assert!(targets[1].content.contains("leaf: 42"));
    assert!(!targets[1].content.contains("root_value"));
    assert!(!targets[1].content.contains("outer:"));

    assert_eq!(targets[2].path, format!("{root}/config/outer.yaml"));
    assert!(targets[2].content.contains("\"outer/inner.yaml\""));
    assert!(targets[2].content.contains("outer:"));
    assert!(!targets[2].content.contains("\nouter:"));
    assert!(targets[2].content.contains("enabled: true"));
    assert!(!targets[2].content.contains("inner:"));
    assert!(!targets[2].content.contains("branch:"));

    assert_eq!(targets[3].path, format!("{root}/config/outer/inner.yaml"));
    assert!(targets[3].content.contains("outer:"));
    assert!(targets[3].content.contains("inner:"));
    assert!(!targets[3].content.contains("\nouter:"));
    assert!(!targets[3].content.contains("\n  inner:"));
    assert!(targets[3].content.contains("value: value"));
    assert!(!targets[3].content.contains("enabled"));
}

#[test]
fn template_targets_with_schema_add_toml_and_yaml_directives() {
    let root = "/template-schema-directives";
    let output_path = format!("{root}/config.example.toml");
    let schema_path = format!("{root}/schemas/myapp.schema.json");
    let splits = paths(&[&["server"]]);

    let targets = template_targets_for_paths_from(
        "/",
        &test_config_meta(),
        &format!("{root}/config.toml"),
        &output_path,
        &splits,
        &splits,
        &Vec::new(),
        &Vec::new(),
        no_files,
    )
    .unwrap();
    let targets = bind_template_targets_from("/", &output_path, &schema_path, targets, &splits, &Vec::new());

    assert_eq!(targets.len(), 2);
    assert_eq!(targets[0].path, output_path);
    assert!(targets[0].content.starts_with("#:schema ./schemas/myapp.schema.json\n\n"));
    assert!(!targets[0].content.contains("$schema"));

    assert_eq!(targets[1].path, format!("{root}/config/server.yaml"));
    assert!(targets[1]
        .content
        .starts_with("# yaml-language-server: $schema=../schemas/server.schema.json\n\n"));
}

#[test]
fn split_yaml_templates_bind_nested_section_schemas() {
    let root = "/nested-template-schema-directives";
    let output_path = format!("{root}/config.example.yaml");
    let schema_path = format!("{root}/schemas/myapp.schema.json");
    let overrides = vec![(vec!["branch".to_owned()], "config/custom-branch.yaml".to_owned())];
    let splits = paths(&[&["branch"], &["outer"], &["outer", "inner"]]);

    let targets = template_targets_for_paths_from(
        "/",
        &rendered_template_meta(),
        &format!("{root}/config.yaml"),
        &output_path,
        &splits,
        &splits,
        &Vec::new(),
        &overrides,
        no_files,
    )
    .unwrap();
    let targets = bind_template_targets_from("/", &output_path, &schema_path, targets, &splits, &overrides);

    let outer = targets.iter().find(|t| t.path == format!("{root}/config/outer.yaml")).unwrap();
    assert!(outer
        .content
        .starts_with("# yaml-language-server: $schema=../schemas/outer.schema.json\n\n"));
    let inner = targets.iter().find(|t| t.path == format!("{root}/config/outer/inner.yaml")).unwrap();
    assert!(inner
        .content
        .starts_with("# yaml-language-server: $schema=../../schemas/outer/inner.schema.json\n\n"));
}

#[test]
fn schema_binding_keeps_json_templates_unmodified() {
    let root = "/json-template-schema-binding";
    let output_path = format!("{root}/config.example.json");
    let schema_path = format!("{root}/schemas/myapp.schema.json");
    let splits = paths(&[&["server"]]);

    let targets = template_targets_for_paths_from(
        "/",
        &test_config_meta(),
        &format!("{root}/config.json"),
        &output_path,
        &splits,
        &splits,
        &Vec::new(),
        &Vec::new(),
        no_files,
    )
    .unwrap();
    let targets = bind_template_targets_from("/", &output_path, &schema_path, targets, &splits, &Vec::new());

    assert_eq!(targets[0].path, output_path);
    assert!(!targets[0].content.contains("$schema"));
    assert!(!targets[0].content.contains("yaml-language-server"));
}

#[test]
fn template_targets_append_missing_schema_default_includes() {
    let root = "/append-default-template-includes";
    let source = format!("{root}/config.example.yaml");
    let overrides = vec![(vec!["branch".to_owned()], "config/custom-branch.yaml".to_owned())];
    let splits = paths(&[&["branch"], &["outer"], &["outer", "inner"]]);
    let read = |path: &str| -> Result<Vec<String>, String> {
        if path == "/append-default-template-includes/config.example.yaml" {
            Ok(vec!["config/custom-branch.yaml".to_owned()])
        } else {
            Ok(Vec::new())
        }
    };

    let targets = template_targets_for_paths_from(
        "/", &rendered_template_meta(), &source, &source, &splits, &splits, &Vec::new(), &overrides, read,
    )
    .unwrap();

    assert!(targets[0].content.contains("\"config/custom-branch.yaml\""));
    assert!(targets[0].content.contains("\"config/outer.yaml\""));
    assert_eq!(
        targets[0].content.matches("\"config/custom-branch.yaml\"").count(),
        1
    );
    assert!(targets.iter().any(|t| t.path == format!("{root}/config/outer/inner.yaml")));
}

#[test]
fn yaml_root_template_lists_fields_commented_out() {
    let text = template_for_path("config.yaml", &test_config_meta(), &Vec::new());
    assert_eq!(
        text,
        [
            "# Default value: []\n",
            "#include: []\n",
            "\n",
            "# Default value: paper\n",
            "#mode: paper\n",
            "\n",
            "#server:\n",
            "  # Default value: 8080\n",
            "  #port: 8080\n",
        ].concat()
    );
}

#[test]
fn toml_root_template_writes_defaults_and_tables() {
    let text = template_for_path("config.toml", &test_config_meta(), &Vec::new());
    assert_eq!(
        text,
        [
            "# Default value: []\n",
            "include = []\n",
            "\n",
            "# Default value: \"paper\"\n",
            "mode = \"paper\"\n",
            "\n",
            "[server]\n",
            "\n",
            "# Default value: 8080\n",
            "port = 8080\n",
        ].concat()
    );
}

#[test]
fn json5_root_template_nests_sections_as_objects() {
    let text = template_for_path("config.json5", &test_config_meta(), &Vec::new());
    assert_eq!(
        text,
        [
            "{\n",
            "  // Default value: []\n",
            "  include: [],\n",
            "\n",
            "  // Default value: \"paper\"\n",
            "  mode: \"paper\",\n",
            "\n",
            "  server: {\n",
            "    // Default value: 8080\n",
            "    port: 8080,\n",
            "  },\n",
            "}\n",
        ].concat()
    );
}

#[test]
fn templates_leave_env_only_leaves_out_and_show_env_notes() {
    let m = meta(
        "App",
        vec![
            ConfigField {
                name: "token".to_owned(),
                doc: vec![" Secret token.".to_owned()],
                kind: FieldKind::Leaf { env: Some("APP_TOKEN".to_owned()), kind: LeafKind::Required { default: None } },
            },
            ConfigField {
                name: "level".to_owned(),
                doc: Vec::new(),
                kind: FieldKind::Leaf { env: Some("APP_LEVEL".to_owned()), kind: LeafKind::Optional },
            },
        ],
    );
    let env_only = paths(&[&["token"]]);
    let text = template_for_path("c.yaml", &m, &env_only);
    assert_eq!(
        text,
        "# Can also be specified via environment variable `APP_LEVEL`.\n#level:\n"
    );
    let text = template_for_path("c.toml", &m, &Vec::new());
    assert_eq!(
        text,
        [
            "# Secret token.\n",
            "#\n",
            "# Can also be specified via environment variable `APP_TOKEN`.\n",
            "# Required! This value must be specified.\n",
            "#token =\n",
            "\n",
            "# Can also be specified via environment variable `APP_LEVEL`.\n",
            "#level =\n",
        ].concat()
    );
}

#[test]
fn default_values_render_inline_in_each_format() {
    let value = DefaultExpr::Mapping(vec![
        MapEntry { key: MapKey::Str("a key".to_owned()), value: DefaultExpr::Array(vec![int_text("1"), s("x:y")]) },
        MapEntry { key: MapKey::Str("b".to_owned()), value: DefaultExpr::Float("1.5".to_owned()) },
    ]);
    let m = meta("M", vec![leaf("v", Some(value))]);
    let none = Vec::new();
    let splits: Vec<Vec<String>> = Vec::new();
    let yaml = render_template(ConfigFormat::Yaml, &m, &none, &none, &splits, &splits);
    assert_eq!(yaml, "# Default value: { a key: [1, \"x:y\"], b: 1.5 }\n#v: { a key: [1, \"x:y\"], b: 1.5 }\n");
    let toml = render_template(ConfigFormat::Toml, &m, &none, &none, &splits, &splits);
    assert_eq!(
        toml,
        "# Default value: { \"a key\" = [1, \"x:y\"], b = 1.5 }\nv = { \"a key\" = [1, \"x:y\"], b = 1.5 }\n"
    );
}

#[test]
fn include_lists_are_json_quoted() {
    assert_eq!(
        render_yaml_include(&vec!["a b.yaml".to_owned(), "q\"x.yaml".to_owned()]),
        "include:\n  - \"a b.yaml\"\n  - \"q\\\"x.yaml\"\n"
    );
}

#[test]
fn section_template_paths_follow_parent_templates() {
    let none: Vec<(Vec<String>, String)> = Vec::new();
    assert_eq!(template_path_for_section(&vec!["server".to_owned()], &none), "config/server.yaml");
    assert_eq!(
        template_path_for_section(&vec!["outer".to_owned(), "inner".to_owned()], &none),
        "config/outer/inner.yaml"
    );
    let ov = vec![(vec!["outer".to_owned()], "x/custom.yml".to_owned())];
    assert_eq!(
        template_path_for_section(&vec!["outer".to_owned(), "inner".to_owned()], &ov),
        "x/custom/inner.yaml"
    );
    assert_eq!(template_path_for_section(&Vec::new(), &none), "");
}

#[test]
fn sections_are_found_by_template_path_or_by_name() {
    let cands = paths(&[&["server"], &["outer", "inner"]]);
    let none: Vec<(Vec<String>, String)> = Vec::new();
    assert_eq!(
        section_path_for_target_candidates("/r/config.yaml", "/r/config/server.yaml", &cands, &none),
        Some(vec!["server".to_owned()])
    );
    assert_eq!(
        section_path_for_target_candidates("/r/config.yaml", "/elsewhere/Inner.toml", &cands, &none),
        Some(vec!["outer".to_owned(), "inner".to_owned()])
    );
    assert_eq!(
        section_path_for_target_candidates("/r/config.yaml", "/elsewhere/zzz.toml", &cands, &none),
        None
    );
    assert_eq!(normalize_token("My-Server Name!"), "my_server_name");
}

#[test]
fn include_planning_helpers() {
    let splits = paths(&[&["a"], &["a", "b"], &["c"]]);
    assert_eq!(direct_child_split_section_paths(&Vec::new(), &splits), paths(&[&["a"], &["c"]]));
    assert_eq!(direct_child_split_section_paths(&vec!["a".to_owned()], &splits), paths(&[&["a", "b"]]));

    let mut listed = vec!["config/a.yaml".to_owned()];
    append_missing_include_paths(&mut listed, vec!["config//a.yaml".to_owned(), "config/c.yaml".to_owned()]);
    assert_eq!(listed, vec!["config/a.yaml".to_owned(), "config/c.yaml".to_owned()]);

    assert_eq!(schema_path_for_section("/s/app.schema.json", &Vec::new()), "/s/app.schema.json");
    assert_eq!(
        schema_path_for_section("/s/app.schema.json", &vec!["outer".to_owned(), "inner".to_owned()]),
        "/s/outer/inner.schema.json"
    );
}

#[test]
fn schema_references_are_relative_to_the_template() {
    assert_eq!(relative_path_from("/r/schemas/a.json", "/r/config"), "../schemas/a.json");
    assert_eq!(relative_path_from("/r/a.json", "/r"), "a.json");
    assert_eq!(relative_path_from("/r", "/r"), ".");
    assert_eq!(relative_path_from("rel/a.json", "/r"), "rel/a.json");
    assert_eq!(render_schema_reference("a.json"), "./a.json");
    assert_eq!(render_schema_reference("../a.json"), "../a.json");
    assert_eq!(render_schema_reference("x\\y.json"), "./x/y.json");
    assert_eq!(
        template_with_json_schema_property("./s.json", "{\n  a: 1,\n}\n"),
        "{\n  \"$schema\": \"./s.json\",\n  a: 1,\n}\n"
    );
    assert_eq!(
        template_with_json_schema_property("./s.json", " {} \n"),
        "{\n  \"$schema\": \"./s.json\"\n}\n"
    );
    assert_eq!(template_with_json_schema_property("./s.json", "x"), "x");
}

#[test]
fn absolute_template_and_schema_paths_bind_without_a_working_directory() {
    let bound = template_with_schema_directive("/abs/config.yaml", "/abs/schemas/config.schema.json", "a: 1\n").unwrap();
    assert_eq!(bound, "# yaml-language-server: $schema=./schemas/config.schema.json\n\na: 1\n");
    let bound = template_with_schema_directive("/abs/config.toml", "/other/config.schema.json", "a = 1\n").unwrap();
    assert_eq!(bound, "#:schema ../other/config.schema.json\n\na = 1\n");
}

#[test]
fn template_planning_reports_reader_failures_with_the_source_path() {
    let failing = |path: &str| -> Result<Vec<String>, String> { Err(format!("cannot read {path}")) };
    let err = template_targets_for_paths_from(
        "/",
        &test_config_meta(),
        "/plan/./config.yaml",
        "/plan/config.example.yaml",
        &Vec::new(),
        &Vec::new(),
        &Vec::new(),
        &Vec::new(),
        failing,
    )
    .unwrap_err();
    match err {
        ConfigTreeError::Load { path, source } => {
            assert_eq!(path, "/plan/config.yaml");
            assert_eq!(source, "cannot read /plan/config.yaml");
        }
        other => panic!("unexpected error: {other:?}"),
    }
}

#[test]
fn template_planning_reports_empty_planned_paths() {
    let read = |_: &str| -> Result<Vec<String>, String> { Ok(vec!["a.yaml".to_owned(), String::new()]) };
    let err = template_targets_for_paths_from(
        "/",
        &test_config_meta(),
        "/plan/config.yaml",
        "/plan/config.example.yaml",
        &Vec::new(),
        &Vec::new(),
        &Vec::new(),
        &Vec::new(),
        read,
    )
    .unwrap_err();
    match err {
        ConfigTreeError::EmptyIncludePath { path, index } => {
            assert_eq!(path, "/plan/config.yaml");
            assert_eq!(index, 1);
        }
        other => panic!("unexpected error: {other:?}"),
    }
}

#[test]
fn include_quoting_escapes_control_characters() {
    assert_eq!(
        render_yaml_include(&vec!["t\tb\\\u{1}\u{1f}é.yaml".to_owned()]),
        "include:\n  - \"t\\tb\\\\\\u0001\\u001fé.yaml\"\n"
    );
}
