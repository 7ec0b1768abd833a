use rust_config_tree::overrides::{insert_override, merge_dict, nest_override, OverrideValue};
use rust_config_tree::transparent_section::{is_transparent_split_section, ArraySection, TransparentSectionTracker};
use rust_config_tree::transparent_yaml::{normalize_transparent_split_template, rewrite_body_as_block_yaml};
use rust_config_tree::derive_rules::{select_include_field, validate_override_path, DeriveField, OverridePathError};
use rust_config_tree::cli::{startup_file_plan, upsert_managed_block_content, remove_managed_block_content};
use rust_config_tree::config_env::{env_mapping, is_valid_override_path, leaf_config_paths, to_ascii_uppercase};
use rust_config_tree::json::{copy_json, get_member, json_pointer, JsonValue};
use rust_config_tree::meta::{ConfigField, ConfigMeta, DefaultExpr, FieldKind, LeafKind};
use rust_config_tree::path::{dotenv_paths_for, normalize_lexical, resolve_include_path};
use rust_config_tree::schema::{
    env_only_field_paths, field_has_env_only_marker, remove_child_section_properties, section_has_tree_split_marker, remove_required_recursively,
    remove_tree_split_extensions, resolve_schema_reference, section_schema_for_path, split_section_paths,
};
use rust_config_tree::schema_output::{schema_for_output_path, schema_outputs_for_path, SchemaSectionError};
use rust_config_tree::schema_paths::leaf_field_paths;
use rust_config_tree::schema_refs::{collect_schema_refs, prune_unused_schema_maps, retain_schema_map};

fn leaf(name: &str, env: Option<&str>) -> ConfigField {
    ConfigField {
        name: name.to_owned(),
        doc: Vec::new(),
        kind: FieldKind::Leaf {
            env: env.map(str::to_owned),
            kind: LeafKind::Required { default: Some(DefaultExpr::Str("x".to_owned())) },
        },
    }
}

fn nested(name: &str, meta: ConfigMeta) -> ConfigField {
    ConfigField { name: name.to_owned(), doc: Vec::new(), kind: FieldKind::Nested { meta: Box::new(meta) } }
}

fn meta(name: &str, fields: Vec<ConfigField>) -> ConfigMeta {
    ConfigMeta { name: name.to_owned(), doc: Vec::new(), fields }
}

fn obj(entries: Vec<(&str, JsonValue)>) -> JsonValue {
    JsonValue::Object(entries.into_iter().map(|(k, v)| (k.to_owned(), v)).collect())
}

fn text(s: &str) -> JsonValue {
    JsonValue::Str(s.to_owned())
}

fn strings(v: &[&str]) -> Vec<String> {
    v.iter().map(|s| s.to_string()).collect()
}

fn keys(v: &JsonValue) -> Vec<String> {
    match v {
        JsonValue::Object(es) => es.iter().map(|(k, _)| k.clone()).collect(),
        _ => Vec::new(),
    }
}

fn contains_key_anywhere(v: &JsonValue, key: &str) -> bool {
    match v {
        JsonValue::Object(es) => es.iter().any(|(k, c)| k == key || contains_key_anywhere(c, key)),
        JsonValue::Array(items) => items.iter().any(|c| contains_key_anywhere(c, key)),
        _ => false,
    }
}

/// The schema `schemars` gives a config with a `mode` string and a split
/// `server` section whose fields sit under `definitions`.
fn test_config_schema() -> JsonValue {
    obj(vec![
        ("$schema", text("http://json-schema.org/draft-07/schema#")),
        ("title", text("TestConfig")),
        ("type", text("object")),
        (
            "properties",
            obj(vec![
                ("include", obj(vec![("type", text("array"))])),
                ("mode", obj(vec![("type", text("string"))])),
                (
                    "server",
                    obj(vec![
                        ("$ref", text("#/definitions/TestServerConfig")),
                        ("x-tree-split", JsonValue::Bool(true)),
                    ]),
                ),
            ]),
        ),
        ("required", JsonValue::Array(vec![text("mode"), text("server")])),
        (
            "definitions",
            obj(vec![(
                "TestServerConfig",
                obj(vec![
                    ("type", text("object")),
                    ("properties", obj(vec![("port", obj(vec![("type", text("integer"))]))])),
                    ("required", JsonValue::Array(vec![text("port")])),
                ]),
            )]),
        ),
    ])
}

fn test_config_meta() -> ConfigMeta {
    meta(
        "TestConfig",
        vec![
            leaf("include", None),
            leaf("mode", None),
            nested("server", meta("TestServerConfig", vec![leaf("port", Some("APP_SERVER_PORT"))])),
        ],
    )
}

#[test]
fn remove_required_keeps_properties_named_required() {
    let schema = obj(vec![
        ("required", JsonValue::Array(vec![text("a")])),
        (
            "properties",
            obj(vec![
                ("required", obj(vec![("type", text("boolean")), ("required", JsonValue::Array(Vec::new()))])),
                ("a", obj(vec![("type", text("string"))])),
            ]),
        ),
        ("items", JsonValue::Array(vec![obj(vec![("required", JsonValue::Array(Vec::new()))])])),
    ]);
    let out = remove_required_recursively(schema);
    assert_eq!(keys(&out), strings(&["properties", "items"]));
    let props = get_member(&out, "properties").unwrap();
    assert_eq!(keys(props), strings(&["required", "a"]));
    assert_eq!(keys(get_member(props, "required").unwrap()), strings(&["type"]));
    match get_member(&out, "items").unwrap() {
        JsonValue::Array(items) => assert_eq!(keys(&items[0]), Vec::<String>::new()),
        _ => panic!("items is an array"),
    }
}

#[test]
fn remove_tree_split_extensions_strips_every_marker() {
    let schema = test_config_schema();
    assert!(contains_key_anywhere(&schema, "x-tree-split"));
    let out = remove_tree_split_extensions(schema);
    assert!(!contains_key_anywhere(&out, "x-tree-split"));
    assert!(contains_key_anywhere(&out, "server"));
}

#[test]
fn json_pointer_follows_members_items_and_escapes() {
    let doc = obj(vec![
        ("a/b", obj(vec![("c~d", JsonValue::Number("1".to_owned()))])),
        ("list", JsonValue::Array(vec![text("zero"), text("one")])),
    ]);
    assert!(matches!(json_pointer(&doc, "/a~1b/c~0d"), Some(JsonValue::Number(n)) if n == "1"));
    assert!(matches!(json_pointer(&doc, "/list/1"), Some(JsonValue::Str(s)) if s == "one"));
    assert!(json_pointer(&doc, "/list/01").is_none());
    assert!(json_pointer(&doc, "/list/2").is_none());
    assert!(json_pointer(&doc, "list").is_none());
    assert!(matches!(json_pointer(&doc, ""), Some(JsonValue::Object(_))));
}

#[test]
fn resolve_schema_reference_follows_ref_and_all_of() {
    let root = test_config_schema();
    let direct = obj(vec![("$ref", text("#/definitions/TestServerConfig"))]);
    let resolved = resolve_schema_reference(&root, &direct).unwrap();
    assert!(get_member(resolved, "properties").is_some());
    let through_all_of = obj(vec![("allOf", JsonValue::Array(vec![obj(vec![("$ref", text("#/definitions/TestServerConfig"))])]))]);
    assert!(resolve_schema_reference(&root, &through_all_of).is_some());
    let dangling = obj(vec![("$ref", text("#/definitions/Missing"))]);
    assert!(resolve_schema_reference(&root, &dangling).is_none());
}

#[test]
fn split_and_env_only_paths_follow_markers() {
    let root = test_config_schema();
    let meta = test_config_meta();
    assert_eq!(split_section_paths(&meta, &root), vec![strings(&["server"])]);
    assert_eq!(env_only_field_paths(&meta, &root), Vec::<Vec<String>>::new());
    assert_eq!(
        leaf_field_paths(&meta),
        vec![strings(&["include"]), strings(&["mode"]), strings(&["server", "port"])]
    );
}

#[test]
fn section_schema_is_standalone() {
    let root = test_config_schema();
    let section = section_schema_for_path(&root, &strings(&["server"])).unwrap();
    assert_eq!(keys(&section), strings(&["type", "properties", "required", "$schema", "definitions"]));
    assert!(section_schema_for_path(&root, &strings(&["missing"])).is_none());
}

#[test]
fn write_config_schemas_writes_root_and_section_schemas() {
    let full = remove_required_recursively(test_config_schema());
    let targets = schema_outputs_for_path("schemas/myapp.schema.json", &full, &test_config_meta()).unwrap();
    assert_eq!(targets.len(), 2);
    assert_eq!(targets[0].0, "schemas/myapp.schema.json");
    let root_schema = &targets[0].1;
    let props = get_member(root_schema, "properties").unwrap();
    assert_eq!(keys(props), strings(&["include", "mode"]));
    assert!(!contains_key_anywhere(root_schema, "x-tree-split"));
    assert!(get_member(root_schema, "definitions").is_none());
    assert!(!contains_key_anywhere(root_schema, "required"));

    assert_eq!(targets[1].0, "schemas/server.schema.json");
    let server_schema = &targets[1].1;
    assert!(matches!(get_member(server_schema, "$schema"), Some(JsonValue::Str(s)) if s == "http://json-schema.org/draft-07/schema#"));
    assert_eq!(keys(get_member(server_schema, "properties").unwrap()), strings(&["port"]));
    assert!(!contains_key_anywhere(server_schema, "x-tree-split"));
    assert!(!contains_key_anywhere(server_schema, "required"));
    assert!(get_member(server_schema, "definitions").is_none());
}

#[test]
fn missing_section_schema_is_reported() {
    let full = test_config_schema();
    let err = schema_for_output_path(&full, &strings(&["outer", "inner"]), &Vec::new()).unwrap_err();
    assert_eq!(err, SchemaSectionError { section: strings(&["outer", "inner"]) });
    assert_eq!(err.message(), "failed to extract JSON Schema for config section outer.inner");
}

#[test]
fn child_section_properties_are_removed_from_the_parent() {
    let full = test_config_schema();
    let out = remove_child_section_properties(copy_json(&full), &Vec::new(), &vec![strings(&["server"]), strings(&["server", "tls"])]);
    assert_eq!(keys(get_member(&out, "properties").unwrap()), strings(&["include", "mode"]));
}

#[test]
fn pruning_keeps_transitively_used_definitions() {
    let schema = obj(vec![
        ("properties", obj(vec![("a", obj(vec![("$ref", text("#/definitions/A"))]))])),
        (
            "definitions",
            obj(vec![
                ("A", obj(vec![("$ref", text("#/definitions/B"))])),
                ("B", obj(vec![("type", text("string"))])),
                ("Unused", obj(vec![("$ref", text("#/$defs/C"))])),
            ]),
        ),
        ("$defs", obj(vec![("C", obj(vec![("type", text("string"))]))])),
    ]);
    let mut defs = Vec::new();
    let mut dollar = Vec::new();
    collect_schema_refs(&schema, false, &mut defs, &mut dollar);
    assert_eq!(defs, strings(&["A"]));
    assert!(dollar.is_empty());
    let out = prune_unused_schema_maps(schema);
    assert_eq!(keys(&out), strings(&["properties", "definitions"]));
    assert_eq!(keys(get_member(&out, "definitions").unwrap()), strings(&["A", "B"]));
}

#[test]
fn retain_schema_map_removes_an_emptied_map() {
    let schema = obj(vec![("definitions", obj(vec![("A", obj(Vec::new()))])), ("type", text("object"))]);
    let out = retain_schema_map(schema, "definitions", &Vec::new());
    assert_eq!(keys(&out), strings(&["type"]));
}

#[test]
fn env_mapping_keeps_declared_names_and_dotted_paths() {
    let meta = test_config_meta();
    assert_eq!(env_mapping(&meta), vec![("APP_SERVER_PORT".to_owned(), "server.port".to_owned())]);
    assert_eq!(leaf_config_paths(&meta), strings(&["include", "mode", "server.port"]));
    assert_eq!(to_ascii_uppercase("app_Database_pool_size-1"), "APP_DATABASE_POOL_SIZE-1");
}

#[test]
fn provider_rejects_empty_override_path_segments() {
    assert!(!is_valid_override_path(""));
    assert!(!is_valid_override_path("log..level"));
    assert!(!is_valid_override_path(".log"));
    assert!(!is_valid_override_path("log."));
    assert!(is_valid_override_path("server.port"));
    assert!(is_valid_override_path("log"));
}

#[test]
fn dotenv_paths_go_from_the_config_directory_up() {
    assert_eq!(
        dotenv_paths_for("/srv/app/config.yaml"),
        strings(&["/srv/app/.env", "/srv/.env", "/.env"])
    );
    assert_eq!(dotenv_paths_for("config.yaml"), strings(&[".env"]));
}

#[test]
fn startup_file_plan_writes_changes_and_backs_up_existing_files() {
    assert_eq!(startup_file_plan("same", "same", true), (false, false));
    assert_eq!(startup_file_plan("", "new", false), (true, false));
    assert_eq!(startup_file_plan("", "new", true), (true, true));
    assert_eq!(startup_file_plan("old", "new", false), (true, true));
}

#[test]
fn normalizing_twice_changes_nothing() {
    for p in ["/a/./b/../c/", "../x/../../y", "a//b/./", "/", ""] {
        let once = normalize_lexical(p);
        assert_eq!(normalize_lexical(&once), once);
    }
    assert_eq!(resolve_include_path("/etc/app/root.yaml", "/opt/./child.yaml"), "/opt/child.yaml");
    assert_eq!(resolve_include_path("/other/root.yaml", "/opt/./child.yaml"), "/opt/child.yaml");
}

#[test]
fn managed_block_upsert_and_remove_refuse_alike() {
    let broken = "# >>> app bash completions >>>\nbody\n";
    assert!(upsert_managed_block_content(broken, "# >>> app bash completions >>>", "# <<< app bash completions <<<", "x").is_err());
    assert!(remove_managed_block_content(broken, "# >>> app bash completions >>>", "# <<< app bash completions <<<").is_err());
    let written = upsert_managed_block_content("export A=1\n", "B", "E", "body").unwrap();
    assert!(written.contains("B\nbody\nE\n"));
}

#[test]
fn schema_derive_picks_marked_include_field_first() {
    let field = |name: &str, include_attr: bool, vec_path_buf: bool| DeriveField {
        name: name.to_owned(),
        include_attr,
        vec_path_buf,
    };
    assert_eq!(
        select_include_field(&vec![field("include", false, true), field("children", true, false)]),
        Some("children".to_owned())
    );
    assert_eq!(
        select_include_field(&vec![field("mode", false, false), field("include", false, true)]),
        Some("include".to_owned())
    );
    assert_eq!(select_include_field(&vec![field("include", false, false)]), None);
}

#[test]
fn override_derive_refuses_empty_paths_and_segments() {
    assert_eq!(validate_override_path(""), Err(OverridePathError::Empty));
    assert_eq!(validate_override_path("a..b"), Err(OverridePathError::EmptySegment));
    assert_eq!(validate_override_path("a.b"), Ok(()));
    assert_eq!(OverridePathError::Empty.message(), "config_override path must not be empty");
    assert_eq!(
        OverridePathError::EmptySegment.message(),
        "config_override path must not contain empty segments"
    );
}

fn def_ref(name: &str) -> JsonValue {
    text(&format!("#/definitions/{name}"))
}

fn rendered_template_schema() -> JsonValue {
    obj(vec![
        ("$schema", text("http://json-schema.org/draft-07/schema#")),
        ("type", text("object")),
        (
            "properties",
            obj(vec![
                ("include", obj(vec![("type", text("array"))])),
                ("root_value", obj(vec![("type", text("string"))])),
                (
                    "branch",
                    obj(vec![
                        ("allOf", JsonValue::Array(vec![obj(vec![("$ref", def_ref("RenderedBranchConfig"))])])),
                        ("x-tree-split", JsonValue::Bool(true)),
                    ]),
                ),
                (
                    "outer",
                    obj(vec![("$ref", def_ref("RenderedOuterConfig")), ("x-tree-split", JsonValue::Bool(true))]),
                ),
            ]),
        ),
        (
            "definitions",
            obj(vec![
                ("RenderedBranchConfig", obj(vec![("properties", obj(vec![("leaf", obj(vec![("type", text("integer"))]))]))])),
                (
                    "RenderedOuterConfig",
                    obj(vec![(
                        "properties",
                        obj(vec![
                            ("enabled", obj(vec![("type", text("boolean"))])),
                            (
                                "inner",
                                obj(vec![("$ref", def_ref("RenderedInnerConfig")), ("x-tree-split", JsonValue::Bool(true))]),
                            ),
                        ]),
                    )]),
                ),
                ("RenderedInnerConfig", obj(vec![("properties", obj(vec![("value", obj(vec![("type", text("string"))]))]))])),
            ]),
        ),
    ])
}

fn rendered_template_meta() -> ConfigMeta {
    meta(
        "RenderedTemplateConfig",
        vec![
            leaf("include", None),
            leaf("root_value", None),
            nested("branch", meta("RenderedBranchConfig", vec![leaf("leaf", None)])),
            nested(
                "outer",
                meta(
                    "RenderedOuterConfig",
                    vec![leaf("enabled", None), nested("inner", meta("RenderedInnerConfig", vec![leaf("value", None)]))],
                ),
            ),
        ],
    )
}

#[test]
fn write_config_schemas_keeps_section_completion_in_section_schemas() {
    let full = remove_required_recursively(rendered_template_schema());
    let targets = schema_outputs_for_path("schemas/myapp.schema.json", &full, &rendered_template_meta()).unwrap();
    let paths: Vec<&str> = targets.iter().map(|(p, _)| p.as_str()).collect();
    assert_eq!(
        paths,
        vec![
            "schemas/myapp.schema.json",
            "schemas/branch.schema.json",
            "schemas/outer.schema.json",
            "schemas/outer/inner.schema.json"
        ]
    );
    let root_props = get_member(&targets[0].1, "properties").unwrap();
    assert_eq!(keys(root_props), strings(&["include", "root_value"]));
    assert!(!contains_key_anywhere(&targets[0].1, "outer"));

    let outer = &targets[2].1;
    assert_eq!(keys(get_member(outer, "properties").unwrap()), strings(&["enabled"]));
    assert!(!contains_key_anywhere(outer, "inner"));
    assert!(!contains_key_anywhere(outer, "value"));

    let inner = &targets[3].1;
    assert_eq!(keys(get_member(inner, "properties").unwrap()), strings(&["value"]));
    assert!(!contains_key_anywhere(inner, "enabled"));
}

#[test]
fn write_config_schema_writes_draft7_json_schema() {
    let schema = remove_tree_split_extensions(remove_required_recursively(test_config_schema()));
    assert!(matches!(get_member(&schema, "$schema"), Some(JsonValue::Str(s)) if s == "http://json-schema.org/draft-07/schema#"));
    assert!(get_member(get_member(&schema, "properties").unwrap(), "server").is_some());
    assert!(!contains_key_anywhere(&schema, "required"));
}

#[test]
fn unmarked_nested_sections_stay_in_root_template_and_schema() {
    let inline_meta = meta(
        "InlineTemplateConfig",
        vec![leaf("include", None), nested("inline", meta("InlineSectionConfig", vec![leaf("value", None)]))],
    );
    let schema = obj(vec![(
        "properties",
        obj(vec![
            ("include", obj(vec![("type", text("array"))])),
            ("inline", obj(vec![("$ref", def_ref("InlineSectionConfig"))])),
        ]),
    ), (
        "definitions",
        obj(vec![("InlineSectionConfig", obj(vec![("properties", obj(vec![("value", obj(vec![("type", text("string"))]))]))]))]),
    )]);
    assert_eq!(split_section_paths(&inline_meta, &schema), Vec::<Vec<String>>::new());
    let targets = schema_outputs_for_path("schemas/config.schema.json", &schema, &inline_meta).unwrap();
    assert_eq!(targets.len(), 1);
    assert_eq!(targets[0].0, "schemas/config.schema.json");
    assert!(contains_key_anywhere(&targets[0].1, "inline"));
    assert!(contains_key_anywhere(&targets[0].1, "value"));
    assert!(!contains_key_anywhere(&targets[0].1, "x-tree-split"));
}

#[test]
fn markers_are_read_from_property_schemas() {
    let root = test_config_schema();
    assert!(section_has_tree_split_marker(&root, &strings(&["server"])));
    assert!(!section_has_tree_split_marker(&root, &strings(&["mode"])));
    assert!(!section_has_tree_split_marker(&root, &Vec::new()));
    let with_env_only = obj(vec![(
        "properties",
        obj(vec![("token", obj(vec![("type", text("string")), ("x-env-only", JsonValue::Bool(true))]))]),
    )]);
    assert!(field_has_env_only_marker(&with_env_only, &strings(&["token"])));
    assert!(!field_has_env_only_marker(&root, &strings(&["mode"])));
}

#[test]
fn transparent_sections_are_tracked_once() {
    let mut tracker = TransparentSectionTracker::new();
    tracker.record_section("children");
    tracker.record_section("children");
    tracker.record_section("");
    assert!(tracker.contains("children"));
    assert!(!tracker.contains(""));
    assert!(is_transparent_split_section(&strings(&["children"]), &vec![strings(&["children"])]));
    assert!(!is_transparent_split_section(&strings(&["server"]), &vec![strings(&["children"])]));
    let section = ArraySection { items: vec![1, 2] };
    assert_eq!(section.len(), 2);
    assert!(!section.is_empty());
    assert_eq!(section.as_slice(), &[1, 2]);
    assert_eq!(section.into_items(), vec![1, 2]);
}

#[test]
fn transparent_split_template_rewrites_flow_style_body() {
    let content = "children:\n  items: [{ name: worker }]\n";
    let out = normalize_transparent_split_template(content, "children", "items");
    assert!(!out.contains("[{"));
    assert!(out.contains("- name: worker"));
    assert!(!out.contains("children:"));
    assert!(out.ends_with('\n'));
}

#[test]
fn block_yaml_bodies_drop_empty_values_and_keep_unparsable_text() {
    assert_eq!(rewrite_body_as_block_yaml("  \n "), "[]");
    assert_eq!(rewrite_body_as_block_yaml("[{ name: worker, tags: [], note: null }]"), "- name: worker");
    assert_eq!(rewrite_body_as_block_yaml("[1, {a: {}}]"), "- 1");
    assert_eq!(rewrite_body_as_block_yaml("key: [unclosed"), "key: [unclosed");
}

fn dict(entries: Vec<(&str, OverrideValue<i32, u8>)>) -> Vec<(String, OverrideValue<i32, u8>)> {
    entries.into_iter().map(|(k, v)| (k.to_owned(), v)).collect()
}

fn leaf_at<'a>(entries: &'a [(String, OverrideValue<i32, u8>)], key: &str) -> Option<&'a OverrideValue<i32, u8>> {
    entries.iter().find(|(k, _)| k == key).map(|(_, v)| v)
}

#[test]
fn provider_merges_sibling_values_under_same_parent() {
    let first = dict(vec![("server", OverrideValue::Dict(1, dict(vec![("bind", OverrideValue::Leaf(0))])))]);
    let second = dict(vec![("server", OverrideValue::Dict(2, dict(vec![("port", OverrideValue::Leaf(9000))])))]);
    let merged = merge_dict(merge_dict(Vec::new(), first), second);
    assert_eq!(merged.len(), 1);
    match leaf_at(&merged, "server") {
        Some(OverrideValue::Dict(tag, children)) => {
            assert_eq!(*tag, 1);
            assert!(matches!(leaf_at(children, "bind"), Some(OverrideValue::Leaf(0))));
            assert!(matches!(leaf_at(children, "port"), Some(OverrideValue::Leaf(9000))));
        }
        _ => panic!("server stays a dictionary"),
    }
    let replaced = merge_dict(merged, dict(vec![("server", OverrideValue::Leaf(7))]));
    assert!(matches!(leaf_at(&replaced, "server"), Some(OverrideValue::Leaf(7))));
}

#[test]
fn relative_include_resolves_back_to_the_child_file() {
    let rel = rust_config_tree::sections::path_relative_to_dir_of("/r/config/outer/inner.yaml", "/r/config.yaml");
    assert_eq!(rel, "config/outer/inner.yaml");
    assert_eq!(resolve_include_path("/r/config.yaml", &rel), "/r/config/outer/inner.yaml");
    let outside = rust_config_tree::sections::path_relative_to_dir_of("/elsewhere/x.yaml", "/r/config.yaml");
    assert_eq!(outside, "/elsewhere/x.yaml");
    assert_eq!(resolve_include_path("/r/config.yaml", &outside), "/elsewhere/x.yaml");
}

#[test]
fn dotted_paths_nest_into_single_entry_dictionaries() {
    match nest_override("server.tls.port", 443, 0u8) {
        OverrideValue::Dict(0, outer) => {
            assert_eq!(outer.len(), 1);
            assert_eq!(outer[0].0, "server");
            match &outer[0].1 {
                OverrideValue::Dict(0, mid) => {
                    assert_eq!(mid.len(), 1);
                    assert_eq!(mid[0].0, "tls");
                    assert!(matches!(leaf_at(mid, "tls"), Some(OverrideValue::Dict(0, inner)) if inner.len() == 1
                        && inner[0].0 == "port" && matches!(inner[0].1, OverrideValue::Leaf(443))));
                }
                _ => panic!("server holds a dictionary"),
            }
        }
        _ => panic!("a dotted path nests"),
    }
    assert!(matches!(nest_override("", 5, 0u8), OverrideValue::Leaf(5)));
    assert!(matches!(nest_override("a..b", 5, 0u8), OverrideValue::Dict(0, ref es) if es.len() == 1
        && matches!(es[0].1, OverrideValue::Leaf(5))));
}

#[test]
fn override_insertion_merges_nested_values_and_refuses_bad_paths() {
    let mut values: Vec<(String, OverrideValue<i32, u8>)> = Vec::new();
    assert!(insert_override(&mut values, "server.bind", 1, 0));
    assert!(insert_override(&mut values, "server.port", 9000, 0));
    assert_eq!(values.len(), 1);
    match leaf_at(&values, "server") {
        Some(OverrideValue::Dict(_, children)) => {
            assert!(matches!(leaf_at(children, "bind"), Some(OverrideValue::Leaf(1))));
            assert!(matches!(leaf_at(children, "port"), Some(OverrideValue::Leaf(9000))));
        }
        _ => panic!("server stays a dictionary"),
    }
    assert!(!insert_override(&mut values, "", 3, 0));
    assert!(!insert_override(&mut values, "a..b", 3, 0));
    assert_eq!(values.len(), 1);
}
