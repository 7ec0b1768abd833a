use rust_config_tree::cli::{
    backup_file_name, backup_file_name_part, managed_block_markers, remove_managed_block_content,
    upsert_managed_block_content, ShellInstallTarget, ShellKind,
};
use rust_config_tree::config_output::{
    last_type_segment, resolve_template_output_from, root_config_target_name_for, schema_output_from_name,
    template_output_from_name, type_segment_to_snake_case,
};

fn upsert(existing: &str, name: &str, shell: ShellKind, body: &str) -> Result<String, String> {
    let (begin, end) = managed_block_markers(name, shell);
    upsert_managed_block_content(existing, &begin, &end, body).map_err(|e| e.message())
}

#[test]
fn default_targets_use_any_root_config_snake_case_name() {
    let recorder = root_config_target_name_for("rust_config_tree::cli::unit_tests::RecorderConfig");
    let engine = root_config_target_name_for("rust_config_tree::cli::unit_tests::EngineConfig");

    assert_eq!(
        template_output_from_name(&recorder),
        "config/recorder_config/recorder_config.example.yaml"
    );
    assert_eq!(
        schema_output_from_name(&recorder),
        "config/recorder_config/recorder_config.schema.json"
    );
    assert_eq!(
        template_output_from_name(&engine),
        "config/engine_config/engine_config.example.yaml"
    );
    assert_eq!(
        schema_output_from_name(&engine),
        "config/engine_config/engine_config.schema.json"
    );
}

#[test]
fn upsert_managed_block_inserts_new_block() {
    let content = upsert("", "app", ShellKind::Zsh, "body\n").unwrap();

    assert_eq!(
        content,
        "# >>> app zsh completions >>>\nbody\n\n# <<< app zsh completions <<<\n"
    );
}

#[test]
fn upsert_managed_block_replaces_existing_block() {
    let existing = [
        "before\n\n",
        "# >>> app bash completions >>>\n",
        "old\n",
        "# <<< app bash completions <<<\n\n",
        "after\n",
    ].concat();

    let content = upsert(&existing, "app", ShellKind::Bash, "new\n").unwrap();

    assert_eq!(
        content,
        [
            "before\n\n",
            "# >>> app bash completions >>>\n",
            "new\n\n",
            "# <<< app bash completions <<<\n",
            "\n",
            "after\n",
        ].concat()
    );
}

#[test]
fn upsert_managed_block_rejects_missing_end_marker() {
    let err = upsert("# >>> app fish completions >>>\n", "app", ShellKind::Fish, "body").unwrap_err();

    assert_eq!(
        err,
        "found `# >>> app fish completions >>>` but missing `# <<< app fish completions <<<`"
    );
}

#[test]
fn zsh_rc_block_uses_shared_completion_marker() {
    let target = ShellInstallTarget::new(ShellKind::Zsh, "/tmp/home");
    let body = target
        .rc_block_body("/tmp/home/.zsh/completions/_demo", "/tmp/home/.zsh/completions")
        .unwrap();

    assert_eq!(target.managed_block_name("demo"), "rust-config-tree".to_owned());
    assert_eq!(
        body,
        [
            "typeset -U fpath\n",
            "fpath=(\"/tmp/home/.zsh/completions\" $fpath)\n",
            "\n",
            "autoload -Uz compinit\n",
            "compinit\n",
        ].concat()
    );
}

#[test]
fn upsert_managed_block_backs_up_existing_startup_file() {
    let content = upsert("before\n", "demo", ShellKind::Bash, "body\n").unwrap();
    assert_eq!(
        content,
        "before\n\n# >>> demo bash completions >>>\nbody\n\n# <<< demo bash completions <<<\n"
    );
    let name = backup_file_name(".bashrc", "demo", 17);
    assert!(name.contains(".backup.by.demo."));
    assert_eq!(name, ".bashrc.backup.by.demo.17");
}

#[test]
fn remove_managed_block_removes_block_and_backs_up_existing_startup_file() {
    let (begin, end) = managed_block_markers("demo", ShellKind::Bash);
    let existing = [
        "before\n\n",
        "# >>> demo bash completions >>>\n",
        "body\n",
        "# <<< demo bash completions <<<\n\n",
        "after\n",
    ].concat();

    let content = remove_managed_block_content(&existing, &begin, &end).unwrap();

    assert_eq!(content.as_deref(), Some("before\n\nafter\n"));
    assert!(!content.unwrap().contains("# >>> demo bash completions >>>"));
    assert!(backup_file_name("startup", "demo", 1).contains(".backup.by.demo."));
}

#[test]
fn remove_managed_block_reports_absent_and_unterminated_blocks() {
    let (begin, end) = managed_block_markers("demo", ShellKind::Bash);
    assert!(remove_managed_block_content("plain\n", &begin, &end).unwrap().is_none());
    assert!(remove_managed_block_content("# >>> demo bash completions >>>\n", &begin, &end).is_err());
    assert_eq!(
        remove_managed_block_content("# >>> demo bash completions >>>\nx\n# <<< demo bash completions <<<\n", &begin, &end)
            .unwrap()
            .as_deref(),
        Some("")
    );
}

#[test]
fn upsert_then_remove_leaves_the_surrounding_text() {
    let (begin, end) = managed_block_markers("demo", ShellKind::Elvish);
    let upserted = upsert_managed_block_content("a\n\n\n", &begin, &end, "use x\n").unwrap();
    let again = upsert_managed_block_content(&upserted, &begin, &end, "use x\n").unwrap();
    assert_eq!(again, upserted);
    let removed = remove_managed_block_content(&upserted, &begin, &end).unwrap().unwrap();
    assert_eq!(removed, "a\n");
}

#[test]
fn shell_targets_follow_each_shell_layout() {
    let bash = ShellInstallTarget::new(ShellKind::Bash, "/h");
    assert_eq!(bash.completion_dir, "/h/.bash_completion.d");
    assert_eq!(bash.rc_path.as_deref(), Some("/h/.bashrc"));
    assert_eq!(bash.completion_file_path("demo"), "/h/.bash_completion.d/demo.bash");
    assert_eq!(
        bash.rc_block_body("/g/demo.bash", "/g").unwrap(),
        "[[ -r \"/g/demo.bash\" ]] && source \"/g/demo.bash\"\n"
    );
    assert_eq!(bash.managed_block_name("demo"), "demo");

    let fish = ShellInstallTarget::new(ShellKind::Fish, "/h");
    assert_eq!(fish.completion_dir, "/h/.config/fish/completions");
    assert!(fish.rc_path.is_none());
    assert!(fish.rc_block_body("/x", "/y").is_none());

    let elvish = ShellInstallTarget::new(ShellKind::Elvish, "/h");
    assert_eq!(elvish.rc_path.as_deref(), Some("/h/.config/elvish/rc.elv"));
    assert_eq!(elvish.completion_file_path("demo"), "/h/.config/elvish/lib/demo.elv");

    let ps = ShellInstallTarget::new(ShellKind::PowerShell, "/h");
    assert_eq!(ps.completion_file_path("demo"), "/h/Documents/PowerShell/Completions/_demo.ps1");
    assert_eq!(
        ps.rc_path.as_deref(),
        Some("/h/Documents/PowerShell/Microsoft.PowerShell_profile.ps1")
    );
    assert_eq!(
        ps.rc_block_body("/g/_demo.ps1", "/g").unwrap(),
        "if (Test-Path \"/g/_demo.ps1\") { . \"/g/_demo.ps1\" }\n"
    );
    assert_eq!(ShellKind::Zsh.file_name("demo"), "_demo");
}

#[test]
fn backup_names_keep_only_safe_characters() {
    assert_eq!(backup_file_name_part("my app/v1.2"), "my_app_v1.2");
    assert_eq!(backup_file_name(".zshrc", "a b", 1234567890123), ".zshrc.backup.by.a_b.1234567890123");
}

#[test]
fn type_names_become_snake_case_target_names() {
    assert_eq!(last_type_segment("a::b::Config<T>"), "Config");
    assert_eq!(last_type_segment("Plain"), "Plain");
    assert_eq!(type_segment_to_snake_case("RecorderConfig"), "recorder_config");
    assert_eq!(type_segment_to_snake_case("HTTPServer2Config"), "http_server2_config");
    assert_eq!(type_segment_to_snake_case("__"), "config");
    assert_eq!(type_segment_to_snake_case("my-app"), "my_app");
    assert_eq!(root_config_target_name_for("x::AppConfig"), "app_config");
}

#[test]
fn template_output_keeps_only_the_file_name_of_the_request() {
    assert_eq!(
        resolve_template_output_from("/work", "app_config", Some("other/dir/t.example.toml")),
        "/work/config/app_config/t.example.toml"
    );
    assert_eq!(
        resolve_template_output_from("/work", "app_config", None),
        "/work/config/app_config/app_config.example.yaml"
    );
}

#[test]
fn writing_the_same_block_twice_changes_nothing() {
    for existing in ["", "export A=1\n\n", "# >>> app bash completions >>>\nold\n# <<< app bash completions <<<\n\ntail\n"] {
        let once = upsert(existing, "app", ShellKind::Bash, "source /x/app.bash").unwrap();
        let twice = upsert(&once, "app", ShellKind::Bash, "source /x/app.bash").unwrap();
        assert_eq!(twice, once);
    }
}

#[test]
fn a_block_name_with_blank_lines_can_make_a_second_write_move_the_block() {
    let name = "n bash completions >>>\n\n# >>> n";
    let existing = "# >>> n bash completions >>>";
    let once = upsert(existing, name, ShellKind::Bash, "source x").unwrap();
    let twice = upsert(&once, name, ShellKind::Bash, "source x").unwrap();
    assert!(once.starts_with(existing));
    assert_ne!(twice, once);
}
