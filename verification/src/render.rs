//! Template rendering for a target path: the path's extension selects YAML,
//! TOML or JSON5.

use vstd::prelude::*;
use crate::format::{format_of, ConfigFormat};
use crate::meta::ConfigMeta;
use crate::render_json5::{json5_template, render_json5_template};
use crate::render_toml::{render_toml_template, toml_template};
use crate::render_yaml::{render_yaml_template, yaml_template};

verus! {

/// The template text for one format.
pub open spec fn template_text(
    format: ConfigFormat,
    meta: ConfigMeta,
    includes: Seq<Seq<char>>,
    section: Seq<Seq<char>>,
    splits: Seq<Seq<Seq<char>>>,
    env_only: Seq<Seq<Seq<char>>>,
) -> Seq<char> {
    match format {
        ConfigFormat::Yaml => yaml_template(meta, includes, section, splits, env_only),
        ConfigFormat::Toml => toml_template(meta, includes, section, splits, env_only),
        ConfigFormat::Json => json5_template(meta, includes, section, splits, env_only),
    }
}

/// Renders the template of one format for the root config (empty section
/// path) or one split section.
pub fn render_template(
    format: ConfigFormat,
    meta: &ConfigMeta,
    include_paths: &Vec<String>,
    section_path: &Vec<String>,
    split_paths: &Vec<Vec<String>>,
    env_only_paths: &Vec<Vec<String>>,
) -> (r: String)
    ensures
        r@ == template_text(
            format,
            *meta,
            include_paths.deep_view(),
            section_path.deep_view(),
            split_paths.deep_view(),
            env_only_paths.deep_view(),
        ),
{
    match format {
        ConfigFormat::Yaml => render_yaml_template(meta, include_paths, section_path, split_paths, env_only_paths),
        ConfigFormat::Toml => render_toml_template(meta, include_paths, section_path, split_paths, env_only_paths),
        ConfigFormat::Json => render_json5_template(meta, include_paths, section_path, split_paths, env_only_paths),
    }
}

/// Renders the default template for one path: the whole schema, with no
/// included files and no split sections, leaving env-only leaves out.
pub fn template_for_path(path: &str, meta: &ConfigMeta, env_only_paths: &Vec<Vec<String>>) -> (r: String)
    ensures
        r@ == template_text(format_of(path@), *meta, Seq::empty(), Seq::empty(), Seq::empty(), env_only_paths.deep_view()),
{
    let none: Vec<String> = Vec::new();
    let root: Vec<String> = Vec::new();
    let splits: Vec<Vec<String>> = Vec::new();
    proof {
        assert(none.deep_view() =~= Seq::<Seq<char>>::empty());
        assert(splits.deep_view() =~= Seq::<Seq<Seq<char>>>::empty());
    }
    render_template(ConfigFormat::from_path(path), meta, &none, &root, &splits, env_only_paths)
}

/// Renders the template of one collected target: the target path's
/// extension selects the format.
pub fn template_for_target(
    path: &str,
    meta: &ConfigMeta,
    include_paths: &Vec<String>,
    section_path: &Vec<String>,
    split_paths: &Vec<Vec<String>>,
    env_only_paths: &Vec<Vec<String>>,
) -> (r: String)
    ensures
        r@ == template_text(
            format_of(path@),
            *meta,
            include_paths.deep_view(),
            section_path.deep_view(),
            split_paths.deep_view(),
            env_only_paths.deep_view(),
        ),
{
    render_template(ConfigFormat::from_path(path), meta, include_paths, section_path, split_paths, env_only_paths)
}

} // verus!
