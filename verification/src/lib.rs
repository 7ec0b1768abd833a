//! Recursive trees of included files for layered configuration files:
//! loading the include tree, generating commented templates and JSON
//! Schemas that mirror it, and the text edits behind shell completion
//! setup. Everything here is verified; file, environment and outside-crate
//! access lives in the `app` crate around it.
#![allow(unused_imports)]

pub mod text;
pub mod path;
pub mod reach;
pub mod error;
pub mod tree;
pub mod layers;
pub mod template_tree;
pub mod meta;
pub mod quote;
pub mod expr;
pub mod format;
pub mod template_text;
pub mod render_yaml;
pub mod render_toml;
pub mod render_json5;
pub mod render;
pub mod config_output;
pub mod sections;
pub mod binding;
pub mod config_templates;
pub mod cli;
pub mod transparent_section;
pub mod transparent_yaml;
pub mod schema_paths;
pub mod json;
pub mod schema;
pub mod schema_refs;
pub mod schema_output;
pub mod config_env;
pub mod path_laws;
pub mod derive_rules;
pub mod overrides;
