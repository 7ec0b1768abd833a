//! Config file formats, inferred from file extensions.
//!
//! Unknown or missing extensions fall back to YAML, for loading and for
//! template rendering alike.

use vstd::prelude::*;
use crate::path::{components, is_parent_dir, path_components, component_is_parent_dir};
use crate::text::{chars_of, string_of, text_eq};

verus! {

/// Config file format.
#[derive(Clone, Copy, Debug, PartialEq, Eq, Structural)]
pub enum ConfigFormat {
    /// YAML, for `.yaml`, `.yml`, unknown and missing extensions.
    Yaml,
    /// TOML, for `.toml`.
    Toml,
    /// JSON5 templates and JSON loading, for `.json` and `.json5`.
    Json,
}

/// The last component of a path, unless it is `..` or there is none.
pub open spec fn file_name(path: Seq<char>) -> Option<Seq<char>> {
    let c = components(path);
    if c.len() == 0 || is_parent_dir(c.last()) {
        None
    } else {
        Some(c.last())
    }
}

/// The position of the last `.` among the first `k` characters, or -1.
pub open spec fn last_dot(name: Seq<char>, k: int) -> int
    decreases k,
{
    if k <= 0 || k > name.len() {
        -1
    } else if name[k - 1] == '.' {
        k - 1
    } else {
        last_dot(name, k - 1)
    }
}

/// The extension of a file name: what follows its last `.`, provided
/// something precedes that dot.
pub open spec fn name_extension(name: Seq<char>) -> Option<Seq<char>> {
    let d = last_dot(name, name.len() as int);
    if d <= 0 {
        None
    } else {
        Some(name.subrange(d + 1, name.len() as int))
    }
}

/// The extension of a path's file name.
pub open spec fn path_extension(path: Seq<char>) -> Option<Seq<char>> {
    match file_name(path) {
        Some(n) => name_extension(n),
        None => None,
    }
}

/// The format a path's extension selects.
pub open spec fn format_of(path: Seq<char>) -> ConfigFormat {
    match path_extension(path) {
        Some(e) => if e == "toml"@ {
            ConfigFormat::Toml
        } else if e == "json"@ || e == "json5"@ {
            ConfigFormat::Json
        } else {
            ConfigFormat::Yaml
        },
        None => ConfigFormat::Yaml,
    }
}

/// Returns the extension of a path's file name, if any.
pub fn extension_of(path: &str) -> (r: Option<String>)
    ensures
        match path_extension(path@) {
            Some(e) => r is Some && r->0@ == e,
            None => r is None,
        },
{
    let comps = path_components(path);
    let n = comps.len();
    if n == 0 {
        return None;
    }
    if component_is_parent_dir(&comps[n - 1]) {
        return None;
    }
    let name = chars_of(comps[n - 1].as_str());
    let ghost g = name@;
    proof {
        assert(g == components(path@).last());
    }
    let len = name.len();
    let mut k: usize = len;
    while k > 0 && name[k - 1] != '.'
        invariant
            k <= len,
            len == g.len(),
            name@ == g,
            last_dot(g, len as int) == last_dot(g, k as int),
        decreases k,
    {
        k = k - 1;
    }
    if k <= 1 {
        proof {
            if k == 1 {
                assert(last_dot(g, 1) == 0);
            }
        }
        return None;
    }
    proof {
        assert(last_dot(g, k as int) == k - 1);
    }
    let mut ext: Vec<char> = Vec::new();
    let mut j: usize = k;
    while j < len
        invariant
            k <= j <= len,
            len == g.len(),
            name@ == g,
            ext@ == g.subrange(k as int, j as int),
        decreases len - j,
    {
        ext.push(name[j]);
        j = j + 1;
        proof {
            assert(ext@ =~= g.subrange(k as int, j as int));
        }
    }
    Some(string_of(ext.as_slice()))
}

impl ConfigFormat {
    /// Infers the format from a path's extension.
    pub fn from_path(path: &str) -> (r: ConfigFormat)
        ensures
            r == format_of(path@),
    {
        match extension_of(path) {
            Some(e) => {
                if text_eq(e.as_str(), "toml") {
                    ConfigFormat::Toml
                } else if text_eq(e.as_str(), "json") || text_eq(e.as_str(), "json5") {
                    ConfigFormat::Json
                } else {
                    ConfigFormat::Yaml
                }
            },
            None => ConfigFormat::Yaml,
        }
    }
}

} // verus!
