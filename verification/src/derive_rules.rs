//! The decisions the schema and override derives make about a struct's
//! fields: which field holds the include paths, and which override paths
//! are accepted.

use vstd::prelude::*;
use crate::config_env::{is_valid_override_path, valid_override_path};
use crate::text::text_eq;

verus! {

/// A named field of a config struct, as the derives read it.
#[derive(Debug, Clone, PartialEq, Eq)]
pub struct DeriveField {
    /// The field's name.
    pub name: String,
    /// Whether the field is marked `#[config_schema(include)]`.
    pub include_attr: bool,
    /// Whether the field's type is `Vec<PathBuf>`.
    pub vec_path_buf: bool,
}

/// The first field marked as holding the include paths.
pub open spec fn first_marked(fields: Seq<DeriveField>, k: int) -> Option<int>
    decreases fields.len() - k,
{
    if k < 0 || k >= fields.len() {
        None
    } else if fields[k].include_attr {
        Some(k)
    } else {
        first_marked(fields, k + 1)
    }
}

/// The first field named `include` whose type is `Vec<PathBuf>`.
pub open spec fn first_include_named(fields: Seq<DeriveField>, k: int) -> Option<int>
    decreases fields.len() - k,
{
    if k < 0 || k >= fields.len() {
        None
    } else if fields[k].name@ == "include"@ && fields[k].vec_path_buf {
        Some(k)
    } else {
        first_include_named(fields, k + 1)
    }
}

/// The field that holds the include paths: the first marked one, or else
/// the first `include: Vec<PathBuf>`.
pub open spec fn include_field(fields: Seq<DeriveField>) -> Option<int> {
    match first_marked(fields, 0) {
        Some(i) => Some(i),
        None => first_include_named(fields, 0),
    }
}

/// Returns the name of the field that holds the include paths; `None` when
/// the struct has none, which the schema derive refuses.
pub fn select_include_field(fields: &Vec<DeriveField>) -> (r: Option<String>)
    ensures
        match include_field(fields@) {
            Some(i) => r is Some && r->0@ == fields@[i].name@,
            None => r is None,
        },
{
    let mut i: usize = 0;
    while i < fields.len()
        invariant
            i <= fields@.len(),
            first_marked(fields@, 0) == first_marked(fields@, i as int),
        decreases fields@.len() - i,
    {
        if fields[i].include_attr {
            return Some(fields[i].name.clone());
        }
        i = i + 1;
    }
    let mut j: usize = 0;
    while j < fields.len()
        invariant
            j <= fields@.len(),
            first_marked(fields@, 0) is None,
            first_include_named(fields@, 0) == first_include_named(fields@, j as int),
        decreases fields@.len() - j,
    {
        if text_eq(fields[j].name.as_str(), "include") && fields[j].vec_path_buf {
            proof {
                reveal_strlit("include");
            }
            return Some(fields[j].name.clone());
        }
        proof {
            reveal_strlit("include");
        }
        j = j + 1;
    }
    None
}

/// Why an override path given to the override derive is refused.
#[derive(Debug, Clone, Copy, PartialEq, Eq, Structural)]
pub enum OverridePathError {
    /// The path is empty.
    Empty,
    /// The path has an empty `.`-separated segment.
    EmptySegment,
}

impl OverridePathError {
    /// Describes the error.
    pub fn message(&self) -> (r: String)
        ensures
            r@ == match self {
                OverridePathError::Empty => "config_override path must not be empty"@,
                OverridePathError::EmptySegment => "config_override path must not contain empty segments"@,
            },
    {
        match self {
            OverridePathError::Empty => String::from_str("config_override path must not be empty"),
            OverridePathError::EmptySegment => String::from_str("config_override path must not contain empty segments"),
        }
    }
}

/// Checks an override path given to the override derive: refused when
/// empty, or when one of its segments is empty.
pub fn validate_override_path(path: &str) -> (r: Result<(), OverridePathError>)
    ensures
        path@.len() == 0 ==> r == Err::<(), OverridePathError>(OverridePathError::Empty),
        path@.len() > 0 && !valid_override_path(path@) ==> r == Err::<(), OverridePathError>(
            OverridePathError::EmptySegment,
        ),
        valid_override_path(path@) ==> r is Ok,
{
    if path.unicode_len() == 0 {
        Err(OverridePathError::Empty)
    } else if !is_valid_override_path(path) {
        Err(OverridePathError::EmptySegment)
    } else {
        Ok(())
    }
}

} // verus!
