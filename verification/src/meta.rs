//! Description of a config schema: its fields, their documentation,
//! environment variable names and default values, as templates need them.
//!
//! Section paths are lists of field names from the root. A section is split
//! out of its parent template when its path is listed among the split paths;
//! a leaf is env-only when its full path is listed among the env-only paths.

use vstd::prelude::*;

verus! {

/// A default value of a leaf field.
#[derive(Debug)]
pub enum DefaultExpr {
    /// A string.
    Str(String),
    /// A floating-point number, as its decimal text.
    Float(String),
    /// An integer, as its decimal text.
    Integer(String),
    /// A boolean.
    Bool(bool),
    /// An array of values.
    Array(Vec<DefaultExpr>),
    /// A map from keys to values, in declaration order.
    Mapping(Vec<MapEntry>),
}

/// One entry of a map default value.
#[derive(Debug)]
pub struct MapEntry {
    /// The entry's key.
    pub key: MapKey,
    /// The entry's value.
    pub value: DefaultExpr,
}

/// A key of a map default value.
#[derive(Debug)]
pub enum MapKey {
    /// A string key.
    Str(String),
    /// A floating-point key, as its decimal text.
    Float(String),
    /// An integer key, as its decimal text.
    Integer(String),
    /// A boolean key.
    Bool(bool),
}

/// Whether a leaf field must be given.
#[derive(Debug)]
pub enum LeafKind {
    /// The field is required, possibly with a default value.
    Required {
        /// The default value, if any.
        default: Option<DefaultExpr>,
    },
    /// The field may be omitted.
    Optional,
}

/// What a field holds.
#[derive(Debug)]
pub enum FieldKind {
    /// A value.
    Leaf {
        /// Environment variable that can also set the value.
        env: Option<String>,
        /// Whether the value is required.
        kind: LeafKind,
    },
    /// A nested section.
    Nested {
        /// Description of the nested section.
        meta: Box<ConfigMeta>,
    },
}

/// One field of a config section.
#[derive(Debug)]
pub struct ConfigField {
    /// The field's key.
    pub name: String,
    /// Documentation lines of the field.
    pub doc: Vec<String>,
    /// What the field holds.
    pub kind: FieldKind,
}

/// Description of a config section.
#[derive(Debug)]
pub struct ConfigMeta {
    /// Name of the section's type.
    pub name: String,
    /// Documentation lines of the section.
    pub doc: Vec<String>,
    /// The section's fields, in declaration order.
    pub fields: Vec<ConfigField>,
}

/// `prefix` is a proper prefix of `p`.
pub open spec fn strictly_extends(p: Seq<Seq<char>>, prefix: Seq<Seq<char>>) -> bool {
    p.len() > prefix.len() && p.take(prefix.len() as int) == prefix
}

/// Some listed path lies strictly below `path`.
pub open spec fn has_split_below(splits: Seq<Seq<Seq<char>>>, path: Seq<Seq<char>>) -> bool {
    exists|i: int| 0 <= i < splits.len() && strictly_extends(#[trigger] splits[i], path)
}

/// The split paths handed down to a nested section: all of them when one
/// lies below the section, none otherwise.
pub open spec fn child_splits(splits: Seq<Seq<Seq<char>>>, path: Seq<Seq<char>>) -> Seq<Seq<Seq<char>>> {
    if has_split_below(splits, path) {
        splits
    } else {
        Seq::empty()
    }
}

/// The leaf `name` under `path` is listed as env-only.
pub open spec fn is_env_only(env_only: Seq<Seq<Seq<char>>>, path: Seq<Seq<char>>, name: Seq<char>) -> bool {
    env_only.contains(path.push(name))
}

/// The root `include` leaf is left out of a template that already lists its
/// included files.
pub open spec fn skips_leaf(skip_include: bool, path: Seq<Seq<char>>, name: Seq<char>) -> bool {
    skip_include && path.len() == 0 && name == "include"@
}

/// The section reached from `meta` through the first nested field named
/// `name`, if any.
pub open spec fn child_meta(meta: ConfigMeta, name: Seq<char>) -> Option<ConfigMeta> {
    child_meta_from(meta.fields@, name, 0)
}

/// The section of the first nested field named `name` at or after `k`.
pub open spec fn child_meta_from(fields: Seq<ConfigField>, name: Seq<char>, k: int) -> Option<ConfigMeta>
    decreases fields.len() - k,
{
    if k < 0 || k >= fields.len() {
        None
    } else if fields[k].name@ == name && fields[k].kind is Nested {
        Some(*fields[k].kind->meta)
    } else {
        child_meta_from(fields, name, k + 1)
    }
}

/// The section reached from `meta` by following `path`, if every step
/// names a nested field.
pub open spec fn meta_at(meta: ConfigMeta, path: Seq<Seq<char>>) -> Option<ConfigMeta>
    decreases path.len(),
{
    if path.len() == 0 {
        Some(meta)
    } else {
        match meta_at(meta, path.drop_last()) {
            Some(m) => child_meta(m, path.last()),
            None => None,
        }
    }
}

/// Whether `meta` has a leaf or nested section that a template shows:
/// a leaf that is neither skipped nor env-only, or a nested section that is
/// not split out and itself has something to show.
pub open spec fn has_renderable(
    meta: ConfigMeta,
    path: Seq<Seq<char>>,
    splits: Seq<Seq<Seq<char>>>,
    env_only: Seq<Seq<Seq<char>>>,
    skip_include: bool,
) -> bool
    decreases meta, 1int, 0int,
{
    has_renderable_leaf(meta, path, env_only, skip_include, meta.fields@.len() as int)
        || has_renderable_nested(meta, path, splits, env_only, meta.fields@.len() as int)
}

/// One of the first `k` fields is a leaf a template shows.
pub open spec fn has_renderable_leaf(
    meta: ConfigMeta,
    path: Seq<Seq<char>>,
    env_only: Seq<Seq<Seq<char>>>,
    skip_include: bool,
    k: int,
) -> bool
    decreases k,
{
    if k <= 0 || k > meta.fields@.len() {
        false
    } else {
        let f = meta.fields@[k - 1];
        has_renderable_leaf(meta, path, env_only, skip_include, k - 1) || (f.kind is Leaf
            && !skips_leaf(skip_include, path, f.name@) && !is_env_only(env_only, path, f.name@))
    }
}

/// One of the first `k` fields is a nested section a template shows.
pub open spec fn has_renderable_nested(
    meta: ConfigMeta,
    path: Seq<Seq<char>>,
    splits: Seq<Seq<Seq<char>>>,
    env_only: Seq<Seq<Seq<char>>>,
    k: int,
) -> bool
    decreases meta, 0int, k,
{
    if k <= 0 || k > meta.fields@.len() {
        false
    } else {
        let f = meta.fields@[k - 1];
        let rest = has_renderable_nested(meta, path, splits, env_only, k - 1);
        match f.kind {
            FieldKind::Nested { meta: child } => {
                let cp = path.push(f.name@);
                proof {
                    assert(decreases_to!(meta => meta.fields));
                }
                rest || (!splits.contains(cp) && has_renderable(*child, cp, child_splits(splits, cp), env_only, false))
            },
            FieldKind::Leaf { .. } => rest,
        }
    }
}

/// Showing a leaf among the first `i` fields shows one among the first `j`.
proof fn lemma_leaf_mono(
    meta: ConfigMeta,
    path: Seq<Seq<char>>,
    env_only: Seq<Seq<Seq<char>>>,
    skip_include: bool,
    i: int,
    j: int,
)
    requires
        0 <= i <= j <= meta.fields@.len(),
        has_renderable_leaf(meta, path, env_only, skip_include, i),
    ensures
        has_renderable_leaf(meta, path, env_only, skip_include, j),
    decreases j - i,
{
    if i < j {
        lemma_leaf_mono(meta, path, env_only, skip_include, i, j - 1);
    }
}

/// Showing a nested section among the first `i` fields shows one among the
/// first `j`.
proof fn lemma_nested_mono(
    meta: ConfigMeta,
    path: Seq<Seq<char>>,
    splits: Seq<Seq<Seq<char>>>,
    env_only: Seq<Seq<Seq<char>>>,
    i: int,
    j: int,
)
    requires
        0 <= i <= j <= meta.fields@.len(),
        has_renderable_nested(meta, path, splits, env_only, i),
    ensures
        has_renderable_nested(meta, path, splits, env_only, j),
    decreases j - i,
{
    if i < j {
        lemma_nested_mono(meta, path, splits, env_only, i, j - 1);
    }
}

/// Appends a segment to a section path.
pub fn push_segment(path: &mut Vec<String>, segment: &String)
    ensures
        final(path).deep_view() == old(path).deep_view().push(segment@),
{
    let ghost pre = path@;
    path.push(segment.clone());
    proof {
        assert(path@ == pre.push(*segment));
        assert(path.deep_view() =~= old(path).deep_view().push(segment@));
    }
}

/// Removes the last segment of a section path.
pub fn pop_segment(path: &mut Vec<String>)
    ensures
        old(path)@.len() > 0 ==> final(path).deep_view() == old(path).deep_view().drop_last(),
        old(path)@.len() == 0 ==> final(path).deep_view() == old(path).deep_view(),
{
    let ghost pre = path@;
    let _ = path.pop();
    proof {
        if pre.len() > 0 {
            assert(path@ == pre.subrange(0, pre.len() - 1));
            assert(path.deep_view() =~= old(path).deep_view().drop_last());
        } else {
            assert(path.deep_view() =~= old(path).deep_view());
        }
    }
}

/// Whether two section paths are equal.
pub fn same_path(a: &Vec<String>, b: &Vec<String>) -> (r: bool)
    ensures
        r == (a.deep_view() == b.deep_view()),
{
    if a.len() != b.len() {
        proof {
            assert(a.deep_view().len() != b.deep_view().len());
        }
        return false;
    }
    let mut i: usize = 0;
    while i < a.len()
        invariant
            a@.len() == b@.len(),
            i <= a@.len(),
            forall|j: int| 0 <= j < i ==> a@[j]@ == b@[j]@,
        decreases a@.len() - i,
    {
        if a[i] != b[i] {
            proof {
                assert(a.deep_view()[i as int] != b.deep_view()[i as int]);
            }
            return false;
        }
        i = i + 1;
    }
    proof {
        assert(a.deep_view() =~= b.deep_view());
    }
    true
}

/// Whether `prefix` is a proper prefix of `p`.
pub fn path_strictly_extends(p: &Vec<String>, prefix: &Vec<String>) -> (r: bool)
    ensures
        r == strictly_extends(p.deep_view(), prefix.deep_view()),
{
    if p.len() <= prefix.len() {
        return false;
    }
    let mut i: usize = 0;
    while i < prefix.len()
        invariant
            p@.len() > prefix@.len(),
            i <= prefix@.len(),
            forall|j: int| 0 <= j < i ==> p@[j]@ == prefix@[j]@,
        decreases prefix@.len() - i,
    {
        if p[i] != prefix[i] {
            proof {
                assert(p.deep_view().take(prefix@.len() as int)[i as int] != prefix.deep_view()[i as int]);
            }
            return false;
        }
        i = i + 1;
    }
    proof {
        assert(p.deep_view().take(prefix@.len() as int) =~= prefix.deep_view());
    }
    true
}

/// Whether a list of section paths contains `path`.
pub fn contains_path(paths: &Vec<Vec<String>>, path: &Vec<String>) -> (r: bool)
    ensures
        r == paths.deep_view().contains(path.deep_view()),
{
    let mut i: usize = 0;
    while i < paths.len()
        invariant
            i <= paths@.len(),
            forall|j: int| 0 <= j < i ==> paths@[j].deep_view() != path.deep_view(),
        decreases paths@.len() - i,
    {
        if same_path(&paths[i], path) {
            proof {
                assert(paths.deep_view()[i as int] == path.deep_view());
            }
            return true;
        }
        i = i + 1;
    }
    proof {
        if paths.deep_view().contains(path.deep_view()) {
            let k = choose|k: int| 0 <= k < paths.deep_view().len() && paths.deep_view()[k] == path.deep_view();
            assert(paths@[k].deep_view() == path.deep_view());
        }
    }
    false
}

/// Whether some listed path lies strictly below `path`.
pub fn split_below(splits: &Vec<Vec<String>>, path: &Vec<String>) -> (r: bool)
    ensures
        r == has_split_below(splits.deep_view(), path.deep_view()),
{
    let mut i: usize = 0;
    while i < splits.len()
        invariant
            i <= splits@.len(),
            forall|j: int| 0 <= j < i ==> !strictly_extends(#[trigger] splits.deep_view()[j], path.deep_view()),
        decreases splits@.len() - i,
    {
        if path_strictly_extends(&splits[i], path) {
            proof {
                assert(splits.deep_view()[i as int] == splits@[i as int].deep_view());
            }
            return true;
        }
        proof {
            assert(splits.deep_view()[i as int] == splits@[i as int].deep_view());
        }
        i = i + 1;
    }
    false
}

/// Returns whether the leaf `field_name` under `current_path` is listed as
/// env-only.
pub fn is_env_only_field(
    current_path: &Vec<String>,
    field_name: &str,
    env_only_paths: &Vec<Vec<String>>,
) -> (r: bool)
    ensures
        r == is_env_only(env_only_paths.deep_view(), current_path.deep_view(), field_name@),
{
    let mut full = crate::tree::clone_strings(current_path);
    full.push(field_name.to_owned());
    proof {
        assert(full.deep_view() =~= current_path.deep_view().push(field_name@));
    }
    contains_path(env_only_paths, &full)
}

/// Whether a field is a leaf.
pub fn field_is_leaf(field: &ConfigField) -> (r: bool)
    ensures
        r == field.kind is Leaf,
{
    match &field.kind {
        FieldKind::Leaf { .. } => true,
        FieldKind::Nested { .. } => false,
    }
}

/// Whether a field name is `include`.
pub fn is_include_name(name: &str) -> (r: bool)
    ensures
        r == (name@ == "include"@),
{
    crate::text::text_eq(name, "include")
}

/// Returns whether `meta` has any fields a template shows.
pub fn has_renderable_fields(
    meta: &ConfigMeta,
    current_path: &Vec<String>,
    split_paths: &Vec<Vec<String>>,
    env_only_paths: &Vec<Vec<String>>,
    skip_include_field: bool,
) -> (r: bool)
    ensures
        r == has_renderable(*meta, current_path.deep_view(), split_paths.deep_view(), env_only_paths.deep_view(), skip_include_field),
    decreases meta,
{
    let ghost path = current_path.deep_view();
    let ghost splits = split_paths.deep_view();
    let ghost env = env_only_paths.deep_view();
    let n = meta.fields.len();
    let mut i: usize = 0;
    while i < n
        invariant
            n == meta.fields@.len(),
            i <= n,
            path == current_path.deep_view(),
            env == env_only_paths.deep_view(),
            !has_renderable_leaf(*meta, path, env, skip_include_field, i as int),
        decreases n - i,
    {
        let field = &meta.fields[i];
        if field_is_leaf(field) {
            let skipped = skip_include_field && current_path.len() == 0 && is_include_name(field.name.as_str());
            if !skipped && !is_env_only_field(current_path, field.name.as_str(), env_only_paths) {
                proof {
                    lemma_leaf_mono(*meta, path, env, skip_include_field, i + 1, n as int);
                }
                return true;
            }
        }
        i = i + 1;
    }
    let mut i: usize = 0;
    while i < n
        invariant
            n == meta.fields@.len(),
            i <= n,
            path == current_path.deep_view(),
            splits == split_paths.deep_view(),
            env == env_only_paths.deep_view(),
            !has_renderable_leaf(*meta, path, env, skip_include_field, n as int),
            !has_renderable_nested(*meta, path, splits, env, i as int),
        decreases n - i,
    {
        let field = &meta.fields[i];
        match &field.kind {
            FieldKind::Nested { meta: child } => {
                let mut child_path = crate::tree::clone_strings(current_path);
                child_path.push(field.name.clone());
                proof {
                    assert(child_path.deep_view() =~= path.push(field.name@));
                }
                if !contains_path(split_paths, &child_path) {
                    let below = split_below(split_paths, &child_path);
                    let none: Vec<Vec<String>> = Vec::new();
                    let shown = if below {
                        has_renderable_fields(child, &child_path, split_paths, env_only_paths, false)
                    } else {
                        proof {
                            assert(none.deep_view() =~= Seq::<Seq<Seq<char>>>::empty());
                        }
                        has_renderable_fields(child, &child_path, &none, env_only_paths, false)
                    };
                    if shown {
                        proof {
                            lemma_nested_mono(*meta, path, splits, env, i + 1, n as int);
                        }
                        return true;
                    }
                }
            },
            FieldKind::Leaf { .. } => {},
        }
        i = i + 1;
    }
    false
}

/// Returns the section of the first nested field named `name`.
pub fn child_meta_of<'a>(meta: &'a ConfigMeta, name: &str) -> (r: Option<&'a ConfigMeta>)
    ensures
        match child_meta(*meta, name@) {
            Some(m) => r is Some && *r->0 == m,
            None => r is None,
        },
{
    let n = meta.fields.len();
    let mut i: usize = 0;
    while i < n
        invariant
            n == meta.fields@.len(),
            i <= n,
            child_meta(*meta, name@) == child_meta_from(meta.fields@, name@, i as int),
        decreases n - i,
    {
        let field = &meta.fields[i];
        let same = crate::text::text_eq(field.name.as_str(), name);
        match &field.kind {
            FieldKind::Nested { meta: child } => {
                if same {
                    return Some(&**child);
                }
            },
            FieldKind::Leaf { .. } => {},
        }
        i = i + 1;
    }
    None
}

/// Returns the section reached from `meta` by following `section_path`.
pub fn meta_at_path<'a>(meta: &'a ConfigMeta, section_path: &Vec<String>) -> (r: Option<&'a ConfigMeta>)
    ensures
        match meta_at(*meta, section_path.deep_view()) {
            Some(m) => r is Some && *r->0 == m,
            None => r is None,
        },
{
    let mut current: &ConfigMeta = meta;
    let mut i: usize = 0;
    while i < section_path.len()
        invariant
            i <= section_path@.len(),
            meta_at(*meta, section_path.deep_view().take(i as int)) == Some(*current),
        decreases section_path@.len() - i,
    {
        proof {
            assert(section_path.deep_view().take(i + 1).drop_last() =~= section_path.deep_view().take(i as int));
            assert(section_path.deep_view().take(i + 1).last() == section_path@[i as int]@);
        }
        match child_meta_of(current, section_path[i].as_str()) {
            Some(next) => {
                current = next;
            },
            None => {
                proof {
                    lemma_meta_at_none(*meta, section_path.deep_view(), i + 1);
                }
                return None;
            },
        }
        i = i + 1;
    }
    proof {
        assert(section_path.deep_view().take(i as int) =~= section_path.deep_view());
    }
    Some(current)
}

/// Once a path prefix leads nowhere, the whole path does.
proof fn lemma_meta_at_none(meta: ConfigMeta, path: Seq<Seq<char>>, k: int)
    requires
        0 <= k <= path.len(),
        meta_at(meta, path.take(k)) is None,
    ensures
        meta_at(meta, path) is None,
    decreases path.len() - k,
{
    if k < path.len() {
        assert(path.take(k + 1).drop_last() =~= path.take(k));
        lemma_meta_at_none(meta, path, k + 1);
    } else {
        assert(path.take(k) =~= path);
    }
}

} // verus!
