//! The schema of each output file: the root schema, and one schema per split
//! section, each owning only its direct fields.

use vstd::prelude::*;
use crate::json::{JsonTree, JsonValue};
use crate::meta::ConfigMeta;
use crate::path::join_with;
use crate::schema::{
    free_of_required, keep_entry, lacks_key, lemma_stripped_lacks_key, map_free_of_required, not_named,
    stripped_items, stripped_members, child_section_names, remove_child_section_properties, remove_tree_split_extensions, section_schema,
    section_schema_for_path, split_section_paths, stripped_of, tree_split_key, without_properties,
    marked,
};
use crate::schema_paths::nested_paths;
use crate::schema_refs::{named_in, not_empty_map, prune_unused_schema_maps, pruned_schema, retained_map, retained_members, used_names};
use crate::schema_paths::schema_map_key;
use crate::sections::{schema_path_for_section, section_schema_path};
use crate::text::push_char;

verus! {

/// Generated JSON Schema content for one output path.
#[derive(Debug, Clone, PartialEq, Eq)]
pub struct ConfigSchemaTarget {
    /// Path that should receive the generated schema.
    pub path: String,
    /// Complete JSON Schema content to write to `path`.
    pub content: String,
}

/// A section whose schema could not be found in the root schema.
#[derive(Debug, Clone, PartialEq, Eq)]
pub struct SchemaSectionError {
    /// The path of the section.
    pub section: Vec<String>,
}

/// The message of a missing section schema.
pub open spec fn section_error_text(section: Seq<Seq<char>>) -> Seq<char> {
    "failed to extract JSON Schema for config section "@ + join_with(section, '.')
}

impl SchemaSectionError {
    /// Describes the error.
    pub fn message(&self) -> (r: String)
        ensures
            r@ == section_error_text(self.section.deep_view()),
    {
        let mut s = String::from_str("failed to extract JSON Schema for config section ");
        proof {
            reveal_strlit("failed to extract JSON Schema for config section ");
        }
        let ghost head = s@;
        let parts = &self.section;
        let mut i: usize = 0;
        proof {
            assert(parts.deep_view().take(0) =~= Seq::<Seq<char>>::empty());
            assert(s@ =~= head + join_with(parts.deep_view().take(0), '.'));
        }
        while i < parts.len()
            invariant
                i <= parts.len(),
                head == "failed to extract JSON Schema for config section "@,
                s@ == head + join_with(parts.deep_view().take(i as int), '.'),
            decreases parts.len() - i,
        {
            let ghost prev = parts.deep_view().take(i as int);
            let ghost next = parts.deep_view().take(i + 1);
            proof {
                assert(next.drop_last() =~= prev);
                assert(next.last() == parts[i as int]@);
            }
            if i > 0 {
                push_char(&mut s, '.');
            }
            s.append(parts[i].as_str());
            proof {
                if i == 0 {
                    assert(next.len() == 1);
                    assert(join_with(next, '.') == next[0]);
                    assert(join_with(prev, '.') =~= Seq::<char>::empty());
                }
                assert(s@ =~= head + join_with(next, '.'));
            }
            i = i + 1;
        }
        proof {
            assert(parts.deep_view().take(parts.len() as int) =~= parts.deep_view());
        }
        s
    }
}

/// The schema an output file gets: the full schema for the root, the
/// standalone section schema for a section; then without the split child
/// sections, the unused definitions and the split markers.
pub open spec fn output_schema(full: JsonTree, section: Seq<Seq<char>>, splits: Seq<Seq<Seq<char>>>) -> Option<JsonTree> {
    let base = if section.len() == 0 {
        Some(full)
    } else {
        section_schema(full, section)
    };
    match base {
        Some(b) => Some(
            stripped_of(pruned_schema(without_properties(b, child_section_names(splits, section))), tree_split_key()),
        ),
        None => None,
    }
}

/// Builds the schema for the root output (empty section path) or for one
/// split section.
pub fn schema_for_output_path(full_schema: &JsonValue, section_path: &Vec<String>, split_paths: &Vec<Vec<String>>) -> (r: Result<JsonValue, SchemaSectionError>)
    ensures
        match r {
            Ok(v) => output_schema(full_schema@, section_path.deep_view(), split_paths.deep_view()) == Some(v@),
            Err(e) => output_schema(full_schema@, section_path.deep_view(), split_paths.deep_view()) is None
                && e.section.deep_view() == section_path.deep_view(),
        },
{
    let base = if section_path.len() == 0 {
        crate::json::copy_json(full_schema)
    } else {
        match section_schema_for_path(full_schema, section_path) {
            Some(s) => s,
            None => {
                let section = crate::tree::clone_strings(section_path);
                return Err(SchemaSectionError { section });
            },
        }
    };
    let owned = remove_child_section_properties(base, section_path, split_paths);
    let pruned = prune_unused_schema_maps(owned);
    Ok(remove_tree_split_extensions(pruned))
}

/// The split sections of a schema: the nested sections whose property
/// schema carries the split marker.
pub open spec fn schema_splits(meta: ConfigMeta, full: JsonTree) -> Seq<Seq<Seq<char>>> {
    nested_paths(meta, Seq::empty()).filter(marked(full, tree_split_key()))
}

/// The output of the schema for section `i` of the split sections (the root
/// for index 0, the `i`-th split section after it).
pub open spec fn output_at(output_path: Seq<char>, full: JsonTree, splits: Seq<Seq<Seq<char>>>, i: int) -> Option<(Seq<char>, JsonTree)> {
    let section = if i == 0 {
        Seq::<Seq<char>>::empty()
    } else {
        splits[i - 1]
    };
    match output_schema(full, section, splits) {
        Some(t) => Some((section_schema_path(output_path, section), t)),
        None => None,
    }
}

/// The schema outputs of a config: the root schema at `output_path`, then
/// each split section's schema at its own path, in declaration order; or
/// the error of the first section whose schema is missing.
pub fn schema_outputs_for_path(output_path: &str, full_schema: &JsonValue, meta: &ConfigMeta) -> (r: Result<Vec<(String, JsonValue)>, SchemaSectionError>)
    ensures
        match r {
            Ok(v) => {
                let splits = schema_splits(*meta, full_schema@);
                &&& v@.len() == splits.len() + 1
                &&& forall|i: int|
                    0 <= i < v@.len() ==> output_at(output_path@, full_schema@, splits, i) == Some(
                        ((#[trigger] v@[i]).0@, v@[i].1@),
                    )
            },
            Err(e) => {
                let splits = schema_splits(*meta, full_schema@);
                exists|i: int|
                    0 <= i <= splits.len() && #[trigger] output_at(output_path@, full_schema@, splits, i) is None
                        && e.section.deep_view() == (if i == 0 {
                        Seq::<Seq<char>>::empty()
                    } else {
                        splits[i - 1]
                    }) && forall|j: int| 0 <= j < i ==> output_at(output_path@, full_schema@, splits, j) is Some
            },
        },
{
    let split_paths = split_section_paths(meta, full_schema);
    let ghost splits = split_paths.deep_view();
    let root_section: Vec<String> = Vec::new();
    proof {
        assert(root_section.deep_view() =~= Seq::<Seq<char>>::empty());
    }
    let root = schema_for_output_path(full_schema, &root_section, &split_paths)?;
    let mut out: Vec<(String, JsonValue)> = Vec::new();
    out.push((output_path.to_string(), root));
    proof {
        assert(output_at(output_path@, full_schema@, splits, 0) == Some((out@[0].0@, out@[0].1@)));
    }
    let mut i: usize = 0;
    while i < split_paths.len()
        invariant
            i <= split_paths@.len(),
            splits == split_paths.deep_view(),
            splits == schema_splits(*meta, full_schema@),
            out@.len() == i + 1,
            forall|q: int|
                0 <= q < out@.len() ==> output_at(output_path@, full_schema@, splits, q) == Some(
                    ((#[trigger] out@[q]).0@, out@[q].1@),
                ),
        decreases split_paths@.len() - i,
    {
        let section_path = &split_paths[i];
        proof {
            assert(splits[i as int] == section_path.deep_view());
        }
        let path = schema_path_for_section(output_path, section_path);
        match schema_for_output_path(full_schema, section_path, &split_paths) {
            Ok(schema) => {
                let ghost before = out@;
                out.push((path, schema));
                proof {
                    assert forall|q: int| 0 <= q < out@.len() implies output_at(output_path@, full_schema@, splits, q) == Some(
                        ((#[trigger] out@[q]).0@, out@[q].1@),
                    ) by {
                        if q < before.len() {
                            assert(out@[q] == before[q]);
                        }
                    }
                }
            },
            Err(e) => {
                proof {
                    assert(output_at(output_path@, full_schema@, splits, i + 1) is None);
                    assert forall|j: int| 0 <= j < i + 1 implies output_at(output_path@, full_schema@, splits, j) is Some by {
                        assert(output_at(output_path@, full_schema@, splits, j) == Some((out@[j].0@, out@[j].1@)));
                    }
                }
                return Err(e);
            },
        }
        i = i + 1;
    }
    Ok(out)
}

/// No output schema carries a split marker.
pub proof fn lemma_output_schema_unmarked(full: JsonTree, section: Seq<Seq<char>>, splits: Seq<Seq<Seq<char>>>)
    ensures
        output_schema(full, section, splits) matches Some(t) ==> lacks_key(t, tree_split_key()),
{
    let base = if section.len() == 0 {
        Some(full)
    } else {
        section_schema(full, section)
    };
    if let Some(b) = base {
        lemma_stripped_lacks_key(pruned_schema(without_properties(b, child_section_names(splits, section))), tree_split_key());
    }
}

/// Stripping members keeps a schema free of `required` lists.
proof fn lemma_stripped_keeps_free(t: JsonTree, key: Seq<char>)
    ensures
        free_of_required(t) ==> free_of_required(stripped_of(t, key)),
        map_free_of_required(t) ==> map_free_of_required(stripped_of(t, key)),
    decreases t,
{
    match t {
        JsonTree::Array(items) => {
            let r = stripped_items(items, key);
            assert forall|i: int| 0 <= i < r.len() implies (free_of_required(t) ==> free_of_required(#[trigger] r[i])) by {
                lemma_stripped_keeps_free(items[i], key);
            }
        },
        JsonTree::Object(es) => {
            let m = stripped_members(es, key);
            let f = m.filter(keep_entry(key));
            assert forall|i: int| 0 <= i < f.len() implies (#[trigger] f[i]).0 == f[i].0 && (free_of_required(t) ==> (
            f[i].0 != "required"@ && if schema_map_key(f[i].0) {
                map_free_of_required(f[i].1)
            } else {
                free_of_required(f[i].1)
            })) && (map_free_of_required(t) ==> free_of_required(f[i].1)) by {
                assert(f.contains(f[i]));
                m.lemma_filter_contains_rev(keep_entry(key), f[i]);
                let j = choose|j: int| 0 <= j < m.len() && m[j] == f[i];
                lemma_stripped_keeps_free(es[j].1, key);
            }
        },
        _ => {},
    }
}

/// Filtering the members of a map keeps it free of `required` lists.
proof fn lemma_filtered_map_free(es: Seq<(Seq<char>, JsonTree)>, p: spec_fn((Seq<char>, JsonTree)) -> bool)
    requires
        map_free_of_required(JsonTree::Object(es)),
    ensures
        map_free_of_required(JsonTree::Object(es.filter(p))),
{
    let f = es.filter(p);
    crate::schema::lemma_map_free_members(es);
    crate::schema::lemma_map_free_members(f);
    assert forall|i: int| 0 <= i < f.len() implies free_of_required(#[trigger] f[i].1) by {
        assert(f.contains(f[i]));
        es.lemma_filter_contains_rev(p, f[i]);
        let j = choose|j: int| 0 <= j < es.len() && es[j] == f[i];
        assert(free_of_required(es[j].1));
    }
}

/// Cutting down a map of definitions keeps a schema free of `required`
/// lists.
proof fn lemma_retained_keeps_free(t: JsonTree, key: Seq<char>, used: Set<Seq<char>>)
    requires
        free_of_required(t),
        schema_map_key(key),
    ensures
        free_of_required(retained_map(t, key, used)),
{
    if let JsonTree::Object(es) = t {
        let m = retained_members(es, key, used);
        let f = m.filter(not_empty_map(key));
        assert forall|i: int| 0 <= i < f.len() implies (#[trigger] f[i]).0 != "required"@ && if schema_map_key(f[i].0) {
            map_free_of_required(f[i].1)
        } else {
            free_of_required(f[i].1)
        } by {
            assert(f.contains(f[i]));
            m.lemma_filter_contains_rev(not_empty_map(key), f[i]);
            let j = choose|j: int| 0 <= j < m.len() && m[j] == f[i];
            assert(es[j].0 != "required"@);
            if es[j].0 == key && es[j].1 is Object {
                lemma_filtered_map_free(es[j].1->Object_0, named_in(used));
            }
        }
    }
}

/// Removing child properties keeps a schema free of `required` lists.
proof fn lemma_without_properties_keeps_free(t: JsonTree, names: Seq<Seq<char>>)
    requires
        free_of_required(t),
    ensures
        free_of_required(without_properties(t, names)),
{
    if let JsonTree::Object(es) = t {
        let r = without_properties(t, names)->Object_0;
        assert forall|i: int| 0 <= i < r.len() implies (#[trigger] r[i]).0 != "required"@ && if schema_map_key(r[i].0) {
            map_free_of_required(r[i].1)
        } else {
            free_of_required(r[i].1)
        } by {
            assert(es[i].0 != "required"@);
            if es[i].0 == "properties"@ && es[i].1 is Object {
                assert(schema_map_key("properties"@));
                lemma_filtered_map_free(es[i].1->Object_0, not_named(names));
            }
        }
    }
}

/// The root output of a schema free of `required` lists is free of them
/// too.
pub proof fn lemma_root_output_free_of_required(full: JsonTree, splits: Seq<Seq<Seq<char>>>)
    requires
        free_of_required(full),
    ensures
        output_schema(full, Seq::empty(), splits) matches Some(t) ==> free_of_required(t),
{
    let owned = without_properties(full, child_section_names(splits, Seq::empty()));
    lemma_without_properties_keeps_free(full, child_section_names(splits, Seq::empty()));
    assert(schema_map_key("definitions"@));
    assert(schema_map_key("$defs"@));
    lemma_retained_keeps_free(owned, "definitions"@, used_names(owned).0);
    let once = retained_map(owned, "definitions"@, used_names(owned).0);
    lemma_retained_keeps_free(once, "$defs"@, used_names(owned).1);
    lemma_stripped_keeps_free(pruned_schema(owned), tree_split_key());
}

} // verus!
