//! Adapting a generated JSON Schema to partial config files: `required`
//! lists and internal markers removed, `$ref` targets resolved.

use vstd::prelude::*;
use crate::json::{
    copy_json, entries_tree, get, get_member, items_tree, json_pointer, lemma_array_tree,
    lemma_entries_push, lemma_items_push, lemma_object_tree, member, opt_tree, pointer_target,
    tree_of, JsonTree, JsonValue,
};
use crate::text::{chars_of, string_of};
use crate::meta::ConfigMeta;
use crate::schema_paths::{leaf_field_paths, leaf_paths, nested_paths, nested_section_paths, schema_map_key};
use crate::sections::{direct_child_split_section_paths, direct_children};
use crate::text::text_eq;

verus! {

/// Keeps the members not named `key`.
pub open spec fn keep_entry(key: Seq<char>) -> spec_fn((Seq<char>, JsonTree)) -> bool {
    |e: (Seq<char>, JsonTree)| e.0 != key
}

/// `t` with every object member named `key` removed, at every depth.
pub open spec fn stripped_of(t: JsonTree, key: Seq<char>) -> JsonTree
    decreases t,
{
    match t {
        JsonTree::Array(items) => JsonTree::Array(stripped_items(items, key)),
        JsonTree::Object(es) => JsonTree::Object(stripped_members(es, key).filter(keep_entry(key))),
        _ => t,
    }
}

/// Each item stripped of the members named `key`.
pub open spec fn stripped_items(items: Seq<JsonTree>, key: Seq<char>) -> Seq<JsonTree>
    decreases items,
{
    Seq::new(
        items.len(),
        |i: int|
            if 0 <= i < items.len() {
                stripped_of(items[i], key)
            } else {
                JsonTree::Null
            },
    )
}

/// Each member's value stripped of the members named `key`.
pub open spec fn stripped_members(es: Seq<(Seq<char>, JsonTree)>, key: Seq<char>) -> Seq<(Seq<char>, JsonTree)>
    decreases es,
{
    Seq::new(
        es.len(),
        |i: int|
            if 0 <= i < es.len() {
                (es[i].0, stripped_of(es[i].1, key))
            } else {
                (Seq::empty(), JsonTree::Null)
            },
    )
}

/// No object in `t`, at any depth, has a member named `key`.
pub open spec fn lacks_key(t: JsonTree, key: Seq<char>) -> bool
    decreases t,
{
    match t {
        JsonTree::Array(items) => forall|i: int| 0 <= i < items.len() ==> lacks_key(#[trigger] items[i], key),
        JsonTree::Object(es) => forall|i: int|
            0 <= i < es.len() ==> (#[trigger] es[i]).0 != key && lacks_key(es[i].1, key),
        _ => true,
    }
}

/// Removes every object member named `key` from a value, at every depth.
fn strip_key(v: JsonValue, key: &str) -> (r: JsonValue)
    ensures
        r@ == stripped_of(v@, key@),
    decreases v,
{
    let ghost orig = v;
    match v {
        JsonValue::Array(items) => {
            let ghost all = items@;
            let ghost gv = JsonValue::Array(items);
            let mut rest = items;
            let mut out: Vec<JsonValue> = Vec::new();
            let mut taken: usize = 0;
            let total = rest.len();
            proof {
                assert(rest@ =~= all.skip(0));
            }
            while rest.len() > 0
                invariant
                    taken <= all.len(),
                    rest@ == all.skip(taken as int),
                    gv == orig,
                    gv is Array,
                    gv->Array_0@ == all,
                    total == all.len(),
                    orig == v,
                    items_tree(out@) == stripped_items(items_tree(all), key@).take(taken as int),
                decreases rest@.len(),
            {
                let ghost rest_before = rest@;
                let item = rest.remove(0);
                proof {
                    assert(item == all[taken as int]);
                    assert(decreases_to!(gv => gv->Array_0));
                    assert(decreases_to!(gv->Array_0 => gv->Array_0@));
                    assert(decreases_to!(gv->Array_0@ => gv->Array_0@[taken as int]));
                    assert(decreases_to!(orig => item));
                }
                let next = strip_key(item, key);
                proof {
                    lemma_items_push(out@, next);
                }
                out.push(next);
                taken = taken + 1;
                proof {
                    assert(rest@ =~= all.skip(taken as int));
                    assert(items_tree(out@) =~= stripped_items(items_tree(all), key@).take(taken as int));
                }
            }
            proof {
                lemma_array_tree(out);
                assert(orig == JsonValue::Array(gv->Array_0));
                lemma_array_tree(gv->Array_0);
                assert(stripped_items(items_tree(all), key@).take(taken as int) =~= stripped_items(items_tree(all), key@));
            }
            JsonValue::Array(out)
        },
        JsonValue::Object(es) => {
            let ghost all = es@;
            let ghost gv = JsonValue::Object(es);
            let ghost mapped = stripped_members(entries_tree(all), key@);
            let mut rest = es;
            let mut out: Vec<(String, JsonValue)> = Vec::new();
            let mut taken: usize = 0;
            let total = rest.len();
            proof {
                assert(rest@ =~= all.skip(0));
                assert(mapped.take(0) =~= Seq::<(Seq<char>, JsonTree)>::empty());
                assert(entries_tree(out@) =~= mapped.take(0).filter(keep_entry(key@)));
            }
            while rest.len() > 0
                invariant
                    taken <= all.len(),
                    rest@ == all.skip(taken as int),
                    gv == orig,
                    gv is Object,
                    gv->Object_0@ == all,
                    mapped == stripped_members(entries_tree(all), key@),
                    total == all.len(),
                    orig == v,
                    entries_tree(out@) == mapped.take(taken as int).filter(keep_entry(key@)),
                decreases rest@.len(),
            {
                let ghost rest_before = rest@;
                let (name, child) = rest.remove(0);
                proof {
                    assert((name, child) == all[taken as int]);
                    assert(decreases_to!(gv => gv->Object_0));
                    assert(decreases_to!(gv->Object_0 => gv->Object_0@));
                    assert(decreases_to!(gv->Object_0@ => gv->Object_0@[taken as int]));
                    assert(decreases_to!(gv->Object_0@[taken as int] => gv->Object_0@[taken as int].1));
                    assert(decreases_to!(orig => child));
                }
                let ghost before = out@;
                let ghost gname = name;
                let next = strip_key(child, key);
                proof {
                    assert(mapped.take(taken + 1) =~= mapped.take(taken as int).push(mapped[taken as int]));
                    mapped.take(taken as int).lemma_filter_push(mapped[taken as int], keep_entry(key@));
                }
                if !text_eq(name.as_str(), key) {
                    proof {
                        lemma_entries_push(out@, name, next);
                    }
                    out.push((name, next));
                }
                taken = taken + 1;
                proof {
                    assert(rest@ =~= all.skip(taken as int));
                }
            }
            proof {
                assert(mapped.take(taken as int) =~= mapped);
                lemma_object_tree(out);
                assert(orig == JsonValue::Object(gv->Object_0));
                lemma_object_tree(gv->Object_0);
                assert(tree_of(orig)->Object_0 == entries_tree(all));
            }
            JsonValue::Object(out)
        },
        other => other,
    }
}

/// The name of the marker that opts a nested section into splitting.
pub open spec fn tree_split_key() -> Seq<char> {
    "x-tree-split"@
}

/// Removes the split markers from a schema, at every depth.
pub fn remove_tree_split_extensions(v: JsonValue) -> (r: JsonValue)
    ensures
        r@ == stripped_of(v@, tree_split_key()),
{
    strip_key(v, "x-tree-split")
}

/// After the members named `key` are stripped, no object has one.
pub proof fn lemma_stripped_lacks_key(t: JsonTree, key: Seq<char>)
    ensures
        lacks_key(stripped_of(t, key), key),
    decreases t,
{
    match t {
        JsonTree::Array(items) => {
            let r = stripped_items(items, key);
            assert forall|i: int| 0 <= i < r.len() implies lacks_key(#[trigger] r[i], key) by {
                lemma_stripped_lacks_key(items[i], key);
            }
        },
        JsonTree::Object(es) => {
            let m = stripped_members(es, key);
            let f = m.filter(keep_entry(key));
            assert forall|i: int| 0 <= i < f.len() implies (#[trigger] f[i]).0 != key && lacks_key(f[i].1, key) by {
                m.lemma_filter_pred(keep_entry(key), i);
                assert(f.contains(f[i]));
                m.lemma_filter_contains_rev(keep_entry(key), f[i]);
                let j = choose|j: int| 0 <= j < m.len() && m[j] == f[i];
                lemma_stripped_lacks_key(es[j].1, key);
            }
        },
        _ => {},
    }
}

/// The name of the JSON Schema keyword that lists required properties.
pub open spec fn required_key() -> Seq<char> {
    "required"@
}

/// `t` with every `required` list removed from its schemas, at every depth.
/// The values of `properties`, `patternProperties`, `definitions` and
/// `$defs` are maps of schemas, so a property named `required` stays.
pub open spec fn required_free(t: JsonTree) -> JsonTree
    decreases t, 0int,
{
    match t {
        JsonTree::Array(items) => JsonTree::Array(required_free_items(items)),
        JsonTree::Object(es) => JsonTree::Object(required_free_members(es).filter(keep_entry(required_key()))),
        _ => t,
    }
}

/// Each item without `required` lists.
pub open spec fn required_free_items(items: Seq<JsonTree>) -> Seq<JsonTree>
    decreases items, 0int,
{
    Seq::new(
        items.len(),
        |i: int|
            if 0 <= i < items.len() {
                required_free(items[i])
            } else {
                JsonTree::Null
            },
    )
}

/// Each member of a schema without `required` lists; the value of a map
/// keyword is handled as a map of schemas.
pub open spec fn required_free_members(es: Seq<(Seq<char>, JsonTree)>) -> Seq<(Seq<char>, JsonTree)>
    decreases es, 0int,
{
    Seq::new(
        es.len(),
        |i: int|
            if 0 <= i < es.len() {
                (
                    es[i].0,
                    if schema_map_key(es[i].0) {
                        map_required_free(es[i].1)
                    } else {
                        required_free(es[i].1)
                    },
                )
            } else {
                (Seq::empty(), JsonTree::Null)
            },
    )
}

/// A map of schemas without `required` lists: each schema of an object is
/// handled, and any other value as a schema.
pub open spec fn map_required_free(t: JsonTree) -> JsonTree
    decreases t, 1int,
{
    match t {
        JsonTree::Object(es) => JsonTree::Object(map_members_required_free(es)),
        _ => required_free(t),
    }
}

/// Each schema of a map without `required` lists, names kept.
pub open spec fn map_members_required_free(es: Seq<(Seq<char>, JsonTree)>) -> Seq<(Seq<char>, JsonTree)>
    decreases es, 0int,
{
    Seq::new(
        es.len(),
        |i: int|
            if 0 <= i < es.len() {
                (es[i].0, required_free(es[i].1))
            } else {
                (Seq::empty(), JsonTree::Null)
            },
    )
}

/// No schema in `t` has a `required` list.
pub open spec fn free_of_required(t: JsonTree) -> bool
    decreases t, 0int,
{
    match t {
        JsonTree::Array(items) => forall|i: int| 0 <= i < items.len() ==> free_of_required(#[trigger] items[i]),
        JsonTree::Object(es) => forall|i: int|
            0 <= i < es.len() ==> (#[trigger] es[i]).0 != required_key() && if schema_map_key(es[i].0) {
                map_free_of_required(es[i].1)
            } else {
                free_of_required(es[i].1)
            },
        _ => true,
    }
}

/// No schema in a map of schemas has a `required` list.
pub open spec fn map_free_of_required(t: JsonTree) -> bool
    decreases t, 1int,
{
    match t {
        JsonTree::Object(es) => forall|i: int| 0 <= i < es.len() ==> free_of_required(#[trigger] es[i].1),
        _ => free_of_required(t),
    }
}

/// Removes every `required` list from a schema, at every depth.
pub fn remove_required_recursively(v: JsonValue) -> (r: JsonValue)
    ensures
        r@ == required_free(v@),
    decreases v, 0int,
{
    let ghost orig = v;
    match v {
        JsonValue::Array(items) => {
            let ghost all = items@;
            let ghost gv = JsonValue::Array(items);
            let mut rest = items;
            let mut out: Vec<JsonValue> = Vec::new();
            let mut taken: usize = 0;
            let total = rest.len();
            proof {
                assert(rest@ =~= all.skip(0));
            }
            while rest.len() > 0
                invariant
                    taken <= all.len(),
                    rest@ == all.skip(taken as int),
                    gv == orig,
                    gv is Array,
                    gv->Array_0@ == all,
                    total == all.len(),
                    orig == v,
                    items_tree(out@) == required_free_items(items_tree(all)).take(taken as int),
                decreases rest@.len(),
            {
                let item = rest.remove(0);
                proof {
                    assert(item == all[taken as int]);
                    assert(decreases_to!(gv => gv->Array_0));
                    assert(decreases_to!(gv->Array_0 => gv->Array_0@));
                    assert(decreases_to!(gv->Array_0@ => gv->Array_0@[taken as int]));
                    assert(decreases_to!(orig => item));
                }
                let next = remove_required_recursively(item);
                proof {
                    lemma_items_push(out@, next);
                }
                out.push(next);
                taken = taken + 1;
                proof {
                    assert(rest@ =~= all.skip(taken as int));
                    assert(items_tree(out@) =~= required_free_items(items_tree(all)).take(taken as int));
                }
            }
            proof {
                lemma_array_tree(out);
                assert(orig == JsonValue::Array(gv->Array_0));
                lemma_array_tree(gv->Array_0);
                assert(required_free_items(items_tree(all)).take(taken as int) =~= required_free_items(items_tree(all)));
            }
            JsonValue::Array(out)
        },
        JsonValue::Object(es) => {
            let ghost all = es@;
            let ghost gv = JsonValue::Object(es);
            let ghost mapped = required_free_members(entries_tree(all));
            let mut rest = es;
            let mut out: Vec<(String, JsonValue)> = Vec::new();
            let mut taken: usize = 0;
            let total = rest.len();
            proof {
                assert(rest@ =~= all.skip(0));
                assert(mapped.take(0) =~= Seq::<(Seq<char>, JsonTree)>::empty());
                assert(entries_tree(out@) =~= mapped.take(0).filter(keep_entry(required_key())));
            }
            while rest.len() > 0
                invariant
                    taken <= all.len(),
                    rest@ == all.skip(taken as int),
                    gv == orig,
                    gv is Object,
                    gv->Object_0@ == all,
                    mapped == required_free_members(entries_tree(all)),
                    total == all.len(),
                    orig == v,
                    entries_tree(out@) == mapped.take(taken as int).filter(keep_entry(required_key())),
                decreases rest@.len(),
            {
                let (name, child) = rest.remove(0);
                proof {
                    assert((name, child) == all[taken as int]);
                    assert(decreases_to!(gv => gv->Object_0));
                    assert(decreases_to!(gv->Object_0 => gv->Object_0@));
                    assert(decreases_to!(gv->Object_0@ => gv->Object_0@[taken as int]));
                    assert(decreases_to!(gv->Object_0@[taken as int] => gv->Object_0@[taken as int].1));
                    assert(decreases_to!(orig => child));
                }
                let next = if crate::schema_paths::is_schema_map_key(name.as_str()) {
                    remove_required_from_schema_map(child)
                } else {
                    remove_required_recursively(child)
                };
                proof {
                    assert(mapped.take(taken + 1) =~= mapped.take(taken as int).push(mapped[taken as int]));
                    mapped.take(taken as int).lemma_filter_push(mapped[taken as int], keep_entry(required_key()));
                }
                if !text_eq(name.as_str(), "required") {
                    proof {
                        lemma_entries_push(out@, name, next);
                    }
                    out.push((name, next));
                }
                taken = taken + 1;
                proof {
                    assert(rest@ =~= all.skip(taken as int));
                }
            }
            proof {
                assert(mapped.take(taken as int) =~= mapped);
                lemma_object_tree(out);
                assert(orig == JsonValue::Object(gv->Object_0));
                lemma_object_tree(gv->Object_0);
                assert(tree_of(orig)->Object_0 == entries_tree(all));
            }
            JsonValue::Object(out)
        },
        other => other,
    }
}

/// Removes the `required` lists from the schemas of a map of schemas; a
/// value that is not an object is handled as a schema.
pub fn remove_required_from_schema_map(v: JsonValue) -> (r: JsonValue)
    ensures
        r@ == map_required_free(v@),
    decreases v, 1int,
{
    let ghost orig = v;
    match v {
        JsonValue::Object(es) => {
            let ghost all = es@;
            let ghost gv = JsonValue::Object(es);
            let ghost mapped = map_members_required_free(entries_tree(all));
            let mut rest = es;
            let mut out: Vec<(String, JsonValue)> = Vec::new();
            let mut taken: usize = 0;
            let total = rest.len();
            proof {
                assert(rest@ =~= all.skip(0));
            }
            while rest.len() > 0
                invariant
                    taken <= all.len(),
                    rest@ == all.skip(taken as int),
                    gv == orig,
                    gv is Object,
                    gv->Object_0@ == all,
                    mapped == map_members_required_free(entries_tree(all)),
                    total == all.len(),
                    orig == v,
                    entries_tree(out@) == mapped.take(taken as int),
                decreases rest@.len(),
            {
                let (name, child) = rest.remove(0);
                proof {
                    assert((name, child) == all[taken as int]);
                    assert(decreases_to!(gv => gv->Object_0));
                    assert(decreases_to!(gv->Object_0 => gv->Object_0@));
                    assert(decreases_to!(gv->Object_0@ => gv->Object_0@[taken as int]));
                    assert(decreases_to!(gv->Object_0@[taken as int] => gv->Object_0@[taken as int].1));
                    assert(decreases_to!(orig => child));
                }
                let next = remove_required_recursively(child);
                proof {
                    lemma_entries_push(out@, name, next);
                }
                out.push((name, next));
                taken = taken + 1;
                proof {
                    assert(rest@ =~= all.skip(taken as int));
                    assert(entries_tree(out@) =~= mapped.take(taken as int));
                }
            }
            proof {
                assert(mapped.take(taken as int) =~= mapped);
                lemma_object_tree(out);
                assert(orig == JsonValue::Object(gv->Object_0));
                lemma_object_tree(gv->Object_0);
            }
            JsonValue::Object(out)
        },
        other => remove_required_recursively(other),
    }
}

/// After `required` lists are removed, no schema has one.
pub proof fn lemma_required_free(t: JsonTree)
    ensures
        free_of_required(required_free(t)),
        map_free_of_required(map_required_free(t)),
    decreases t,
{
    match t {
        JsonTree::Array(items) => {
            let r = required_free_items(items);
            assert forall|i: int| 0 <= i < r.len() implies free_of_required(#[trigger] r[i]) by {
                lemma_required_free(items[i]);
            }
        },
        JsonTree::Object(es) => {
            let m = required_free_members(es);
            let f = m.filter(keep_entry(required_key()));
            assert forall|i: int| 0 <= i < f.len() implies (#[trigger] f[i]).0 != required_key() && if schema_map_key(f[i].0) {
                map_free_of_required(f[i].1)
            } else {
                free_of_required(f[i].1)
            } by {
                m.lemma_filter_pred(keep_entry(required_key()), i);
                assert(f.contains(f[i]));
                m.lemma_filter_contains_rev(keep_entry(required_key()), f[i]);
                let j = choose|j: int| 0 <= j < m.len() && m[j] == f[i];
                lemma_required_free(es[j].1);
            }
            let mm = map_members_required_free(es);
            assert forall|i: int| 0 <= i < mm.len() implies free_of_required(#[trigger] mm[i].1) by {
                lemma_required_free(es[i].1);
            }
        },
        _ => {},
    }
}

/// The text of the member `key` of an object, where that member is a string.
pub open spec fn str_member(t: JsonTree, key: Seq<char>) -> Option<Seq<char>> {
    match get(t, key) {
        Some(JsonTree::Str(s)) => Some(s),
        _ => None,
    }
}

/// The value a local reference (`#` and a JSON Pointer) names in `root`.
pub open spec fn ref_target(root: JsonTree, reference: Seq<char>) -> Option<JsonTree> {
    if reference.len() > 0 && reference[0] == '#' {
        pointer_target(root, reference.skip(1))
    } else {
        None
    }
}

/// The schema a schema refers to: through its own `$ref`, or else through
/// the `$ref` of the first schema of its `allOf`.
pub open spec fn schema_ref_target(root: JsonTree, schema: JsonTree) -> Option<JsonTree> {
    match str_member(schema, "$ref"@) {
        Some(r) => ref_target(root, r),
        None => match get(schema, "allOf"@) {
            Some(JsonTree::Array(items)) => if items.len() > 0 {
                match str_member(items[0], "$ref"@) {
                    Some(r) => ref_target(root, r),
                    None => None,
                }
            } else {
                None
            },
            _ => None,
        },
    }
}

/// A schema with its reference followed, where it has one that resolves.
pub open spec fn resolved_or(root: JsonTree, schema: JsonTree) -> JsonTree {
    match schema_ref_target(root, schema) {
        Some(t) => t,
        None => schema,
    }
}

/// Returns the string member `key` of an object.
pub(crate) fn str_member_of<'a>(v: &'a JsonValue, key: &str) -> (r: Option<&'a String>)
    ensures
        match r {
            Some(s) => str_member(v@, key@) == Some(s@),
            None => str_member(v@, key@) is None,
        },
{
    match get_member(v, key) {
        Some(JsonValue::Str(s)) => Some(s),
        _ => None,
    }
}

/// Resolves a local reference against the root schema.
pub fn resolve_json_pointer_ref<'a>(root: &'a JsonValue, reference: &str) -> (r: Option<&'a JsonValue>)
    ensures
        opt_tree(r) == ref_target(root@, reference@),
{
    let cs = chars_of(reference);
    if cs.len() == 0 || cs[0] != '#' {
        return None;
    }
    let mut rest: Vec<char> = Vec::new();
    let mut k: usize = 1;
    while k < cs.len()
        invariant
            1 <= k <= cs@.len(),
            rest@ == cs@.subrange(1, k as int),
        decreases cs@.len() - k,
    {
        rest.push(cs[k]);
        k = k + 1;
        proof {
            assert(rest@ =~= cs@.subrange(1, k as int));
        }
    }
    proof {
        assert(rest@ =~= reference@.skip(1));
    }
    let pointer = string_of(rest.as_slice());
    json_pointer(root, pointer.as_str())
}

/// Returns the schema a schema refers to, as `$ref` or as the first schema
/// of `allOf`.
pub fn resolve_schema_reference<'a>(root: &'a JsonValue, schema: &'a JsonValue) -> (r: Option<&'a JsonValue>)
    ensures
        opt_tree(r) == schema_ref_target(root@, schema@),
{
    if let Some(reference) = str_member_of(schema, "$ref") {
        return resolve_json_pointer_ref(root, reference.as_str());
    }
    match get_member(schema, "allOf") {
        Some(JsonValue::Array(items)) => {
            proof {
                lemma_array_tree(*items);
            }
            if items.len() > 0 {
                match str_member_of(&items[0], "$ref") {
                    Some(reference) => resolve_json_pointer_ref(root, reference.as_str()),
                    None => None,
                }
            } else {
                None
            }
        },
        _ => None,
    }
}

/// Follows a schema's reference where it resolves.
fn resolved_schema<'a>(root: &'a JsonValue, schema: &'a JsonValue) -> (r: &'a JsonValue)
    ensures
        r@ == resolved_or(root@, schema@),
{
    match resolve_schema_reference(root, schema) {
        Some(t) => t,
        None => schema,
    }
}

/// The schema of a nested section: from `current`, down through the
/// `properties` of each section of `path`, following references.
pub open spec fn section_at(root: JsonTree, current: JsonTree, path: Seq<Seq<char>>) -> Option<JsonTree>
    decreases path.len(),
{
    if path.len() == 0 {
        Some(current)
    } else {
        match get(current, "properties"@) {
            Some(props) => match get(props, path[0]) {
                Some(p) => section_at(root, resolved_or(root, p), path.skip(1)),
                None => None,
            },
            None => None,
        }
    }
}

/// The property schema of a field, as written, before its reference is
/// followed: the sections before the last are followed through their
/// references.
pub open spec fn property_at(root: JsonTree, current: JsonTree, path: Seq<Seq<char>>) -> Option<JsonTree>
    decreases path.len(),
{
    if path.len() == 0 {
        None
    } else {
        match get(current, "properties"@) {
            Some(props) => match get(props, path[0]) {
                Some(p) => if path.len() == 1 {
                    Some(p)
                } else {
                    property_at(root, resolved_or(root, p), path.skip(1))
                },
                None => None,
            },
            None => None,
        }
    }
}

/// Returns the schema of a nested section as the root schema has it.
fn section_schema_ref<'a>(root: &'a JsonValue, section_path: &Vec<String>) -> (r: Option<&'a JsonValue>)
    ensures
        opt_tree(r) == section_at(root@, root@, section_path.deep_view()),
{
    let ghost all = section_path.deep_view();
    let mut cur: &JsonValue = root;
    let mut i: usize = 0;
    proof {
        assert(all.skip(0) =~= all);
    }
    while i < section_path.len()
        invariant
            i <= section_path@.len(),
            all == section_path.deep_view(),
            section_at(root@, root@, all) == section_at(root@, cur@, all.skip(i as int)),
        decreases section_path@.len() - i,
    {
        proof {
            assert(all.skip(i as int)[0] == all[i as int]);
            assert(all.skip(i as int).skip(1) =~= all.skip(i + 1));
        }
        let props = match get_member(cur, "properties") {
            Some(p) => p,
            None => {
                return None;
            },
        };
        let prop = match get_member(props, section_path[i].as_str()) {
            Some(p) => p,
            None => {
                return None;
            },
        };
        cur = resolved_schema(root, prop);
        i = i + 1;
    }
    Some(cur)
}

/// Returns the property schema of a field path, as written.
pub fn property_schema_for_path<'a>(root: &'a JsonValue, path: &Vec<String>) -> (r: Option<&'a JsonValue>)
    ensures
        opt_tree(r) == property_at(root@, root@, path.deep_view()),
{
    let ghost all = path.deep_view();
    let mut cur: &JsonValue = root;
    let mut i: usize = 0;
    proof {
        assert(all.skip(0) =~= all);
    }
    while i < path.len()
        invariant
            i <= path@.len(),
            all == path.deep_view(),
            property_at(root@, root@, all) == property_at(root@, cur@, all.skip(i as int)),
        decreases path@.len() - i,
    {
        proof {
            assert(all.skip(i as int)[0] == all[i as int]);
            assert(all.skip(i as int).skip(1) =~= all.skip(i + 1));
        }
        let props = match get_member(cur, "properties") {
            Some(p) => p,
            None => {
                return None;
            },
        };
        let prop = match get_member(props, path[i].as_str()) {
            Some(p) => p,
            None => {
                return None;
            },
        };
        if i + 1 == path.len() {
            return Some(prop);
        }
        cur = resolved_schema(root, prop);
        i = i + 1;
    }
    None
}

/// Whether the property schema of a field path carries `marker: true`.
pub open spec fn has_marker(root: JsonTree, path: Seq<Seq<char>>, marker: Seq<char>) -> bool {
    match property_at(root, root, path) {
        Some(p) => get(p, marker) == Some(JsonTree::Bool(true)),
        None => false,
    }
}

/// Returns whether the property schema of a field path carries
/// `marker: true`.
pub fn property_has_marker(root: &JsonValue, path: &Vec<String>, marker: &str) -> (r: bool)
    ensures
        r == has_marker(root@, path.deep_view(), marker@),
{
    match property_schema_for_path(root, path) {
        Some(p) => match get_member(p, marker) {
            Some(JsonValue::Bool(b)) => *b,
            _ => false,
        },
        None => false,
    }
}

/// Returns whether a nested section opts into splitting.
pub fn section_has_tree_split_marker(root: &JsonValue, section_path: &Vec<String>) -> (r: bool)
    ensures
        r == has_marker(root@, section_path.deep_view(), tree_split_key()),
{
    property_has_marker(root, section_path, "x-tree-split")
}

/// The name of the marker that keeps a field out of templates and schemas.
pub open spec fn env_only_key() -> Seq<char> {
    "x-env-only"@
}

/// Returns whether a leaf field is marked as set only from the environment.
pub fn field_has_env_only_marker(root: &JsonValue, field_path: &Vec<String>) -> (r: bool)
    ensures
        r == has_marker(root@, field_path.deep_view(), env_only_key()),
{
    property_has_marker(root, field_path, "x-env-only")
}

/// `members` with `key: value` added at the end where `value` is there and
/// no member is named `key` yet.
pub open spec fn with_default_member(
    members: Seq<(Seq<char>, JsonTree)>,
    key: Seq<char>,
    value: Option<JsonTree>,
) -> Seq<(Seq<char>, JsonTree)> {
    match value {
        Some(x) => if member(members, key) is Some {
            members
        } else {
            members.push((key, x))
        },
        None => members,
    }
}

/// A section schema made standalone: where it is an object, it takes the
/// root's `$schema`, `definitions` and `$defs` that it does not have.
pub open spec fn standalone(root: JsonTree, section: JsonTree) -> JsonTree {
    match section {
        JsonTree::Object(es) => JsonTree::Object(
            with_default_member(
                with_default_member(
                    with_default_member(es, "$schema"@, get(root, "$schema"@)),
                    "definitions"@,
                    get(root, "definitions"@),
                ),
                "$defs"@,
                get(root, "$defs"@),
            ),
        ),
        _ => section,
    }
}

/// Adds a copy of the root's member `key` to an object that lacks it.
fn add_default_member(members: &mut Vec<(String, JsonValue)>, root: &JsonValue, key: &str)
    ensures
        entries_tree(final(members)@) == with_default_member(entries_tree(old(members)@), key@, get(root@, key@)),
{
    if let Some(value) = get_member(root, key) {
        if !has_member_named(members, key) {
            let copy = copy_json(value);
            let name = key.to_string();
            proof {
                lemma_entries_push(members@, name, copy);
            }
            members.push((name, copy));
        }
    }
}

/// Returns whether a list of members has one named `key`.
fn has_member_named(members: &Vec<(String, JsonValue)>, key: &str) -> (r: bool)
    ensures
        r == (member(entries_tree(members@), key@) is Some),
{
    let ghost all = entries_tree(members@);
    let mut i: usize = 0;
    proof {
        assert(all.skip(0) =~= all);
    }
    while i < members.len()
        invariant
            i <= members@.len(),
            all == entries_tree(members@),
            member(all, key@) == member(all.skip(i as int), key@),
        decreases members@.len() - i,
    {
        if text_eq(members[i].0.as_str(), key) {
            proof {
                assert(all.skip(i as int)[0] == all[i as int]);
            }
            return true;
        }
        proof {
            assert(all.skip(i as int).skip(1) =~= all.skip(i + 1));
        }
        i = i + 1;
    }
    false
}

/// Makes a section schema standalone.
pub fn standalone_section_schema(root: &JsonValue, section: JsonValue) -> (r: JsonValue)
    ensures
        r@ == standalone(root@, section@),
{
    match section {
        JsonValue::Object(es) => {
            let mut members = es;
            add_default_member(&mut members, root, "$schema");
            add_default_member(&mut members, root, "definitions");
            add_default_member(&mut members, root, "$defs");
            proof {
                lemma_object_tree(members);
                lemma_object_tree(es);
            }
            JsonValue::Object(members)
        },
        other => other,
    }
}

/// The standalone schema of a nested section, where the path leads to one.
pub open spec fn section_schema(root: JsonTree, path: Seq<Seq<char>>) -> Option<JsonTree> {
    match section_at(root, root, path) {
        Some(t) => Some(standalone(root, t)),
        None => None,
    }
}

/// Extracts the schema of a nested section and makes it standalone.
pub fn section_schema_for_path(root: &JsonValue, section_path: &Vec<String>) -> (r: Option<JsonValue>)
    ensures
        match r {
            Some(v) => section_schema(root@, section_path.deep_view()) == Some(v@),
            None => section_schema(root@, section_path.deep_view()) is None,
        },
{
    match section_schema_ref(root, section_path) {
        Some(found) => {
            let copy = copy_json(found);
            Some(standalone_section_schema(root, copy))
        },
        None => None,
    }
}

/// Keeps the field paths that carry `marker: true` in `root`.
pub open spec fn marked(root: JsonTree, marker: Seq<char>) -> spec_fn(Seq<Seq<char>>) -> bool {
    |p: Seq<Seq<char>>| has_marker(root, p, marker)
}

/// Keeps the paths of `paths` that carry `marker: true` in `root`.
fn marked_paths(root: &JsonValue, paths: Vec<Vec<String>>, marker: &str) -> (r: Vec<Vec<String>>)
    ensures
        r.deep_view() == paths.deep_view().filter(marked(root@, marker@)),
{
    let ghost all = paths.deep_view();
    let mut out: Vec<Vec<String>> = Vec::new();
    let mut i: usize = 0;
    proof {
        assert(all.take(0) =~= Seq::<Seq<Seq<char>>>::empty());
        assert(out.deep_view() =~= all.take(0).filter(marked(root@, marker@)));
    }
    while i < paths.len()
        invariant
            i <= paths@.len(),
            all == paths.deep_view(),
            out.deep_view() == all.take(i as int).filter(marked(root@, marker@)),
        decreases paths@.len() - i,
    {
        let p = &paths[i];
        proof {
            assert(all[i as int] == p.deep_view());
            assert(all.take(i + 1) =~= all.take(i as int).push(all[i as int]));
            all.take(i as int).lemma_filter_push(all[i as int], marked(root@, marker@));
        }
        if property_has_marker(root, p, marker) {
            let ghost before = out.deep_view();
            let c = crate::tree::clone_strings(p);
            out.push(c);
            proof {
                assert(out.deep_view() =~= before.push(all[i as int]));
            }
        }
        i = i + 1;
    }
    proof {
        assert(all.take(i as int) =~= all);
    }
    out
}

/// Returns the nested sections whose property schema opts into splitting,
/// in declaration order.
pub fn split_section_paths(meta: &ConfigMeta, full_schema: &JsonValue) -> (r: Vec<Vec<String>>)
    ensures
        r.deep_view() == nested_paths(*meta, Seq::empty()).filter(marked(full_schema@, tree_split_key())),
{
    let all = nested_section_paths(meta);
    marked_paths(full_schema, all, "x-tree-split")
}

/// Returns the leaf fields whose property schema marks them as set only from
/// the environment, in declaration order.
pub fn env_only_field_paths(meta: &ConfigMeta, full_schema: &JsonValue) -> (r: Vec<Vec<String>>)
    ensures
        r.deep_view() == leaf_paths(*meta, Seq::empty()).filter(marked(full_schema@, env_only_key())),
{
    let all = leaf_field_paths(meta);
    marked_paths(full_schema, all, "x-env-only")
}

/// The last segments of some paths.
pub open spec fn last_segments(paths: Seq<Seq<Seq<char>>>) -> Seq<Seq<char>> {
    Seq::new(paths.len(), |i: int| paths[i].last())
}

/// Keeps the members not named in `names`.
pub open spec fn not_named(names: Seq<Seq<char>>) -> spec_fn((Seq<char>, JsonTree)) -> bool {
    |e: (Seq<char>, JsonTree)| !names.contains(e.0)
}

/// A schema whose `properties` object lacks the properties named in `names`.
pub open spec fn without_properties(t: JsonTree, names: Seq<Seq<char>>) -> JsonTree {
    match t {
        JsonTree::Object(es) => JsonTree::Object(
            Seq::new(
                es.len(),
                |i: int|
                    if es[i].0 == "properties"@ && es[i].1 is Object {
                        (es[i].0, JsonTree::Object(es[i].1->Object_0.filter(not_named(names))))
                    } else {
                        es[i]
                    },
            ),
        ),
        _ => t,
    }
}

/// The properties of the split sections directly below `section`, which
/// their own files complete.
pub open spec fn child_section_names(splits: Seq<Seq<Seq<char>>>, section: Seq<Seq<char>>) -> Seq<Seq<char>> {
    last_segments(direct_children(splits, section, splits.len() as int))
}

/// Removes from an object the members named in `names`.
fn drop_named_members(members: Vec<(String, JsonValue)>, names: &Vec<String>) -> (r: Vec<(String, JsonValue)>)
    ensures
        entries_tree(r@) == entries_tree(members@).filter(not_named(names.deep_view())),
{
    let ghost all = members@;
    let ghost et = entries_tree(all);
    let mut rest = members;
    let mut out: Vec<(String, JsonValue)> = Vec::new();
    let mut taken: usize = 0;
    let total = rest.len();
    proof {
        assert(rest@ =~= all.skip(0));
        assert(et.take(0) =~= Seq::<(Seq<char>, JsonTree)>::empty());
        assert(entries_tree(out@) =~= et.take(0).filter(not_named(names.deep_view())));
    }
    while rest.len() > 0
        invariant
            taken <= all.len(),
            total == all.len(),
            rest@ == all.skip(taken as int),
            et == entries_tree(all),
            entries_tree(out@) == et.take(taken as int).filter(not_named(names.deep_view())),
        decreases rest@.len(),
    {
        let (name, value) = rest.remove(0);
        proof {
            assert((name, value) == all[taken as int]);
            assert(et.take(taken + 1) =~= et.take(taken as int).push(et[taken as int]));
            et.take(taken as int).lemma_filter_push(et[taken as int], not_named(names.deep_view()));
        }
        let mut listed = false;
        let mut j: usize = 0;
        while j < names.len() && !listed
            invariant
                j <= names@.len(),
                listed ==> names.deep_view().contains(name@),
                !listed ==> forall|q: int| 0 <= q < j ==> names.deep_view()[q] != name@,
            decreases names@.len() - j + (if listed { 0int } else { 1int }),
        {
            if text_eq(names[j].as_str(), name.as_str()) {
                listed = true;
                proof {
                    assert(names.deep_view()[j as int] == name@);
                }
            } else {
                j = j + 1;
            }
        }
        if !listed {
            proof {
                assert(!names.deep_view().contains(name@)) by {
                    if names.deep_view().contains(name@) {
                        let q = choose|q: int| 0 <= q < names.deep_view().len() && names.deep_view()[q] == name@;
                        assert(names.deep_view()[q] != name@);
                    }
                }
                lemma_entries_push(out@, name, value);
            }
            out.push((name, value));
        }
        taken = taken + 1;
        proof {
            assert(rest@ =~= all.skip(taken as int));
        }
    }
    proof {
        assert(et.take(taken as int) =~= et);
    }
    out
}

/// Removes from a schema's `properties` the properties named in `names`.
fn remove_properties_named(schema: JsonValue, names: &Vec<String>) -> (r: JsonValue)
    ensures
        r@ == without_properties(schema@, names.deep_view()),
{
    match schema {
        JsonValue::Object(es) => {
            let ghost all = es@;
            let ghost spec_out = without_properties(tree_of(JsonValue::Object(es)), names.deep_view())->Object_0;
            proof {
                lemma_object_tree(es);
            }
            let mut rest = es;
            let mut out: Vec<(String, JsonValue)> = Vec::new();
            let mut taken: usize = 0;
            let total = rest.len();
            proof {
                assert(rest@ =~= all.skip(0));
            }
            while rest.len() > 0
                invariant
                    taken <= all.len(),
                    total == all.len(),
                    rest@ == all.skip(taken as int),
                    spec_out == without_properties(JsonTree::Object(entries_tree(all)), names.deep_view())->Object_0,
                    entries_tree(out@) == spec_out.take(taken as int),
                decreases rest@.len(),
            {
                let (name, value) = rest.remove(0);
                proof {
                    assert((name, value) == all[taken as int]);
                }
                let next = if text_eq(name.as_str(), "properties") {
                    match value {
                        JsonValue::Object(props) => {
                            proof {
                                lemma_object_tree(props);
                            }
                            let kept = drop_named_members(props, names);
                            proof {
                                lemma_object_tree(kept);
                            }
                            JsonValue::Object(kept)
                        },
                        other => other,
                    }
                } else {
                    value
                };
                proof {
                    lemma_entries_push(out@, name, next);
                }
                out.push((name, next));
                taken = taken + 1;
                proof {
                    assert(rest@ =~= all.skip(taken as int));
                    assert(entries_tree(out@) =~= spec_out.take(taken as int));
                }
            }
            proof {
                assert(spec_out.take(taken as int) =~= spec_out);
                lemma_object_tree(out);
            }
            JsonValue::Object(out)
        },
        other => other,
    }
}

/// Every direct child path is one segment longer than its parent.
proof fn lemma_direct_children_len(splits: Seq<Seq<Seq<char>>>, section: Seq<Seq<char>>, k: int)
    ensures
        forall|q: int|
            0 <= q < direct_children(splits, section, k).len() ==> (#[trigger] direct_children(splits, section, k)[q]).len()
                == section.len() + 1,
    decreases k,
{
    if k > 0 && k <= splits.len() {
        lemma_direct_children_len(splits, section, k - 1);
        let prev = direct_children(splits, section, k - 1);
        let cur = direct_children(splits, section, k);
        assert forall|q: int| 0 <= q < cur.len() implies (#[trigger] cur[q]).len() == section.len() + 1 by {
            if q < prev.len() {
                assert(cur[q] == prev[q]);
            }
        }
    }
}

/// Removes from a section's schema the split sections directly below it,
/// which their own schema files complete.
pub fn remove_child_section_properties(schema: JsonValue, section_path: &Vec<String>, split_paths: &Vec<Vec<String>>) -> (r: JsonValue)
    ensures
        r@ == without_properties(schema@, child_section_names(split_paths.deep_view(), section_path.deep_view())),
{
    let children = direct_child_split_section_paths(section_path, split_paths);
    let ghost kids = children.deep_view();
    proof {
        lemma_direct_children_len(split_paths.deep_view(), section_path.deep_view(), split_paths@.len() as int);
    }
    let mut names: Vec<String> = Vec::new();
    let mut i: usize = 0;
    while i < children.len()
        invariant
            i <= children@.len(),
            kids == children.deep_view(),
            kids == direct_children(split_paths.deep_view(), section_path.deep_view(), split_paths@.len() as int),
            forall|q: int| 0 <= q < kids.len() ==> (#[trigger] kids[q]).len() == section_path@.len() + 1,
            names.deep_view() == last_segments(kids).take(i as int),
        decreases children@.len() - i,
    {
        let p = &children[i];
        proof {
            assert(kids[i as int] == p.deep_view());
            assert(p@.len() == section_path@.len() + 1);
        }
        let last = p[p.len() - 1].clone();
        let ghost before = names.deep_view();
        proof {
            assert(last@ == p.deep_view()[p@.len() - 1]);
            assert(last@ == kids[i as int].last());
        }
        names.push(last);
        i = i + 1;
        proof {
            assert(names.deep_view() =~= before.push(last_segments(kids)[i - 1]));
            assert(names.deep_view() =~= last_segments(kids).take(i as int));
        }
    }
    proof {
        assert(last_segments(kids).take(i as int) =~= last_segments(kids));
    }
    remove_properties_named(schema, &names)
}

/// What a map of schemas free of `required` lists says of its members.
pub proof fn lemma_map_free_members(es: Seq<(Seq<char>, JsonTree)>)
    ensures
        map_free_of_required(JsonTree::Object(es)) <==> forall|k: int| 0 <= k < es.len() ==> free_of_required(#[trigger] es[k].1),
{
    reveal_with_fuel(map_free_of_required, 2);
    let t = JsonTree::Object(es);
    assert(t->Object_0 == es);
}

} // verus!
