//! The definitions a schema refers to, and the pruning of the definitions
//! that nothing refers to.

use vstd::prelude::*;
use crate::json::{
    entries_tree, get, get_member, items_tree, lemma_array_tree, lemma_object_tree, member, tree_of,
    JsonTree, JsonValue,
};
use crate::schema::{str_member, str_member_of};
use crate::schema_paths::{collect_schema_ref, insert_name, ref_name};
use crate::text::text_eq;

verus! {

/// The name a reference gives in the `definitions` map (`dollar` false) or
/// in the `$defs` map (`dollar` true).
pub open spec fn ref_kind_name(reference: Seq<char>, dollar: bool) -> Option<Seq<char>> {
    if !dollar {
        ref_name(reference, "#/definitions/"@)
    } else {
        match ref_name(reference, "#/definitions/"@) {
            Some(_) => None,
            None => ref_name(reference, "#/$defs/"@),
        }
    }
}

/// The names of one kind that the own `$ref` of a value gives.
pub open spec fn own_refs(t: JsonTree, dollar: bool) -> Set<Seq<char>> {
    match str_member(t, "$ref"@) {
        Some(r) => match ref_kind_name(r, dollar) {
            Some(n) => set![n],
            None => Set::empty(),
        },
        None => Set::empty(),
    }
}

/// Whether a member names a map of definitions.
pub open spec fn is_definitions_key(key: Seq<char>) -> bool {
    key == "definitions"@ || key == "$defs"@
}

/// The names of one kind referred to anywhere in `t`. Unless `all` is set,
/// the members named `definitions` and `$defs` are not entered.
pub open spec fn refs_in(t: JsonTree, all: bool, dollar: bool) -> Set<Seq<char>>
    decreases t, 1int, 0int,
{
    match t {
        JsonTree::Array(items) => refs_in_items(t, all, dollar, items.len() as int),
        JsonTree::Object(es) => own_refs(t, dollar) + refs_in_members(t, all, dollar, es.len() as int),
        _ => Set::empty(),
    }
}

/// The names referred to in the first `k` items of an array.
pub open spec fn refs_in_items(t: JsonTree, all: bool, dollar: bool, k: int) -> Set<Seq<char>>
    decreases t, 0int, k,
{
    match t {
        JsonTree::Array(items) => if k <= 0 || k > items.len() {
            Set::empty()
        } else {
            refs_in_items(t, all, dollar, k - 1) + refs_in(items[k - 1], all, dollar)
        },
        _ => Set::empty(),
    }
}

/// The names referred to in the first `k` members of an object.
pub open spec fn refs_in_members(t: JsonTree, all: bool, dollar: bool, k: int) -> Set<Seq<char>>
    decreases t, 0int, k,
{
    match t {
        JsonTree::Object(es) => if k <= 0 || k > es.len() {
            Set::empty()
        } else {
            refs_in_members(t, all, dollar, k - 1) + if !all && is_definitions_key(es[k - 1].0) {
                Set::empty()
            } else {
                refs_in(es[k - 1].1, all, dollar)
            }
        },
        _ => Set::empty(),
    }
}

/// Collects the names that a value refers to into the two lists, one for
/// `definitions` and one for `$defs`. Unless `all` is set, the members named
/// `definitions` and `$defs` are not entered.
pub fn collect_schema_refs(value: &JsonValue, all: bool, definitions: &mut Vec<String>, defs: &mut Vec<String>)
    requires
        old(definitions).deep_view().no_duplicates(),
        old(defs).deep_view().no_duplicates(),
    ensures
        final(definitions).deep_view().no_duplicates(),
        final(defs).deep_view().no_duplicates(),
        final(definitions).deep_view().to_set() == old(definitions).deep_view().to_set() + refs_in(value@, all, false),
        final(defs).deep_view().to_set() == old(defs).deep_view().to_set() + refs_in(value@, all, true),
    decreases value,
{
    let ghost d0 = definitions.deep_view().to_set();
    let ghost s0 = defs.deep_view().to_set();
    match value {
        JsonValue::Array(items) => {
            proof {
                lemma_array_tree(*items);
                assert(d0 + refs_in_items(value@, all, false, 0) =~= d0);
                assert(s0 + refs_in_items(value@, all, true, 0) =~= s0);
            }
            let mut i: usize = 0;
            while i < items.len()
                invariant
                    i <= items@.len(),
                    *value == JsonValue::Array(*items),
                    value@ == JsonTree::Array(items_tree(items@)),
                    definitions.deep_view().no_duplicates(),
                    defs.deep_view().no_duplicates(),
                    definitions.deep_view().to_set() == d0 + refs_in_items(value@, all, false, i as int),
                    defs.deep_view().to_set() == s0 + refs_in_items(value@, all, true, i as int),
                decreases items@.len() - i,
            {
                proof {
                    assert(decreases_to!(*value => (*value)->Array_0));
                    assert(decreases_to!((*value)->Array_0 => items@));
                    assert(decreases_to!(items@ => items@[i as int]));
                }
                let ghost db = definitions.deep_view().to_set();
                let ghost sb = defs.deep_view().to_set();
                collect_schema_refs(&items[i], all, definitions, defs);
                proof {
                    assert(items_tree(items@)[i as int] == tree_of(items@[i as int]));
                    assert(definitions.deep_view().to_set() =~= d0 + refs_in_items(value@, all, false, i + 1));
                    assert(defs.deep_view().to_set() =~= s0 + refs_in_items(value@, all, true, i + 1));
                }
                i = i + 1;
            }
            proof {
                assert(definitions.deep_view().to_set() =~= d0 + refs_in(value@, all, false));
                assert(defs.deep_view().to_set() =~= s0 + refs_in(value@, all, true));
            }
        },
        JsonValue::Object(es) => {
            proof {
                lemma_object_tree(*es);
            }
            if let Some(reference) = str_member_of(value, "$ref") {
                collect_schema_ref(reference.as_str(), definitions, defs);
            }
            proof {
                assert(definitions.deep_view().to_set() =~= d0 + own_refs(value@, false));
                assert(defs.deep_view().to_set() =~= s0 + own_refs(value@, true));
            }
            let ghost d1 = definitions.deep_view().to_set();
            let ghost s1 = defs.deep_view().to_set();
            let mut i: usize = 0;
            proof {
                assert(d1 + refs_in_members(value@, all, false, 0) =~= d1);
                assert(s1 + refs_in_members(value@, all, true, 0) =~= s1);
            }
            while i < es.len()
                invariant
                    i <= es@.len(),
                    *value == JsonValue::Object(*es),
                    value@ == JsonTree::Object(entries_tree(es@)),
                    definitions.deep_view().no_duplicates(),
                    defs.deep_view().no_duplicates(),
                    definitions.deep_view().to_set() == d1 + refs_in_members(value@, all, false, i as int),
                    defs.deep_view().to_set() == s1 + refs_in_members(value@, all, true, i as int),
                decreases es@.len() - i,
            {
                proof {
                    assert(entries_tree(es@)[i as int] == (es@[i as int].0@, tree_of(es@[i as int].1)));
                }
                let skip = !all && (text_eq(es[i].0.as_str(), "definitions") || text_eq(es[i].0.as_str(), "$defs"));
                if !skip {
                    proof {
                        assert(decreases_to!(*value => (*value)->Object_0));
                        assert(decreases_to!((*value)->Object_0 => es@));
                        assert(decreases_to!(es@ => es@[i as int]));
                        assert(decreases_to!(es@[i as int] => es@[i as int].1));
                    }
                    collect_schema_refs(&es[i].1, all, definitions, defs);
                }
                proof {
                    assert(definitions.deep_view().to_set() =~= d1 + refs_in_members(value@, all, false, i + 1));
                    assert(defs.deep_view().to_set() =~= s1 + refs_in_members(value@, all, true, i + 1));
                }
                i = i + 1;
            }
            proof {
                assert(definitions.deep_view().to_set() =~= d0 + refs_in(value@, all, false));
                assert(defs.deep_view().to_set() =~= s0 + refs_in(value@, all, true));
            }
        },
        _ => {
            proof {
                assert(definitions.deep_view().to_set() =~= d0 + refs_in(value@, all, false));
                assert(defs.deep_view().to_set() =~= s0 + refs_in(value@, all, true));
            }
        },
    }
}

/// The names referred to by the schema named `n` in the root's map
/// `map_key`; none where there is no such schema.
pub open spec fn entry_refs(root: JsonTree, map_key: Seq<char>, n: Seq<char>, dollar: bool) -> Set<Seq<char>> {
    match get(root, map_key) {
        Some(JsonTree::Object(es)) => match member(es, n) {
            Some(s) => refs_in(s, true, dollar),
            None => Set::empty(),
        },
        _ => Set::empty(),
    }
}

/// The names referred to by the schemas named in `names` in the map
/// `map_key`.
pub open spec fn expanded(root: JsonTree, map_key: Seq<char>, names: Set<Seq<char>>, dollar: bool) -> Set<Seq<char>> {
    Set::new(|x: Seq<char>| exists|n: Seq<char>| names.contains(n) && #[trigger] entry_refs(root, map_key, n, dollar).contains(x))
}

/// The names referred to by the schemas named in the first `k` names.
pub open spec fn expanded_upto(root: JsonTree, map_key: Seq<char>, names: Seq<Seq<char>>, k: int, dollar: bool) -> Set<Seq<char>> {
    Set::new(|x: Seq<char>| exists|j: int| 0 <= j < k && #[trigger] entry_refs(root, map_key, names[j], dollar).contains(x))
}

/// Going through all the names of a list expands the set of them.
proof fn lemma_expanded_all(root: JsonTree, map_key: Seq<char>, names: Seq<Seq<char>>, dollar: bool)
    ensures
        expanded_upto(root, map_key, names, names.len() as int, dollar) == expanded(root, map_key, names.to_set(), dollar),
{
    let a = expanded_upto(root, map_key, names, names.len() as int, dollar);
    let b = expanded(root, map_key, names.to_set(), dollar);
    assert forall|x: Seq<char>| a.contains(x) <==> b.contains(x) by {
        if a.contains(x) {
            let j = choose|j: int| 0 <= j < names.len() && #[trigger] entry_refs(root, map_key, names[j], dollar).contains(x);
            assert(names.to_set().contains(names[j]));
        }
        if b.contains(x) {
            let n = choose|n: Seq<char>| names.to_set().contains(n) && #[trigger] entry_refs(root, map_key, n, dollar).contains(x);
            let j = choose|j: int| 0 <= j < names.len() && names[j] == n;
            assert(entry_refs(root, map_key, names[j], dollar).contains(x));
        }
    }
    assert(a =~= b);
}

/// One more name extends the expansion by the names its schema refers to.
proof fn lemma_expanded_step(root: JsonTree, map_key: Seq<char>, names: Seq<Seq<char>>, k: int, dollar: bool)
    requires
        0 <= k < names.len(),
    ensures
        expanded_upto(root, map_key, names, k + 1, dollar) == expanded_upto(root, map_key, names, k, dollar) + entry_refs(
            root,
            map_key,
            names[k],
            dollar,
        ),
{
    let a = expanded_upto(root, map_key, names, k + 1, dollar);
    let b = expanded_upto(root, map_key, names, k, dollar) + entry_refs(root, map_key, names[k], dollar);
    assert forall|x: Seq<char>| a.contains(x) <==> b.contains(x) by {
        if a.contains(x) {
            let j = choose|j: int| 0 <= j < k + 1 && #[trigger] entry_refs(root, map_key, names[j], dollar).contains(x);
            if j < k {
                assert(expanded_upto(root, map_key, names, k, dollar).contains(x));
            }
        }
        if b.contains(x) {
            if !entry_refs(root, map_key, names[k], dollar).contains(x) {
                let j = choose|j: int| 0 <= j < k && #[trigger] entry_refs(root, map_key, names[j], dollar).contains(x);
                assert(0 <= j < k + 1);
            }
        }
    }
    assert(a =~= b);
}

/// The names of each kind after one round of expansion: those already
/// there, and those the schemas named so far refer to.
pub open spec fn next_names(root: JsonTree, defs: Set<Seq<char>>, dollar_defs: Set<Seq<char>>, dollar: bool) -> Set<Seq<char>> {
    (if dollar {
        dollar_defs
    } else {
        defs
    }) + expanded(root, "definitions"@, defs, dollar) + expanded(root, "$defs"@, dollar_defs, dollar)
}

/// Adds the names referred to by the schemas named in `names` in the map
/// `map_key` of the root.
fn expand_names(
    schema: &JsonValue,
    map_key: &str,
    names: &Vec<String>,
    definitions: &mut Vec<String>,
    defs: &mut Vec<String>,
)
    requires
        old(definitions).deep_view().no_duplicates(),
        old(defs).deep_view().no_duplicates(),
    ensures
        final(definitions).deep_view().no_duplicates(),
        final(defs).deep_view().no_duplicates(),
        final(definitions).deep_view().to_set() == old(definitions).deep_view().to_set() + expanded(
            schema@,
            map_key@,
            names.deep_view().to_set(),
            false,
        ),
        final(defs).deep_view().to_set() == old(defs).deep_view().to_set() + expanded(
            schema@,
            map_key@,
            names.deep_view().to_set(),
            true,
        ),
{
    let ghost d0 = definitions.deep_view().to_set();
    let ghost s0 = defs.deep_view().to_set();
    let ghost ns = names.deep_view();
    let map = get_member(schema, map_key);
    let mut i: usize = 0;
    proof {
        assert(expanded_upto(schema@, map_key@, ns, 0, false) =~= Set::empty());
        assert(expanded_upto(schema@, map_key@, ns, 0, true) =~= Set::empty());
        assert(d0 + Set::empty() =~= d0);
        assert(s0 + Set::empty() =~= s0);
    }
    while i < names.len()
        invariant
            i <= names@.len(),
            ns == names.deep_view(),
            crate::json::opt_tree(map) == get(schema@, map_key@),
            definitions.deep_view().no_duplicates(),
            defs.deep_view().no_duplicates(),
            definitions.deep_view().to_set() == d0 + expanded_upto(schema@, map_key@, ns, i as int, false),
            defs.deep_view().to_set() == s0 + expanded_upto(schema@, map_key@, ns, i as int, true),
        decreases names@.len() - i,
    {
        proof {
            lemma_expanded_step(schema@, map_key@, ns, i as int, false);
            lemma_expanded_step(schema@, map_key@, ns, i as int, true);
            assert(ns[i as int] == names@[i as int]@);
        }
        let ghost db = definitions.deep_view().to_set();
        let ghost sb = defs.deep_view().to_set();
        match map {
            Some(JsonValue::Object(es)) => {
                let m = map.unwrap();
                match get_member(m, names[i].as_str()) {
                    Some(s) => {
                        collect_schema_refs(s, true, definitions, defs);
                    },
                    None => {},
                }
                proof {
                    lemma_object_tree(*es);
                }
            },
            _ => {},
        }
        proof {
            assert(definitions.deep_view().to_set() =~= d0 + expanded_upto(schema@, map_key@, ns, i + 1, false));
            assert(defs.deep_view().to_set() =~= s0 + expanded_upto(schema@, map_key@, ns, i + 1, true));
        }
        i = i + 1;
    }
    proof {
        lemma_expanded_all(schema@, map_key@, ns, false);
        lemma_expanded_all(schema@, map_key@, ns, true);
    }
}

/// Adds every name of `more` to `names`.
fn add_names(names: &mut Vec<String>, more: &Vec<String>)
    requires
        old(names).deep_view().no_duplicates(),
    ensures
        final(names).deep_view().no_duplicates(),
        final(names).deep_view().to_set() == old(names).deep_view().to_set() + more.deep_view().to_set(),
{
    let ghost n0 = names.deep_view().to_set();
    let ghost ms = more.deep_view();
    let mut i: usize = 0;
    proof {
        assert(ms.take(0).to_set() =~= Set::empty());
        assert(n0 + Set::empty() =~= n0);
    }
    while i < more.len()
        invariant
            i <= more@.len(),
            ms == more.deep_view(),
            names.deep_view().no_duplicates(),
            names.deep_view().to_set() == n0 + ms.take(i as int).to_set(),
        decreases more@.len() - i,
    {
        let name = more[i].clone();
        proof {
            assert(ms[i as int] == name@);
            assert(ms.take(i + 1) =~= ms.take(i as int).push(name@));
            ms.take(i as int).lemma_push_to_set_commute(name@);
        }
        insert_name(names, name);
        i = i + 1;
        proof {
            assert(names.deep_view().to_set() =~= n0 + ms.take(i as int).to_set());
        }
    }
    proof {
        assert(ms.take(i as int) =~= ms);
    }
}

/// Adds to the two lists the names that the schemas they name refer to.
pub fn collect_transitive_schema_refs(schema: &JsonValue, definitions: &mut Vec<String>, defs: &mut Vec<String>)
    requires
        old(definitions).deep_view().no_duplicates(),
        old(defs).deep_view().no_duplicates(),
    ensures
        final(definitions).deep_view().no_duplicates(),
        final(defs).deep_view().no_duplicates(),
        final(definitions).deep_view().to_set() == next_names(
            schema@,
            old(definitions).deep_view().to_set(),
            old(defs).deep_view().to_set(),
            false,
        ),
        final(defs).deep_view().to_set() == next_names(
            schema@,
            old(definitions).deep_view().to_set(),
            old(defs).deep_view().to_set(),
            true,
        ),
{
    let current_definitions = crate::tree::clone_strings(definitions);
    let current_defs = crate::tree::clone_strings(defs);
    let mut referenced_definitions: Vec<String> = Vec::new();
    let mut referenced_defs: Vec<String> = Vec::new();
    proof {
        assert(referenced_definitions.deep_view().to_set() =~= Set::empty());
        assert(referenced_defs.deep_view().to_set() =~= Set::empty());
    }
    expand_names(schema, "definitions", &current_definitions, &mut referenced_definitions, &mut referenced_defs);
    expand_names(schema, "$defs", &current_defs, &mut referenced_definitions, &mut referenced_defs);
    let ghost d0 = definitions.deep_view().to_set();
    let ghost s0 = defs.deep_view().to_set();
    add_names(definitions, &referenced_definitions);
    add_names(defs, &referenced_defs);
    proof {
        assert(definitions.deep_view().to_set() =~= next_names(schema@, d0, s0, false));
        assert(defs.deep_view().to_set() =~= next_names(schema@, d0, s0, true));
    }
}

/// The names of each kind after `m` rounds of expansion from the names the
/// schema refers to outside its maps of definitions.
pub open spec fn name_rounds(root: JsonTree, m: nat) -> (Set<Seq<char>>, Set<Seq<char>>)
    decreases m,
{
    if m == 0 {
        (refs_in(root, false, false), refs_in(root, false, true))
    } else {
        let p = name_rounds(root, (m - 1) as nat);
        (next_names(root, p.0, p.1, false), next_names(root, p.0, p.1, true))
    }
}

/// After `m` rounds, one more round adds nothing.
pub open spec fn names_settle(root: JsonTree, m: nat) -> bool {
    let p = name_rounds(root, m);
    next_names(root, p.0, p.1, false) == p.0 && next_names(root, p.0, p.1, true) == p.1
}

/// The names of each kind that the schema uses: those it refers to outside
/// its maps of definitions, and, again and again, those the definitions so
/// named refer to, until no more come.
pub open spec fn used_names(root: JsonTree) -> (Set<Seq<char>>, Set<Seq<char>>) {
    name_rounds(root, choose|m: nat| names_settle(root, m))
}

/// Once the rounds settle, they stay the same.
proof fn lemma_rounds_stay(root: JsonTree, a: nat, b: nat)
    requires
        names_settle(root, a),
        a <= b,
    ensures
        name_rounds(root, b) == name_rounds(root, a),
    decreases b - a,
{
    if b > a {
        lemma_rounds_stay(root, a, (b - 1) as nat);
    }
}

/// Where the rounds settle, they are the used names.
proof fn lemma_used_names(root: JsonTree, m: nat)
    requires
        names_settle(root, m),
    ensures
        used_names(root) == name_rounds(root, m),
{
    let c = choose|c: nat| names_settle(root, c);
    assert(names_settle(root, c));
    if c <= m {
        lemma_rounds_stay(root, c, m);
    } else {
        lemma_rounds_stay(root, m, c);
    }
}

/// The names referred to anywhere in the root's map `map_key`.
pub open spec fn map_refs(root: JsonTree, map_key: Seq<char>, dollar: bool) -> Set<Seq<char>> {
    match get(root, map_key) {
        Some(t) => refs_in(t, true, dollar),
        None => Set::empty(),
    }
}

/// The names referred to in a value are finitely many.
proof fn lemma_refs_finite(t: JsonTree, all: bool, dollar: bool)
    ensures
        refs_in(t, all, dollar).finite(),
    decreases t, 1int, 0int,
{
    match t {
        JsonTree::Array(items) => lemma_refs_items_finite(t, all, dollar, items.len() as int),
        JsonTree::Object(es) => {
            lemma_refs_members_finite(t, all, dollar, es.len() as int);
            assert(own_refs(t, dollar).finite());
        },
        _ => {},
    }
}

proof fn lemma_refs_items_finite(t: JsonTree, all: bool, dollar: bool, k: int)
    ensures
        refs_in_items(t, all, dollar, k).finite(),
    decreases t, 0int, k,
{
    if let JsonTree::Array(items) = t {
        if k > 0 && k <= items.len() {
            lemma_refs_items_finite(t, all, dollar, k - 1);
            lemma_refs_finite(items[k - 1], all, dollar);
        }
    }
}

proof fn lemma_refs_members_finite(t: JsonTree, all: bool, dollar: bool, k: int)
    ensures
        refs_in_members(t, all, dollar, k).finite(),
    decreases t, 0int, k,
{
    if let JsonTree::Object(es) = t {
        if k > 0 && k <= es.len() {
            lemma_refs_members_finite(t, all, dollar, k - 1);
            lemma_refs_finite(es[k - 1].1, all, dollar);
        }
    }
}

/// The names referred to by one member are among those of all members.
proof fn lemma_member_refs_within(t: JsonTree, dollar: bool, j: int, k: int)
    requires
        t is Object,
        0 <= j < k <= t->Object_0.len(),
    ensures
        refs_in(t->Object_0[j].1, true, dollar).subset_of(refs_in_members(t, true, dollar, k)),
    decreases k,
{
    if j < k - 1 {
        lemma_member_refs_within(t, dollar, j, k - 1);
    }
}

/// The member found by name is one of the members.
proof fn lemma_member_found(es: Seq<(Seq<char>, JsonTree)>, key: Seq<char>)
    requires
        member(es, key) is Some,
    ensures
        exists|j: int| 0 <= j < es.len() && es[j].1 == member(es, key)->0,
    decreases es.len(),
{
    if es[0].0 != key {
        lemma_member_found(es.skip(1), key);
        let j = choose|j: int| 0 <= j < es.skip(1).len() && es.skip(1)[j].1 == member(es.skip(1), key)->0;
        assert(es[j + 1] == es.skip(1)[j]);
    } else {
        assert(es[0].1 == member(es, key)->0);
    }
}

/// What one named schema refers to lies within what its map refers to.
proof fn lemma_entry_refs_within(root: JsonTree, map_key: Seq<char>, n: Seq<char>, dollar: bool)
    ensures
        entry_refs(root, map_key, n, dollar).subset_of(map_refs(root, map_key, dollar)),
{
    if let Some(JsonTree::Object(es)) = get(root, map_key) {
        if let Some(s) = member(es, n) {
            lemma_member_found(es, n);
            let j = choose|j: int| 0 <= j < es.len() && es[j].1 == member(es, n)->0;
            lemma_member_refs_within(JsonTree::Object(es), dollar, j, es.len() as int);
        }
    }
}

/// An expansion lies within what its map refers to.
proof fn lemma_expanded_within(root: JsonTree, map_key: Seq<char>, names: Set<Seq<char>>, dollar: bool)
    ensures
        expanded(root, map_key, names, dollar).subset_of(map_refs(root, map_key, dollar)),
{
    assert forall|x: Seq<char>| expanded(root, map_key, names, dollar).contains(x) implies map_refs(root, map_key, dollar).contains(x) by {
        let n = choose|n: Seq<char>| names.contains(n) && #[trigger] entry_refs(root, map_key, n, dollar).contains(x);
        lemma_entry_refs_within(root, map_key, n, dollar);
    }
}

/// Every name the rounds can reach.
pub open spec fn name_bound(root: JsonTree, dollar: bool) -> Set<Seq<char>> {
    refs_in(root, false, dollar) + map_refs(root, "definitions"@, dollar) + map_refs(root, "$defs"@, dollar)
}

proof fn lemma_bound_finite(root: JsonTree, dollar: bool)
    ensures
        name_bound(root, dollar).finite(),
{
    lemma_refs_finite(root, false, dollar);
    if let Some(t) = get(root, "definitions"@) {
        lemma_refs_finite(t, true, dollar);
    }
    if let Some(t) = get(root, "$defs"@) {
        lemma_refs_finite(t, true, dollar);
    }
}

/// A round keeps the names within the bound.
proof fn lemma_next_within(root: JsonTree, d: Set<Seq<char>>, s: Set<Seq<char>>, dollar: bool)
    requires
        (if dollar { s } else { d }).subset_of(name_bound(root, dollar)),
    ensures
        next_names(root, d, s, dollar).subset_of(name_bound(root, dollar)),
{
    lemma_expanded_within(root, "definitions"@, d, dollar);
    lemma_expanded_within(root, "$defs"@, s, dollar);
}

/// Members kept in a map of definitions: those named in `used`.
pub open spec fn named_in(used: Set<Seq<char>>) -> spec_fn((Seq<char>, JsonTree)) -> bool {
    |e: (Seq<char>, JsonTree)| used.contains(e.0)
}

/// The members of an object, with the map `key` cut down to the names in
/// `used`.
pub open spec fn retained_members(es: Seq<(Seq<char>, JsonTree)>, key: Seq<char>, used: Set<Seq<char>>) -> Seq<(Seq<char>, JsonTree)> {
    Seq::new(
        es.len(),
        |i: int|
            if es[i].0 == key && es[i].1 is Object {
                (es[i].0, JsonTree::Object(es[i].1->Object_0.filter(named_in(used))))
            } else {
                es[i]
            },
    )
}

/// Drops the map `key` where it is an empty object.
pub open spec fn not_empty_map(key: Seq<char>) -> spec_fn((Seq<char>, JsonTree)) -> bool {
    |e: (Seq<char>, JsonTree)| !(e.0 == key && e.1 is Object && e.1->Object_0.len() == 0)
}

/// A schema with its map `key` cut down to the names in `used`, and removed
/// where nothing is left of it.
pub open spec fn retained_map(t: JsonTree, key: Seq<char>, used: Set<Seq<char>>) -> JsonTree {
    match t {
        JsonTree::Object(es) => JsonTree::Object(retained_members(es, key, used).filter(not_empty_map(key))),
        _ => t,
    }
}

/// Returns whether a name is in a list.
fn listed(names: &Vec<String>, name: &str) -> (r: bool)
    ensures
        r == names.deep_view().to_set().contains(name@),
{
    let mut i: usize = 0;
    while i < names.len()
        invariant
            i <= names@.len(),
            forall|q: int| 0 <= q < i ==> names.deep_view()[q] != name@,
        decreases names@.len() - i,
    {
        if text_eq(names[i].as_str(), name) {
            proof {
                assert(names.deep_view()[i as int] == name@);
            }
            return true;
        }
        i = i + 1;
    }
    proof {
        if names.deep_view().to_set().contains(name@) {
            let q = choose|q: int| 0 <= q < names.deep_view().len() && names.deep_view()[q] == name@;
            assert(names.deep_view()[q] != name@);
        }
    }
    false
}

/// Keeps the members named in `used`.
fn keep_named(members: Vec<(String, JsonValue)>, used: &Vec<String>) -> (r: Vec<(String, JsonValue)>)
    ensures
        entries_tree(r@) == entries_tree(members@).filter(named_in(used.deep_view().to_set())),
{
    let ghost all = members@;
    let ghost et = entries_tree(all);
    let ghost p = named_in(used.deep_view().to_set());
    let mut rest = members;
    let mut out: Vec<(String, JsonValue)> = Vec::new();
    let mut taken: usize = 0;
    let total = rest.len();
    proof {
        assert(rest@ =~= all.skip(0));
        assert(et.take(0) =~= Seq::<(Seq<char>, JsonTree)>::empty());
        assert(entries_tree(out@) =~= et.take(0).filter(p));
    }
    while rest.len() > 0
        invariant
            taken <= all.len(),
            total == all.len(),
            rest@ == all.skip(taken as int),
            et == entries_tree(all),
            p == named_in(used.deep_view().to_set()),
            entries_tree(out@) == et.take(taken as int).filter(p),
        decreases rest@.len(),
    {
        let (name, value) = rest.remove(0);
        proof {
            assert((name, value) == all[taken as int]);
            assert(et.take(taken + 1) =~= et.take(taken as int).push(et[taken as int]));
            et.take(taken as int).lemma_filter_push(et[taken as int], p);
        }
        if listed(used, name.as_str()) {
            proof {
                crate::json::lemma_entries_push(out@, name, value);
            }
            out.push((name, value));
        }
        taken = taken + 1;
        proof {
            assert(rest@ =~= all.skip(taken as int));
        }
    }
    proof {
        assert(et.take(taken as int) =~= et);
    }
    out
}

/// Keeps in the map `key` of a schema only the definitions named in `used`,
/// and removes the map where none is left.
pub fn retain_schema_map(schema: JsonValue, key: &str, used: &Vec<String>) -> (r: JsonValue)
    ensures
        r@ == retained_map(schema@, key@, used.deep_view().to_set()),
{
    match schema {
        JsonValue::Object(es) => {
            let ghost all = es@;
            let ghost mapped = retained_members(entries_tree(all), key@, used.deep_view().to_set());
            proof {
                lemma_object_tree(es);
            }
            let mut rest = es;
            let mut out: Vec<(String, JsonValue)> = Vec::new();
            let mut taken: usize = 0;
            let total = rest.len();
            proof {
                assert(rest@ =~= all.skip(0));
                assert(mapped.take(0) =~= Seq::<(Seq<char>, JsonTree)>::empty());
                assert(entries_tree(out@) =~= mapped.take(0).filter(not_empty_map(key@)));
            }
            while rest.len() > 0
                invariant
                    taken <= all.len(),
                    total == all.len(),
                    rest@ == all.skip(taken as int),
                    mapped == retained_members(entries_tree(all), key@, used.deep_view().to_set()),
                    entries_tree(out@) == mapped.take(taken as int).filter(not_empty_map(key@)),
                decreases rest@.len(),
            {
                let (name, value) = rest.remove(0);
                proof {
                    assert((name, value) == all[taken as int]);
                    assert(mapped.take(taken + 1) =~= mapped.take(taken as int).push(mapped[taken as int]));
                    mapped.take(taken as int).lemma_filter_push(mapped[taken as int], not_empty_map(key@));
                }
                let is_key = text_eq(name.as_str(), key);
                let next = if is_key {
                    match value {
                        JsonValue::Object(m) => {
                            proof {
                                lemma_object_tree(m);
                            }
                            let kept = keep_named(m, used);
                            proof {
                                lemma_object_tree(kept);
                            }
                            JsonValue::Object(kept)
                        },
                        other => other,
                    }
                } else {
                    value
                };
                let drop = match &next {
                    JsonValue::Object(m) => is_key && m.len() == 0,
                    _ => false,
                };
                proof {
                    if next is Object {
                        lemma_object_tree(next->Object_0);
                    }
                    assert(mapped[taken as int] == (name@, tree_of(next)));
                }
                if !drop {
                    proof {
                        crate::json::lemma_entries_push(out@, name, next);
                    }
                    out.push((name, next));
                }
                taken = taken + 1;
                proof {
                    assert(rest@ =~= all.skip(taken as int));
                }
            }
            proof {
                assert(mapped.take(taken as int) =~= mapped);
                lemma_object_tree(out);
            }
            JsonValue::Object(out)
        },
        other => other,
    }
}

/// A schema with its maps of definitions cut down to the definitions it
/// uses.
pub open spec fn pruned_schema(t: JsonTree) -> JsonTree {
    retained_map(retained_map(t, "definitions"@, used_names(t).0), "$defs"@, used_names(t).1)
}

/// Removes the definitions that the schema does not use, and the maps of
/// definitions that are left empty.
pub fn prune_unused_schema_maps(schema: JsonValue) -> (r: JsonValue)
    ensures
        r@ == pruned_schema(schema@),
{
    let ghost root = schema@;
    let mut definitions: Vec<String> = Vec::new();
    let mut defs: Vec<String> = Vec::new();
    proof {
        assert(definitions.deep_view() =~= Seq::<Seq<char>>::empty());
        assert(defs.deep_view() =~= Seq::<Seq<char>>::empty());
    }
    collect_schema_refs(&schema, false, &mut definitions, &mut defs);
    let ghost mut m: nat = 0;
    proof {
        assert(definitions.deep_view().to_set() =~= name_rounds(root, 0).0);
        assert(defs.deep_view().to_set() =~= name_rounds(root, 0).1);
        lemma_bound_finite(root, false);
        lemma_bound_finite(root, true);
        definitions.deep_view().unique_seq_to_set();
        defs.deep_view().unique_seq_to_set();
        vstd::set_lib::lemma_len_subset(definitions.deep_view().to_set(), name_bound(root, false));
        vstd::set_lib::lemma_len_subset(defs.deep_view().to_set(), name_bound(root, true));
    }
    let mut done = false;
    while !done
        invariant
            root == schema@,
            definitions.deep_view().no_duplicates(),
            defs.deep_view().no_duplicates(),
            definitions.deep_view().to_set() == name_rounds(root, m).0,
            defs.deep_view().to_set() == name_rounds(root, m).1,
            definitions.deep_view().to_set().subset_of(name_bound(root, false)),
            defs.deep_view().to_set().subset_of(name_bound(root, true)),
            name_bound(root, false).finite(),
            name_bound(root, true).finite(),
            definitions@.len() <= name_bound(root, false).len(),
            defs@.len() <= name_bound(root, true).len(),
            done ==> names_settle(root, m),
        decreases name_bound(root, false).len() + name_bound(root, true).len() - definitions@.len() - defs@.len() + (
        if done {
            0int
        } else {
            1int
        }),
    {
        let before_definitions = definitions.len();
        let before_defs = defs.len();
        let ghost old_d = definitions.deep_view().to_set();
        let ghost old_s = defs.deep_view().to_set();
        proof {
            definitions.deep_view().unique_seq_to_set();
            defs.deep_view().unique_seq_to_set();
        }
        collect_transitive_schema_refs(&schema, &mut definitions, &mut defs);
        proof {
            lemma_next_within(root, old_d, old_s, false);
            lemma_next_within(root, old_d, old_s, true);
            definitions.deep_view().unique_seq_to_set();
            defs.deep_view().unique_seq_to_set();
            vstd::set_lib::lemma_len_subset(definitions.deep_view().to_set(), name_bound(root, false));
            vstd::set_lib::lemma_len_subset(defs.deep_view().to_set(), name_bound(root, true));
            assert(old_d.subset_of(definitions.deep_view().to_set()));
            assert(old_s.subset_of(defs.deep_view().to_set()));
            vstd::set_lib::lemma_len_subset(old_d, definitions.deep_view().to_set());
            vstd::set_lib::lemma_len_subset(old_s, defs.deep_view().to_set());
        }
        if definitions.len() == before_definitions && defs.len() == before_defs {
            proof {
                vstd::set_lib::lemma_subset_equality(old_d, definitions.deep_view().to_set());
                vstd::set_lib::lemma_subset_equality(old_s, defs.deep_view().to_set());
                assert(names_settle(root, m));
            }
            done = true;
        } else {
            proof {
                m = m + 1;
            }
        }
    }
    proof {
        lemma_used_names(root, m);
    }
    let once = retain_schema_map(schema, "definitions", &definitions);
    retain_schema_map(once, "$defs", &defs)
}

} // verus!
