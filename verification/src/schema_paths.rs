//! Section paths of a config schema and the names JSON Schema references
//! point at.

use vstd::prelude::*;
use crate::meta::{pop_segment, push_segment, ConfigMeta, FieldKind};
use crate::text::{chars_of, push_char, string_of};
use crate::transparent_yaml::has_prefix;

verus! {

/// The nested section paths of `meta` below `prefix`, in declaration order,
/// each section before the sections inside it.
pub open spec fn nested_paths(meta: ConfigMeta, prefix: Seq<Seq<char>>) -> Seq<Seq<Seq<char>>>
    decreases meta, 1int, 0int,
{
    nested_paths_upto(meta, prefix, meta.fields@.len() as int)
}

/// The nested section paths contributed by the first `k` fields of `meta`.
pub open spec fn nested_paths_upto(meta: ConfigMeta, prefix: Seq<Seq<char>>, k: int) -> Seq<Seq<Seq<char>>>
    decreases meta, 0int, k,
{
    if k <= 0 || k > meta.fields@.len() {
        Seq::empty()
    } else {
        let rest = nested_paths_upto(meta, prefix, k - 1);
        let f = meta.fields@[k - 1];
        match f.kind {
            FieldKind::Nested { meta: child } => {
                let p = prefix.push(f.name@);
                rest.push(p) + nested_paths(*child, p)
            },
            FieldKind::Leaf { .. } => rest,
        }
    }
}

/// Appends the nested section paths of `meta` below `prefix`.
fn collect_nested_section_paths(meta: &ConfigMeta, prefix: &mut Vec<String>, paths: &mut Vec<Vec<String>>)
    ensures
        final(prefix).deep_view() == old(prefix).deep_view(),
        final(paths).deep_view() == old(paths).deep_view() + nested_paths(*meta, old(prefix).deep_view()),
    decreases meta,
{
    let ghost start = paths.deep_view();
    let ghost pre = prefix.deep_view();
    let n = meta.fields.len();
    let mut i: usize = 0;
    proof {
        assert(paths.deep_view() =~= start + nested_paths_upto(*meta, pre, 0));
    }
    while i < n
        invariant
            n == meta.fields@.len(),
            i <= n,
            prefix.deep_view() == pre,
            paths.deep_view() == start + nested_paths_upto(*meta, pre, i as int),
        decreases n - i,
    {
        let field = &meta.fields[i];
        match &field.kind {
            FieldKind::Nested { meta: child } => {
                push_segment(prefix, &field.name);
                let ghost before = paths.deep_view();
                let copy = crate::tree::clone_strings(prefix);
                paths.push(copy);
                proof {
                    assert(paths.deep_view() =~= before.push(pre.push(field.name@)));
                    assert(decreases_to!(*meta => meta.fields));
                }
                collect_nested_section_paths(child, prefix, paths);
                pop_segment(prefix);
                proof {
                    assert(pre.push(field.name@).drop_last() =~= pre);
                    assert(paths.deep_view() =~= start + nested_paths_upto(*meta, pre, i + 1));
                }
            },
            FieldKind::Leaf { .. } => {},
        }
        i = i + 1;
    }
}

/// Returns every nested section path of a schema, each section before the
/// sections inside it.
pub fn nested_section_paths(meta: &ConfigMeta) -> (r: Vec<Vec<String>>)
    ensures
        r.deep_view() == nested_paths(*meta, Seq::empty()),
{
    let mut prefix: Vec<String> = Vec::new();
    let mut paths: Vec<Vec<String>> = Vec::new();
    proof {
        assert(prefix.deep_view() =~= Seq::<Seq<char>>::empty());
        assert(paths.deep_view() =~= Seq::<Seq<Seq<char>>>::empty());
    }
    collect_nested_section_paths(meta, &mut prefix, &mut paths);
    proof {
        assert(paths.deep_view() =~= nested_paths(*meta, Seq::empty()));
    }
    paths
}

/// The leaf field paths of `meta` below `prefix`, in declaration order.
pub open spec fn leaf_paths(meta: ConfigMeta, prefix: Seq<Seq<char>>) -> Seq<Seq<Seq<char>>>
    decreases meta, 1int, 0int,
{
    leaf_paths_upto(meta, prefix, meta.fields@.len() as int)
}

/// The leaf field paths contributed by the first `k` fields of `meta`.
pub open spec fn leaf_paths_upto(meta: ConfigMeta, prefix: Seq<Seq<char>>, k: int) -> Seq<Seq<Seq<char>>>
    decreases meta, 0int, k,
{
    if k <= 0 || k > meta.fields@.len() {
        Seq::empty()
    } else {
        let rest = leaf_paths_upto(meta, prefix, k - 1);
        let f = meta.fields@[k - 1];
        let p = prefix.push(f.name@);
        match f.kind {
            FieldKind::Nested { meta: child } => rest + leaf_paths(*child, p),
            FieldKind::Leaf { .. } => rest.push(p),
        }
    }
}

/// Appends the leaf field paths of `meta` below `prefix`.
fn collect_leaf_paths(meta: &ConfigMeta, prefix: &mut Vec<String>, paths: &mut Vec<Vec<String>>)
    ensures
        final(prefix).deep_view() == old(prefix).deep_view(),
        final(paths).deep_view() == old(paths).deep_view() + leaf_paths(*meta, old(prefix).deep_view()),
    decreases meta,
{
    let ghost start = paths.deep_view();
    let ghost pre = prefix.deep_view();
    let n = meta.fields.len();
    let mut i: usize = 0;
    proof {
        assert(paths.deep_view() =~= start + leaf_paths_upto(*meta, pre, 0));
    }
    while i < n
        invariant
            n == meta.fields@.len(),
            i <= n,
            prefix.deep_view() == pre,
            paths.deep_view() == start + leaf_paths_upto(*meta, pre, i as int),
        decreases n - i,
    {
        let field = &meta.fields[i];
        push_segment(prefix, &field.name);
        match &field.kind {
            FieldKind::Nested { meta: child } => {
                proof {
                    assert(decreases_to!(*meta => meta.fields));
                }
                collect_leaf_paths(child, prefix, paths);
                proof {
                    assert(paths.deep_view() =~= start + leaf_paths_upto(*meta, pre, i + 1));
                }
            },
            FieldKind::Leaf { .. } => {
                let ghost before = paths.deep_view();
                let copy = crate::tree::clone_strings(prefix);
                paths.push(copy);
                proof {
                    assert(paths.deep_view() =~= before.push(pre.push(field.name@)));
                    assert(paths.deep_view() =~= start + leaf_paths_upto(*meta, pre, i + 1));
                }
            },
        }
        pop_segment(prefix);
        proof {
            assert(pre.push(field.name@).drop_last() =~= pre);
        }
        i = i + 1;
    }
}

/// Returns every leaf field path of a schema, in declaration order.
pub fn leaf_field_paths(meta: &ConfigMeta) -> (r: Vec<Vec<String>>)
    ensures
        r.deep_view() == leaf_paths(*meta, Seq::empty()),
{
    let mut prefix: Vec<String> = Vec::new();
    let mut paths: Vec<Vec<String>> = Vec::new();
    proof {
        assert(prefix.deep_view() =~= Seq::<Seq<char>>::empty());
        assert(paths.deep_view() =~= Seq::<Seq<Seq<char>>>::empty());
    }
    collect_leaf_paths(meta, &mut prefix, &mut paths);
    proof {
        assert(paths.deep_view() =~= leaf_paths(*meta, Seq::empty()));
    }
    paths
}

/// Whether a JSON Schema key holds a map of schemas rather than a schema.
pub open spec fn schema_map_key(key: Seq<char>) -> bool {
    key == "$defs"@ || key == "definitions"@ || key == "properties"@ || key == "patternProperties"@
}

/// Returns whether a JSON Schema key holds a map of schemas.
pub fn is_schema_map_key(key: &str) -> (r: bool)
    ensures
        r == schema_map_key(key@),
{
    crate::text::text_eq(key, "$defs") || crate::text::text_eq(key, "definitions") || crate::text::text_eq(
        key,
        "properties",
    ) || crate::text::text_eq(key, "patternProperties")
}

/// `s` with every `a b` pair (left to right, not overlapping) replaced by
/// `c`.
pub open spec fn replace_pair(s: Seq<char>, a: char, b: char, c: char) -> Seq<char>
    decreases s.len(),
{
    if s.len() == 0 {
        Seq::empty()
    } else if s.len() >= 2 && s[0] == a && s[1] == b {
        seq![c] + replace_pair(s.skip(2), a, b, c)
    } else {
        seq![s[0]] + replace_pair(s.skip(1), a, b, c)
    }
}

/// A JSON Pointer token decoded: `~1` becomes `/`, then `~0` becomes `~`.
pub open spec fn decoded_token(token: Seq<char>) -> Seq<char> {
    replace_pair(replace_pair(token, '~', '1', '/'), '~', '0', '~')
}

/// Replaces each `a b` pair, left to right, by `c`.
fn replace_char_pair(s: &Vec<char>, a: char, b: char, c: char) -> (r: Vec<char>)
    ensures
        r@ == replace_pair(s@, a, b, c),
{
    let n = s.len();
    let mut out: Vec<char> = Vec::new();
    let mut i: usize = 0;
    proof {
        assert(s@.skip(0) =~= s@);
    }
    while i < n
        invariant
            n == s@.len(),
            i <= n,
            out@ + replace_pair(s@.skip(i as int), a, b, c) == replace_pair(s@, a, b, c),
        decreases n - i,
    {
        let ghost rest = s@.skip(i as int);
        if i + 1 < n && s[i] == a && s[i + 1] == b {
            out.push(c);
            proof {
                assert(rest.skip(2) =~= s@.skip(i + 2));
                assert(out@ + replace_pair(s@.skip(i + 2), a, b, c) =~= replace_pair(s@, a, b, c));
            }
            i = i + 2;
        } else {
            out.push(s[i]);
            proof {
                assert(rest.skip(1) =~= s@.skip(i + 1));
                assert(out@ + replace_pair(s@.skip(i + 1), a, b, c) =~= replace_pair(s@, a, b, c));
            }
            i = i + 1;
        }
    }
    proof {
        assert(s@.skip(n as int) =~= Seq::<char>::empty());
        assert(out@ =~= replace_pair(s@, a, b, c));
    }
    out
}

/// Decodes a JSON Pointer token.
pub fn decode_json_pointer_token(token: &str) -> (r: String)
    ensures
        r@ == decoded_token(token@),
{
    let cs = chars_of(token);
    let once = replace_char_pair(&cs, '~', '1', '/');
    let twice = replace_char_pair(&once, '~', '0', '~');
    string_of(twice.as_slice())
}

/// The first `/`-separated piece of `s`.
pub open spec fn first_piece(s: Seq<char>, k: int) -> Seq<char>
    decreases s.len() - k,
{
    if k < 0 || k >= s.len() || s[k] == '/' {
        s.take(if k < 0 { 0 } else if k > s.len() { s.len() as int } else { k })
    } else {
        first_piece(s, k + 1)
    }
}

/// The definition name a reference names under `prefix`: the decoded first
/// segment after the prefix.
pub open spec fn ref_name(reference: Seq<char>, prefix: Seq<char>) -> Option<Seq<char>> {
    if has_prefix(reference, prefix) {
        Some(decoded_token(first_piece(reference.skip(prefix.len() as int), 0)))
    } else {
        None
    }
}

/// Returns the definition name a reference names under `prefix`.
pub fn schema_ref_name(reference: &str, prefix: &str) -> (r: Option<String>)
    ensures
        match ref_name(reference@, prefix@) {
            Some(n) => r is Some && r->0@ == n,
            None => r is None,
        },
{
    if !crate::transparent_yaml::text_has_prefix(reference, prefix) {
        return None;
    }
    let cs = chars_of(reference);
    let start = prefix.unicode_len();
    let ghost rest = reference@.skip(start as int);
    let mut k: usize = start;
    while k < cs.len() && cs[k] != '/'
        invariant
            start <= k <= cs@.len(),
            cs@ == reference@,
            rest == reference@.skip(start as int),
            first_piece(rest, 0) == first_piece(rest, k - start),
        decreases cs@.len() - k,
    {
        k = k + 1;
    }
    proof {
        if k < cs@.len() {
            assert(rest[k - start] == '/');
        }
        assert(first_piece(rest, k - start) =~= rest.take(k - start));
    }
    let mut piece: Vec<char> = Vec::new();
    let mut i: usize = start;
    while i < k
        invariant
            start <= i <= k <= cs@.len(),
            cs@ == reference@,
            piece@ == reference@.subrange(start as int, i as int),
        decreases k - i,
    {
        piece.push(cs[i]);
        i = i + 1;
        proof {
            assert(piece@ =~= reference@.subrange(start as int, i as int));
        }
    }
    proof {
        assert(piece@ =~= rest.take(k - start));
    }
    let text = string_of(piece.as_slice());
    Some(decode_json_pointer_token(text.as_str()))
}

/// Adds a name to a set of names kept as a list without repetitions.
pub fn insert_name(names: &mut Vec<String>, name: String)
    requires
        old(names).deep_view().no_duplicates(),
    ensures
        final(names).deep_view().no_duplicates(),
        final(names).deep_view().to_set() == old(names).deep_view().to_set().insert(name@),
{
    let ghost before = names.deep_view();
    let mut i: usize = 0;
    let mut found = false;
    while i < names.len() && !found
        invariant
            i <= names@.len(),
            names.deep_view() == before,
            found ==> i < names@.len() && names@[i as int]@ == name@,
            !found ==> forall|j: int| 0 <= j < i ==> names@[j]@ != name@,
        decreases names@.len() - i + (if found { 0int } else { 1int }),
    {
        if names[i] == name {
            found = true;
        } else {
            i = i + 1;
        }
    }
    if found {
        proof {
            assert(before[i as int] == name@);
            assert(before.to_set().insert(name@) =~= before.to_set());
        }
        return;
    }
    let ghost nv = name@;
    names.push(name);
    proof {
        assert(names.deep_view() =~= before.push(nv));
        assert(!before.contains(nv)) by {
            if before.contains(nv) {
                let k = choose|k: int| 0 <= k < before.len() && before[k] == nv;
                assert(before[k] == nv);
            }
        }
        assert forall|x: Seq<char>| #[trigger] names.deep_view().to_set().contains(x) <==> before.to_set().insert(nv).contains(x) by {
            if x == nv {
                assert(names.deep_view()[before.len() as int] == x);
            } else if before.contains(x) {
                let k = choose|k: int| 0 <= k < before.len() && before[k] == x;
                assert(names.deep_view()[k] == x);
            }
        }
        assert(names.deep_view().to_set() =~= before.to_set().insert(nv));
    }
}

/// Records the definition a reference points at: a name under
/// `#/definitions/` goes to `definitions`, one under `#/$defs/` to `defs`.
pub fn collect_schema_ref(reference: &str, definitions: &mut Vec<String>, defs: &mut Vec<String>)
    requires
        old(definitions).deep_view().no_duplicates(),
        old(defs).deep_view().no_duplicates(),
    ensures
        final(definitions).deep_view().no_duplicates(),
        final(defs).deep_view().no_duplicates(),
        final(definitions).deep_view().to_set() == match ref_name(reference@, "#/definitions/"@) {
            Some(n) => old(definitions).deep_view().to_set().insert(n),
            None => old(definitions).deep_view().to_set(),
        },
        final(defs).deep_view().to_set() == match ref_name(reference@, "#/definitions/"@) {
            Some(_) => old(defs).deep_view().to_set(),
            None => match ref_name(reference@, "#/$defs/"@) {
                Some(n) => old(defs).deep_view().to_set().insert(n),
                None => old(defs).deep_view().to_set(),
            },
        },
{
    match schema_ref_name(reference, "#/definitions/") {
        Some(name) => {
            insert_name(definitions, name);
        },
        None => match schema_ref_name(reference, "#/$defs/") {
            Some(name) => {
                insert_name(defs, name);
            },
            None => {},
        },
    }
}

} // verus!
