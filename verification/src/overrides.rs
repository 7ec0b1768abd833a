//! Merging override dictionaries: a later override value replaces an
//! earlier one at the same key, and two dictionaries at the same key are
//! merged key by key.

use vstd::prelude::*;
use crate::config_env::{is_valid_override_path, valid_override_path};
use crate::text::{chars_of, string_of, text_eq};

verus! {

/// An override value: a dictionary with its tag, or another value carried
/// as it is.
#[derive(Debug)]
pub enum OverrideValue<V, T> {
    /// A dictionary: its tag and its entries in order.
    Dict(T, Vec<(String, OverrideValue<V, T>)>),
    /// Any other value.
    Leaf(V),
}

/// The mathematical model of an override value.
pub enum OverrideTree<V, T> {
    Dict(T, Seq<(Seq<char>, OverrideTree<V, T>)>),
    Leaf(V),
}

/// The model of a value.
pub open spec fn override_tree<V, T>(v: OverrideValue<V, T>) -> OverrideTree<V, T>
    decreases v,
{
    match v {
        OverrideValue::Dict(tag, es) => OverrideTree::Dict(
            tag,
            Seq::new(
                es@.len(),
                |i: int|
                    if 0 <= i < es@.len() {
                        (es@[i].0@, override_tree(es@[i].1))
                    } else {
                        (Seq::empty(), OverrideTree::Dict(tag, Seq::empty()))
                    },
            ),
        ),
        OverrideValue::Leaf(x) => OverrideTree::Leaf(x),
    }
}

/// The model of a list of entries.
pub open spec fn entries_model<V, T>(es: Seq<(String, OverrideValue<V, T>)>) -> Seq<(Seq<char>, OverrideTree<V, T>)> {
    Seq::new(es.len(), |i: int| (es[i].0@, override_tree(es[i].1)))
}

/// The model of a dictionary is its tag and the models of its entries.
pub proof fn lemma_dict_tree<V, T>(tag: T, es: Vec<(String, OverrideValue<V, T>)>)
    ensures
        override_tree(OverrideValue::Dict(tag, es)) == OverrideTree::Dict(tag, entries_model(es@)),
{
    assert(override_tree(OverrideValue::Dict(tag, es))->Dict_1 =~= entries_model(es@));
}

/// The index of the first entry named `key`.
pub open spec fn first_index<A>(es: Seq<(Seq<char>, A)>, key: Seq<char>, k: int) -> Option<int>
    decreases es.len() - k,
{
    if k < 0 || k >= es.len() {
        None
    } else if es[k].0 == key {
        Some(k)
    } else {
        first_index(es, key, k + 1)
    }
}

/// `target` with the entries of `source` merged in, one after the other:
/// each source entry takes out the first target entry of its name and is
/// added at the end; where both are dictionaries, they are merged and keep
/// the target's tag.
pub open spec fn merged_entries<V, T>(
    target: Seq<(Seq<char>, OverrideTree<V, T>)>,
    source: Seq<(Seq<char>, OverrideTree<V, T>)>,
) -> Seq<(Seq<char>, OverrideTree<V, T>)>
    decreases source,
{
    if source.len() == 0 {
        target
    } else {
        let acc = merged_entries(target, source.drop_last());
        let key = source.last().0;
        let value = source.last().1;
        match first_index(acc, key, 0) {
            Some(i) => {
                let rest = acc.remove(i);
                match (acc[i].1, value) {
                    (OverrideTree::Dict(tag, old), OverrideTree::Dict(_, new)) => rest.push(
                        (key, OverrideTree::Dict(tag, merged_entries(old, new))),
                    ),
                    _ => rest.push((key, value)),
                }
            },
            None => acc.push((key, value)),
        }
    }
}

/// The value of the first entry named `key`, scanning from the front.
pub open spec fn lookup_entry<V, T>(es: Seq<(Seq<char>, OverrideTree<V, T>)>, key: Seq<char>) -> Option<OverrideTree<V, T>>
    decreases es.len(),
{
    if es.len() == 0 {
        None
    } else if es[0].0 == key {
        Some(es[0].1)
    } else {
        lookup_entry(es.drop_first(), key)
    }
}

/// The value found by following the keys of `path` through nested
/// dictionaries.
pub open spec fn lookup_path<V, T>(es: Seq<(Seq<char>, OverrideTree<V, T>)>, path: Seq<Seq<char>>) -> Option<OverrideTree<V, T>>
    decreases path.len(),
{
    if path.len() == 0 {
        None
    } else {
        match lookup_entry(es, path[0]) {
            None => None,
            Some(v) => if path.len() == 1 {
                Some(v)
            } else {
                match v {
                    OverrideTree::Dict(_, children) => lookup_path(children, path.drop_first()),
                    OverrideTree::Leaf(_) => None,
                }
            },
        }
    }
}

/// No two entries share a key.
pub open spec fn keys_distinct<V, T>(es: Seq<(Seq<char>, OverrideTree<V, T>)>) -> bool {
    forall|i: int, j: int| 0 <= i < j < es.len() ==> #[trigger] es[i].0 != #[trigger] es[j].0
}

/// No dictionary among the entries, at any depth, has two entries with one
/// key.
pub open spec fn entries_distinct<V, T>(es: Seq<(Seq<char>, OverrideTree<V, T>)>) -> bool
    decreases es, 0int,
{
    &&& keys_distinct(es)
    &&& forall|i: int| 0 <= i < es.len() ==> value_distinct(#[trigger] es[i].1)
}

/// No dictionary in the value, at any depth, has two entries with one key.
pub open spec fn value_distinct<V, T>(v: OverrideTree<V, T>) -> bool
    decreases v, 1int,
{
    match v {
        OverrideTree::Dict(_, es) => entries_distinct(es),
        OverrideTree::Leaf(_) => true,
    }
}

proof fn lemma_first_index<A>(es: Seq<(Seq<char>, A)>, key: Seq<char>, k: int)
    requires
        0 <= k,
    ensures
        first_index(es, key, k) matches Some(i) ==> k <= i < es.len() && es[i].0 == key,
        first_index(es, key, k) is None ==> forall|j: int| k <= j < es.len() ==> #[trigger] es[j].0 != key,
    decreases es.len() - k,
{
    if k < es.len() && es[k].0 != key {
        lemma_first_index(es, key, k + 1);
    }
}

proof fn lemma_lookup_entry<V, T>(es: Seq<(Seq<char>, OverrideTree<V, T>)>, key: Seq<char>)
    ensures
        (forall|j: int| 0 <= j < es.len() ==> #[trigger] es[j].0 != key) ==> lookup_entry(es, key) is None,
        keys_distinct(es) ==> forall|j: int|
            0 <= j < es.len() && #[trigger] es[j].0 == key ==> lookup_entry(es, key) == Some(es[j].1),
    decreases es.len(),
{
    if es.len() > 0 {
        let t = es.drop_first();
        lemma_lookup_entry(t, key);
        assert forall|j: int| 0 <= j < t.len() implies #[trigger] t[j] == es[j + 1] by {}
        if keys_distinct(es) {
            assert(keys_distinct(t)) by {
                assert forall|a: int, b: int| 0 <= a < b < t.len() implies #[trigger] t[a].0 != #[trigger] t[b].0 by {
                    assert(es[a + 1].0 != es[b + 1].0);
                }
            }
            assert forall|j: int| 0 <= j < es.len() && #[trigger] es[j].0 == key implies lookup_entry(es, key) == Some(
                es[j].1) by {
                if j > 0 {
                    assert(es[0].0 != es[j].0);
                    assert(t[j - 1] == es[j]);
                }
            }
        }
        if forall|j: int| 0 <= j < es.len() ==> #[trigger] es[j].0 != key {
            assert forall|j: int| 0 <= j < t.len() implies #[trigger] t[j].0 != key by {
                assert(t[j] == es[j + 1]);
            }
        }
    }
}

/// The lookup of a path goes through the lookup of its first key.
proof fn lemma_lookup_path_head<V, T>(
    a: Seq<(Seq<char>, OverrideTree<V, T>)>,
    b: Seq<(Seq<char>, OverrideTree<V, T>)>,
    path: Seq<Seq<char>>,
)
    requires
        path.len() > 0,
        lookup_entry(a, path[0]) == lookup_entry(b, path[0]),
    ensures
        lookup_path(a, path) == lookup_path(b, path),
{
}

/// Merging keeps every dictionary free of repeated keys.
pub proof fn lemma_merge_keeps_keys_distinct<V, T>(
    target: Seq<(Seq<char>, OverrideTree<V, T>)>,
    source: Seq<(Seq<char>, OverrideTree<V, T>)>,
)
    requires
        entries_distinct(target),
        entries_distinct(source),
    ensures
        entries_distinct(merged_entries(target, source)),
    decreases source,
{
    if source.len() > 0 {
        let init = source.drop_last();
        assert(entries_distinct(init)) by {
            assert forall|a: int, b: int| 0 <= a < b < init.len() implies #[trigger] init[a].0 != #[trigger] init[b].0 by {
                assert(source[a].0 != source[b].0);
            }
            assert forall|i: int| 0 <= i < init.len() implies value_distinct(#[trigger] init[i].1) by {
                assert(init[i] == source[i]);
            }
        }
        lemma_merge_keeps_keys_distinct(target, init);
        let acc = merged_entries(target, init);
        let key = source.last().0;
        let value = source.last().1;
        assert(value_distinct(value)) by {
            assert(source[source.len() - 1] == source.last());
        }
        lemma_first_index(acc, key, 0);
        match first_index(acc, key, 0) {
            Some(i) => {
                let rest = acc.remove(i);
                let c = match (acc[i].1, value) {
                    (OverrideTree::Dict(tag, old), OverrideTree::Dict(_, new)) => {
                        assert(value_distinct(acc[i].1));
                        assert(decreases_to!(source => source[source.len() - 1]));
                        assert(source[source.len() - 1] == source.last());
                        lemma_merge_keeps_keys_distinct(old, new);
                        OverrideTree::Dict(tag, merged_entries(old, new))
                    },
                    _ => value,
                };
                assert(value_distinct(c)) by {
                    assert(value_distinct(acc[i].1));
                }
                let out = rest.push((key, c));
                assert(merged_entries(target, source) == out);
                assert forall|j: int| 0 <= j < rest.len() implies #[trigger] rest[j] == (if j < i {
                    acc[j]
                } else {
                    acc[j + 1]
                }) by {}
                assert forall|a: int, b: int| 0 <= a < b < out.len() implies #[trigger] out[a].0 != #[trigger] out[b].0 by {
                    if b < rest.len() {
                        let a2 = if a < i { a } else { a + 1 };
                        let b2 = if b < i { b } else { b + 1 };
                        assert(acc[a2].0 != acc[b2].0);
                    } else {
                        let a2 = if a < i { a } else { a + 1 };
                        assert(acc[a2].0 != acc[i].0);
                    }
                }
                assert forall|j: int| 0 <= j < out.len() implies value_distinct(#[trigger] out[j].1) by {
                    if j < rest.len() {
                        let j2 = if j < i { j } else { j + 1 };
                        assert(value_distinct(acc[j2].1));
                    }
                }
            },
            None => {
                let out = acc.push((key, value));
                assert(merged_entries(target, source) == out);
                assert forall|a: int, b: int| 0 <= a < b < out.len() implies #[trigger] out[a].0 != #[trigger] out[b].0 by {
                    if b < acc.len() {
                        assert(acc[a].0 != acc[b].0);
                    } else {
                        assert(acc[a].0 != key);
                    }
                }
                assert forall|j: int| 0 <= j < out.len() implies value_distinct(#[trigger] out[j].1) by {
                    if j < acc.len() {
                        assert(value_distinct(acc[j].1));
                    }
                }
            },
        }
    }
}

/// Merging `source` into `target` makes every value that `source` holds
/// at a path of keys, other than a dictionary, the value found at that path:
/// a later value replaces an earlier one at the same key, and dictionaries
/// at the same key are merged rather than put side by side. Dictionaries
/// have distinct keys on both sides.
pub proof fn lemma_merge_source_wins<V, T>(
    target: Seq<(Seq<char>, OverrideTree<V, T>)>,
    source: Seq<(Seq<char>, OverrideTree<V, T>)>,
    path: Seq<Seq<char>>,
)
    requires
        entries_distinct(target),
        entries_distinct(source),
        lookup_path(source, path) matches Some(v) && v is Leaf,
    ensures
        lookup_path(merged_entries(target, source), path) == lookup_path(source, path),
    decreases source,
{
    let init = source.drop_last();
    let key = source.last().0;
    let value = source.last().1;
    assert(source.len() > 0);
    assert(entries_distinct(init)) by {
        assert forall|a: int, b: int| 0 <= a < b < init.len() implies #[trigger] init[a].0 != #[trigger] init[b].0 by {
            assert(source[a].0 != source[b].0);
        }
        assert forall|i: int| 0 <= i < init.len() implies value_distinct(#[trigger] init[i].1) by {
            assert(init[i] == source[i]);
        }
    }
    lemma_merge_keeps_keys_distinct(target, init);
    let acc = merged_entries(target, init);
    lemma_first_index(acc, key, 0);
    lemma_lookup_entry(acc, key);
    lemma_lookup_entry(acc, path[0]);
    lemma_lookup_entry(source, path[0]);
    lemma_lookup_entry(init, path[0]);
    let last = source.len() - 1;
    assert(source[last] == source.last());
    assert(value_distinct(value));
    let out = merged_entries(target, source);
    lemma_lookup_entry(out, path[0]);
    // Which entry of the source and of the result holds the first key.
    if path[0] != key {
        assert forall|j: int| 0 <= j < init.len() implies #[trigger] init[j] == source[j] by {}
        if exists|j: int| 0 <= j < source.len() && #[trigger] source[j].0 == path[0] {
            let j = choose|j: int| 0 <= j < source.len() && #[trigger] source[j].0 == path[0];
            assert(j < init.len());
            assert(init[j].0 == path[0]);
        } else {
            assert forall|j: int| 0 <= j < init.len() implies #[trigger] init[j].0 != path[0] by {
                assert(init[j] == source[j]);
            }
        }
        assert(lookup_entry(source, path[0]) == lookup_entry(init, path[0]));
        lemma_lookup_path_head(source, init, path);
        lemma_merge_source_wins(target, init, path);
        match first_index(acc, key, 0) {
            Some(i) => {
                let rest = acc.remove(i);
                assert forall|j: int| 0 <= j < rest.len() implies #[trigger] rest[j] == (if j < i {
                    acc[j]
                } else {
                    acc[j + 1]
                }) by {}
            },
            None => {},
        }
        if exists|j: int| 0 <= j < acc.len() && #[trigger] acc[j].0 == path[0] {
            let j = choose|j: int| 0 <= j < acc.len() && #[trigger] acc[j].0 == path[0];
            match first_index(acc, key, 0) {
                Some(i) => {
                    let j2 = if j < i { j } else { j - 1 };
                    assert(j != i);
                    assert(out[j2] == acc[j]);
                },
                None => {
                    assert(out[j] == acc[j]);
                },
            }
        } else {
            assert forall|j: int| 0 <= j < out.len() implies #[trigger] out[j].0 != path[0] by {
                match first_index(acc, key, 0) {
                    Some(i) => {
                        if j < out.len() - 1 {
                            let j2 = if j < i { j } else { j + 1 };
                            assert(out[j] == acc[j2]);
                        }
                    },
                    None => {
                        if j < acc.len() {
                            assert(out[j] == acc[j]);
                        }
                    },
                }
            }
        }
        lemma_merge_keeps_keys_distinct(target, source);
        assert(lookup_entry(out, path[0]) == lookup_entry(acc, path[0]));
        lemma_lookup_path_head(out, acc, path);
    } else {
        lemma_lookup_entry(source, key);
        assert(lookup_entry(source, key) == Some(value));
        lemma_merge_keeps_keys_distinct(target, source);
        let c = out.last().1;
        assert(out.last().0 == key);
        assert(out[out.len() - 1] == out.last());
        assert(lookup_entry(out, key) == Some(c));
        match first_index(acc, key, 0) {
            Some(i) => {
                match (acc[i].1, value) {
                    (OverrideTree::Dict(tag, old), OverrideTree::Dict(_, new)) => {
                        assert(c == OverrideTree::Dict(tag, merged_entries(old, new)));
                        assert(path.len() > 1);
                        assert(value_distinct(acc[i].1));
                        assert(decreases_to!(source => source[last]));
                        lemma_merge_source_wins(old, new, path.drop_first());
                    },
                    _ => {
                        assert(c == value);
                    },
                }
            },
            None => {
                assert(c == value);
            },
        }
    }
}

/// Takes out the first entry named `key`.
fn take_entry<V, T>(es: &mut Vec<(String, OverrideValue<V, T>)>, key: &str) -> (r: Option<OverrideValue<V, T>>)
    ensures
        match first_index(entries_model(old(es)@), key@, 0) {
            Some(i) => r is Some && override_tree(r->0) == entries_model(old(es)@)[i].1 && entries_model(final(es)@)
                == entries_model(old(es)@).remove(i),
            None => r is None && final(es)@ == old(es)@,
        },
{
    let ghost m = entries_model(es@);
    let mut i: usize = 0;
    let mut found = false;
    while i < es.len() && !found
        invariant
            i <= es@.len(),
            m == entries_model(es@),
            first_index(m, key@, 0) == first_index(m, key@, i as int),
            found ==> i < es@.len() && es@[i as int].0@ == key@,
        decreases es@.len() - i + (if found { 0int } else { 1int }),
    {
        if text_eq(es[i].0.as_str(), key) {
            found = true;
        } else {
            i = i + 1;
        }
    }
    if !found {
        return None;
    }
    let ghost before = es@;
    let (_, value) = es.remove(i);
    proof {
        assert(first_index(m, key@, i as int) == Some(i as int));
        assert(entries_model(es@) =~= m.remove(i as int));
    }
    Some(value)
}

/// Merges the entries of `source` into `target`.
pub fn merge_dict<V, T>(target: Vec<(String, OverrideValue<V, T>)>, source: Vec<(String, OverrideValue<V, T>)>) -> (r: Vec<
    (String, OverrideValue<V, T>),
>)
    ensures
        entries_model(r@) == merged_entries(entries_model(target@), entries_model(source@)),
    decreases source,
{
    let ghost orig = source;
    let ghost all = source@;
    let ghost sm = entries_model(all);
    let mut result = target;
    let mut rest = source;
    let mut taken: usize = 0;
    let total = rest.len();
    proof {
        assert(rest@ =~= all.skip(0));
        assert(sm.take(0) =~= Seq::<(Seq<char>, OverrideTree<V, T>)>::empty());
    }
    while rest.len() > 0
        invariant
            taken <= all.len(),
            total == all.len(),
            rest@ == all.skip(taken as int),
            sm == entries_model(all),
            orig@ == all,
            orig == source,
            entries_model(result@) == merged_entries(entries_model(target@), sm.take(taken as int)),
        decreases rest@.len(),
    {
        let (key, value) = rest.remove(0);
        proof {
            assert((key, value) == all[taken as int]);
            assert(sm.take(taken + 1).drop_last() =~= sm.take(taken as int));
            assert(sm.take(taken + 1).last() == (key@, override_tree(value)));
        }
        let ghost acc = entries_model(result@);
        let ghost gv = value;
        proof {
            assert(decreases_to!(orig => orig@));
            assert(decreases_to!(orig@ => orig@[taken as int]));
            assert(decreases_to!(orig@[taken as int] => orig@[taken as int].1));
            if gv is Dict {
                assert(decreases_to!(gv => gv->Dict_1));
            }
        }
        let existing = take_entry(&mut result, key.as_str());
        let ghost gexisting = existing;
        let next = match existing {
            Some(OverrideValue::Dict(tag, old_child)) => match value {
                OverrideValue::Dict(new_tag, new_child) => {
                    proof {
                        assert(new_child == gv->Dict_1);
                        assert(decreases_to!(orig => new_child));
                    }
                    let merged = merge_dict(old_child, new_child);
                    proof {
                        lemma_dict_tree(tag, old_child);
                        lemma_dict_tree(new_tag, new_child);
                        lemma_dict_tree(tag, merged);
                    }
                    OverrideValue::Dict(tag, merged)
                },
                other => other,
            },
            _ => value,
        };
        proof {
            if gexisting is Some && gexisting->0 is Dict {
                lemma_dict_tree(gexisting->0->Dict_0, gexisting->0->Dict_1);
            }
            if gv is Dict {
                lemma_dict_tree(gv->Dict_0, gv->Dict_1);
            }
        }
        let ghost gk = key@;
        let ghost gn = override_tree(next);
        let ghost before = result@;
        result.push((key, next));
        proof {
            assert(entries_model(result@) =~= entries_model(before).push((gk, gn)));
        }
        taken = taken + 1;
        proof {
            assert(rest@ =~= all.skip(taken as int));
        }
    }
    proof {
        assert(sm.take(taken as int) =~= sm);
    }
    result
}

/// The pieces of `s` between `.` separators, empty pieces included.
pub open spec fn dot_pieces(s: Seq<char>) -> Seq<Seq<char>>
    decreases s.len(),
{
    if s.len() == 0 {
        seq![Seq::<char>::empty()]
    } else {
        let r = dot_pieces(s.drop_last());
        if s.last() == '.' {
            r.push(Seq::<char>::empty())
        } else {
            r.update(r.len() - 1, r.last().push(s.last()))
        }
    }
}

/// There is always at least one piece, and a text that does not start with
/// `.` has a non-empty first piece.
proof fn lemma_dot_pieces_first(s: Seq<char>)
    ensures
        dot_pieces(s).len() >= 1,
        s.len() > 0 && s[0] != '.' ==> dot_pieces(s)[0].len() > 0,
    decreases s.len(),
{
    if s.len() > 0 {
        lemma_dot_pieces_first(s.drop_last());
        if s.len() > 1 {
            assert(s.drop_last()[0] == s[0]);
        }
    }
}

/// Splits a text at each `.`.
fn split_dots(s: &Vec<char>) -> (r: Vec<String>)
    ensures
        r.deep_view() == dot_pieces(s@),
{
    let mut done: Vec<String> = Vec::new();
    let mut cur: Vec<char> = Vec::new();
    let mut i: usize = 0;
    proof {
        assert(s@.take(0) =~= Seq::<char>::empty());
        assert(done.deep_view().push(cur@) =~= dot_pieces(s@.take(0)));
    }
    while i < s.len()
        invariant
            i <= s@.len(),
            done.deep_view().push(cur@) == dot_pieces(s@.take(i as int)),
        decreases s@.len() - i,
    {
        let c = s[i];
        let ghost before = done.deep_view();
        let ghost cur_before = cur@;
        proof {
            assert(s@.take(i + 1).drop_last() =~= s@.take(i as int));
            assert(s@.take(i + 1).last() == c);
        }
        if c == '.' {
            let piece = string_of(cur.as_slice());
            done.push(piece);
            cur = Vec::new();
            proof {
                assert(done.deep_view() =~= before.push(cur_before));
                assert(done.deep_view().push(cur@) =~= dot_pieces(s@.take(i + 1)));
            }
        } else {
            cur.push(c);
            proof {
                assert(done.deep_view() == before);
                assert(done.deep_view().push(cur@) =~= before.push(cur_before).update(before.len() as int, cur_before.push(c)));
            }
        }
        i = i + 1;
    }
    proof {
        assert(s@.take(s@.len() as int) =~= s@);
    }
    let last = string_of(cur.as_slice());
    let ghost before = done.deep_view();
    done.push(last);
    proof {
        assert(done.deep_view() =~= before.push(cur@));
    }
    done
}

/// The value a dotted path names when it holds `leaf`: from piece `k` on,
/// one single-entry dictionary per piece, each holding the next, up to the
/// first empty piece or the end, where `leaf` stands.
pub open spec fn nested_tree<V, T>(pieces: Seq<Seq<char>>, k: int, leaf: V, tag: T) -> OverrideTree<V, T>
    decreases pieces.len() - k,
{
    if 0 <= k < pieces.len() && pieces[k].len() > 0 {
        OverrideTree::Dict(tag, seq![(pieces[k], nested_tree(pieces, k + 1, leaf, tag))])
    } else {
        OverrideTree::Leaf(leaf)
    }
}

/// Nests `leaf` under the dotted `path`: `a.b` holding `v` becomes
/// `{a: {b: v}}`, each dictionary tagged `tag`; nesting stops at the first
/// empty piece, so an empty path gives `leaf` itself.
pub fn nest_override<V, T: Copy>(path: &str, leaf: V, tag: T) -> (r: OverrideValue<V, T>)
    ensures
        override_tree(r) == nested_tree(dot_pieces(path@), 0, leaf, tag),
{
    let pieces = split_dots(&chars_of(path));
    let ghost ps = pieces.deep_view();
    let mut m: usize = 0;
    while m < pieces.len() && pieces[m].as_str().unicode_len() > 0
        invariant
            m <= pieces@.len(),
            ps == pieces.deep_view(),
            forall|j: int| 0 <= j < m ==> (#[trigger] ps[j]).len() > 0,
        decreases pieces@.len() - m,
    {
        m = m + 1;
    }
    proof {
        if m < pieces@.len() {
            assert(ps[m as int] == pieces@[m as int]@);
        }
    }
    let mut value = OverrideValue::Leaf(leaf);
    let mut k = m;
    while k > 0
        invariant
            k <= m,
            m <= pieces@.len(),
            ps == pieces.deep_view(),
            forall|j: int| 0 <= j < m ==> (#[trigger] ps[j]).len() > 0,
            override_tree(value) == nested_tree(ps, k as int, leaf, tag),
        decreases k,
    {
        k = k - 1;
        let key = pieces[k].clone();
        let ghost inner = override_tree(value);
        let es = vec![(key, value)];
        proof {
            lemma_dict_tree(tag, es);
            assert(entries_model(es@) =~= seq![(ps[k as int], inner)]);
            assert(ps[k as int].len() > 0);
        }
        value = OverrideValue::Dict(tag, es);
    }
    value
}

/// Adds an override value at a dotted path to `values`: the value nested
/// under the path is merged in. A path that is empty or has an empty piece
/// is refused, leaving `values` as they are.
pub fn insert_override<V, T: Copy>(values: &mut Vec<(String, OverrideValue<V, T>)>, path: &str, leaf: V, tag: T) -> (r: bool)
    ensures
        r == valid_override_path(path@),
        r ==> nested_tree(dot_pieces(path@), 0, leaf, tag) is Dict && entries_model(final(values)@) == merged_entries(
            entries_model(old(values)@),
            nested_tree(dot_pieces(path@), 0, leaf, tag)->Dict_1,
        ),
        !r ==> final(values)@ == old(values)@,
        r && entries_distinct(entries_model(old(values)@)) ==> entries_distinct(entries_model(final(values)@))
            && lookup_path(entries_model(final(values)@), dot_pieces(path@)) == Some(OverrideTree::<V, T>::Leaf(leaf)),
{
    if !is_valid_override_path(path) {
        return false;
    }
    proof {
        if entries_distinct(entries_model(old(values)@)) {
            lemma_insert_override_sets_path(entries_model(old(values)@), path@, leaf, tag);
        }
    }
    proof {
        lemma_dot_pieces_first(path@);
    }
    let nested = nest_override(path, leaf, tag);
    match nested {
        OverrideValue::Dict(t, entries) => {
            proof {
                lemma_dict_tree(t, entries);
            }
            let mut current: Vec<(String, OverrideValue<V, T>)> = Vec::new();
            std::mem::swap(&mut current, values);
            *values = merge_dict(current, entries);
            true
        },
        OverrideValue::Leaf(_) => {
            proof {
                assert(false);
            }
            false
        },
    }
}

/// A path that is not empty, does not start with `.` and has no two `.` in
/// a row has non-empty pieces, but for a last piece that is empty exactly
/// when the path ends with `.`.
proof fn lemma_dot_pieces_nonempty(s: Seq<char>)
    requires
        s.len() > 0,
        s[0] != '.',
        forall|i: int| 0 <= i < s.len() - 1 ==> !(s[i] == '.' && #[trigger] s[i + 1] == '.'),
    ensures
        forall|j: int| 0 <= j < dot_pieces(s).len() - 1 ==> (#[trigger] dot_pieces(s)[j]).len() > 0,
        dot_pieces(s).len() >= 1,
        (dot_pieces(s).last().len() == 0) == (s.last() == '.'),
    decreases s.len(),
{
    let t = s.drop_last();
    if t.len() == 0 {
        assert(dot_pieces(t) =~= seq![Seq::<char>::empty()]);
    } else {
        assert forall|i: int| 0 <= i < t.len() - 1 implies !(t[i] == '.' && #[trigger] t[i + 1] == '.') by {
            assert(t[i] == s[i] && t[i + 1] == s[i + 1]);
        }
        assert(t[0] == s[0]);
        lemma_dot_pieces_nonempty(t);
        if s.last() == '.' {
            let q = s.len() - 2;
            assert(!(s[q] == '.' && s[q + 1] == '.'));
            assert(t.last() == s[s.len() - 2]);
        }
    }
}

/// The entries that nest `leaf` under the pieces from `k` on: one key per
/// level, and following all the pieces reaches `leaf`.
proof fn lemma_nested_tree_reaches_leaf<V, T>(pieces: Seq<Seq<char>>, k: int, leaf: V, tag: T)
    requires
        0 <= k < pieces.len(),
        forall|j: int| k <= j < pieces.len() ==> (#[trigger] pieces[j]).len() > 0,
    ensures
        nested_tree(pieces, k, leaf, tag) is Dict,
        entries_distinct(nested_tree(pieces, k, leaf, tag)->Dict_1),
        lookup_path(nested_tree(pieces, k, leaf, tag)->Dict_1, pieces.skip(k)) == Some(
            OverrideTree::<V, T>::Leaf(leaf),
        ),
    decreases pieces.len() - k,
{
    let inner = nested_tree(pieces, k + 1, leaf, tag);
    let es = seq![(pieces[k], inner)];
    assert(nested_tree(pieces, k, leaf, tag) == OverrideTree::Dict(tag, es));
    let p = pieces.skip(k);
    assert(p[0] == pieces[k]);
    assert(lookup_entry(es, pieces[k]) == Some(inner));
    if k + 1 < pieces.len() {
        lemma_nested_tree_reaches_leaf(pieces, k + 1, leaf, tag);
        assert(p.drop_first() =~= pieces.skip(k + 1));
    } else {
        assert(inner == OverrideTree::<V, T>::Leaf(leaf));
    }
    assert(value_distinct(inner));
    assert(entries_distinct(es));
}

/// What one valid override does to the values: the dotted path then holds
/// the new leaf, whatever it held before (a later override of a path
/// replaces an earlier one), and no dictionary gets two entries with one key.
/// The values had distinct keys in each dictionary before.
pub proof fn lemma_insert_override_sets_path<V, T>(
    before: Seq<(Seq<char>, OverrideTree<V, T>)>,
    path: Seq<char>,
    leaf: V,
    tag: T,
)
    requires
        entries_distinct(before),
        valid_override_path(path),
    ensures
        nested_tree(dot_pieces(path), 0, leaf, tag) is Dict,
        entries_distinct(merged_entries(before, nested_tree(dot_pieces(path), 0, leaf, tag)->Dict_1)),
        lookup_path(merged_entries(before, nested_tree(dot_pieces(path), 0, leaf, tag)->Dict_1), dot_pieces(path))
            == Some(OverrideTree::<V, T>::Leaf(leaf)),
{
    let pieces = dot_pieces(path);
    lemma_dot_pieces_nonempty(path);
    assert(forall|j: int| 0 <= j < pieces.len() ==> (#[trigger] pieces[j]).len() > 0) by {
        assert forall|j: int| 0 <= j < pieces.len() implies (#[trigger] pieces[j]).len() > 0 by {
            if j < pieces.len() - 1 {
            } else {
                assert(pieces[j] == pieces.last());
            }
        }
    }
    lemma_nested_tree_reaches_leaf(pieces, 0, leaf, tag);
    assert(pieces.skip(0) =~= pieces);
    let es = nested_tree(pieces, 0, leaf, tag)->Dict_1;
    lemma_merge_keeps_keys_distinct(before, es);
    lemma_merge_source_wins(before, es, pieces);
}

/// The pieces joined with `.` between them.
pub open spec fn joined_with_dots(pieces: Seq<Seq<char>>) -> Seq<char>
    decreases pieces.len(),
{
    if pieces.len() == 0 {
        Seq::empty()
    } else if pieces.len() == 1 {
        pieces[0]
    } else {
        joined_with_dots(pieces.drop_last()) + seq!['.'] + pieces.last()
    }
}

/// Splitting a text at its dots loses nothing and keeps no dot: no piece
/// holds a `.`, and the pieces joined with `.` give the text back.
pub proof fn lemma_dot_pieces_round_trip(s: Seq<char>)
    ensures
        forall|j: int, k: int|
            0 <= j < dot_pieces(s).len() && 0 <= k < dot_pieces(s)[j].len() ==> #[trigger] dot_pieces(s)[j][k]
                != '.',
        joined_with_dots(dot_pieces(s)) == s,
    decreases s.len(),
{
    if s.len() == 0 {
        assert(dot_pieces(s) =~= seq![Seq::<char>::empty()]);
        assert(s =~= Seq::<char>::empty());
    } else {
        let t = s.drop_last();
        let c = s.last();
        let r = dot_pieces(t);
        lemma_dot_pieces_round_trip(t);
        lemma_dot_pieces_first(t);
        let p = dot_pieces(s);
        if c == '.' {
            assert(p == r.push(Seq::<char>::empty()));
            assert(p.drop_last() =~= r);
            assert(joined_with_dots(p) == joined_with_dots(r) + seq!['.'] + Seq::<char>::empty());
            assert(s =~= t + seq!['.'] + Seq::<char>::empty());
            assert forall|j: int, k: int| 0 <= j < p.len() && 0 <= k < p[j].len() implies #[trigger] p[j][k] != '.' by {
                assert(p[j] == r[j]);
            }
        } else {
            let n = r.len() - 1;
            assert(p == r.update(n, r.last().push(c)));
            assert forall|j: int, k: int| 0 <= j < p.len() && 0 <= k < p[j].len() implies #[trigger] p[j][k] != '.' by {
                if j < n {
                    assert(p[j] == r[j]);
                } else {
                    assert(p[j] == r[n].push(c));
                    if k < r[n].len() {
                        assert(p[j][k] == r[n][k]);
                    }
                }
            }
            if r.len() == 1 {
                assert(joined_with_dots(r) == r[0]);
                assert(joined_with_dots(p) == p[0]);
                assert(s =~= r[0].push(c));
            } else {
                assert(p.drop_last() =~= r.drop_last());
                assert(joined_with_dots(p) == joined_with_dots(r.drop_last()) + seq!['.'] + r.last().push(c));
                assert(t == joined_with_dots(r.drop_last()) + seq!['.'] + r.last());
                assert(s =~= t.push(c));
                assert(s =~= joined_with_dots(r.drop_last()) + seq!['.'] + r.last().push(c));
            }
        }
    }
}

} // verus!
