//! Field paths and environment variable names declared by a schema, and the
//! rules of a dotted override path.

use vstd::prelude::*;
use crate::meta::{ConfigMeta, FieldKind};
use crate::text::{chars_of, push_char};

verus! {

/// The dotted path of a field named `name` below `prefix`.
pub open spec fn dotted(prefix: Seq<char>, name: Seq<char>) -> Seq<char> {
    if prefix.len() == 0 {
        name
    } else {
        prefix + "."@ + name
    }
}

/// Returns the dotted path of a field below `prefix`.
fn dotted_path(prefix: &str, name: &str) -> (r: String)
    ensures
        r@ == dotted(prefix@, name@),
{
    if prefix.unicode_len() == 0 {
        name.to_string()
    } else {
        let mut s = prefix.to_string();
        push_char(&mut s, '.');
        s.append(name);
        proof {
            reveal_strlit(".");
            assert(s@ =~= prefix@ + "."@ + name@);
        }
        s
    }
}

/// The environment variables that the leaf fields of `meta` declare, each
/// with the dotted path of its field, in declaration order.
pub open spec fn env_entries(meta: ConfigMeta, prefix: Seq<char>) -> Seq<(Seq<char>, Seq<char>)>
    decreases meta, 1int, 0int,
{
    env_entries_upto(meta, prefix, meta.fields@.len() as int)
}

/// The environment variables declared by the first `k` fields of `meta`.
pub open spec fn env_entries_upto(meta: ConfigMeta, prefix: Seq<char>, k: int) -> Seq<(Seq<char>, Seq<char>)>
    decreases meta, 0int, k,
{
    if k <= 0 || k > meta.fields@.len() {
        Seq::empty()
    } else {
        let rest = env_entries_upto(meta, prefix, k - 1);
        let f = meta.fields@[k - 1];
        let path = dotted(prefix, f.name@);
        match f.kind {
            FieldKind::Leaf { env: Some(e), .. } => rest.push((e@, path)),
            FieldKind::Leaf { env: None, .. } => rest,
            FieldKind::Nested { meta: child } => rest + env_entries(*child, path),
        }
    }
}

/// The view of a list of string pairs.
pub open spec fn pairs_view(v: Seq<(String, String)>) -> Seq<(Seq<char>, Seq<char>)> {
    Seq::new(v.len(), |i: int| (v[i].0@, v[i].1@))
}

/// Appends the environment variables declared below `prefix`.
fn collect_env_mapping(meta: &ConfigMeta, prefix: &str, out: &mut Vec<(String, String)>)
    ensures
        pairs_view(final(out)@) == pairs_view(old(out)@) + env_entries(*meta, prefix@),
    decreases meta,
{
    let ghost start = pairs_view(out@);
    let n = meta.fields.len();
    let mut i: usize = 0;
    proof {
        assert(pairs_view(out@) =~= start + env_entries_upto(*meta, prefix@, 0));
    }
    while i < n
        invariant
            n == meta.fields@.len(),
            i <= n,
            pairs_view(out@) == start + env_entries_upto(*meta, prefix@, i as int),
        decreases n - i,
    {
        let field = &meta.fields[i];
        let path = dotted_path(prefix, field.name.as_str());
        match &field.kind {
            FieldKind::Leaf { env: Some(e), .. } => {
                let ghost before = out@;
                out.push((e.clone(), path));
                proof {
                    assert(pairs_view(out@) =~= pairs_view(before).push((e@, dotted(prefix@, field.name@))));
                }
            },
            FieldKind::Leaf { env: None, .. } => {},
            FieldKind::Nested { meta: child } => {
                proof {
                    assert(decreases_to!(*meta => meta.fields));
                }
                collect_env_mapping(child, path.as_str(), out);
            },
        }
        proof {
            assert(pairs_view(out@) =~= start + env_entries_upto(*meta, prefix@, i + 1));
        }
        i = i + 1;
    }
}

/// Returns the environment variables that a schema's leaf fields declare,
/// each with the dotted path of its field, in declaration order.
pub fn env_mapping(meta: &ConfigMeta) -> (r: Vec<(String, String)>)
    ensures
        pairs_view(r@) == env_entries(*meta, Seq::empty()),
        forall|idx: Seq<int>| #[trigger]
            env_leaf_at(*meta, idx) is Some ==> pairs_view(r@).contains(
                ((env_leaf_at(*meta, idx)->0).0, dotted_names(Seq::empty(), (env_leaf_at(*meta, idx)->0).1)),
            ),
        forall|x: (Seq<char>, Seq<char>)| #[trigger]
            pairs_view(r@).contains(x) ==> exists|idx: Seq<int>|
                #[trigger] env_leaf_at(*meta, idx) is Some && x == (
                    (env_leaf_at(*meta, idx)->0).0,
                    dotted_names(Seq::empty(), (env_leaf_at(*meta, idx)->0).1),
                ),
{
    let mut out: Vec<(String, String)> = Vec::new();
    proof {
        assert(pairs_view(out@) =~= Seq::<(Seq<char>, Seq<char>)>::empty());
    }
    collect_env_mapping(meta, "", &mut out);
    proof {
        assert(""@ =~= Seq::<char>::empty()) by {
            reveal_strlit("");
        }
        assert(pairs_view(out@) =~= env_entries(*meta, Seq::empty()));
        assert forall|idx: Seq<int>| #[trigger] env_leaf_at(*meta, idx) is Some implies pairs_view(out@).contains(
            ((env_leaf_at(*meta, idx)->0).0, dotted_names(Seq::empty(), (env_leaf_at(*meta, idx)->0).1)),
        ) by {
            lemma_env_mapping_full_paths(*meta, idx);
        }
        assert forall|x: (Seq<char>, Seq<char>)| #[trigger] pairs_view(out@).contains(x) implies exists|idx: Seq<int>|
            #[trigger] env_leaf_at(*meta, idx) is Some && x == (
                (env_leaf_at(*meta, idx)->0).0,
                dotted_names(Seq::empty(), (env_leaf_at(*meta, idx)->0).1),
            ) by {
            lemma_env_mapping_only_leaves(*meta, x);
        }
    }
    out
}

/// The leaf reached from `meta` by the field positions `idx`, one per level,
/// when it declares an environment variable: that variable and the names of
/// the fields on the way, the leaf's own name last.
pub open spec fn env_leaf_at(meta: ConfigMeta, idx: Seq<int>) -> Option<(Seq<char>, Seq<Seq<char>>)>
    decreases idx.len(),
{
    if idx.len() == 0 || !(0 <= idx[0] < meta.fields@.len()) {
        None
    } else {
        let f = meta.fields@[idx[0]];
        match f.kind {
            FieldKind::Leaf { env: Some(e), .. } => if idx.len() == 1 {
                Some((e@, seq![f.name@]))
            } else {
                None
            },
            FieldKind::Leaf { env: None, .. } => None,
            FieldKind::Nested { meta: child } => if idx.len() == 1 {
                None
            } else {
                match env_leaf_at(*child, idx.drop_first()) {
                    Some((e, names)) => Some((e, seq![f.name@] + names)),
                    None => None,
                }
            },
        }
    }
}

/// The names `names` joined by dots after `prefix`.
pub open spec fn dotted_names(prefix: Seq<char>, names: Seq<Seq<char>>) -> Seq<char>
    decreases names.len(),
{
    if names.len() == 0 {
        prefix
    } else {
        let next = if prefix.len() == 0 {
            names[0]
        } else {
            prefix + seq!['.'] + names[0]
        };
        dotted_names(next, names.drop_first())
    }
}

/// The dotted path of a field is its name after the prefix and a `.`, or its
/// name alone at the top.
proof fn lemma_dotted_joins_with_dot(prefix: Seq<char>, name: Seq<char>)
    ensures
        dotted(prefix, name) == (if prefix.len() == 0 {
            name
        } else {
            prefix + seq!['.'] + name
        }),
{
    reveal_strlit(".");
    assert("."@ =~= seq!['.']);
}

/// The entries of the first `k` fields are among those of the first `m`.
proof fn lemma_env_upto_grows(meta: ConfigMeta, prefix: Seq<char>, k: int, m: int, x: (Seq<char>, Seq<char>))
    requires
        0 <= k <= m <= meta.fields@.len(),
        env_entries_upto(meta, prefix, k).contains(x),
    ensures
        env_entries_upto(meta, prefix, m).contains(x),
    decreases m - k,
{
    if k < m {
        lemma_env_upto_grows(meta, prefix, k, m - 1, x);
        let rest = env_entries_upto(meta, prefix, m - 1);
        let i = choose|i: int| 0 <= i < rest.len() && rest[i] == x;
        let all = env_entries_upto(meta, prefix, m);
        let f = meta.fields@[m - 1];
        match f.kind {
            FieldKind::Leaf { env: Some(e), .. } => {
                assert(all[i] == x);
            },
            FieldKind::Leaf { env: None, .. } => {},
            FieldKind::Nested { meta: child } => {
                assert(all[i] == x);
            },
        }
    }
}

/// Every leaf that declares an environment variable is mapped from it, with
/// the full dotted path of the leaf: the names of the sections on the way
/// from the root and the leaf's own name, at any depth.
pub proof fn lemma_env_entries_hold_full_paths(meta: ConfigMeta, prefix: Seq<char>, idx: Seq<int>)
    requires
        env_leaf_at(meta, idx) is Some,
    ensures
        env_entries(meta, prefix).contains(
            ((env_leaf_at(meta, idx)->0).0, dotted_names(prefix, (env_leaf_at(meta, idx)->0).1)),
        ),
    decreases idx.len(),
{
    let i = idx[0];
    let f = meta.fields@[i];
    let (e, names) = env_leaf_at(meta, idx)->0;
    let upto = env_entries_upto(meta, prefix, i + 1);
    lemma_dotted_joins_with_dot(prefix, f.name@);
    match f.kind {
        FieldKind::Leaf { env: Some(v), .. } => {
            assert(names == seq![f.name@]);
            assert(seq![f.name@].drop_first() =~= Seq::<Seq<char>>::empty());
            assert(dotted_names(dotted(prefix, f.name@), Seq::<Seq<char>>::empty()) == dotted(prefix, f.name@));
            assert(dotted_names(prefix, names) == dotted(prefix, f.name@));
            assert(upto.last() == (e, dotted(prefix, f.name@)));
            assert(upto.contains((e, dotted(prefix, f.name@))));
        },
        FieldKind::Leaf { env: None, .. } => {},
        FieldKind::Nested { meta: child } => {
            let path = dotted(prefix, f.name@);
            lemma_env_entries_hold_full_paths(*child, path, idx.drop_first());
            let (e2, rest) = env_leaf_at(*child, idx.drop_first())->0;
            assert(names == seq![f.name@] + rest);
            assert((seq![f.name@] + rest).drop_first() =~= rest);
            assert(dotted_names(prefix, names) == dotted_names(path, rest));
            let inner = env_entries(*child, path);
            let j = choose|j: int| 0 <= j < inner.len() && inner[j] == (e, dotted_names(path, rest));
            let before = env_entries_upto(meta, prefix, i);
            assert(upto == before + inner);
            assert(upto[before.len() + j] == inner[j]);
            assert(upto.contains((e, dotted_names(prefix, names))));
        },
    }
    lemma_env_upto_grows(meta, prefix, i + 1, meta.fields@.len() as int, (e, dotted_names(prefix, names)));
}

/// The dotted names of a path from the root, as the env mapping writes them.
pub proof fn lemma_env_mapping_full_paths(meta: ConfigMeta, idx: Seq<int>)
    requires
        env_leaf_at(meta, idx) is Some,
    ensures
        env_entries(meta, Seq::empty()).contains(
            ((env_leaf_at(meta, idx)->0).0, dotted_names(Seq::empty(), (env_leaf_at(meta, idx)->0).1)),
        ),
{
    lemma_env_entries_hold_full_paths(meta, Seq::empty(), idx);
}

/// Each entry of the first `k` fields comes from a leaf reached from `meta`.
proof fn lemma_env_upto_from_leaves(meta: ConfigMeta, prefix: Seq<char>, k: int, x: (Seq<char>, Seq<char>))
    requires
        env_entries_upto(meta, prefix, k).contains(x),
    ensures
        exists|idx: Seq<int>|
            #[trigger] env_leaf_at(meta, idx) is Some && x == ((env_leaf_at(meta, idx)->0).0, dotted_names(
                prefix,
                (env_leaf_at(meta, idx)->0).1,
            )),
    decreases meta, 0int, k,
{
    let rest = env_entries_upto(meta, prefix, k - 1);
    let f = meta.fields@[k - 1];
    let path = dotted(prefix, f.name@);
    let all = env_entries_upto(meta, prefix, k);
    lemma_dotted_joins_with_dot(prefix, f.name@);
    let j = choose|j: int| 0 <= j < all.len() && all[j] == x;
    if j < rest.len() {
        match f.kind {
            FieldKind::Leaf { env: Some(e), .. } => assert(all[j] == rest[j]),
            FieldKind::Leaf { env: None, .. } => {},
            FieldKind::Nested { meta: child } => assert(all[j] == rest[j]),
        }
        assert(rest.contains(x));
        lemma_env_upto_from_leaves(meta, prefix, k - 1, x);
    } else {
        match f.kind {
            FieldKind::Leaf { env: Some(e), .. } => {
                let idx = seq![k - 1];
                assert(idx.drop_first() =~= Seq::<int>::empty());
                assert(env_leaf_at(meta, idx) == Some((e@, seq![f.name@])));
                assert(seq![f.name@].drop_first() =~= Seq::<Seq<char>>::empty());
                assert(dotted_names(path, Seq::<Seq<char>>::empty()) == path);
                assert(dotted_names(prefix, seq![f.name@]) == path);
                assert(x == (e@, path));
            },
            FieldKind::Leaf { env: None, .. } => {},
            FieldKind::Nested { meta: child } => {
                let inner = env_entries(*child, path);
                assert(all == rest + inner);
                assert(inner[j - rest.len()] == x);
                assert(inner.contains(x));
                assert(decreases_to!(meta => meta.fields));
                lemma_env_entries_from_leaves(*child, path, x);
                let c = choose|c: Seq<int>|
                    #[trigger] env_leaf_at(*child, c) is Some && x == ((env_leaf_at(*child, c)->0).0,
                        dotted_names(path, (env_leaf_at(*child, c)->0).1));
                let idx = seq![k - 1] + c;
                assert(idx.drop_first() =~= c);
                let (e, names) = env_leaf_at(*child, c)->0;
                assert(env_leaf_at(meta, idx) == Some((e, seq![f.name@] + names)));
                assert((seq![f.name@] + names).drop_first() =~= names);
                assert(dotted_names(prefix, seq![f.name@] + names) == dotted_names(path, names));
            },
        }
    }
}

/// Each entry below `prefix` comes from a leaf reached from `meta`.
proof fn lemma_env_entries_from_leaves(meta: ConfigMeta, prefix: Seq<char>, x: (Seq<char>, Seq<char>))
    requires
        env_entries(meta, prefix).contains(x),
    ensures
        exists|idx: Seq<int>|
            #[trigger] env_leaf_at(meta, idx) is Some && x == ((env_leaf_at(meta, idx)->0).0, dotted_names(
                prefix,
                (env_leaf_at(meta, idx)->0).1,
            )),
    decreases meta, 1int, 0int,
{
    lemma_env_upto_from_leaves(meta, prefix, meta.fields@.len() as int, x);
}

/// The env mapping holds nothing else: each of its entries is a variable
/// declared by a leaf of the schema, with the full dotted path of that leaf
/// from the root.
pub proof fn lemma_env_mapping_only_leaves(meta: ConfigMeta, x: (Seq<char>, Seq<char>))
    requires
        env_entries(meta, Seq::empty()).contains(x),
    ensures
        exists|idx: Seq<int>|
            #[trigger] env_leaf_at(meta, idx) is Some && x == ((env_leaf_at(meta, idx)->0).0, dotted_names(
                Seq::empty(),
                (env_leaf_at(meta, idx)->0).1,
            )),
{
    lemma_env_entries_from_leaves(meta, Seq::empty(), x);
}

/// The dotted paths of the leaf fields of `meta` below `prefix`, in
/// declaration order.
pub open spec fn dotted_leaves(meta: ConfigMeta, prefix: Seq<char>) -> Seq<Seq<char>>
    decreases meta, 1int, 0int,
{
    dotted_leaves_upto(meta, prefix, meta.fields@.len() as int)
}

/// The dotted leaf paths of the first `k` fields of `meta`.
pub open spec fn dotted_leaves_upto(meta: ConfigMeta, prefix: Seq<char>, k: int) -> Seq<Seq<char>>
    decreases meta, 0int, k,
{
    if k <= 0 || k > meta.fields@.len() {
        Seq::empty()
    } else {
        let rest = dotted_leaves_upto(meta, prefix, k - 1);
        let f = meta.fields@[k - 1];
        let path = dotted(prefix, f.name@);
        match f.kind {
            FieldKind::Leaf { .. } => rest.push(path),
            FieldKind::Nested { meta: child } => rest + dotted_leaves(*child, path),
        }
    }
}

/// Appends the dotted leaf paths below `prefix`.
fn collect_leaf_config_paths(meta: &ConfigMeta, prefix: &str, paths: &mut Vec<String>)
    ensures
        final(paths).deep_view() == old(paths).deep_view() + dotted_leaves(*meta, prefix@),
    decreases meta,
{
    let ghost start = paths.deep_view();
    let n = meta.fields.len();
    let mut i: usize = 0;
    proof {
        assert(paths.deep_view() =~= start + dotted_leaves_upto(*meta, prefix@, 0));
    }
    while i < n
        invariant
            n == meta.fields@.len(),
            i <= n,
            paths.deep_view() == start + dotted_leaves_upto(*meta, prefix@, i as int),
        decreases n - i,
    {
        let field = &meta.fields[i];
        let path = dotted_path(prefix, field.name.as_str());
        match &field.kind {
            FieldKind::Leaf { .. } => {
                let ghost before = paths.deep_view();
                let ghost pv = path@;
                paths.push(path);
                proof {
                    assert(paths.deep_view() =~= before.push(pv));
                }
            },
            FieldKind::Nested { meta: child } => {
                proof {
                    assert(decreases_to!(*meta => meta.fields));
                }
                collect_leaf_config_paths(child, path.as_str(), paths);
            },
        }
        proof {
            assert(paths.deep_view() =~= start + dotted_leaves_upto(*meta, prefix@, i + 1));
        }
        i = i + 1;
    }
}

/// Returns the dotted path of every leaf field of a schema, in declaration
/// order.
pub fn leaf_config_paths(meta: &ConfigMeta) -> (r: Vec<String>)
    ensures
        r.deep_view() == dotted_leaves(*meta, Seq::empty()),
{
    let mut paths: Vec<String> = Vec::new();
    proof {
        assert(paths.deep_view() =~= Seq::<Seq<char>>::empty());
    }
    collect_leaf_config_paths(meta, "", &mut paths);
    proof {
        assert(""@ =~= Seq::<char>::empty()) by {
            reveal_strlit("");
        }
    }
    paths
}

/// A character in upper case where it is an ASCII lower-case letter.
pub open spec fn ascii_upper(c: char) -> char {
    if 'a' <= c <= 'z' {
        ((c as u32) - 32) as char
    } else {
        c
    }
}

/// A text with its ASCII lower-case letters in upper case.
pub open spec fn ascii_uppercase(s: Seq<char>) -> Seq<char> {
    Seq::new(s.len(), |i: int| ascii_upper(s[i]))
}

/// Returns a text with its ASCII lower-case letters in upper case, as
/// environment variable names are compared.
pub fn to_ascii_uppercase(s: &str) -> (r: String)
    ensures
        r@ == ascii_uppercase(s@),
{
    let cs = chars_of(s);
    let mut out = String::new();
    let mut i: usize = 0;
    while i < cs.len()
        invariant
            i <= cs@.len(),
            cs@ == s@,
            out@ == ascii_uppercase(s@).take(i as int),
        decreases cs@.len() - i,
    {
        let c = cs[i];
        let u = if 'a' <= c && c <= 'z' {
            let code: u8 = ((c as u32) - 32) as u8;
            code as char
        } else {
            c
        };
        push_char(&mut out, u);
        i = i + 1;
        proof {
            assert(out@ =~= ascii_uppercase(s@).take(i as int));
        }
    }
    proof {
        assert(ascii_uppercase(s@).take(i as int) =~= ascii_uppercase(s@));
    }
    out
}

/// Whether a dotted override path names a field: it is not empty and none
/// of its `.`-separated segments is empty.
pub open spec fn valid_override_path(path: Seq<char>) -> bool {
    &&& path.len() > 0
    &&& path[0] != '.'
    &&& path[path.len() - 1] != '.'
    &&& forall|i: int| 0 <= i < path.len() - 1 ==> !(path[i] == '.' && #[trigger] path[i + 1] == '.')
}

/// Returns whether a dotted override path names a field: not empty, and no
/// empty segment.
pub fn is_valid_override_path(path: &str) -> (r: bool)
    ensures
        r == valid_override_path(path@),
{
    let cs = chars_of(path);
    let n = cs.len();
    if n == 0 || cs[0] == '.' || cs[n - 1] == '.' {
        return false;
    }
    let mut i: usize = 0;
    while i + 1 < n
        invariant
            n == cs@.len(),
            cs@ == path@,
            n > 0,
            i < n,
            forall|j: int| 0 <= j < i ==> !(cs@[j] == '.' && #[trigger] cs@[j + 1] == '.'),
        decreases n - i,
    {
        if cs[i] == '.' && cs[i + 1] == '.' {
            return false;
        }
        i = i + 1;
    }
    true
}

} // verus!
