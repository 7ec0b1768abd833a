//! Laws of lexical path normalization and include resolution.

use vstd::prelude::*;
use crate::path::{
    components, fold_norm, is_abs, is_component, is_cur_dir, is_parent_dir, join_with, kept_parts, lemma_raw_parts_len,
    raw_parts, render_path, spec_normalize, spec_resolve,
};

verus! {

/// A piece without separators.
pub open spec fn no_sep(p: Seq<char>) -> bool {
    forall|i: int| 0 <= i < p.len() ==> p[i] != '/'
}

/// A well-formed component list: each component non-empty, not `.`, and
/// without separators.
pub open spec fn plain_components(c: Seq<Seq<char>>) -> bool {
    forall|i: int| 0 <= i < c.len() ==> is_component(#[trigger] c[i]) && no_sep(c[i])
}

/// The raw pieces of a text have no separators.
proof fn lemma_raw_parts_no_sep(s: Seq<char>)
    ensures
        forall|i: int| 0 <= i < raw_parts(s).len() ==> no_sep(#[trigger] raw_parts(s)[i]),
    decreases s.len(),
{
    if s.len() > 0 {
        lemma_raw_parts_no_sep(s.drop_last());
        lemma_raw_parts_len(s.drop_last());
        let r = raw_parts(s.drop_last());
        if s.last() != '/' {
            let q = r.last().push(s.last());
            assert(no_sep(r[r.len() - 1]));
            assert(no_sep(q)) by {
                assert forall|i: int| 0 <= i < q.len() implies q[i] != '/' by {
                    if i < q.len() - 1 {
                        assert(q[i] == r.last()[i]);
                    }
                }
            }
        }
    }
}

/// The kept parts of a list are among its parts.
proof fn lemma_kept_parts_from(parts: Seq<Seq<char>>)
    ensures
        forall|i: int|
            0 <= i < kept_parts(parts).len() ==> is_component(#[trigger] kept_parts(parts)[i]) && parts.contains(
                kept_parts(parts)[i],
            ),
    decreases parts.len(),
{
    if parts.len() > 0 {
        lemma_kept_parts_from(parts.drop_last());
        let r = kept_parts(parts.drop_last());
        let k = kept_parts(parts);
        assert forall|i: int| 0 <= i < k.len() implies is_component(#[trigger] k[i]) && parts.contains(k[i]) by {
            if i < r.len() {
                assert(k[i] == r[i]);
                let j = choose|j: int| 0 <= j < parts.drop_last().len() && parts.drop_last()[j] == r[i];
                assert(parts[j] == r[i]);
            } else {
                assert(k[i] == parts.last());
                assert(parts[parts.len() - 1] == parts.last());
            }
        }
    }
}

/// The components of a text are well formed.
pub(crate) proof fn lemma_components_plain(s: Seq<char>)
    ensures
        plain_components(components(s)),
{
    lemma_raw_parts_no_sep(s);
    lemma_kept_parts_from(raw_parts(s));
    let c = components(s);
    assert forall|i: int| 0 <= i < c.len() implies is_component(#[trigger] c[i]) && no_sep(c[i]) by {
        let j = choose|j: int| 0 <= j < raw_parts(s).len() && raw_parts(s)[j] == c[i];
        assert(no_sep(raw_parts(s)[j]));
    }
}

/// Folding keeps well-formed components well formed and leaves no `..`.
proof fn lemma_fold_norm_plain(c: Seq<Seq<char>>)
    requires
        plain_components(c),
    ensures
        plain_components(fold_norm(c)),
        forall|i: int| 0 <= i < fold_norm(c).len() ==> !is_parent_dir(#[trigger] fold_norm(c)[i]),
    decreases c.len(),
{
    if c.len() > 0 {
        assert(plain_components(c.drop_last())) by {
            assert forall|i: int| 0 <= i < c.drop_last().len() implies is_component(#[trigger] c.drop_last()[i])
                && no_sep(c.drop_last()[i]) by {
                assert(c.drop_last()[i] == c[i]);
            }
        }
        lemma_fold_norm_plain(c.drop_last());
        let r = fold_norm(c.drop_last());
        let f = fold_norm(c);
        assert(is_component(c[c.len() - 1]) && no_sep(c[c.len() - 1]));
        assert forall|i: int| 0 <= i < f.len() implies is_component(#[trigger] f[i]) && no_sep(f[i]) && !is_parent_dir(f[i]) by {
            if i < r.len() {
                assert(f[i] == r[i]);
            } else {
                assert(f[i] == c.last());
            }
        }
    }
}

/// Folding a list without `..` leaves it as it is.
proof fn lemma_fold_norm_fixed(c: Seq<Seq<char>>)
    requires
        forall|i: int| 0 <= i < c.len() ==> !is_parent_dir(#[trigger] c[i]),
    ensures
        fold_norm(c) == c,
    decreases c.len(),
{
    if c.len() > 0 {
        assert forall|i: int| 0 <= i < c.drop_last().len() implies !is_parent_dir(#[trigger] c.drop_last()[i]) by {
            assert(c.drop_last()[i] == c[i]);
        }
        lemma_fold_norm_fixed(c.drop_last());
        assert(!is_parent_dir(c[c.len() - 1]));
        assert(c.drop_last().push(c.last()) =~= c);
    }
}

/// A piece without separators is its own only raw piece.
proof fn lemma_raw_parts_single(p: Seq<char>)
    requires
        no_sep(p),
    ensures
        raw_parts(p) == seq![p],
    decreases p.len(),
{
    if p.len() > 0 {
        assert(no_sep(p.drop_last())) by {
            assert forall|i: int| 0 <= i < p.drop_last().len() implies p.drop_last()[i] != '/' by {
                assert(p.drop_last()[i] == p[i]);
            }
        }
        lemma_raw_parts_single(p.drop_last());
        assert(p[p.len() - 1] != '/');
        let r = raw_parts(p.drop_last());
        assert(r.len() == 1 && r.last() == p.drop_last());
        assert(p.drop_last().push(p.last()) =~= p);
        assert(r.update(0, p.drop_last().push(p.last())) =~= seq![p]);
    } else {
        assert(p =~= Seq::<char>::empty());
    }
}

/// The kept parts of a single piece.
proof fn lemma_kept_single(p: Seq<char>)
    ensures
        kept_parts(seq![p]) == (if is_component(p) {
            seq![p]
        } else {
            Seq::<Seq<char>>::empty()
        }),
{
    let s = seq![p];
    assert(s.drop_last() =~= Seq::<Seq<char>>::empty());
    assert(kept_parts(Seq::<Seq<char>>::empty()) == Seq::<Seq<char>>::empty());
    assert(s.last() == p);
    if is_component(p) {
        assert(Seq::<Seq<char>>::empty().push(p) =~= s);
    }
}

/// The raw pieces of `a`, a separator and `b` are those of `a` followed by
/// those of `b`.
proof fn lemma_raw_parts_concat(a: Seq<char>, b: Seq<char>)
    ensures
        raw_parts(a.push('/') + b) == raw_parts(a) + raw_parts(b),
    decreases b.len(),
{
    if b.len() == 0 {
        assert(a.push('/') + b =~= a.push('/'));
        assert(a.push('/').drop_last() =~= a);
    } else {
        lemma_raw_parts_concat(a, b.drop_last());
        assert((a.push('/') + b).drop_last() =~= a.push('/') + b.drop_last());
        assert((a.push('/') + b).last() == b.last());
        lemma_raw_parts_len(b.drop_last());
        let ra = raw_parts(a);
        let rb = raw_parts(b.drop_last());
        if b.last() != '/' {
            assert((ra + rb).update((ra + rb).len() - 1, (ra + rb).last().push(b.last())) =~= ra + rb.update(
                rb.len() - 1,
                rb.last().push(b.last()),
            ));
        } else {
            assert((ra + rb).push(Seq::<char>::empty()) =~= ra + rb.push(Seq::<char>::empty()));
        }
    }
}

/// Kept parts distribute over concatenation.
proof fn lemma_kept_parts_concat(a: Seq<Seq<char>>, b: Seq<Seq<char>>)
    ensures
        kept_parts(a + b) == kept_parts(a) + kept_parts(b),
    decreases b.len(),
{
    if b.len() == 0 {
        assert(a + b =~= a);
        assert(kept_parts(a) + kept_parts(b) =~= kept_parts(a));
    } else {
        lemma_kept_parts_concat(a, b.drop_last());
        assert((a + b).drop_last() =~= a + b.drop_last());
        assert((a + b).last() == b.last());
        if is_component(b.last()) {
            assert((kept_parts(a) + kept_parts(b.drop_last())).push(b.last()) =~= kept_parts(a) + kept_parts(
                b.drop_last(),
            ).push(b.last()));
        }
    }
}

/// Joining well-formed components and splitting again gives them back.
proof fn lemma_components_of_join(c: Seq<Seq<char>>)
    requires
        plain_components(c),
    ensures
        kept_parts(raw_parts(join_with(c, '/'))) == c,
    decreases c.len(),
{
    if c.len() == 0 {
        assert(raw_parts(Seq::<char>::empty()) == seq![Seq::<char>::empty()]);
        lemma_kept_single(Seq::<char>::empty());
    } else if c.len() == 1 {
        assert(is_component(c[0]) && no_sep(c[0]));
        lemma_raw_parts_single(c[0]);
        lemma_kept_single(c[0]);
        assert(seq![c[0]] =~= c);
    } else {
        assert(plain_components(c.drop_last())) by {
            assert forall|i: int| 0 <= i < c.drop_last().len() implies is_component(#[trigger] c.drop_last()[i])
                && no_sep(c.drop_last()[i]) by {
                assert(c.drop_last()[i] == c[i]);
            }
        }
        lemma_components_of_join(c.drop_last());
        let j = join_with(c.drop_last(), '/');
        assert(is_component(c[c.len() - 1]) && no_sep(c[c.len() - 1]));
        lemma_raw_parts_concat(j, c.last());
        lemma_raw_parts_single(c.last());
        lemma_kept_parts_concat(raw_parts(j), seq![c.last()]);
        lemma_kept_single(c.last());
        assert(c.drop_last() + seq![c.last()] =~= c);
    }
}

/// The components of a rendered path are the components it was built from,
/// and it is absolute as it was asked to be.
pub(crate) proof fn lemma_render_components(abs: bool, c: Seq<Seq<char>>)
    requires
        plain_components(c),
    ensures
        components(render_path(abs, c)) == c,
        is_abs(render_path(abs, c)) == (abs || (c.len() > 0 && c[0].len() > 0 && c[0][0] == '/')),
{
    lemma_components_of_join(c);
    let j = join_with(c, '/');
    if abs {
        assert(render_path(abs, c) =~= Seq::<char>::empty().push('/') + j);
        lemma_raw_parts_concat(Seq::<char>::empty(), j);
        assert(raw_parts(Seq::<char>::empty()) == seq![Seq::<char>::empty()]);
        lemma_kept_parts_concat(seq![Seq::<char>::empty()], raw_parts(j));
        lemma_kept_single(Seq::<char>::empty());
        assert(Seq::<Seq<char>>::empty() + c =~= c);
    } else {
        assert(render_path(abs, c) =~= j);
        lemma_join_start(c);
    }
}

/// A join of well-formed components starts with the first component.
proof fn lemma_join_start(c: Seq<Seq<char>>)
    requires
        plain_components(c),
    ensures
        c.len() == 0 ==> join_with(c, '/').len() == 0,
        c.len() > 0 ==> join_with(c, '/').len() > 0 && join_with(c, '/')[0] == c[0][0],
    decreases c.len(),
{
    if c.len() > 1 {
        assert(plain_components(c.drop_last())) by {
            assert forall|i: int| 0 <= i < c.drop_last().len() implies is_component(#[trigger] c.drop_last()[i])
                && no_sep(c.drop_last()[i]) by {
                assert(c.drop_last()[i] == c[i]);
            }
        }
        lemma_join_start(c.drop_last());
        assert(c.drop_last()[0] == c[0]);
    } else if c.len() == 1 {
        assert(is_component(c[0]));
    }
}

/// Normalizing a normalized path changes nothing.
pub proof fn lemma_normalize_idempotent(s: Seq<char>)
    ensures
        spec_normalize(spec_normalize(s)) == spec_normalize(s),
{
    lemma_components_plain(s);
    lemma_fold_norm_plain(components(s));
    let f = fold_norm(components(s));
    lemma_render_components(is_abs(s), f);
    if f.len() > 0 {
        assert(is_component(f[0]) && no_sep(f[0]));
        assert(f[0][0] != '/');
    }
    lemma_fold_norm_fixed(f);
}

/// A normalized path holds no `.` and no `..` component, is absolute when
/// the path was, and is relative when the path was.
pub proof fn lemma_normalized_has_no_dot_components(s: Seq<char>)
    ensures
        forall|i: int|
            0 <= i < components(spec_normalize(s)).len() ==> !is_cur_dir(#[trigger] components(spec_normalize(s))[i])
                && !is_parent_dir(components(spec_normalize(s))[i]),
        is_abs(spec_normalize(s)) == is_abs(s),
{
    lemma_components_plain(s);
    lemma_fold_norm_plain(components(s));
    let f = fold_norm(components(s));
    lemma_render_components(is_abs(s), f);
    if f.len() > 0 {
        assert(is_component(f[0]) && no_sep(f[0]));
        assert(f[0][0] != '/');
    }
    assert forall|i: int| 0 <= i < f.len() implies !is_cur_dir(#[trigger] f[i]) && !is_parent_dir(f[i]) by {
        assert(is_component(f[i]));
    }
}

/// An include path that is absolute resolves to itself, normalized, from
/// whichever file declares it.
pub proof fn lemma_absolute_include_ignores_parent(parent: Seq<char>, other_parent: Seq<char>, include_path: Seq<char>)
    requires
        is_abs(include_path),
    ensures
        spec_resolve(parent, include_path) == spec_normalize(include_path),
        spec_resolve(parent, include_path) == spec_resolve(other_parent, include_path),
{
}

/// A resolved include path is already normalized.
pub proof fn lemma_resolved_is_normalized(parent: Seq<char>, include_path: Seq<char>)
    ensures
        spec_normalize(spec_resolve(parent, include_path)) == spec_resolve(parent, include_path),
{
    if is_abs(include_path) {
        lemma_normalize_idempotent(include_path);
    } else {
        let c = if components(parent).len() == 0 {
            components(include_path)
        } else {
            components(parent).drop_last() + components(include_path)
        };
        let abs = components(parent).len() != 0 && is_abs(parent);
        lemma_components_plain(parent);
        lemma_components_plain(include_path);
        assert(plain_components(c)) by {
            let pc = components(parent);
            let ic = components(include_path);
            assert forall|i: int| 0 <= i < c.len() implies is_component(#[trigger] c[i]) && no_sep(c[i]) by {
                if pc.len() != 0 {
                    if i < pc.len() - 1 {
                        assert(c[i] == pc[i]);
                    } else {
                        assert(c[i] == ic[i - (pc.len() - 1)]);
                    }
                }
            }
        }
        lemma_fold_norm_plain(c);
        let f = fold_norm(c);
        assert(spec_resolve(parent, include_path) == render_path(abs, f));
        lemma_render_components(abs, f);
        if f.len() > 0 {
            assert(is_component(f[0]) && no_sep(f[0]));
            assert(f[0][0] != '/');
        }
        lemma_fold_norm_fixed(f);
    }
}

} // verus!
