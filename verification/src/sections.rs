//! Mapping between split schema sections and template file paths.
//!
//! A section's template path defaults to `config/<name>.yaml` for a
//! top-level section and to `<parent template without extension>/<name>.yaml`
//! below it; a schema may override the path of any section. Paths are
//! compared by their normalized components, as `std::path::Path` compares
//! them.

use vstd::prelude::*;
use crate::format::{file_name, last_dot, name_extension};
use crate::config_output::{is_digit, is_lower, is_upper, to_lower};
use crate::meta::{contains_path, same_path, strictly_extends};
use crate::path::{
    absolutize_lexical_from, append_all, components, join_sibling, spec_join_sibling, component_is_parent_dir, is_abs, is_parent_dir,
    path_components, path_is_absolute, render_components, render_path, resolve_include_path,
    spec_absolutize, spec_normalize, spec_resolve,
};
use crate::text::{chars_of, push_char, string_of, text_eq};
use crate::tree::clone_strings;

verus! {

/// The template path a schema gives for `path`, taken from the first
/// override listed for it.
pub open spec fn override_for(overrides: Seq<(Seq<Seq<char>>, Seq<char>)>, path: Seq<Seq<char>>) -> Option<Seq<char>>
    decreases overrides.len(),
{
    if overrides.len() == 0 {
        None
    } else {
        match override_for(overrides.drop_last(), path) {
            Some(p) => Some(p),
            None => if overrides.last().0 == path {
                Some(overrides.last().1)
            } else {
                None
            },
        }
    }
}

/// A file name without its extension.
pub open spec fn without_extension(name: Seq<char>) -> Seq<char> {
    let d = last_dot(name, name.len() as int);
    if d <= 0 {
        name
    } else {
        name.take(d)
    }
}

/// `file` placed in the directory named like `parent` without its
/// extension.
pub open spec fn in_stem_dir(parent: Seq<char>, file: Seq<char>) -> Seq<char> {
    let cs = components(parent);
    let dir = if cs.len() == 0 || is_parent_dir(cs.last()) {
        cs
    } else {
        cs.drop_last().push(without_extension(cs.last()))
    };
    render_path(is_abs(parent), dir.push(file))
}

/// The template path of the first `k` segments of `section`.
pub open spec fn section_template_path(
    section: Seq<Seq<char>>,
    overrides: Seq<(Seq<Seq<char>>, Seq<char>)>,
    k: int,
) -> Seq<char>
    decreases k,
{
    match override_for(overrides, section.take(k)) {
        Some(p) => p,
        None => if k <= 0 {
            Seq::empty()
        } else if k == 1 {
            "config/"@ + section[0] + ".yaml"@
        } else {
            in_stem_dir(section_template_path(section, overrides, k - 1), section[k - 1] + ".yaml"@)
        },
    }
}

/// The template path of a whole section path.
pub open spec fn template_path_of(section: Seq<Seq<char>>, overrides: Seq<(Seq<Seq<char>>, Seq<char>)>) -> Seq<char> {
    section_template_path(section, overrides, section.len() as int)
}

/// Returns the override listed for a section path, if any.
pub fn find_override(overrides: &Vec<(Vec<String>, String)>, path: &Vec<String>) -> (r: Option<String>)
    ensures
        match override_for(overrides.deep_view(), path.deep_view()) {
            Some(p) => r is Some && r->0@ == p,
            None => r is None,
        },
{
    let mut i: usize = 0;
    proof {
        assert(overrides.deep_view().take(0) =~= Seq::<(Seq<Seq<char>>, Seq<char>)>::empty());
    }
    while i < overrides.len()
        invariant
            i <= overrides@.len(),
            override_for(overrides.deep_view().take(i as int), path.deep_view()) is None,
        decreases overrides@.len() - i,
    {
        let ghost t = overrides.deep_view().take(i + 1);
        proof {
            assert(t.drop_last() =~= overrides.deep_view().take(i as int));
            assert(t.last() == overrides.deep_view()[i as int]);
            assert(overrides.deep_view()[i as int].0 == overrides@[i as int].0.deep_view());
            assert(overrides.deep_view()[i as int].1 == overrides@[i as int].1@);
        }
        if same_path(&overrides[i].0, path) {
            proof {
                lemma_override_prefix(overrides.deep_view(), path.deep_view(), i + 1);
            }
            return Some(overrides[i].1.clone());
        }
        i = i + 1;
    }
    proof {
        assert(overrides.deep_view().take(overrides@.len() as int) =~= overrides.deep_view());
    }
    None
}

/// The first override found in a prefix of the list is the first in the
/// whole list.
proof fn lemma_override_prefix(overrides: Seq<(Seq<Seq<char>>, Seq<char>)>, path: Seq<Seq<char>>, k: int)
    requires
        0 <= k <= overrides.len(),
        override_for(overrides.take(k), path) is Some,
    ensures
        override_for(overrides, path) == override_for(overrides.take(k), path),
    decreases overrides.len() - k,
{
    if k < overrides.len() {
        let t = overrides.take(k + 1);
        assert(t.drop_last() =~= overrides.take(k));
        lemma_override_prefix(overrides, path, k + 1);
    } else {
        assert(overrides.take(k) =~= overrides);
    }
}

/// Returns a file name without its extension.
pub fn strip_extension(name: &str) -> (r: String)
    ensures
        r@ == without_extension(name@),
{
    let cs = chars_of(name);
    let n = cs.len();
    let mut k: usize = n;
    while k > 0 && cs[k - 1] != '.'
        invariant
            k <= n,
            n == name@.len(),
            cs@ == name@,
            last_dot(name@, n as int) == last_dot(name@, k as int),
        decreases k,
    {
        k = k - 1;
    }
    if k <= 1 {
        proof {
            if k == 1 {
                assert(last_dot(name@, 1) == 0);
            }
        }
        return name.to_owned();
    }
    proof {
        assert(last_dot(name@, k as int) == k - 1);
    }
    let mut kept: Vec<char> = Vec::new();
    let mut i: usize = 0;
    while i < k - 1
        invariant
            i <= k - 1,
            k <= n,
            n == name@.len(),
            cs@ == name@,
            kept@ == name@.take(i as int),
        decreases k - 1 - i,
    {
        kept.push(cs[i]);
        i = i + 1;
        proof {
            assert(kept@ =~= name@.take(i as int));
        }
    }
    string_of(kept.as_slice())
}

/// Places `file` in the directory named like `parent` without its
/// extension.
pub fn join_in_stem_dir(parent: &str, file: &str) -> (r: String)
    ensures
        r@ == in_stem_dir(parent@, file@),
{
    let mut cs = path_components(parent);
    let n = cs.len();
    let ghost all = cs.deep_view();
    if n > 0 && !component_is_parent_dir(&cs[n - 1]) {
        let stem = strip_extension(cs[n - 1].as_str());
        let _ = cs.pop();
        proof {
            assert(cs.deep_view() =~= all.drop_last());
        }
        cs.push(stem);
        proof {
            assert(cs.deep_view() =~= all.drop_last().push(without_extension(all.last())));
        }
    }
    let ghost dir = cs.deep_view();
    cs.push(file.to_owned());
    proof {
        assert(cs.deep_view() =~= dir.push(file@));
    }
    render_components(path_is_absolute(parent), &cs)
}

/// Returns the template path of a section: an override listed for it, or
/// the default derived from its parent's template path.
pub fn template_path_for_section(section_path: &Vec<String>, overrides: &Vec<(Vec<String>, String)>) -> (r: String)
    ensures
        r@ == template_path_of(section_path.deep_view(), overrides.deep_view()),
{
    let ghost sp = section_path.deep_view();
    let ghost ov = overrides.deep_view();
    let mut prefix: Vec<String> = Vec::new();
    proof {
        assert(prefix.deep_view() =~= sp.take(0));
    }
    let mut cur = match find_override(overrides, &prefix) {
        Some(p) => p,
        None => String::new(),
    };
    let mut k: usize = 0;
    while k < section_path.len()
        invariant
            k <= section_path@.len(),
            sp == section_path.deep_view(),
            ov == overrides.deep_view(),
            prefix.deep_view() == sp.take(k as int),
            cur@ == section_template_path(sp, ov, k as int),
        decreases section_path@.len() - k,
    {
        crate::meta::push_segment(&mut prefix, &section_path[k]);
        proof {
            assert(prefix.deep_view() =~= sp.take(k + 1));
            assert(sp[k as int] == section_path@[k as int]@);
        }
        let next = match find_override(overrides, &prefix) {
            Some(p) => p,
            None => {
                let mut file = section_path[k].clone();
                file.append(".yaml");
                if k == 0 {
                    let mut s = String::from_str("config/");
                    s.append(file.as_str());
                    s
                } else {
                    join_in_stem_dir(cur.as_str(), file.as_str())
                }
            },
        };
        cur = next;
        k = k + 1;
    }
    proof {
        assert(section_path.deep_view().len() == section_path@.len());
    }
    cur
}

/// `dir`'s components, with its root flag, when `path` lies below `dir`
/// by the remaining components.
pub open spec fn relative_below(path: Seq<char>, dir_abs: bool, dir: Seq<Seq<char>>) -> Seq<char> {
    let cs = components(path);
    if is_abs(path) == dir_abs && dir.len() < cs.len() && cs.take(dir.len() as int) == dir {
        render_path(false, cs.skip(dir.len() as int))
    } else {
        path
    }
}

/// `path` made relative to the directory of `file` when it lies strictly
/// below it; `path` itself otherwise.
pub open spec fn relative_to_dir_of(path: Seq<char>, file: Seq<char>) -> Seq<char> {
    let fc = components(file);
    if fc.len() == 0 {
        relative_below(path, false, Seq::empty())
    } else {
        relative_below(path, is_abs(file), fc.drop_last())
    }
}

/// Makes `path` relative to the directory of `file` when it lies strictly
/// below it, and returns `path` unchanged otherwise.
pub fn path_relative_to_dir_of(path: &str, file: &str) -> (r: String)
    ensures
        r@ == relative_to_dir_of(path@, file@),
{
    let pc = path_components(path);
    let mut fc = path_components(file);
    let dir_abs = if fc.len() == 0 {
        false
    } else {
        path_is_absolute(file)
    };
    let ghost fcv = fc.deep_view();
    let _ = fc.pop();
    let ghost dir = fc.deep_view();
    proof {
        if fcv.len() > 0 {
            assert(dir =~= fcv.drop_last());
        } else {
            assert(dir =~= Seq::<Seq<char>>::empty());
        }
    }
    if path_is_absolute(path) != dir_abs || fc.len() >= pc.len() {
        proof {
            assert(fc.deep_view().len() == fc@.len());
        }
        return path.to_owned();
    }
    let mut i: usize = 0;
    proof {
        assert(relative_to_dir_of(path@, file@) == relative_below(path@, dir_abs, dir));
    }
    while i < fc.len()
        invariant
            i <= fc@.len(),
            dir == fc.deep_view(),
            pc.deep_view() == components(path@),
            is_abs(path@) == dir_abs,
            relative_to_dir_of(path@, file@) == relative_below(path@, dir_abs, dir),
            fc@.len() < pc@.len(),
            forall|j: int| 0 <= j < i ==> pc@[j]@ == fc@[j]@,
        decreases fc@.len() - i,
    {
        if pc[i] != fc[i] {
            proof {
                assert(pc.deep_view().take(fc@.len() as int)[i as int] != fc.deep_view()[i as int]);
                assert(pc.deep_view().take(fc@.len() as int) != dir);
            }
            return path.to_owned();
        }
        i = i + 1;
    }
    proof {
        assert(pc.deep_view().take(fc@.len() as int) =~= fc.deep_view());
    }
    let mut rest: Vec<String> = Vec::new();
    let mut j: usize = fc.len();
    proof {
        assert(rest.deep_view() =~= pc.deep_view().subrange(fc@.len() as int, j as int));
    }
    while j < pc.len()
        invariant
            fc@.len() <= j <= pc@.len(),
            rest.deep_view() == pc.deep_view().subrange(fc@.len() as int, j as int),
        decreases pc@.len() - j,
    {
        let ghost before = rest.deep_view();
        rest.push(pc[j].clone());
        proof {
            assert(rest.deep_view() =~= before.push(pc@[j as int]@));
            assert(rest.deep_view() =~= pc.deep_view().subrange(fc@.len() as int, j + 1));
        }
        j = j + 1;
    }
    proof {
        assert(rest.deep_view() =~= pc.deep_view().skip(fc@.len() as int));
    }
    render_components(false, &rest)
}

/// How a character appears in a path token: separators become `_`,
/// letters are lowered, digits stay, anything else is dropped.
pub open spec fn token_char(c: char) -> Option<char> {
    if c == '-' || c == ' ' || c == '_' {
        Some('_')
    } else if is_upper(c) {
        Some(to_lower(c))
    } else if is_lower(c) || is_digit(c) {
        Some(c)
    } else {
        None
    }
}

/// A name reduced to lowercase ASCII letters, digits and underscores.
pub open spec fn token_of(s: Seq<char>) -> Seq<char>
    decreases s.len(),
{
    if s.len() == 0 {
        Seq::empty()
    } else {
        match token_char(s.last()) {
            Some(c) => token_of(s.drop_last()).push(c),
            None => token_of(s.drop_last()),
        }
    }
}

/// The non-empty tokens of the first `k` components, each without its
/// extension.
pub open spec fn component_tokens(cs: Seq<Seq<char>>, k: int) -> Seq<Seq<char>>
    decreases k,
{
    if k <= 0 || k > cs.len() {
        Seq::empty()
    } else {
        let t = token_of(without_extension(cs[k - 1]));
        if t.len() > 0 {
            component_tokens(cs, k - 1).push(t)
        } else {
            component_tokens(cs, k - 1)
        }
    }
}

/// The tokens of a path's components.
pub open spec fn path_tokens(path: Seq<char>) -> Seq<Seq<char>> {
    component_tokens(components(path), components(path).len() as int)
}

/// The token of a path's file name without extension, empty when there is
/// no file name.
pub open spec fn file_token(path: Seq<char>) -> Seq<char> {
    match file_name(path) {
        Some(n) => token_of(without_extension(n)),
        None => Seq::empty(),
    }
}

/// The tokens of a section path's segments.
pub open spec fn section_tokens(section: Seq<Seq<char>>) -> Seq<Seq<char>> {
    Seq::new(section.len(), |i: int| token_of(section[i]))
}

/// `a` is a prefix of `b`.
pub open spec fn is_prefix_of(a: Seq<char>, b: Seq<char>) -> bool {
    a.len() <= b.len() && b.take(a.len() as int) == a
}

/// How well a section path matches a file path: 1000 plus its length when
/// the path's tokens end with the section's tokens, 500 plus its length when
/// the file token equals the last section token, 100 plus the shorter length
/// when one of these two is a prefix of the other, 0 otherwise.
pub open spec fn section_score(section: Seq<Seq<char>>, tokens: Seq<Seq<char>>, file: Seq<char>) -> int {
    let st = section_tokens(section);
    if st.len() <= tokens.len() && tokens.skip(tokens.len() - st.len()) == st {
        1000 + st.len() as int
    } else if st.len() == 0 {
        0
    } else if file == st.last() {
        500 + st.len() as int
    } else if is_prefix_of(st.last(), file) || is_prefix_of(file, st.last()) {
        100 + if st.last().len() < file.len() {
            st.last().len() as int
        } else {
            file.len() as int
        }
    } else {
        0
    }
}

/// The best-scoring candidate among the first `k`: the highest score, then
/// the longest path; the later one wins a tie. Only positive scores count.
pub open spec fn best_candidate(cands: Seq<Seq<Seq<char>>>, tokens: Seq<Seq<char>>, file: Seq<char>, k: int) -> Option<int>
    decreases k,
{
    if k <= 0 || k > cands.len() {
        None
    } else {
        let b = best_candidate(cands, tokens, file, k - 1);
        let s = section_score(cands[k - 1], tokens, file);
        if s > 0 && match b {
            None => true,
            Some(j) => {
                let t = section_score(cands[j], tokens, file);
                s > t || (s == t && cands[k - 1].len() >= cands[j].len())
            },
        } {
            Some(k - 1)
        } else {
            b
        }
    }
}

/// The best candidate is one of the first `k`.
proof fn lemma_best_range(cands: Seq<Seq<Seq<char>>>, tokens: Seq<Seq<char>>, file: Seq<char>, k: int)
    ensures
        best_candidate(cands, tokens, file, k) matches Some(j) ==> 0 <= j < k && j < cands.len(),
    decreases k,
{
    if k > 0 && k <= cands.len() {
        lemma_best_range(cands, tokens, file, k - 1);
    }
}

/// The section inferred from a path's names when no template path matches.
pub open spec fn inferred_section(path: Seq<char>, cands: Seq<Seq<Seq<char>>>) -> Option<Seq<Seq<char>>> {
    match best_candidate(cands, path_tokens(path), file_token(path), cands.len() as int) {
        Some(i) => Some(cands[i]),
        None => None,
    }
}

/// The first of the first `k` candidates whose template path, resolved from
/// the directory of `anchor`, is the normalized target.
pub open spec fn exact_candidate(
    anchor: Seq<char>,
    target: Seq<char>,
    cands: Seq<Seq<Seq<char>>>,
    overrides: Seq<(Seq<Seq<char>>, Seq<char>)>,
    k: int,
) -> Option<int>
    decreases k,
{
    if k <= 0 || k > cands.len() {
        None
    } else {
        match exact_candidate(anchor, target, cands, overrides, k - 1) {
            Some(i) => Some(i),
            None => if spec_resolve(anchor, template_path_of(cands[k - 1], overrides)) == spec_normalize(target) {
                Some(k - 1)
            } else {
                None
            },
        }
    }
}

/// The section a target path stands for, among `cands`: the first whose
/// template path (relative to the directory of `anchor`) is the target,
/// otherwise the one inferred from the target's names.
pub open spec fn section_for_target(
    anchor: Seq<char>,
    target: Seq<char>,
    cands: Seq<Seq<Seq<char>>>,
    overrides: Seq<(Seq<Seq<char>>, Seq<char>)>,
) -> Option<Seq<Seq<char>>> {
    match exact_candidate(anchor, target, cands, overrides, cands.len() as int) {
        Some(i) => Some(cands[i]),
        None => inferred_section(target, cands),
    }
}

/// Reduces a name to lowercase ASCII letters, digits and underscores.
pub fn normalize_token(token: &str) -> (r: String)
    ensures
        r@ == token_of(token@),
{
    let cs = chars_of(token);
    let mut out: Vec<char> = Vec::new();
    let mut i: usize = 0;
    while i < cs.len()
        invariant
            i <= cs@.len(),
            cs@ == token@,
            out@ == token_of(token@.take(i as int)),
        decreases cs@.len() - i,
    {
        let c = cs[i];
        proof {
            assert(token@.take(i + 1).drop_last() =~= token@.take(i as int));
            assert(token@.take(i + 1).last() == c);
        }
        if c == '-' || c == ' ' || c == '_' {
            out.push('_');
        } else if 'A' <= c && c <= 'Z' {
            let code: u32 = c as u32;
            let b: u8 = (code + 32) as u8;
            let lower = b as char;
            proof {
                assert(b as int == code + 32);
                assert(lower == to_lower(c));
            }
            out.push(lower);
        } else if ('a' <= c && c <= 'z') || ('0' <= c && c <= '9') {
            out.push(c);
        }
        i = i + 1;
    }
    proof {
        assert(token@.take(cs@.len() as int) =~= token@);
    }
    string_of(out.as_slice())
}

/// Returns the tokens of a path's components.
pub fn normalized_path_tokens(path: &str) -> (r: Vec<String>)
    ensures
        r.deep_view() == path_tokens(path@),
{
    let cs = path_components(path);
    let mut out: Vec<String> = Vec::new();
    let mut i: usize = 0;
    while i < cs.len()
        invariant
            i <= cs@.len(),
            cs.deep_view() == components(path@),
            out.deep_view() == component_tokens(cs.deep_view(), i as int),
        decreases cs@.len() - i,
    {
        let stem = strip_extension(cs[i].as_str());
        let t = normalize_token(stem.as_str());
        proof {
            assert(cs.deep_view()[i as int] == cs@[i as int]@);
        }
        if t.as_str().unicode_len() > 0 {
            let ghost before = out.deep_view();
            out.push(t);
            proof {
                assert(out.deep_view() =~= before.push(token_of(without_extension(cs.deep_view()[i as int]))));
            }
        }
        i = i + 1;
    }
    out
}

/// Returns the token of a path's file name without extension.
pub fn path_file_token(path: &str) -> (r: String)
    ensures
        r@ == file_token(path@),
{
    match crate::config_output::file_name_of(path) {
        Some(n) => {
            let stem = strip_extension(n.as_str());
            normalize_token(stem.as_str())
        },
        None => String::new(),
    }
}

/// Whether a list of tokens ends with another.
fn tokens_end_with(tokens: &Vec<String>, tail: &Vec<String>) -> (r: bool)
    ensures
        r == (tail@.len() <= tokens@.len() && tokens.deep_view().skip(tokens@.len() - tail@.len()) == tail.deep_view()),
{
    if tail.len() > tokens.len() {
        return false;
    }
    let off = tokens.len() - tail.len();
    let mut i: usize = 0;
    while i < tail.len()
        invariant
            off + tail@.len() == tokens@.len(),
            off + tail@.len() <= usize::MAX,
            i <= tail@.len(),
            forall|j: int| 0 <= j < i ==> tokens@[off + j]@ == tail@[j]@,
        decreases tail@.len() - i,
    {
        if tokens[off + i] != tail[i] {
            proof {
                assert(tokens.deep_view().skip(off as int)[i as int] != tail.deep_view()[i as int]);
            }
            return false;
        }
        i = i + 1;
    }
    proof {
        assert(tokens.deep_view().skip(off as int) =~= tail.deep_view());
    }
    true
}

/// Whether `a` is a prefix of `b`.
fn text_starts_with(b: &str, a: &str) -> (r: bool)
    ensures
        r == is_prefix_of(a@, b@),
{
    let bc = chars_of(b);
    let ac = chars_of(a);
    if ac.len() > bc.len() {
        return false;
    }
    let mut i: usize = 0;
    while i < ac.len()
        invariant
            ac@ == a@,
            bc@ == b@,
            ac@.len() <= bc@.len(),
            i <= ac@.len(),
            forall|j: int| 0 <= j < i ==> b@[j] == a@[j],
        decreases ac@.len() - i,
    {
        if ac[i] != bc[i] {
            proof {
                assert(b@.take(a@.len() as int)[i as int] != a@[i as int]);
            }
            return false;
        }
        i = i + 1;
    }
    proof {
        assert(b@.take(a@.len() as int) =~= a@);
    }
    true
}

/// Scores how well a section path matches a file path's tokens.
///
/// Scores are computed in 128 bits, so that adding to a length never
/// overflows.
pub fn section_path_score(section_path: &Vec<String>, path_tokens: &Vec<String>, file_token: &str) -> (r: u128)
    ensures
        r as int == section_score(section_path.deep_view(), path_tokens.deep_view(), file_token@),
{
    let mut st: Vec<String> = Vec::new();
    let mut i: usize = 0;
    while i < section_path.len()
        invariant
            i <= section_path@.len(),
            st.deep_view() == section_tokens(section_path.deep_view()).take(i as int),
        decreases section_path@.len() - i,
    {
        let t = normalize_token(section_path[i].as_str());
        let ghost before = st.deep_view();
        let ghost tv = t@;
        st.push(t);
        proof {
            assert(st.deep_view() =~= before.push(tv));
            assert(section_path.deep_view()[i as int] == section_path@[i as int]@);
            assert(st.deep_view() =~= section_tokens(section_path.deep_view()).take(i + 1));
        }
        i = i + 1;
    }
    proof {
        assert(st.deep_view() =~= section_tokens(section_path.deep_view()));
    }
    let n = st.len();
    if tokens_end_with(path_tokens, &st) {
        return 1000 + n as u128;
    }
    if n == 0 {
        return 0;
    }
    let last = &st[n - 1];
    proof {
        assert(st.deep_view().last() == last@);
    }
    if text_eq(file_token, last.as_str()) {
        return 500 + n as u128;
    }
    if text_starts_with(file_token, last.as_str()) || text_starts_with(last.as_str(), file_token) {
        let a = last.as_str().unicode_len();
        let b = file_token.unicode_len();
        let m = if a < b { a } else { b };
        return 100 + m as u128;
    }
    0
}

/// Infers the section a path stands for from its names: the candidate with
/// the best positive score, the longest on a tie of scores, the later one on
/// a full tie.
pub fn infer_section_path_from_path(path: &str, candidates: &Vec<Vec<String>>) -> (r: Option<Vec<String>>)
    ensures
        match inferred_section(path@, candidates.deep_view()) {
            Some(c) => r is Some && r->0.deep_view() == c,
            None => r is None,
        },
{
    let tokens = normalized_path_tokens(path);
    let file = path_file_token(path);
    let ghost cands = candidates.deep_view();
    let ghost tv = tokens.deep_view();
    let mut best: Option<usize> = None;
    let mut best_score: u128 = 0;
    let mut i: usize = 0;
    while i < candidates.len()
        invariant
            i <= candidates@.len(),
            cands == candidates.deep_view(),
            tv == tokens.deep_view(),
            tv == path_tokens(path@),
            file@ == file_token(path@),
            match best_candidate(cands, tv, file@, i as int) {
                Some(j) => best == Some(j as usize) && 0 <= j < i && best_score as int == section_score(cands[j], tv, file@),
                None => best is None,
            },
        decreases candidates@.len() - i,
    {
        proof {
            lemma_best_range(cands, tv, file@, i as int);
            lemma_best_range(cands, tv, file@, i + 1);
        }
        let score = section_path_score(&candidates[i], &tokens, file.as_str());
        proof {
            assert(cands[i as int] == candidates@[i as int].deep_view());
        }
        if score > 0 {
            let take = match best {
                None => true,
                Some(j) => {
                    proof {
                        assert(cands[j as int] == candidates@[j as int].deep_view());
                        assert(cands[j as int].len() == candidates@[j as int]@.len());
                        assert(cands[i as int].len() == candidates@[i as int]@.len());
                    }
                    score > best_score || (score == best_score && candidates[i].len() >= candidates[j].len())
                },
            };
            if take {
                best = Some(i);
                best_score = score;
            }
        }
        i = i + 1;
    }
    proof {
        lemma_best_range(cands, tv, file@, candidates@.len() as int);
    }
    match best {
        Some(j) => {
            let c = clone_strings(&candidates[j]);
            proof {
                assert(cands[j as int] == candidates@[j as int].deep_view());
            }
            Some(c)
        },
        None => None,
    }
}

/// Returns the section a target path stands for, among `candidates`: the
/// first whose template path, resolved from the directory of `anchor`, is
/// the target, otherwise the one inferred from the target's names.
pub fn section_path_for_target_candidates(
    anchor: &str,
    target_path: &str,
    candidates: &Vec<Vec<String>>,
    overrides: &Vec<(Vec<String>, String)>,
) -> (r: Option<Vec<String>>)
    ensures
        match section_for_target(anchor@, target_path@, candidates.deep_view(), overrides.deep_view()) {
            Some(c) => r is Some && r->0.deep_view() == c,
            None => r is None,
        },
{
    let normalized_target = crate::path::normalize_lexical(target_path);
    let ghost cands = candidates.deep_view();
    let ghost ov = overrides.deep_view();
    let mut i: usize = 0;
    while i < candidates.len()
        invariant
            i <= candidates@.len(),
            cands == candidates.deep_view(),
            ov == overrides.deep_view(),
            normalized_target@ == spec_normalize(target_path@),
            exact_candidate(anchor@, target_path@, cands, ov, i as int) is None,
        decreases candidates@.len() - i,
    {
        let template = template_path_for_section(&candidates[i], overrides);
        let section_target = resolve_include_path(anchor, template.as_str());
        proof {
            assert(cands[i as int] == candidates@[i as int].deep_view());
        }
        if section_target == normalized_target {
            proof {
                lemma_exact_prefix(anchor@, target_path@, cands, ov, i + 1);
            }
            return Some(clone_strings(&candidates[i]));
        }
        i = i + 1;
    }
    infer_section_path_from_path(target_path, candidates)
}

/// The first exact match among a prefix of the candidates is the first
/// among all of them.
proof fn lemma_exact_prefix(
    anchor: Seq<char>,
    target: Seq<char>,
    cands: Seq<Seq<Seq<char>>>,
    overrides: Seq<(Seq<Seq<char>>, Seq<char>)>,
    k: int,
)
    requires
        0 <= k <= cands.len(),
        exact_candidate(anchor, target, cands, overrides, k) is Some,
    ensures
        exact_candidate(anchor, target, cands, overrides, cands.len() as int) == exact_candidate(anchor, target, cands, overrides, k),
    decreases cands.len() - k,
{
    if k < cands.len() {
        lemma_exact_prefix(anchor, target, cands, overrides, k + 1);
    }
}

/// The listed paths, among the first `k`, that are direct children of
/// `section`.
pub open spec fn direct_children(splits: Seq<Seq<Seq<char>>>, section: Seq<Seq<char>>, k: int) -> Seq<Seq<Seq<char>>>
    decreases k,
{
    if k <= 0 || k > splits.len() {
        Seq::empty()
    } else {
        let p = splits[k - 1];
        if p.len() == section.len() + 1 && p.take(section.len() as int) == section {
            direct_children(splits, section, k - 1).push(p)
        } else {
            direct_children(splits, section, k - 1)
        }
    }
}

/// Returns the listed section paths that are direct children of
/// `section_path`, in order.
pub fn direct_child_split_section_paths(section_path: &Vec<String>, split_paths: &Vec<Vec<String>>) -> (r: Vec<Vec<String>>)
    ensures
        r.deep_view() == direct_children(split_paths.deep_view(), section_path.deep_view(), split_paths@.len() as int),
{
    let mut out: Vec<Vec<String>> = Vec::new();
    let mut i: usize = 0;
    while i < split_paths.len()
        invariant
            i <= split_paths@.len(),
            out.deep_view() == direct_children(split_paths.deep_view(), section_path.deep_view(), i as int),
        decreases split_paths@.len() - i,
    {
        let p = &split_paths[i];
        proof {
            assert(split_paths.deep_view()[i as int] == p.deep_view());
        }
        if p.len() > 0 && p.len() - 1 == section_path.len() {
            let mut parent = clone_strings(p);
            crate::meta::pop_segment(&mut parent);
            proof {
                assert(parent.deep_view() =~= p.deep_view().take(section_path@.len() as int));
            }
            if same_path(&parent, section_path) {
                let ghost before = out.deep_view();
                let c = clone_strings(p);
                out.push(c);
                proof {
                    assert(out.deep_view() =~= before.push(p.deep_view()));
                }
            }
        }
        i = i + 1;
    }
    out
}

/// The template paths of the direct split children of the section that
/// `node` stands for, each relative to the directory of `node`.
pub open spec fn default_child_includes(
    root: Seq<char>,
    node: Seq<char>,
    splits: Seq<Seq<Seq<char>>>,
    overrides: Seq<(Seq<Seq<char>>, Seq<char>)>,
) -> Seq<Seq<char>> {
    let section = match section_for_target(root, node, splits, overrides) {
        Some(s) => s,
        None => Seq::empty(),
    };
    let children = direct_children(splits, section, splits.len() as int);
    Seq::new(
        children.len(),
        |i: int| relative_to_dir_of(spec_join_sibling(root, template_path_of(children[i], overrides)), node),
    )
}

/// Returns the paths a source should list for its split child sections:
/// each child's template path, placed next to the root source, relative to
/// the directory of `node_source_path`.
pub fn default_child_include_paths(
    root_source_path: &str,
    node_source_path: &str,
    split_paths: &Vec<Vec<String>>,
    overrides: &Vec<(Vec<String>, String)>,
) -> (r: Vec<String>)
    ensures
        r.deep_view() == default_child_includes(root_source_path@, node_source_path@, split_paths.deep_view(), overrides.deep_view()),
{
    let section = match section_path_for_target_candidates(root_source_path, node_source_path, split_paths, overrides) {
        Some(s) => s,
        None => Vec::new(),
    };
    proof {
        if section_for_target(root_source_path@, node_source_path@, split_paths.deep_view(), overrides.deep_view()) is None {
            assert(section.deep_view() =~= Seq::<Seq<char>>::empty());
        }
    }
    let children = direct_child_split_section_paths(&section, split_paths);
    let ghost cv = children.deep_view();
    let mut out: Vec<String> = Vec::new();
    let mut i: usize = 0;
    while i < children.len()
        invariant
            i <= children@.len(),
            cv == children.deep_view(),
            out.deep_view() =~= Seq::new(
                i as nat,
                |k: int| relative_to_dir_of(spec_join_sibling(root_source_path@, template_path_of(cv[k], overrides.deep_view())), node_source_path@),
            ),
        decreases children@.len() - i,
    {
        let template = template_path_for_section(&children[i], overrides);
        let child_path = join_sibling(root_source_path, template.as_str());
        let rel = path_relative_to_dir_of(child_path.as_str(), node_source_path);
        proof {
            assert(cv[i as int] == children@[i as int].deep_view());
        }
        let ghost before = out.deep_view();
        out.push(rel);
        proof {
            assert(out.deep_view() =~= before.push(rel@));
        }
        i = i + 1;
    }
    out
}

/// A declared path is kept unless it resolves to a known section that is
/// not split out.
pub open spec fn keeps_include(
    root: Seq<char>,
    node: Seq<char>,
    declared: Seq<char>,
    all_sections: Seq<Seq<Seq<char>>>,
    splits: Seq<Seq<Seq<char>>>,
    overrides: Seq<(Seq<Seq<char>>, Seq<char>)>,
) -> bool {
    match section_for_target(root, spec_resolve(node, declared), all_sections, overrides) {
        Some(s) => splits.contains(s),
        None => true,
    }
}

/// The kept declared paths among the first `k`.
pub open spec fn kept_includes(
    root: Seq<char>,
    node: Seq<char>,
    includes: Seq<Seq<char>>,
    all_sections: Seq<Seq<Seq<char>>>,
    splits: Seq<Seq<Seq<char>>>,
    overrides: Seq<(Seq<Seq<char>>, Seq<char>)>,
    k: int,
) -> Seq<Seq<char>>
    decreases k,
{
    if k <= 0 || k > includes.len() {
        Seq::empty()
    } else {
        let rest = kept_includes(root, node, includes, all_sections, splits, overrides, k - 1);
        if keeps_include(root, node, includes[k - 1], all_sections, splits, overrides) {
            rest.push(includes[k - 1])
        } else {
            rest
        }
    }
}

/// Keeps the declared paths of a source that do not point at a known
/// section that is no longer split out.
pub fn retain_split_include_paths(
    root_source_path: &str,
    node_source_path: &str,
    include_paths: Vec<String>,
    all_section_paths: &Vec<Vec<String>>,
    split_paths: &Vec<Vec<String>>,
    overrides: &Vec<(Vec<String>, String)>,
) -> (r: Vec<String>)
    ensures
        r.deep_view() == kept_includes(
            root_source_path@,
            node_source_path@,
            include_paths.deep_view(),
            all_section_paths.deep_view(),
            split_paths.deep_view(),
            overrides.deep_view(),
            include_paths@.len() as int,
        ),
{
    let mut out: Vec<String> = Vec::new();
    let mut i: usize = 0;
    while i < include_paths.len()
        invariant
            i <= include_paths@.len(),
            out.deep_view() == kept_includes(
                root_source_path@,
                node_source_path@,
                include_paths.deep_view(),
                all_section_paths.deep_view(),
                split_paths.deep_view(),
                overrides.deep_view(),
                i as int,
            ),
        decreases include_paths@.len() - i,
    {
        let target = resolve_include_path(node_source_path, include_paths[i].as_str());
        proof {
            assert(include_paths.deep_view()[i as int] == include_paths@[i as int]@);
        }
        let keep = match section_path_for_target_candidates(root_source_path, target.as_str(), all_section_paths, overrides) {
            Some(section) => contains_path(split_paths, &section),
            None => true,
        };
        if keep {
            let ghost before = out.deep_view();
            out.push(include_paths[i].clone());
            proof {
                assert(out.deep_view() =~= before.push(include_paths@[i as int]@));
            }
        }
        i = i + 1;
    }
    out
}

/// Two paths are equal as `std::path::Path` values: same root and same
/// components.
pub open spec fn same_location(a: Seq<char>, b: Seq<char>) -> bool {
    is_abs(a) == is_abs(b) && components(a) == components(b)
}

/// `paths` with each of the first `k` defaults appended unless an equal path
/// is already present.
pub open spec fn with_missing(paths: Seq<Seq<char>>, defaults: Seq<Seq<char>>, k: int) -> Seq<Seq<char>>
    decreases k,
{
    if k <= 0 || k > defaults.len() {
        paths
    } else {
        let r = with_missing(paths, defaults, k - 1);
        if exists|j: int| 0 <= j < r.len() && same_location(#[trigger] r[j], defaults[k - 1]) {
            r
        } else {
            r.push(defaults[k - 1])
        }
    }
}

/// Whether two paths are equal as `std::path::Path` values.
pub fn paths_equal(a: &str, b: &str) -> (r: bool)
    ensures
        r == same_location(a@, b@),
{
    let ca = path_components(a);
    let cb = path_components(b);
    path_is_absolute(a) == path_is_absolute(b) && same_path(&ca, &cb)
}

/// Appends each default path that is not already listed.
pub fn append_missing_include_paths(include_paths: &mut Vec<String>, defaults: Vec<String>)
    ensures
        final(include_paths).deep_view() == with_missing(old(include_paths).deep_view(), defaults.deep_view(), defaults@.len() as int),
{
    let ghost start = include_paths.deep_view();
    let mut k: usize = 0;
    while k < defaults.len()
        invariant
            k <= defaults@.len(),
            include_paths.deep_view() == with_missing(start, defaults.deep_view(), k as int),
        decreases defaults@.len() - k,
    {
        let d = &defaults[k];
        proof {
            assert(defaults.deep_view()[k as int] == d@);
        }
        let mut found = false;
        let mut j: usize = 0;
        while j < include_paths.len()
            invariant
                j <= include_paths@.len(),
                found == exists|m: int| 0 <= m < j && same_location(#[trigger] include_paths.deep_view()[m], d@),
            decreases include_paths@.len() - j,
        {
            if paths_equal(include_paths[j].as_str(), d.as_str()) {
                found = true;
                proof {
                    assert(include_paths.deep_view()[j as int] == include_paths@[j as int]@);
                }
            } else {
                proof {
                    assert(include_paths.deep_view()[j as int] == include_paths@[j as int]@);
                }
            }
            j = j + 1;
        }
        if !found {
            let ghost before = include_paths.deep_view();
            include_paths.push(d.clone());
            proof {
                assert(include_paths.deep_view() =~= before.push(d@));
            }
        }
        k = k + 1;
    }
}

/// The schema path of a section: next to the root schema, one directory per
/// ancestor section, named `<section>.schema.json`; the root schema path for
/// the empty section path.
pub open spec fn section_schema_path(root: Seq<char>, section: Seq<Seq<char>>) -> Seq<char> {
    if section.len() == 0 {
        root
    } else {
        let rc = components(root);
        let (abs, dir) = if rc.len() == 0 {
            (false, Seq::<Seq<char>>::empty())
        } else {
            (is_abs(root), rc.drop_last())
        };
        render_path(abs, dir + section.drop_last() + seq![section.last() + ".schema.json"@])
    }
}

/// Returns the schema path of a section.
pub fn schema_path_for_section(root_schema_path: &str, section_path: &Vec<String>) -> (r: String)
    ensures
        r@ == section_schema_path(root_schema_path@, section_path.deep_view()),
{
    let n = section_path.len();
    if n == 0 {
        proof {
            assert(section_path.deep_view().len() == 0);
        }
        return root_schema_path.to_owned();
    }
    let mut dir = path_components(root_schema_path);
    let ghost rc = dir.deep_view();
    let abs = if dir.len() == 0 {
        false
    } else {
        path_is_absolute(root_schema_path)
    };
    let _ = dir.pop();
    proof {
        if rc.len() > 0 {
            assert(dir.deep_view() =~= rc.drop_last());
        } else {
            assert(dir.deep_view() =~= Seq::<Seq<char>>::empty());
        }
    }
    let mut parents = clone_strings(section_path);
    let mut last = match parents.pop() {
        Some(l) => l,
        None => String::new(),
    };
    proof {
        assert(parents.deep_view() =~= section_path.deep_view().drop_last());
        assert(last@ == section_path.deep_view().last());
    }
    last.append(".schema.json");
    let mut all = append_all(dir, &parents);
    let ghost before = all.deep_view();
    all.push(last);
    proof {
        assert(all.deep_view() =~= before + seq![section_path.deep_view().last() + ".schema.json"@]);
    }
    render_components(abs, &all)
}

/// Some path of `paths` is at the location of `p`.
pub open spec fn located_in(paths: Seq<Seq<char>>, p: Seq<char>) -> bool {
    exists|i: int| 0 <= i < paths.len() && same_location(#[trigger] paths[i], p)
}

/// Appending missing defaults keeps the existing include paths first and in
/// order, and afterwards every default has an include path at its location.
pub proof fn lemma_with_missing_keeps_and_covers(paths: Seq<Seq<char>>, defaults: Seq<Seq<char>>, k: int)
    requires
        0 <= k <= defaults.len(),
    ensures
        with_missing(paths, defaults, k).len() >= paths.len(),
        with_missing(paths, defaults, k).take(paths.len() as int) == paths,
        forall|j: int| 0 <= j < k ==> #[trigger] located_in(with_missing(paths, defaults, k), defaults[j]),
    decreases k,
{
    if k > 0 {
        lemma_with_missing_keeps_and_covers(paths, defaults, k - 1);
        let r = with_missing(paths, defaults, k - 1);
        let w = with_missing(paths, defaults, k);
        if exists|j: int| 0 <= j < r.len() && same_location(#[trigger] r[j], defaults[k - 1]) {
            assert(w == r);
            assert(located_in(r, defaults[k - 1]));
        } else {
            assert(w == r.push(defaults[k - 1]));
            assert(w.take(paths.len() as int) =~= r.take(paths.len() as int));
            assert forall|j: int| 0 <= j < k implies #[trigger] located_in(w, defaults[j]) by {
                if j < k - 1 {
                    assert(located_in(r, defaults[j]));
                    let i = choose|i: int| 0 <= i < r.len() && same_location(#[trigger] r[i], defaults[j]);
                    assert(w[i] == r[i]);
                } else {
                    assert(w[r.len() as int] == defaults[k - 1]);
                    assert(same_location(w[r.len() as int], defaults[j]));
                }
            }
        }
    } else {
        assert(with_missing(paths, defaults, k).take(paths.len() as int) =~= paths);
    }
}

/// `path` lies strictly below the directory of `file`.
pub open spec fn below_dir_of(path: Seq<char>, file: Seq<char>) -> bool {
    let fc = components(file);
    let (dir_abs, dir) = if fc.len() == 0 {
        (false, Seq::<Seq<char>>::empty())
    } else {
        (is_abs(file), fc.drop_last())
    };
    let cs = components(path);
    is_abs(path) == dir_abs && dir.len() < cs.len() && cs.take(dir.len() as int) == dir
}

/// An include path written for a file, read back from that file, names the
/// path it was written for, normalized: for an absolute path, and for a path
/// below the file's directory.
pub proof fn lemma_relative_include_resolves_back(path: Seq<char>, file: Seq<char>)
    requires
        is_abs(path) || below_dir_of(path, file),
    ensures
        spec_resolve(file, relative_to_dir_of(path, file)) == spec_normalize(path),
{
    let fc = components(file);
    let (dir_abs, dir) = if fc.len() == 0 {
        (false, Seq::<Seq<char>>::empty())
    } else {
        (is_abs(file), fc.drop_last())
    };
    let cs = components(path);
    if is_abs(path) == dir_abs && dir.len() < cs.len() && cs.take(dir.len() as int) == dir {
        let rest = cs.skip(dir.len() as int);
        crate::path_laws::lemma_components_plain(path);
        assert(crate::path_laws::plain_components(rest)) by {
            assert forall|i: int| 0 <= i < rest.len() implies crate::path::is_component(#[trigger] rest[i])
                && crate::path_laws::no_sep(rest[i]) by {
                assert(rest[i] == cs[i + dir.len()]);
            }
        }
        crate::path_laws::lemma_render_components(false, rest);
        let rel = render_path(false, rest);
        assert(rest.len() > 0);
        assert(crate::path::is_component(rest[0]) && crate::path_laws::no_sep(rest[0]));
        assert(rest[0][0] != '/');
        assert(!is_abs(rel));
        assert(components(rel) == rest);
        assert(dir + rest =~= cs);
    }
}

} // verus!
