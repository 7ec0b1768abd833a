//! Lexical path normalization and resolution of paths named by config files.
//!
//! Paths are handled as `/`-separated text without consulting the file
//! system. A path is absolute when it starts with `/`. Its components are the
//! non-empty pieces between separators, with `.` pieces dropped; `..` pieces
//! are kept as components and only removed by normalization.

use vstd::prelude::*;
use crate::text::{chars_of, string_of, push_char};
use crate::error::ConfigTreeError;

verus! {

/// A path is absolute when it starts with a separator.
pub open spec fn is_abs(s: Seq<char>) -> bool {
    s.len() > 0 && s[0] == '/'
}

/// The pieces of `s` between `/` separators, empty pieces included.
pub open spec fn raw_parts(s: Seq<char>) -> Seq<Seq<char>>
    decreases s.len(),
{
    if s.len() == 0 {
        seq![Seq::<char>::empty()]
    } else {
        let r = raw_parts(s.drop_last());
        if s.last() == '/' {
            r.push(Seq::<char>::empty())
        } else {
            r.update(r.len() - 1, r.last().push(s.last()))
        }
    }
}

/// The `.` component.
pub open spec fn is_cur_dir(p: Seq<char>) -> bool {
    p.len() == 1 && p[0] == '.'
}

/// The `..` component.
pub open spec fn is_parent_dir(p: Seq<char>) -> bool {
    p.len() == 2 && p[0] == '.' && p[1] == '.'
}

/// Whether a raw piece is kept as a path component.
pub open spec fn is_component(p: Seq<char>) -> bool {
    p.len() > 0 && !is_cur_dir(p)
}

/// The raw pieces that are kept as components, in order.
pub open spec fn kept_parts(parts: Seq<Seq<char>>) -> Seq<Seq<char>>
    decreases parts.len(),
{
    if parts.len() == 0 {
        Seq::empty()
    } else {
        let r = kept_parts(parts.drop_last());
        if is_component(parts.last()) {
            r.push(parts.last())
        } else {
            r
        }
    }
}

/// The components of a path: its non-empty pieces other than `.`.
pub open spec fn components(s: Seq<char>) -> Seq<Seq<char>> {
    kept_parts(raw_parts(s))
}

/// Lexical simplification of a component list: `..` removes the previous
/// kept component (or nothing at the start), other components are kept.
pub open spec fn fold_norm(c: Seq<Seq<char>>) -> Seq<Seq<char>>
    decreases c.len(),
{
    if c.len() == 0 {
        Seq::empty()
    } else {
        let r = fold_norm(c.drop_last());
        if is_parent_dir(c.last()) {
            if r.len() > 0 {
                r.drop_last()
            } else {
                r
            }
        } else {
            r.push(c.last())
        }
    }
}

/// Components joined by a separator character.
pub open spec fn join_with(parts: Seq<Seq<char>>, sep: char) -> Seq<char>
    decreases parts.len(),
{
    if parts.len() == 0 {
        Seq::empty()
    } else if parts.len() == 1 {
        parts[0]
    } else {
        join_with(parts.drop_last(), sep).push(sep) + parts.last()
    }
}

/// The text of a path built from a root flag and components.
pub open spec fn render_path(abs: bool, parts: Seq<Seq<char>>) -> Seq<char> {
    (if abs {
        seq!['/']
    } else {
        Seq::<char>::empty()
    }) + join_with(parts, '/')
}

/// The lexically normalized form of a path.
pub open spec fn spec_normalize(s: Seq<char>) -> Seq<char> {
    render_path(is_abs(s), fold_norm(components(s)))
}

/// A path named by a config file, resolved against the file that declared it.
pub open spec fn spec_resolve(parent: Seq<char>, include_path: Seq<char>) -> Seq<char> {
    if is_abs(include_path) {
        spec_normalize(include_path)
    } else if components(parent).len() == 0 {
        render_path(false, fold_norm(components(include_path)))
    } else {
        render_path(is_abs(parent), fold_norm(components(parent).drop_last() + components(include_path)))
    }
}

/// A path made absolute against `current_dir` and then normalized.
pub open spec fn spec_absolutize(current_dir: Seq<char>, path: Seq<char>) -> Seq<char> {
    if is_abs(path) {
        spec_normalize(path)
    } else {
        render_path(is_abs(current_dir), fold_norm(components(current_dir) + components(path)))
    }
}

/// Lexical join of a path written in a file onto the directory of `base`,
/// without simplifying `..`: an absolute path is kept as written, a relative
/// one is appended to the components of `base` without its last component.
/// Component lists compare equal exactly when `std::path::Path` values do.
pub open spec fn spec_join_sibling(base: Seq<char>, path: Seq<char>) -> Seq<char> {
    if is_abs(path) {
        path
    } else if components(base).len() == 0 {
        render_path(false, components(path))
    } else {
        render_path(is_abs(base), components(base).drop_last() + components(path))
    }
}

/// `std::path::PathBuf::push` on text: an absolute `child` replaces the
/// base; otherwise `child` is appended after a separator, unless the base is
/// empty or already ends with one.
pub open spec fn spec_join(base: Seq<char>, child: Seq<char>) -> Seq<char> {
    if is_abs(child) || base.len() == 0 {
        child
    } else if base.last() == '/' {
        base + child
    } else {
        base.push('/') + child
    }
}

/// Every path has at least one raw piece.
pub proof fn lemma_raw_parts_len(s: Seq<char>)
    ensures
        raw_parts(s).len() >= 1,
    decreases s.len(),
{
    if s.len() > 0 {
        lemma_raw_parts_len(s.drop_last());
    }
}

/// Splits a path into its components.
pub fn path_components(s: &str) -> (v: Vec<String>)
    ensures
        v.deep_view() == components(s@),
{
    let cs = chars_of(s);
    let n = cs.len();
    let mut done: Vec<String> = Vec::new();
    let mut cur: Vec<char> = Vec::new();
    let mut i: usize = 0;
    proof {
        assert(s@.take(0) =~= Seq::<char>::empty());
        assert(done.deep_view() =~= kept_parts(raw_parts(s@.take(0)).drop_last()));
    }
    while i < n
        invariant
            n == cs@.len(),
            cs@ == s@,
            i <= n,
            raw_parts(s@.take(i as int)).len() >= 1,
            done.deep_view() == kept_parts(raw_parts(s@.take(i as int)).drop_last()),
            cur@ == raw_parts(s@.take(i as int)).last(),
        decreases n - i,
    {
        let c = cs[i];
        let ghost prev = s@.take(i as int);
        let ghost r = raw_parts(prev);
        assert(s@.take(i + 1).drop_last() =~= prev);
        assert(s@.take(i + 1).last() == c);
        if c == '/' {
            let keep = cur.len() > 0 && !(cur.len() == 1 && cur[0] == '.');
            if keep {
                let piece = string_of(cur.as_slice());
                done.push(piece);
            }
            proof {
                assert(raw_parts(s@.take(i + 1)) == r.push(Seq::<char>::empty()));
                assert(r.push(Seq::<char>::empty()).drop_last() =~= r);
                assert(r =~= r.drop_last().push(r.last()));
                assert(kept_parts(r) == kept_parts(r.drop_last().push(r.last())));
                assert(r.drop_last().push(r.last()).drop_last() =~= r.drop_last());
                assert(done.deep_view() =~= kept_parts(r));
            }
            cur = Vec::new();
            proof {
                assert(raw_parts(s@.take(i + 1)).last() =~= cur@);
            }
        } else {
            cur.push(c);
            proof {
                let r2 = r.update(r.len() - 1, r.last().push(c));
                assert(raw_parts(s@.take(i + 1)) == r2);
                assert(r2.drop_last() =~= r.drop_last());
            }
        }
        i = i + 1;
    }
    proof {
        let r = raw_parts(s@.take(n as int));
        assert(s@.take(n as int) =~= s@);
        assert(r =~= r.drop_last().push(r.last()));
        assert(r.drop_last().push(r.last()).drop_last() =~= r.drop_last());
    }
    let keep = cur.len() > 0 && !(cur.len() == 1 && cur[0] == '.');
    if keep {
        let piece = string_of(cur.as_slice());
        done.push(piece);
    }
    proof {
        let r = raw_parts(s@);
        assert(kept_parts(r) == kept_parts(r.drop_last().push(r.last())));
        assert(done.deep_view() =~= components(s@));
    }
    done
}


/// Whether a component is `..`.
pub fn component_is_parent_dir(c: &String) -> (r: bool)
    ensures
        r == is_parent_dir(c@),
{
    let cs = chars_of(c.as_str());
    cs.len() == 2 && cs[0] == '.' && cs[1] == '.'
}

/// Simplifies `.` and `..` out of a component list.
pub fn fold_components(c: &Vec<String>) -> (r: Vec<String>)
    ensures
        r.deep_view() == fold_norm(c.deep_view()),
{
    let mut out: Vec<String> = Vec::new();
    let mut i: usize = 0;
    proof {
        assert(c.deep_view().take(0) =~= Seq::<Seq<char>>::empty());
    }
    while i < c.len()
        invariant
            i <= c.len(),
            out.deep_view() == fold_norm(c.deep_view().take(i as int)),
        decreases c.len() - i,
    {
        let ghost prev = c.deep_view().take(i as int);
        proof {
            assert(c.deep_view().take(i + 1).drop_last() =~= prev);
            assert(c.deep_view().take(i + 1).last() == c[i as int]@);
        }
        if component_is_parent_dir(&c[i]) {
            if out.len() > 0 {
                let _ = out.pop();
                proof {
                    assert(out.deep_view() =~= fold_norm(prev).drop_last());
                }
            }
        } else {
            out.push(c[i].clone());
            proof {
                assert(out.deep_view() =~= fold_norm(prev).push(c[i as int]@));
            }
        }
        i = i + 1;
    }
    proof {
        assert(c.deep_view().take(c.len() as int) =~= c.deep_view());
    }
    out
}

/// Renders a root flag and a component list as path text.
pub fn render_components(abs: bool, parts: &Vec<String>) -> (s: String)
    ensures
        s@ == render_path(abs, parts.deep_view()),
{
    let mut s = String::new();
    if abs {
        push_char(&mut s, '/');
    }
    let ghost head = s@;
    let mut i: usize = 0;
    proof {
        assert(parts.deep_view().take(0) =~= Seq::<Seq<char>>::empty());
        assert(s@ =~= head + join_with(parts.deep_view().take(0), '/'));
    }
    while i < parts.len()
        invariant
            i <= parts.len(),
            head == (if abs { seq!['/'] } else { Seq::<char>::empty() }),
            s@ == head + join_with(parts.deep_view().take(i as int), '/'),
        decreases parts.len() - i,
    {
        let ghost prev = parts.deep_view().take(i as int);
        let ghost next = parts.deep_view().take(i + 1);
        proof {
            assert(next.drop_last() =~= prev);
            assert(next.last() == parts[i as int]@);
        }
        if i > 0 {
            push_char(&mut s, '/');
        }
        s.append(parts[i].as_str());
        proof {
            if i == 0 {
                assert(next.len() == 1);
                assert(join_with(next, '/') == next[0]);
                assert(join_with(prev, '/') =~= Seq::<char>::empty());
            }
            assert(s@ =~= head + join_with(next, '/'));
        }
        i = i + 1;
    }
    proof {
        assert(parts.deep_view().take(parts.len() as int) =~= parts.deep_view());
    }
    s
}

/// Appends the strings of `extra` to `base`.
pub fn append_all(base: Vec<String>, extra: &Vec<String>) -> (r: Vec<String>)
    ensures
        r.deep_view() == base.deep_view() + extra.deep_view(),
{
    let mut joined = base;
    let ghost start = joined.deep_view();
    let mut j: usize = 0;
    while j < extra.len()
        invariant
            j <= extra.len(),
            joined.deep_view() == start + extra.deep_view().take(j as int),
        decreases extra.len() - j,
    {
        let ghost before = joined.deep_view();
        joined.push(extra[j].clone());
        proof {
            assert(joined.deep_view() =~= before.push(extra[j as int]@));
            assert(extra.deep_view().take(j + 1) =~= extra.deep_view().take(j as int).push(extra[j as int]@));
        }
        j = j + 1;
    }
    proof {
        assert(extra.deep_view().take(extra.len() as int) =~= extra.deep_view());
    }
    joined
}

/// Joins a path written in a file onto the directory of `base`, keeping
/// `..` components.
pub fn join_sibling(base: &str, path: &str) -> (r: String)
    ensures
        r@ == spec_join_sibling(base@, path@),
{
    if path_is_absolute(path) {
        return path.to_owned();
    }
    let base_comps = path_components(base);
    let child_comps = path_components(path);
    if base_comps.len() == 0 {
        return render_components(false, &child_comps);
    }
    let mut dir = base_comps;
    let ghost all = dir.deep_view();
    let _ = dir.pop();
    proof {
        assert(dir.deep_view() =~= all.drop_last());
    }
    let joined = append_all(dir, &child_comps);
    render_components(path_is_absolute(base), &joined)
}

/// Joins `child` onto `base` as `std::path::Path::join` does on text.
pub fn join_path(base: &str, child: &str) -> (r: String)
    ensures
        r@ == spec_join(base@, child@),
{
    let n = base.unicode_len();
    if path_is_absolute(child) || n == 0 {
        return child.to_owned();
    }
    let mut s = base.to_owned();
    if base.get_char(n - 1) != '/' {
        push_char(&mut s, '/');
    }
    s.append(child);
    s
}

/// Whether path text starts with a separator.
pub fn path_is_absolute(s: &str) -> (r: bool)
    ensures
        r == is_abs(s@),
{
    let n = s.unicode_len();
    n > 0 && s.get_char(0) == '/'
}

/// Normalizes a path by removing lexical `.` and `..` components.
///
/// This does not touch the file system and does not resolve symbolic links.
pub fn normalize_lexical(path: &str) -> (r: String)
    ensures
        r@ == spec_normalize(path@),
{
    let abs = path_is_absolute(path);
    let comps = path_components(path);
    let folded = fold_components(&comps);
    render_components(abs, &folded)
}

/// Resolves a path named inside a config file relative to that file.
///
/// Absolute paths are only normalized. Relative paths are joined to the
/// parent directory of `parent_path` and then normalized.
pub fn resolve_include_path(parent_path: &str, include_path: &str) -> (r: String)
    ensures
        r@ == spec_resolve(parent_path@, include_path@),
{
    if path_is_absolute(include_path) {
        return normalize_lexical(include_path);
    }
    let parent_comps = path_components(parent_path);
    let child_comps = path_components(include_path);
    if parent_comps.len() == 0 {
        let folded = fold_components(&child_comps);
        return render_components(false, &folded);
    }
    let mut joined = parent_comps;
    let _ = joined.pop();
    let ghost base = joined.deep_view();
    let mut j: usize = 0;
    while j < child_comps.len()
        invariant
            j <= child_comps.len(),
            joined.deep_view() == base + child_comps.deep_view().take(j as int),
        decreases child_comps.len() - j,
    {
        let ghost before = joined.deep_view();
        joined.push(child_comps[j].clone());
        proof {
            assert(joined.deep_view() =~= before.push(child_comps[j as int]@));
            assert(child_comps.deep_view().take(j + 1) =~= child_comps.deep_view().take(j as int).push(child_comps[j as int]@));
            assert(joined.deep_view() =~= base + child_comps.deep_view().take(j + 1));
        }
        j = j + 1;
    }
    proof {
        assert(child_comps.deep_view().take(child_comps.len() as int) =~= child_comps.deep_view());
        assert(base =~= components(parent_path@).drop_last());
    }
    let folded = fold_components(&joined);
    render_components(path_is_absolute(parent_path), &folded)
}

/// Makes a path absolute against an explicit current directory and
/// normalizes it lexically.
pub fn absolutize_lexical_from(current_dir: &str, path: &str) -> (r: String)
    ensures
        r@ == spec_absolutize(current_dir@, path@),
{
    if path_is_absolute(path) {
        return normalize_lexical(path);
    }
    let mut joined = path_components(current_dir);
    let child_comps = path_components(path);
    let ghost base = joined.deep_view();
    let mut j: usize = 0;
    while j < child_comps.len()
        invariant
            j <= child_comps.len(),
            joined.deep_view() == base + child_comps.deep_view().take(j as int),
        decreases child_comps.len() - j,
    {
        let ghost before = joined.deep_view();
        joined.push(child_comps[j].clone());
        proof {
            assert(joined.deep_view() =~= before.push(child_comps[j as int]@));
            assert(child_comps.deep_view().take(j + 1) =~= child_comps.deep_view().take(j as int).push(child_comps[j as int]@));
            assert(joined.deep_view() =~= base + child_comps.deep_view().take(j + 1));
        }
        j = j + 1;
    }
    proof {
        assert(child_comps.deep_view().take(child_comps.len() as int) =~= child_comps.deep_view());
    }
    let folded = fold_components(&joined);
    render_components(path_is_absolute(current_dir), &folded)
}


/// Reads the process's current directory as text.
///
/// Calls `std::path::absolute(".")`, which joins `.` to the current
/// directory. Which directory comes back, and how it is written on the
/// platform at hand, depend on the process, so nothing is claimed of the
/// text. Failures of the call, or a directory that is not valid UTF-8, are
/// returned as messages.
#[verifier::external_body]
fn current_dir_text() -> (r: Result<String, String>) {
    match std::path::absolute(".") {
        Ok(p) => match p.into_os_string().into_string() {
            Ok(s) => Ok(s),
            Err(_) => Err("current directory is not valid UTF-8".to_string()),
        },
        Err(e) => Err(e.to_string()),
    }
}

/// Turns what reading the current directory gave into the directory or a
/// tree error: a `/`-rooted directory is returned as it is; any other
/// directory is refused, since paths are modelled with `/` as their only
/// separator and root; a failure keeps its message.
pub fn current_dir_from(read: Result<String, String>) -> (r: Result<String, ConfigTreeError>)
    ensures
        read is Ok && is_abs(read->Ok_0@) ==> r == Ok::<String, ConfigTreeError>(read->Ok_0),
        read is Ok && !is_abs(read->Ok_0@) ==> (r matches Err(e) && e is CurrentDir),
        read matches Err(m) ==> (r matches Err(e) && e matches ConfigTreeError::CurrentDir { source } && source@ == m@),
{
    match read {
        Ok(s) => {
            if path_is_absolute(s.as_str()) {
                Ok(s)
            } else {
                Err(ConfigTreeError::CurrentDir { source: String::from_str("current directory is not a `/`-rooted path") })
            }
        },
        Err(msg) => Err(ConfigTreeError::CurrentDir { source: msg }),
    }
}

/// Reads the current directory, reporting a failure as a tree error; a
/// directory that does not start with `/` (a drive-prefixed one, say) is
/// refused as well.
pub fn current_dir() -> (r: Result<String, ConfigTreeError>)
    ensures
        r matches Ok(s) ==> is_abs(s@),
        r matches Err(e) ==> e is CurrentDir,
{
    current_dir_from(current_dir_text())
}

/// The directory that the relative paths among `paths` are resolved
/// against: the process's current directory when one of them is relative.
/// When all are absolute no directory is read, and the root stands in.
pub fn working_dir_for(paths: &Vec<String>) -> (r: Result<String, ConfigTreeError>)
    ensures
        r matches Ok(s) ==> is_abs(s@),
        r matches Err(e) ==> e is CurrentDir && exists|i: int| 0 <= i < paths@.len() && !is_abs(#[trigger] paths@[i]@),
        (forall|i: int| 0 <= i < paths@.len() ==> is_abs(#[trigger] paths@[i]@)) ==> (r matches Ok(s) && s@ == seq!['/']),
{
    let mut i: usize = 0;
    while i < paths.len()
        invariant
            i <= paths@.len(),
            forall|j: int| 0 <= j < i ==> is_abs(#[trigger] paths@[j]@),
        decreases paths@.len() - i,
    {
        if !path_is_absolute(paths[i].as_str()) {
            let r = current_dir();
            assert(!is_abs(paths@[i as int]@));
            return r;
        }
        i = i + 1;
    }
    let mut root = String::new();
    push_char(&mut root, '/');
    proof {
        assert(root@ =~= seq!['/']);
    }
    Ok(root)
}

/// Converts a path to an absolute path and normalizes it lexically.
///
/// The path does not need to exist. Absolute paths are only normalized;
/// relative paths are joined to the current directory first.
pub fn absolutize_lexical(path: &str) -> (r: Result<String, ConfigTreeError>)
    ensures
        is_abs(path@) ==> (r matches Ok(s) && s@ == spec_normalize(path@)),
        r matches Ok(s) ==> exists|cwd: Seq<char>| is_abs(cwd) && s@ == spec_absolutize(cwd, path@),
        r matches Err(e) ==> !is_abs(path@) && e is CurrentDir,
{
    if path_is_absolute(path) {
        let s = normalize_lexical(path);
        proof {
            assert(s@ == spec_absolutize(seq!['/'], path@));
        }
        return Ok(s);
    }
    let cwd = current_dir()?;
    Ok(absolutize_lexical_from(cwd.as_str(), path))
}

/// The `.env` files looked for beside a config file: in its directory and
/// then in each ancestor directory, nearest first.
pub open spec fn dotenv_candidates(path: Seq<char>) -> Seq<Seq<char>> {
    let c = components(path);
    Seq::new(
        c.len(),
        |i: int| render_path(is_abs(path), c.take(c.len() - 1 - i).push(".env"@)),
    )
}

/// Returns the `.env` files looked for beside a config file, nearest first.
pub fn dotenv_paths_for(path: &str) -> (r: Vec<String>)
    ensures
        r.deep_view() == dotenv_candidates(path@),
{
    let abs = path_is_absolute(path);
    let comps = path_components(path);
    let n = comps.len();
    let mut out: Vec<String> = Vec::new();
    let mut i: usize = 0;
    while i < n
        invariant
            n == comps@.len(),
            comps.deep_view() == components(path@),
            abs == is_abs(path@),
            i <= n,
            out.deep_view() == dotenv_candidates(path@).take(i as int),
        decreases n - i,
    {
        let k = n - 1 - i;
        let mut dir: Vec<String> = Vec::new();
        let mut j: usize = 0;
        while j < k
            invariant
                j <= k < n,
                n == comps@.len(),
                dir.deep_view() == comps.deep_view().take(j as int),
            decreases k - j,
        {
            let ghost before = dir.deep_view();
            let seg = comps[j].clone();
            proof {
                assert(comps.deep_view()[j as int] == seg@);
            }
            dir.push(seg);
            proof {
                assert(dir.deep_view() =~= before.push(seg@));
            }
            j = j + 1;
            proof {
                assert(dir.deep_view() =~= comps.deep_view().take(j as int));
            }
        }
        let ghost before = dir.deep_view();
        dir.push(String::from_str(".env"));
        proof {
            reveal_strlit(".env");
            assert(dir.deep_view() =~= comps.deep_view().take(k as int).push(".env"@));
        }
        let candidate = render_components(abs, &dir);
        let ghost out_before = out.deep_view();
        let ghost cv = candidate@;
        out.push(candidate);
        proof {
            assert(out.deep_view() =~= out_before.push(cv));
            assert(dotenv_candidates(path@)[i as int] == cv);
        }
        i = i + 1;
        proof {
            assert(out.deep_view() =~= dotenv_candidates(path@).take(i as int));
        }
    }
    proof {
        assert(dotenv_candidates(path@).take(n as int) =~= dotenv_candidates(path@));
    }
    out
}

} // verus!
