//! Default output locations of generated templates and schemas.
//!
//! They are named after the root config type: `RecorderConfig` gives
//! `config/recorder_config/recorder_config.example.yaml` and
//! `config/recorder_config/recorder_config.schema.json`.

use vstd::prelude::*;
use crate::format::file_name;
use crate::path::{absolutize_lexical_from, path_components, component_is_parent_dir, spec_absolutize};
use crate::text::{chars_of, string_of};

verus! {

/// The start of the last `::` among the first `k` characters, or -1.
pub open spec fn last_sep(s: Seq<char>, k: int) -> int
    decreases k,
{
    if k < 2 || k > s.len() {
        -1
    } else if s[k - 2] == ':' && s[k - 1] == ':' {
        k - 2
    } else {
        last_sep(s, k - 1)
    }
}

/// The position of the first `<` at or after `k`, or the length.
pub open spec fn first_angle(s: Seq<char>, k: int) -> int
    decreases s.len() - k,
{
    if k < 0 || k >= s.len() {
        s.len() as int
    } else if s[k] == '<' {
        k
    } else {
        first_angle(s, k + 1)
    }
}

/// The last `::`-separated segment of a type path, without generic
/// arguments.
pub open spec fn last_segment(name: Seq<char>) -> Seq<char> {
    let p = last_sep(name, name.len() as int);
    let tail = if p < 0 {
        name
    } else {
        name.subrange(p + 2, name.len() as int)
    };
    tail.take(first_angle(tail, 0))
}

/// ASCII uppercase letter.
pub open spec fn is_upper(c: char) -> bool {
    'A' <= c <= 'Z'
}

/// ASCII lowercase letter.
pub open spec fn is_lower(c: char) -> bool {
    'a' <= c <= 'z'
}

/// ASCII digit.
pub open spec fn is_digit(c: char) -> bool {
    '0' <= c <= '9'
}

/// The lowercase form of an ASCII uppercase letter.
pub open spec fn to_lower(c: char) -> char {
    if is_upper(c) {
        ((c as u32) + 32) as char
    } else {
        c
    }
}

/// `out` already ends with an underscore.
pub open spec fn ends_with_underscore(out: Seq<char>) -> bool {
    out.len() > 0 && out.last() == '_'
}

/// An uppercase letter at `i` starts a new word: it follows a lowercase
/// letter or digit, or it ends a run of capitals and a lowercase letter
/// follows.
pub open spec fn starts_word(chars: Seq<char>, i: int) -> bool {
    i > 0 && (is_lower(chars[i - 1]) || is_digit(chars[i - 1]) || (is_upper(chars[i - 1]) && i + 1 < chars.len()
        && is_lower(chars[i + 1])))
}

/// The snake-case output after the first `k` characters: capitals are
/// lowered (with an underscore before a new word), letters and digits are
/// kept, anything else becomes one underscore.
pub open spec fn snake_prefix(chars: Seq<char>, k: int) -> Seq<char>
    decreases k,
{
    if k <= 0 || k > chars.len() {
        Seq::empty()
    } else {
        let out = snake_prefix(chars, k - 1);
        let ch = chars[k - 1];
        if is_upper(ch) {
            let o = if starts_word(chars, k - 1) && !ends_with_underscore(out) {
                out.push('_')
            } else {
                out
            };
            o.push(to_lower(ch))
        } else if is_lower(ch) || is_digit(ch) {
            out.push(ch)
        } else if !ends_with_underscore(out) {
            out.push('_')
        } else {
            out
        }
    }
}

/// `s` without leading underscores.
pub open spec fn trim_leading_underscores(s: Seq<char>) -> Seq<char>
    decreases s.len(),
{
    if s.len() > 0 && s[0] == '_' {
        trim_leading_underscores(s.drop_first())
    } else {
        s
    }
}

/// `s` without trailing underscores.
pub open spec fn trim_trailing_underscores(s: Seq<char>) -> Seq<char>
    decreases s.len(),
{
    if s.len() > 0 && s.last() == '_' {
        trim_trailing_underscores(s.drop_last())
    } else {
        s
    }
}

/// A type name segment in snake case, `config` when nothing is left.
pub open spec fn snake_case(name: Seq<char>) -> Seq<char> {
    let t = trim_trailing_underscores(trim_leading_underscores(snake_prefix(name, name.len() as int)));
    if t.len() == 0 {
        "config"@
    } else {
        t
    }
}

/// The file-name stem used for a root config type's targets.
pub open spec fn target_name_for(type_path: Seq<char>) -> Seq<char> {
    snake_case(last_segment(type_path))
}

/// `config/<name>`.
pub open spec fn output_dir_for(name: Seq<char>) -> Seq<char> {
    "config/"@ + name
}

/// `config/<name>/<name>.example.yaml`.
pub open spec fn template_output_for(name: Seq<char>) -> Seq<char> {
    output_dir_for(name) + "/"@ + name + ".example.yaml"@
}

/// `config/<name>/<name>.schema.json`.
pub open spec fn schema_output_for(name: Seq<char>) -> Seq<char> {
    output_dir_for(name) + "/"@ + name + ".schema.json"@
}

/// Returns the last `::`-separated segment of a type path, without generic
/// arguments.
pub fn last_type_segment(name: &str) -> (r: String)
    ensures
        r@ == last_segment(name@),
{
    let cs = chars_of(name);
    let n = cs.len();
    let mut k: usize = n;
    while k >= 2 && !(cs[k - 2] == ':' && cs[k - 1] == ':')
        invariant
            k <= n,
            n == name@.len(),
            cs@ == name@,
            last_sep(name@, n as int) == last_sep(name@, k as int),
        decreases k,
    {
        k = k - 1;
    }
    let start: usize = if k >= 2 { k } else { 0 };
    proof {
        if k >= 2 {
            assert(last_sep(name@, k as int) == k - 2);
        } else {
            assert(last_sep(name@, k as int) == -1);
        }
    }
    let ghost tail = if k >= 2 { name@.subrange(k as int, n as int) } else { name@ };
    let mut j: usize = start;
    while j < n && cs[j] != '<'
        invariant
            start <= j <= n,
            n == name@.len(),
            cs@ == name@,
            tail == name@.subrange(start as int, n as int),
            first_angle(tail, 0) == first_angle(tail, j - start),
        decreases n - j,
    {
        j = j + 1;
    }
    proof {
        assert(tail =~= name@.subrange(start as int, n as int));
        if j < n {
            assert(tail[j - start] == '<');
        }
        assert(first_angle(tail, j - start) == j - start);
    }
    let mut out: Vec<char> = Vec::new();
    let mut i: usize = start;
    while i < j
        invariant
            start <= i <= j <= n,
            n == name@.len(),
            cs@ == name@,
            out@ == name@.subrange(start as int, i as int),
        decreases j - i,
    {
        out.push(cs[i]);
        i = i + 1;
        proof {
            assert(out@ =~= name@.subrange(start as int, i as int));
        }
    }
    proof {
        assert(out@ =~= tail.take(j - start));
    }
    string_of(out.as_slice())
}

/// Converts a type name segment to snake case, `config` when nothing is
/// left.
pub fn type_segment_to_snake_case(name: &str) -> (r: String)
    ensures
        r@ == snake_case(name@),
{
    let chars = chars_of(name);
    let n = chars.len();
    let mut out: Vec<char> = Vec::new();
    let mut i: usize = 0;
    while i < n
        invariant
            i <= n,
            n == name@.len(),
            chars@ == name@,
            out@ == snake_prefix(name@, i as int),
        decreases n - i,
    {
        let ch = chars[i];
        let ends_us = out.len() > 0 && out[out.len() - 1] == '_';
        if 'A' <= ch && ch <= 'Z' {
            let starts = i > 0 && {
                let p = chars[i - 1];
                ('a' <= p && p <= 'z') || ('0' <= p && p <= '9') || (('A' <= p && p <= 'Z') && i + 1 < n && {
                    let q = chars[i + 1];
                    'a' <= q && q <= 'z'
                })
            };
            if starts && !ends_us {
                out.push('_');
            }
            let code: u32 = ch as u32;
            let b: u8 = (code + 32) as u8;
            let lower = b as char;
            proof {
                assert(b as int == code + 32);
                assert(lower == to_lower(ch));
            }
            out.push(lower);
        } else if ('a' <= ch && ch <= 'z') || ('0' <= ch && ch <= '9') {
            out.push(ch);
        } else if !ends_us {
            out.push('_');
        }
        i = i + 1;
    }
    let mut lo: usize = 0;
    let m = out.len();
    let ghost full = out@;
    proof {
        assert(full.subrange(0, m as int) =~= full);
    }
    while lo < m && out[lo] == '_'
        invariant
            lo <= m,
            m == full.len(),
            out@ == full,
            trim_leading_underscores(full) == trim_leading_underscores(full.subrange(lo as int, m as int)),
        decreases m - lo,
    {
        proof {
            assert(full.subrange(lo as int, m as int).drop_first() =~= full.subrange(lo + 1, m as int));
        }
        lo = lo + 1;
    }
    let ghost lead = full.subrange(lo as int, m as int);
    proof {
        assert(trim_leading_underscores(lead) == lead);
    }
    let mut hi: usize = m;
    proof {
        assert(full.subrange(lo as int, hi as int) =~= lead);
    }
    while hi > lo && out[hi - 1] == '_'
        invariant
            lo <= hi <= m,
            m == full.len(),
            out@ == full,
            trim_trailing_underscores(lead) == trim_trailing_underscores(full.subrange(lo as int, hi as int)),
        decreases hi,
    {
        proof {
            assert(full.subrange(lo as int, hi as int).drop_last() =~= full.subrange(lo as int, hi - 1));
        }
        hi = hi - 1;
    }
    proof {
        let t = full.subrange(lo as int, hi as int);
        assert(trim_trailing_underscores(t) == t);
    }
    if lo == hi {
        return String::from_str("config");
    }
    let mut kept: Vec<char> = Vec::new();
    let mut i: usize = lo;
    while i < hi
        invariant
            lo <= i <= hi <= m,
            m == full.len(),
            out@ == full,
            kept@ == full.subrange(lo as int, i as int),
        decreases hi - i,
    {
        kept.push(out[i]);
        i = i + 1;
        proof {
            assert(kept@ =~= full.subrange(lo as int, i as int));
        }
    }
    string_of(kept.as_slice())
}

/// The file-name stem used for a root config type's targets.
pub fn root_config_target_name_for(type_path: &str) -> (r: String)
    ensures
        r@ == target_name_for(type_path@),
{
    let segment = last_type_segment(type_path);
    type_segment_to_snake_case(segment.as_str())
}

/// `config/<name>`.
pub fn output_dir_from_name(name: &str) -> (r: String)
    ensures
        r@ == output_dir_for(name@),
{
    let mut s = String::from_str("config/");
    s.append(name);
    s
}

/// `config/<name>/<name>.example.yaml`.
pub fn template_output_from_name(name: &str) -> (r: String)
    ensures
        r@ == template_output_for(name@),
{
    let mut s = output_dir_from_name(name);
    s.append("/");
    s.append(name);
    s.append(".example.yaml");
    s
}

/// `config/<name>/<name>.schema.json`.
pub fn schema_output_from_name(name: &str) -> (r: String)
    ensures
        r@ == schema_output_for(name@),
{
    let mut s = output_dir_from_name(name);
    s.append("/");
    s.append(name);
    s.append(".schema.json");
    s
}

/// The template output path relative to the working directory: the file
/// name of the requested output placed in the type's output directory, or the
/// default template path when no usable file name was given.
pub open spec fn relative_template_output(name: Seq<char>, output: Option<Seq<char>>) -> Seq<char> {
    match output {
        Some(o) => match file_name(o) {
            Some(f) => output_dir_for(name) + "/"@ + f,
            None => template_output_for(name),
        },
        None => template_output_for(name),
    }
}

/// Returns the last component of a path, unless it is `..` or there is
/// none.
pub fn file_name_of(path: &str) -> (r: Option<String>)
    ensures
        match file_name(path@) {
            Some(f) => r is Some && r->0@ == f,
            None => r is None,
        },
{
    let comps = path_components(path);
    let n = comps.len();
    if n == 0 || component_is_parent_dir(&comps[n - 1]) {
        None
    } else {
        Some(comps[n - 1].clone())
    }
}

/// Resolves the template output path for a root config type named `name`
/// against `current_dir`: the requested file name goes into the type's
/// output directory, and the result is absolute and normalized.
pub fn resolve_template_output_from(current_dir: &str, name: &str, output: Option<&str>) -> (r: String)
    ensures
        r@ == spec_absolutize(current_dir@, relative_template_output(name@, match output {
            Some(o) => Some(o@),
            None => None,
        })),
{
    let relative = match output {
        Some(o) => match file_name_of(o) {
            Some(f) => {
                let mut s = output_dir_from_name(name);
                s.append("/");
                s.append(f.as_str());
                s
            },
            None => template_output_from_name(name),
        },
        None => template_output_from_name(name),
    };
    absolutize_lexical_from(current_dir, relative.as_str())
}

} // verus!
