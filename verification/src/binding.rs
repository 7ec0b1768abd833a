//! Binding generated templates to their JSON Schemas: YAML and TOML
//! templates get a schema directive comment; JSON5 templates are left as they
//! are, and a `$schema` property can be added to them explicitly. The schema is
//! referenced relative to the template's directory.

use vstd::prelude::*;
use crate::error::ConfigTreeError;
use crate::format::{format_of, ConfigFormat};
use crate::path::{
    absolutize_lexical_from, components, current_dir, is_abs, is_parent_dir, path_components,
    path_is_absolute, render_components, render_path, spec_absolutize,
};
use crate::quote::{json_string_literal, quote_text};
use crate::sections::{section_for_target, section_path_for_target_candidates, section_schema_path, schema_path_for_section};
use crate::text::{chars_of, push_char, string_of};

verus! {

/// A path's components, preceded by a `/` entry standing for the root when
/// the path is absolute.
pub open spec fn rooted_components(p: Seq<char>) -> Seq<Seq<char>> {
    if is_abs(p) {
        seq![seq!['/']] + components(p)
    } else {
        components(p)
    }
}

/// The length of the longest common prefix of `a` and `b`, counted from `i`.
pub open spec fn common_from(a: Seq<Seq<char>>, b: Seq<Seq<char>>, i: int) -> int
    decreases a.len() - i,
{
    if 0 <= i < a.len() && i < b.len() && a[i] == b[i] {
        common_from(a, b, i + 1)
    } else {
        i
    }
}

/// How many entries of `s` are neither `..` nor the root.
pub open spec fn climbs(s: Seq<Seq<char>>) -> nat
    decreases s.len(),
{
    if s.len() == 0 {
        0
    } else {
        climbs(s.drop_last()) + if is_parent_dir(s.last()) || s.last() == seq!['/'] {
            0nat
        } else {
            1nat
        }
    }
}

/// `n` parent-directory components.
pub open spec fn ups(n: nat) -> Seq<Seq<char>> {
    Seq::new(n, |_i: int| ".."@)
}

/// `path` written relative to `base`: one `..` per remaining entry of
/// `base` after their common prefix, then the rest of `path`; `.` when
/// nothing is left; `path` itself when they share nothing.
pub open spec fn relative_from(path: Seq<char>, base: Seq<char>) -> Seq<char> {
    let a = rooted_components(path);
    let b = rooted_components(base);
    let c = common_from(a, b, 0);
    if c == 0 {
        path
    } else {
        let parts = ups(climbs(b.skip(c))) + a.skip(c);
        if parts.len() == 0 {
            "."@
        } else {
            render_path(false, parts)
        }
    }
}

/// The directory of a path, `.` when it has none.
pub open spec fn dir_of(p: Seq<char>) -> Seq<char> {
    let cs = components(p);
    if cs.len() == 0 {
        "."@
    } else {
        render_path(is_abs(p), cs.drop_last())
    }
}

/// `s` with every backslash replaced by a slash.
pub open spec fn forward_slashes(s: Seq<char>) -> Seq<char> {
    Seq::new(s.len(), |i: int| if s[i] == '\\' { '/' } else { s[i] })
}

/// `a` is a prefix of `b`.
pub open spec fn starts_with(b: Seq<char>, a: Seq<char>) -> bool {
    a.len() <= b.len() && b.take(a.len() as int) == a
}

/// How a schema is referenced from a template: with forward slashes, and
/// prefixed with `./` unless it is absolute or already starts with `./` or
/// `../`.
pub open spec fn schema_reference_text(path: Seq<char>) -> Seq<char> {
    let v = forward_slashes(path);
    if is_abs(path) || starts_with(v, "../"@) || starts_with(v, "./"@) {
        v
    } else {
        "./"@ + v
    }
}

/// The reference to `schema` from `template`, both made absolute against
/// `cwd`.
pub open spec fn schema_reference(cwd: Seq<char>, template: Seq<char>, schema: Seq<char>) -> Seq<char> {
    schema_reference_text(
        relative_from(spec_absolutize(cwd, schema), dir_of(spec_absolutize(cwd, template))),
    )
}

/// A white-space character, as `char::is_whitespace` defines it (the
/// Unicode `White_Space` property).
pub open spec fn is_white_space(c: char) -> bool {
    c == ' ' || ('\u{9}' <= c <= '\u{d}') || c == '\u{85}' || c == '\u{a0}' || c == '\u{1680}' || ('\u{2000}'
        <= c <= '\u{200a}') || c == '\u{2028}' || c == '\u{2029}' || c == '\u{202f}' || c == '\u{205f}' || c
        == '\u{3000}'
}

/// `s` without leading white space.
pub open spec fn trim_start(s: Seq<char>) -> Seq<char>
    decreases s.len(),
{
    if s.len() > 0 && is_white_space(s[0]) {
        trim_start(s.drop_first())
    } else {
        s
    }
}

/// `s` without trailing white space.
pub open spec fn trim_end(s: Seq<char>) -> Seq<char>
    decreases s.len(),
{
    if s.len() > 0 && is_white_space(s.last()) {
        trim_end(s.drop_last())
    } else {
        s
    }
}

/// A JSON5 template with a `$schema` property added: as first property of
/// a template that opens with `{` on its own line, as the only property of
/// an empty object; anything else is left unchanged.
pub open spec fn with_json_schema_property(schema_ref: Seq<char>, content: Seq<char>) -> Seq<char> {
    let q = json_string_literal(schema_ref);
    if starts_with(content, "{\n"@) {
        let body = content.skip(2);
        let t = trim_start(body);
        let sep = if t.len() > 0 && t[0] == '}' {
            "\n"@
        } else {
            ",\n"@
        };
        "{\n  \"$schema\": "@ + q + sep + body
    } else if trim_end(trim_start(content)) == "{}"@ {
        "{\n  \"$schema\": "@ + q + "\n}\n"@
    } else {
        content
    }
}

/// A template bound to its schema by the directive of its format; JSON5
/// templates are left unchanged.
pub open spec fn with_schema_directive(format: ConfigFormat, schema_ref: Seq<char>, content: Seq<char>) -> Seq<char> {
    match format {
        ConfigFormat::Yaml => "# yaml-language-server: $schema="@ + schema_ref + "\n\n"@ + content,
        ConfigFormat::Toml => "#:schema "@ + schema_ref + "\n\n"@ + content,
        ConfigFormat::Json => content,
    }
}

/// The root components of a path, with the root entry.
fn rooted_components_of(p: &str) -> (r: Vec<String>)
    ensures
        r.deep_view() == rooted_components(p@),
{
    let cs = path_components(p);
    if path_is_absolute(p) {
        let mut root: Vec<String> = Vec::new();
        let mut slash = String::new();
        push_char(&mut slash, '/');
        root.push(slash);
        proof {
            assert(root.deep_view() =~= seq![seq!['/']]);
        }
        crate::path::append_all(root, &cs)
    } else {
        cs
    }
}

/// Writes `path` relative to `base`.
pub fn relative_path_from(path: &str, base: &str) -> (r: String)
    ensures
        r@ == relative_from(path@, base@),
{
    let a = rooted_components_of(path);
    let b = rooted_components_of(base);
    let ghost av = a.deep_view();
    let ghost bv = b.deep_view();
    let mut c: usize = 0;
    proof {
        assert(common_from(av, bv, 0) == common_from(av, bv, c as int));
    }
    while c < a.len() && c < b.len() && a[c] == b[c]
        invariant
            av == a.deep_view(),
            bv == b.deep_view(),
            c <= a@.len(),
            c <= b@.len(),
            common_from(av, bv, 0) == common_from(av, bv, c as int),
        decreases a@.len() - c,
    {
        proof {
            assert(av[c as int] == bv[c as int]);
        }
        c = c + 1;
    }
    proof {
        if c < a@.len() && c < b@.len() {
            assert(av[c as int] != bv[c as int]);
        }
        assert(common_from(av, bv, c as int) == c);
    }
    if c == 0 {
        return path.to_owned();
    }
    let mut parts: Vec<String> = Vec::new();
    let mut j: usize = c;
    proof {
        assert(bv.skip(c as int).take(0) =~= Seq::<Seq<char>>::empty());
    }
    while j < b.len()
        invariant
            c <= j <= b@.len(),
            bv == b.deep_view(),
            parts.deep_view() == ups(climbs(bv.skip(c as int).take(j - c))),
        decreases b@.len() - j,
    {
        let ghost t = bv.skip(c as int).take(j + 1 - c);
        proof {
            assert(t.drop_last() =~= bv.skip(c as int).take(j - c));
            assert(t.last() == bv[j as int]);
            assert(bv[j as int] == b@[j as int]@);
        }
        let is_root = b[j].as_str().unicode_len() == 1 && b[j].as_str().get_char(0) == '/';
        proof {
            if b@[j as int]@.len() == 1 && b@[j as int]@[0] == '/' {
                assert(b@[j as int]@ =~= seq!['/']);
            }
        }
        if !component_is_parent_dir(&b[j]) && !is_root {
            let ghost before = parts.deep_view();
            let dots = String::from_str("..");
            parts.push(dots);
            proof {
                assert(t.last() != seq!['/']);
                assert(climbs(t) == climbs(t.drop_last()) + 1);
                assert(parts.deep_view() =~= before.push(".."@));
                assert(ups(climbs(t)) =~= ups(climbs(t.drop_last())).push(".."@));
            }
        } else {
            proof {
                assert(climbs(t) == climbs(t.drop_last()));
            }
        }
        j = j + 1;
    }
    proof {
        assert(bv.skip(c as int).take(b@.len() - c) =~= bv.skip(c as int));
    }
    let mut k: usize = c;
    let ghost up = parts.deep_view();
    proof {
        assert(parts.deep_view() =~= up + av.skip(c as int).take(0));
    }
    while k < a.len()
        invariant
            c <= k <= a@.len(),
            av == a.deep_view(),
            parts.deep_view() == up + av.skip(c as int).take(k - c),
        decreases a@.len() - k,
    {
        let ghost before = parts.deep_view();
        parts.push(a[k].clone());
        proof {
            assert(av[k as int] == a@[k as int]@);
            assert(parts.deep_view() =~= before.push(av[k as int]));
            assert(av.skip(c as int).take(k + 1 - c) =~= av.skip(c as int).take(k - c).push(av[k as int]));
        }
        k = k + 1;
    }
    proof {
        assert(av.skip(c as int).take(a@.len() - c) =~= av.skip(c as int));
    }
    if parts.len() == 0 {
        return String::from_str(".");
    }
    render_components(false, &parts)
}

/// Whether a component is `..`.
fn component_is_parent_dir(c: &String) -> (r: bool)
    ensures
        r == is_parent_dir(c@),
{
    crate::path::component_is_parent_dir(c)
}

/// Returns the directory of a path, `.` when it has none.
pub fn dir_path_of(p: &str) -> (r: String)
    ensures
        r@ == dir_of(p@),
{
    let mut cs = path_components(p);
    if cs.len() == 0 {
        return String::from_str(".");
    }
    crate::meta::pop_segment(&mut cs);
    render_components(path_is_absolute(p), &cs)
}

/// Returns whether `b` starts with `a`.
fn text_starts_with(b: &Vec<char>, a: &str) -> (r: bool)
    ensures
        r == starts_with(b@, a@),
{
    let ac = chars_of(a);
    if ac.len() > b.len() {
        return false;
    }
    let mut i: usize = 0;
    while i < ac.len()
        invariant
            ac@ == a@,
            ac@.len() <= b@.len(),
            i <= ac@.len(),
            forall|j: int| 0 <= j < i ==> b@[j] == a@[j],
        decreases ac@.len() - i,
    {
        if ac[i] != b[i] {
            proof {
                assert(b@.take(a@.len() as int)[i as int] != a@[i as int]);
            }
            return false;
        }
        i = i + 1;
    }
    proof {
        assert(b@.take(a@.len() as int) =~= a@);
    }
    true
}

/// Renders how a schema path is referenced from a template.
pub fn render_schema_reference(path: &str) -> (r: String)
    ensures
        r@ == schema_reference_text(path@),
{
    let cs = chars_of(path);
    let mut v: Vec<char> = Vec::new();
    let mut i: usize = 0;
    while i < cs.len()
        invariant
            i <= cs@.len(),
            cs@ == path@,
            v@ == forward_slashes(path@).take(i as int),
        decreases cs@.len() - i,
    {
        let c = cs[i];
        v.push(if c == '\\' { '/' } else { c });
        i = i + 1;
        proof {
            assert(v@ =~= forward_slashes(path@).take(i as int));
        }
    }
    proof {
        assert(v@ =~= forward_slashes(path@));
    }
    let keep = path_is_absolute(path) || text_starts_with(&v, "../") || text_starts_with(&v, "./");
    let value = string_of(v.as_slice());
    if keep {
        value
    } else {
        let mut out = String::from_str("./");
        out.append(value.as_str());
        out
    }
}

/// Returns how `schema_path` is referenced from `template_path`, both made
/// absolute against `current_dir`.
pub fn schema_reference_for_path_from(current_dir: &str, template_path: &str, schema_path: &str) -> (r: String)
    ensures
        r@ == schema_reference(current_dir@, template_path@, schema_path@),
{
    let template = absolutize_lexical_from(current_dir, template_path);
    let schema = absolutize_lexical_from(current_dir, schema_path);
    let dir = dir_path_of(template.as_str());
    let relative = relative_path_from(schema.as_str(), dir.as_str());
    render_schema_reference(relative.as_str())
}

/// Returns whether a character is white space.
fn char_is_white_space(c: char) -> (r: bool)
    ensures
        r == is_white_space(c),
{
    c == ' ' || ('\u{9}' <= c && c <= '\u{d}') || c == '\u{85}' || c == '\u{a0}' || c == '\u{1680}' || ('\u{2000}'
        <= c && c <= '\u{200a}') || c == '\u{2028}' || c == '\u{2029}' || c == '\u{202f}' || c == '\u{205f}' || c
        == '\u{3000}'
}

/// The index of the first non-white-space character at or after `i`.
pub(crate) proof fn lemma_trim_start_skip(s: Seq<char>, i: int)
    requires
        0 <= i <= s.len(),
        forall|j: int| 0 <= j < i ==> is_white_space(#[trigger] s[j]),
    ensures
        trim_start(s) == trim_start(s.skip(i)),
    decreases i,
{
    if i > 0 {
        assert(is_white_space(s[0]));
        assert(s.drop_first() =~= s.skip(1));
        assert forall|j: int| 0 <= j < i - 1 implies is_white_space(#[trigger] s.drop_first()[j]) by {
            assert(s.drop_first()[j] == s[j + 1]);
        }
        lemma_trim_start_skip(s.drop_first(), i - 1);
        assert(s.drop_first().skip(i - 1) =~= s.skip(i));
    } else {
        assert(s.skip(0) =~= s);
    }
}

/// Trailing white space can be dropped one character at a time.
pub(crate) proof fn lemma_trim_end_take(s: Seq<char>, k: int)
    requires
        0 <= k <= s.len(),
        forall|j: int| k <= j < s.len() ==> is_white_space(#[trigger] s[j]),
    ensures
        trim_end(s) == trim_end(s.take(k)),
    decreases s.len() - k,
{
    if k < s.len() {
        assert(is_white_space(s.last()));
        assert forall|j: int| k <= j < s.drop_last().len() implies is_white_space(#[trigger] s.drop_last()[j]) by {
            assert(s.drop_last()[j] == s[j]);
        }
        lemma_trim_end_take(s.drop_last(), k);
        assert(s.drop_last().take(k) =~= s.take(k));
    } else {
        assert(s.take(k) =~= s);
    }
}

/// Adds a `$schema` property to a JSON5 template.
pub fn template_with_json_schema_property(schema_ref: &str, content: &str) -> (r: String)
    ensures
        r@ == with_json_schema_property(schema_ref@, content@),
{
    let q = quote_text(schema_ref);
    let cs = chars_of(content);
    let n = cs.len();
    if text_starts_with(&cs, "{\n") {
        proof {
            reveal_strlit("{\n");
        }
        let mut i: usize = 2;
        while i < n && char_is_white_space(cs[i])
            invariant
                2 <= i <= n,
                n == content@.len(),
                cs@ == content@,
                forall|j: int| 2 <= j < i ==> is_white_space(#[trigger] content@[j]),
            decreases n - i,
        {
            i = i + 1;
        }
        proof {
            let body = content@.skip(2);
            assert forall|j: int| 0 <= j < i - 2 implies is_white_space(#[trigger] body[j]) by {
                assert(body[j] == content@[j + 2]);
            }
            lemma_trim_start_skip(body, i - 2);
            assert(body.skip(i - 2) =~= content@.skip(i as int));
            if i < n {
                assert(!is_white_space(content@[i as int]));
                assert(trim_start(content@.skip(i as int)) == content@.skip(i as int));
            } else {
                assert(content@.skip(i as int).len() == 0);
            }
        }
        let closes = i < n && cs[i] == '}';
        let mut body: Vec<char> = Vec::new();
        let mut k: usize = 2;
        while k < n
            invariant
                2 <= k <= n,
                n == content@.len(),
                cs@ == content@,
                body@ == content@.subrange(2, k as int),
            decreases n - k,
        {
            body.push(cs[k]);
            k = k + 1;
            proof {
                assert(body@ =~= content@.subrange(2, k as int));
            }
        }
        let mut out = String::from_str("{\n  \"$schema\": ");
        out.append(q.as_str());
        if closes {
            out.append("\n");
        } else {
            out.append(",\n");
        }
        let body_text = string_of(body.as_slice());
        out.append(body_text.as_str());
        proof {
            assert(body@ =~= content@.skip(2));
            assert(out@ =~= with_json_schema_property(schema_ref@, content@));
        }
        return out;
    }
    let mut lo: usize = 0;
    while lo < n && char_is_white_space(cs[lo])
        invariant
            lo <= n,
            n == content@.len(),
            cs@ == content@,
            forall|j: int| 0 <= j < lo ==> is_white_space(#[trigger] content@[j]),
        decreases n - lo,
    {
        lo = lo + 1;
    }
    let ghost front = content@.skip(lo as int);
    proof {
        lemma_trim_start_skip(content@, lo as int);
        if lo < n {
            assert(!is_white_space(content@[lo as int]));
        }
        assert(trim_start(front) == front);
    }
    let mut hi: usize = n;
    while hi > lo && char_is_white_space(cs[hi - 1])
        invariant
            lo <= hi <= n,
            n == content@.len(),
            cs@ == content@,
            forall|j: int| hi <= j < n ==> is_white_space(#[trigger] content@[j]),
        decreases hi,
    {
        hi = hi - 1;
    }
    proof {
        assert forall|j: int| hi - lo <= j < front.len() implies is_white_space(#[trigger] front[j]) by {
            assert(front[j] == content@[j + lo]);
        }
        lemma_trim_end_take(front, hi - lo);
        let mid = front.take(hi - lo);
        if hi > lo {
            assert(mid.last() == content@[hi - 1]);
            assert(!is_white_space(mid.last()));
        }
        assert(trim_end(mid) == mid);
        assert(mid =~= content@.subrange(lo as int, hi as int));
    }
    let empty_object = hi - lo == 2 && cs[lo] == '{' && cs[lo + 1] == '}';
    proof {
        reveal_strlit("{}");
        if hi - lo == 2 && cs@[lo as int] == '{' && cs@[lo + 1] == '}' {
            assert(content@.subrange(lo as int, hi as int) =~= "{}"@);
        }
        if content@.subrange(lo as int, hi as int) == "{}"@ {
            assert(content@.subrange(lo as int, hi as int)[0] == '{');
        }
    }
    if empty_object {
        let mut out = String::from_str("{\n  \"$schema\": ");
        out.append(q.as_str());
        out.append("\n}\n");
        return out;
    }
    content.to_owned()
}

/// Binds a template to its schema, given the reference to the schema.
pub fn bind_schema_reference(template_path: &str, schema_ref: &str, content: &str) -> (r: String)
    ensures
        r@ == with_schema_directive(format_of(template_path@), schema_ref@, content@),
{
    match ConfigFormat::from_path(template_path) {
        ConfigFormat::Yaml => {
            let mut out = String::from_str("# yaml-language-server: $schema=");
            out.append(schema_ref);
            out.append("\n\n");
            out.append(content);
            out
        },
        ConfigFormat::Toml => {
            let mut out = String::from_str("#:schema ");
            out.append(schema_ref);
            out.append("\n\n");
            out.append(content);
            out
        },
        ConfigFormat::Json => content.to_owned(),
    }
}

/// Binds a template to its schema, resolving both paths against
/// `current_dir`.
pub fn template_with_schema_directive_from(
    current_dir: &str,
    template_path: &str,
    schema_path: &str,
    content: &str,
) -> (r: String)
    ensures
        r@ == with_schema_directive(
            format_of(template_path@),
            schema_reference(current_dir@, template_path@, schema_path@),
            content@,
        ),
{
    let schema_ref = schema_reference_for_path_from(current_dir, template_path, schema_path);
    bind_schema_reference(template_path, schema_ref.as_str(), content)
}

/// Binds a template to its schema, resolving relative paths against the
/// process's current directory.
pub fn template_with_schema_directive(template_path: &str, schema_path: &str, content: &str) -> (r: Result<
    String,
    ConfigTreeError,
>)
    ensures
        r matches Ok(s) ==> exists|cwd: Seq<char>|
            s@ == with_schema_directive(
                format_of(template_path@),
                schema_reference(cwd, template_path@, schema_path@),
                content@,
            ),
        r matches Err(e) ==> e is CurrentDir && !(is_abs(template_path@) && is_abs(schema_path@)),
        is_abs(template_path@) && is_abs(schema_path@) ==> (r matches Ok(s) && forall|cwd: Seq<char>|
            s@ == with_schema_directive(
                format_of(template_path@),
                #[trigger] schema_reference(cwd, template_path@, schema_path@),
                content@,
            )),
{
    if path_is_absolute(template_path) && path_is_absolute(schema_path) {
        // Neither path is resolved against a directory, so any directory
        // stands in for the current one; the root is used.
        let root = String::from_str("/");
        let s = template_with_schema_directive_from(root.as_str(), template_path, schema_path, content);
        proof {
            assert forall|cwd: Seq<char>|
                #[trigger] schema_reference(cwd, template_path@, schema_path@) == schema_reference(
                    root@,
                    template_path@,
                    schema_path@,
                ) by {}
        }
        return Ok(s);
    }
    let cwd = current_dir()?;
    Ok(template_with_schema_directive_from(cwd.as_str(), template_path, schema_path, content))
}

/// The schema path a template target is bound to: its section's schema
/// when the target stands for a non-empty split section, the root schema
/// otherwise.
pub open spec fn target_schema_path(
    anchor: Seq<char>,
    target: Seq<char>,
    root_schema: Seq<char>,
    splits: Seq<Seq<Seq<char>>>,
    overrides: Seq<(Seq<Seq<char>>, Seq<char>)>,
) -> Seq<char> {
    match section_for_target(anchor, target, splits, overrides) {
        Some(s) => if s.len() > 0 {
            section_schema_path(root_schema, s)
        } else {
            root_schema
        },
        None => root_schema,
    }
}

/// Returns the schema path a template target is bound to.
pub fn schema_path_for_template_target(
    anchor: &str,
    target_path: &str,
    root_schema_path: &str,
    split_paths: &Vec<Vec<String>>,
    overrides: &Vec<(Vec<String>, String)>,
) -> (r: String)
    ensures
        r@ == target_schema_path(anchor@, target_path@, root_schema_path@, split_paths.deep_view(), overrides.deep_view()),
{
    match section_path_for_target_candidates(anchor, target_path, split_paths, overrides) {
        Some(section) => {
            if section.len() > 0 {
                proof {
                    assert(section.deep_view().len() == section@.len());
                }
                schema_path_for_section(root_schema_path, &section)
            } else {
                proof {
                    assert(section.deep_view().len() == section@.len());
                }
                root_schema_path.to_owned()
            }
        },
        None => root_schema_path.to_owned(),
    }
}

} // verus!
