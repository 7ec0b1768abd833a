//! Templates of transparent array sections: a split file of such a section
//! holds only the array, so the section key and the items wrapper are taken
//! out of the rendered section template and the commented body is rewritten
//! as block YAML.

use vstd::prelude::*;
use crate::binding::{is_white_space, trim_end, trim_start};
use crate::cli::{trim_end_chars, trim_start_chars};
use crate::path::join_with;
use crate::text::{chars_of, ensure_single_trailing_newline, single_trailing_newline, string_of};

verus! {

/// A YAML value, as the body of a template is parsed into.
#[derive(Debug)]
pub enum YamlValue {
    /// `null` or an empty value.
    Null,
    /// A boolean.
    Bool(bool),
    /// A number.
    Number(serde_yaml::Number),
    /// A string.
    Str(String),
    /// A sequence.
    Sequence(Vec<YamlValue>),
    /// A mapping, in order; its keys are distinct.
    Mapping(Vec<(YamlValue, YamlValue)>),
    /// A tagged value.
    Tagged(serde_yaml::value::Tag, Box<YamlValue>),
}

#[verifier::external_type_specification]
#[verifier::external_body]
pub struct ExYamlNumber(serde_yaml::Number);

#[verifier::external_type_specification]
#[verifier::external_body]
pub struct ExYamlTag(serde_yaml::value::Tag);

#[verifier::external_type_specification]
#[verifier::external_body]
pub struct ExYamlDocument(serde_yaml::Value);

/// Copies a `serde_yaml` value into the library's form, node for node.
#[verifier::external_body]
fn yaml_of_serde(v: serde_yaml::Value) -> YamlValue {
    match v {
        serde_yaml::Value::Null => YamlValue::Null,
        serde_yaml::Value::Bool(b) => YamlValue::Bool(b),
        serde_yaml::Value::Number(n) => YamlValue::Number(n),
        serde_yaml::Value::String(s) => YamlValue::Str(s),
        serde_yaml::Value::Sequence(items) => YamlValue::Sequence(items.into_iter().map(yaml_of_serde).collect()),
        serde_yaml::Value::Mapping(m) => YamlValue::Mapping(
            m.into_iter().map(|(k, c)| (yaml_of_serde(k), yaml_of_serde(c))).collect(),
        ),
        serde_yaml::Value::Tagged(t) => YamlValue::Tagged(t.tag, Box::new(yaml_of_serde(t.value))),
    }
}

/// Copies a value of the library's form into a `serde_yaml` value, node for
/// node.
#[verifier::external_body]
fn serde_of_yaml(v: YamlValue) -> serde_yaml::Value {
    match v {
        YamlValue::Null => serde_yaml::Value::Null,
        YamlValue::Bool(b) => serde_yaml::Value::Bool(b),
        YamlValue::Number(n) => serde_yaml::Value::Number(n),
        YamlValue::Str(s) => serde_yaml::Value::String(s),
        YamlValue::Sequence(items) => serde_yaml::Value::Sequence(items.into_iter().map(serde_of_yaml).collect()),
        YamlValue::Mapping(es) => serde_yaml::Value::Mapping(
            es.into_iter().map(|(k, c)| (serde_of_yaml(k), serde_of_yaml(c))).collect(),
        ),
        YamlValue::Tagged(tag, inner) => serde_yaml::Value::Tagged(
            Box::new(serde_yaml::value::TaggedValue { tag, value: serde_of_yaml(*inner) }),
        ),
    }
}

/// What `serde_yaml::from_str` parses a text into, in the library's form;
/// `None` when the text is not YAML.
pub uninterp spec fn yaml_parsed(text: Seq<char>) -> Option<YamlValue>;

/// The text `serde_yaml::to_string` writes for a value; `None` when it
/// fails.
pub uninterp spec fn yaml_text(v: YamlValue) -> Option<Seq<char>>;

/// Parses YAML text.
///
/// Calls `serde_yaml::from_str` for a `serde_yaml::Value` and copies the
/// result into the library's form. The value is a function of the text
/// alone, so it is named by `yaml_parsed`; nothing more is claimed of it.
#[verifier::external_body]
fn parse_yaml(text: &str) -> (r: Option<YamlValue>)
    ensures
        r == yaml_parsed(text@),
{
    serde_yaml::from_str::<serde_yaml::Value>(text).ok().map(yaml_of_serde)
}

/// Writes a value as YAML text.
///
/// Copies the value into a `serde_yaml::Value` and calls
/// `serde_yaml::to_string`. The text is a function of the value alone, so
/// it is named by `yaml_text`; nothing more is claimed of it.
#[verifier::external_body]
fn yaml_to_text(v: YamlValue) -> (r: Option<String>)
    ensures
        r is Some <==> yaml_text(v) is Some,
        r matches Some(s) ==> yaml_text(v) == Some(s@),
{
    serde_yaml::to_string(&serde_of_yaml(v)).ok()
}

/// A value left out of a pruned template: null, or an empty sequence or
/// mapping.
pub open spec fn omitted(v: YamlValue) -> bool {
    match v {
        YamlValue::Null => true,
        YamlValue::Sequence(items) => items@.len() == 0,
        YamlValue::Mapping(entries) => entries@.len() == 0,
        _ => false,
    }
}

/// Whether a pruned value is left out.
pub fn should_omit_template_yaml_value(v: &YamlValue) -> (r: bool)
    ensures
        r == omitted(*v),
{
    match v {
        YamlValue::Null => true,
        YamlValue::Sequence(items) => items.len() == 0,
        YamlValue::Mapping(entries) => entries.len() == 0,
        _ => false,
    }
}

/// Names a candidate value in a pruning step.
pub open spec fn candidate(q: YamlValue) -> bool {
    true
}

/// A value with the nulls and the empty sequences and mappings left by
/// pruning removed, at every depth. Only sequences and mappings change.
pub open spec fn pruned_shape(v: YamlValue, p: YamlValue) -> bool
    decreases v, 1int,
{
    match v {
        YamlValue::Sequence(items) => match p {
            YamlValue::Sequence(out) => pruned_items(v, items@.len() as int, out@),
            _ => false,
        },
        YamlValue::Mapping(entries) => match p {
            YamlValue::Mapping(out) => pruned_entries(v, entries@.len() as int, out@),
            _ => false,
        },
        _ => p == v,
    }
}

/// `out` is the pruning of the first `k` items of the sequence `v`: each
/// item pruned, and those left out dropped.
pub open spec fn pruned_items(v: YamlValue, k: int, out: Seq<YamlValue>) -> bool
    decreases v, 0int, k,
{
    match v {
        YamlValue::Sequence(items) => {
            if k <= 0 || k > items@.len() {
                out.len() == 0
            } else {
                exists|q: YamlValue|
                    #[trigger] candidate(q) && pruned_shape(items@[k - 1], q) && if omitted(q) {
                        pruned_items(v, k - 1, out)
                    } else {
                        out.len() > 0 && out.last() == q && pruned_items(v, k - 1, out.drop_last())
                    }
            }
        },
        _ => false,
    }
}

/// `out` is the pruning of the first `k` entries of the mapping `v`: each
/// value pruned, and entries whose value is left out dropped.
pub open spec fn pruned_entries(v: YamlValue, k: int, out: Seq<(YamlValue, YamlValue)>) -> bool
    decreases v, 0int, k,
{
    match v {
        YamlValue::Mapping(entries) => {
            if k <= 0 || k > entries@.len() {
                out.len() == 0
            } else {
                exists|q: YamlValue|
                    #[trigger] candidate(q) && pruned_shape(entries@[k - 1].1, q) && if omitted(q) {
                        pruned_entries(v, k - 1, out)
                    } else {
                        out.len() > 0 && out.last() == (entries@[k - 1].0, q) && pruned_entries(v, k - 1, out.drop_last())
                    }
            }
        },
        _ => false,
    }
}

/// One more pruned item extends the pruning of a sequence.
proof fn lemma_items_step(v: YamlValue, k: int, out: Seq<YamlValue>, q: YamlValue)
    requires
        v is Sequence,
        0 <= k < v->Sequence_0@.len(),
        pruned_items(v, k, out),
        pruned_shape(v->Sequence_0@[k], q),
    ensures
        pruned_items(v, k + 1, if omitted(q) { out } else { out.push(q) }),
{
    let items = v->Sequence_0;
    let o = if omitted(q) { out } else { out.push(q) };
    if !omitted(q) {
        assert(o.drop_last() =~= out);
    }
    assert(candidate(q));
    assert(items@[(k + 1) - 1] == items@[k]);
}

/// One more pruned entry extends the pruning of a mapping.
proof fn lemma_entries_step(v: YamlValue, k: int, out: Seq<(YamlValue, YamlValue)>, q: YamlValue)
    requires
        v is Mapping,
        0 <= k < v->Mapping_0@.len(),
        pruned_entries(v, k, out),
        pruned_shape(v->Mapping_0@[k].1, q),
    ensures
        pruned_entries(v, k + 1, if omitted(q) { out } else { out.push((v->Mapping_0@[k].0, q)) }),
{
    let entries = v->Mapping_0;
    let o = if omitted(q) { out } else { out.push((entries@[k].0, q)) };
    if !omitted(q) {
        assert(o.drop_last() =~= out);
    }
    assert(candidate(q));
    assert(entries@[(k + 1) - 1] == entries@[k]);
}

/// Removes nulls and empty sequences and mappings from a template value, at
/// every depth.
pub fn prune_template_yaml_value(v: YamlValue) -> (r: YamlValue)
    ensures
        pruned_shape(v, r),
    decreases v,
{
    let ghost orig = v;
    match v {
        YamlValue::Sequence(items) => {
            let ghost gv = YamlValue::Sequence(items);
            let ghost all = items@;
            let mut rest = items;
            let mut out: Vec<YamlValue> = Vec::new();
            let mut taken: usize = 0;
            let total = rest.len();
            proof {
                assert(rest@ =~= all.skip(0));
            }
            while rest.len() > 0
                invariant
                    total == all.len(),
                    taken <= all.len(),
                    rest@ == all.skip(taken as int),
                    gv == orig,
                    orig == v,
                    gv is Sequence,
                    gv->Sequence_0@ == all,
                    pruned_items(gv, taken as int, out@),
                decreases rest@.len(),
            {
                let ghost rest_before = rest@;
                let item = rest.remove(0);
                proof {
                    assert(rest_before.len() > 0);
                    assert(taken < all.len());
                    assert(item == rest_before[0]);
                    assert(item == all[taken as int]);
                    assert(decreases_to!(gv => gv->Sequence_0));
                    assert(decreases_to!(gv->Sequence_0 => gv->Sequence_0@));
                    assert(decreases_to!(gv->Sequence_0@ => gv->Sequence_0@[taken as int]));
                    assert(decreases_to!(orig => item));
                }
                let next = prune_template_yaml_value(item);
                let ghost before = out@;
                let ghost gnext = next;
                if !should_omit_template_yaml_value(&next) {
                    out.push(next);
                    proof {
                        assert(out@.drop_last() =~= before);
                    }
                }
                proof {
                    assert(rest@ =~= all.skip(taken + 1));
                    lemma_items_step(gv, taken as int, before, gnext);
                }
                taken = taken + 1;
            }
            YamlValue::Sequence(out)
        },
        YamlValue::Mapping(entries) => {
            let ghost gv = YamlValue::Mapping(entries);
            let ghost all = entries@;
            let mut rest = entries;
            let mut out: Vec<(YamlValue, YamlValue)> = Vec::new();
            let mut taken: usize = 0;
            let total = rest.len();
            proof {
                assert(rest@ =~= all.skip(0));
            }
            while rest.len() > 0
                invariant
                    total == all.len(),
                    taken <= all.len(),
                    rest@ == all.skip(taken as int),
                    gv == orig,
                    orig == v,
                    gv->Mapping_0@ == all,
                    gv is Mapping,
                    pruned_entries(gv, taken as int, out@),
                decreases rest@.len(),
            {
                let ghost rest_before = rest@;
                let (key, child) = rest.remove(0);
                proof {
                    assert(rest_before.len() > 0);
                    assert(taken < all.len());
                    assert((key, child) == rest_before[0]);
                    assert((key, child) == all[taken as int]);
                    assert(decreases_to!(gv => gv->Mapping_0));
                    assert(decreases_to!(gv->Mapping_0 => gv->Mapping_0@));
                    assert(decreases_to!(gv->Mapping_0@ => gv->Mapping_0@[taken as int]));
                    assert(decreases_to!(gv->Mapping_0@[taken as int] => gv->Mapping_0@[taken as int].1));
                    assert(decreases_to!(orig => child));
                }
                let next = prune_template_yaml_value(child);
                let ghost before = out@;
                let ghost gnext = next;
                let ghost gkey = key;
                if !should_omit_template_yaml_value(&next) {
                    out.push((key, next));
                    proof {
                        assert(out@.drop_last() =~= before);
                    }
                }
                proof {
                    assert(rest@ =~= all.skip(taken + 1));
                    assert(gv->Mapping_0@[taken as int].0 == gkey);
                    lemma_entries_step(gv, taken as int, before, gnext);
                }
                taken = taken + 1;
            }
            YamlValue::Mapping(out)
        },
        other => other,
    }
}

/// The pieces of `s` between line breaks, empty pieces included.
pub open spec fn line_pieces(s: Seq<char>) -> Seq<Seq<char>>
    decreases s.len(),
{
    if s.len() == 0 {
        seq![Seq::<char>::empty()]
    } else {
        let r = line_pieces(s.drop_last());
        if s.last() == '\n' {
            r.push(Seq::<char>::empty())
        } else {
            r.update(r.len() - 1, r.last().push(s.last()))
        }
    }
}

/// A terminated line without the carriage return before its line break.
pub open spec fn strip_cr(l: Seq<char>) -> Seq<char> {
    if l.len() > 0 && l.last() == '\r' {
        l.drop_last()
    } else {
        l
    }
}

/// The lines of a text as `str::lines` gives them: split at line breaks,
/// without `\r\n` or `\n` endings, and without an empty last line.
pub open spec fn lines_of(s: Seq<char>) -> Seq<Seq<char>> {
    let p = line_pieces(s);
    let done = Seq::new((p.len() - 1) as nat, |i: int| strip_cr(p[i]));
    if p.last().len() > 0 {
        done.push(p.last())
    } else {
        done
    }
}

/// `s` without white space at either end.
pub open spec fn trim(s: Seq<char>) -> Seq<char> {
    trim_end(trim_start(s))
}

/// `a` is a prefix of `b`.
pub open spec fn has_prefix(b: Seq<char>, a: Seq<char>) -> bool {
    a.len() <= b.len() && b.take(a.len() as int) == a
}

/// A line that belongs to a template's comment prefix: empty or a comment.
pub open spec fn is_comment_line(l: Seq<char>) -> bool {
    trim(l).len() == 0 || has_prefix(trim(l), "#"@)
}

/// The first line at or after `i` that is neither empty nor a comment.
pub open spec fn first_significant(ls: Seq<Seq<char>>, i: int) -> Option<int>
    decreases ls.len() - i,
{
    if i < 0 || i >= ls.len() {
        None
    } else if !is_comment_line(ls[i]) {
        Some(i)
    } else {
        first_significant(ls, i + 1)
    }
}

/// A line without two leading spaces, when it has them.
pub open spec fn dedent(l: Seq<char>) -> Seq<char> {
    if has_prefix(l, "  "@) {
        l.skip(2)
    } else {
        l
    }
}

/// Lines without two leading spaces, joined by line breaks.
pub open spec fn dedented(ls: Seq<Seq<char>>) -> Seq<char> {
    join_with(Seq::new(ls.len(), |i: int| dedent(ls[i])), '\n')
}

/// A template without its section key line: when the first significant
/// line is `<section>:`, it is removed and the other lines lose two leading
/// spaces; otherwise the template is unchanged.
pub open spec fn without_section_key(content: Seq<char>, section: Seq<char>) -> Seq<char> {
    let ls = lines_of(content);
    match first_significant(ls, 0) {
        Some(i) => if trim(ls[i]) == section + ":"@ {
            dedented(ls.remove(i))
        } else {
            content
        },
        None => content,
    }
}

/// A template without its items wrapper: when the first significant line
/// starts with `<inner>:`, it is replaced by the value written after the
/// colon (or removed when there is none) and the lines lose two leading
/// spaces; otherwise the template is unchanged.
pub open spec fn without_items_wrapper(content: Seq<char>, inner: Seq<char>) -> Seq<char> {
    let ls = lines_of(content);
    let prefix = inner + ":"@;
    match first_significant(ls, 0) {
        Some(i) => if has_prefix(trim(ls[i]), prefix) {
            let value = trim(trim(ls[i]).skip(prefix.len() as int));
            if value.len() > 0 {
                dedented(ls.update(i, value))
            } else {
                dedented(ls.remove(i))
            }
        } else {
            content
        },
        None => content,
    }
}

/// The comment prefix of a template: its lines before the first
/// significant one, joined.
pub open spec fn template_prefix(content: Seq<char>) -> Seq<char> {
    let ls = lines_of(content);
    match first_significant(ls, 0) {
        Some(i) => join_with(ls.take(i), '\n'),
        None => join_with(ls, '\n'),
    }
}

/// The body of a template: its lines from the first significant one on,
/// joined.
pub open spec fn template_body(content: Seq<char>) -> Seq<char> {
    let ls = lines_of(content);
    match first_significant(ls, 0) {
        Some(i) => join_with(ls.skip(i), '\n'),
        None => Seq::empty(),
    }
}

/// The lines among the first `k` that are not default-value comments.
pub open spec fn non_default_lines(ls: Seq<Seq<char>>, k: int) -> Seq<Seq<char>>
    decreases k,
{
    if k <= 0 || k > ls.len() {
        Seq::empty()
    } else if has_prefix(trim(ls[k - 1]), "# Default value:"@) {
        non_default_lines(ls, k - 1)
    } else {
        non_default_lines(ls, k - 1).push(ls[k - 1])
    }
}

/// A comment prefix without its default-value lines.
pub open spec fn without_default_comments(prefix: Seq<char>) -> Seq<char> {
    let ls = lines_of(prefix);
    join_with(non_default_lines(ls, ls.len() as int), '\n')
}

/// The body of a transparent section template rewritten as block YAML: `[]`
/// when it is blank; otherwise the text written for the pruned parse of the
/// trimmed body, trimmed, or the body itself when it does not parse or the
/// pruned value cannot be written.
pub open spec fn block_yaml_body(body: Seq<char>, out: Seq<char>) -> bool {
    if trim(body).len() == 0 {
        out == "[]"@
    } else {
        match yaml_parsed(trim(body)) {
            None => out == body,
            Some(v) => exists|p: YamlValue|
                #[trigger] pruned_shape(v, p) && out == match yaml_text(p) {
                    Some(t) => trim(t),
                    None => body,
                },
        }
    }
}

/// The normalized template of a transparent section, given its rewritten
/// body.
pub open spec fn transparent_template(content: Seq<char>, section: Seq<char>, inner: Seq<char>, body: Seq<char>) -> Seq<char> {
    let prefix = without_default_comments(template_prefix(without_items_wrapper(without_section_key(content, section), inner)));
    if prefix.len() == 0 {
        single_trailing_newline(body)
    } else {
        single_trailing_newline(prefix + "\n"@ + body)
    }
}

/// Splits a text into lines as `str::lines` does.
pub fn text_lines(s: &str) -> (r: Vec<String>)
    ensures
        r.deep_view() == lines_of(s@),
{
    let cs = chars_of(s);
    let n = cs.len();
    let mut done: Vec<String> = Vec::new();
    let mut cur: Vec<char> = Vec::new();
    let mut i: usize = 0;
    proof {
        assert(s@.take(0) =~= Seq::<char>::empty());
        assert(done.deep_view() =~= Seq::new((line_pieces(s@.take(0)).len() - 1) as nat, |k: int| strip_cr(line_pieces(s@.take(0))[k])));
    }
    while i < n
        invariant
            n == cs@.len(),
            cs@ == s@,
            i <= n,
            line_pieces(s@.take(i as int)).len() >= 1,
            done.deep_view() == Seq::new((line_pieces(s@.take(i as int)).len() - 1) as nat, |k: int| strip_cr(line_pieces(s@.take(i as int))[k])),
            cur@ == line_pieces(s@.take(i as int)).last(),
        decreases n - i,
    {
        let c = cs[i];
        let ghost prev = s@.take(i as int);
        let ghost r = line_pieces(prev);
        assert(s@.take(i + 1).drop_last() =~= prev);
        assert(s@.take(i + 1).last() == c);
        if c == '\n' {
            let m = cur.len();
            let line = if m > 0 && cur[m - 1] == '\r' {
                let mut t: Vec<char> = Vec::new();
                let mut j: usize = 0;
                while j < m - 1
                    invariant
                        j <= m - 1,
                        m == cur@.len(),
                        m > 0,
                        t@ == cur@.take(j as int),
                    decreases m - 1 - j,
                {
                    t.push(cur[j]);
                    j = j + 1;
                    proof {
                        assert(t@ =~= cur@.take(j as int));
                    }
                }
                proof {
                    assert(t@ =~= cur@.drop_last());
                }
                string_of(t.as_slice())
            } else {
                string_of(cur.as_slice())
            };
            let ghost before = done.deep_view();
            done.push(line);
            proof {
                let r2 = line_pieces(s@.take(i + 1));
                assert(r2 == r.push(Seq::<char>::empty()));
                assert(done.deep_view() =~= before.push(strip_cr(r.last())));
                assert(done.deep_view() =~= Seq::new((r2.len() - 1) as nat, |k: int| strip_cr(r2[k])));
            }
            cur = Vec::new();
            proof {
                assert(line_pieces(s@.take(i + 1)).last() =~= cur@);
            }
        } else {
            cur.push(c);
            proof {
                let r2 = r.update(r.len() - 1, r.last().push(c));
                assert(line_pieces(s@.take(i + 1)) == r2);
                assert(done.deep_view() =~= Seq::new((r2.len() - 1) as nat, |k: int| strip_cr(r2[k])));
            }
        }
        i = i + 1;
    }
    proof {
        assert(s@.take(n as int) =~= s@);
    }
    if cur.len() > 0 {
        let ghost before = done.deep_view();
        let last = string_of(cur.as_slice());
        done.push(last);
        proof {
            assert(done.deep_view() =~= before.push(cur@));
        }
    }
    done
}

/// Returns `s` without white space at either end.
pub fn trim_text(s: &str) -> (r: String)
    ensures
        r@ == trim(s@),
{
    let cs = chars_of(s);
    let a = trim_start_chars(&cs);
    let b = trim_end_chars(&a);
    string_of(b.as_slice())
}

/// Returns whether `b` starts with `a`.
pub fn text_has_prefix(b: &str, a: &str) -> (r: bool)
    ensures
        r == has_prefix(b@, a@),
{
    let bc = chars_of(b);
    let ac = chars_of(a);
    if ac.len() > bc.len() {
        return false;
    }
    let mut i: usize = 0;
    while i < ac.len()
        invariant
            ac@ == a@,
            bc@ == b@,
            ac@.len() <= bc@.len(),
            i <= ac@.len(),
            forall|j: int| 0 <= j < i ==> b@[j] == a@[j],
        decreases ac@.len() - i,
    {
        if ac[i] != bc[i] {
            proof {
                assert(b@.take(a@.len() as int)[i as int] != a@[i as int]);
            }
            return false;
        }
        i = i + 1;
    }
    proof {
        assert(b@.take(a@.len() as int) =~= a@);
    }
    true
}

/// Returns `s` without its first `k` characters.
fn skip_chars(s: &str, k: usize) -> (r: String)
    requires
        k <= s@.len(),
    ensures
        r@ == s@.skip(k as int),
{
    let cs = chars_of(s);
    let mut out: Vec<char> = Vec::new();
    let mut i: usize = k;
    while i < cs.len()
        invariant
            k <= i <= cs@.len(),
            cs@ == s@,
            out@ == s@.subrange(k as int, i as int),
        decreases cs@.len() - i,
    {
        out.push(cs[i]);
        i = i + 1;
        proof {
            assert(out@ =~= s@.subrange(k as int, i as int));
        }
    }
    proof {
        assert(out@ =~= s@.skip(k as int));
    }
    string_of(out.as_slice())
}

/// Joins lines with line breaks.
pub fn join_lines(lines: &Vec<String>) -> (r: String)
    ensures
        r@ == join_with(lines.deep_view(), '\n'),
{
    let mut s = String::new();
    let mut i: usize = 0;
    proof {
        assert(lines.deep_view().take(0) =~= Seq::<Seq<char>>::empty());
    }
    while i < lines.len()
        invariant
            i <= lines@.len(),
            s@ == join_with(lines.deep_view().take(i as int), '\n'),
        decreases lines@.len() - i,
    {
        let ghost prev = lines.deep_view().take(i as int);
        let ghost next = lines.deep_view().take(i + 1);
        proof {
            assert(next.drop_last() =~= prev);
            assert(next.last() == lines@[i as int]@);
        }
        if i > 0 {
            crate::text::push_char(&mut s, '\n');
        }
        s.append(lines[i].as_str());
        proof {
            if i == 0 {
                assert(join_with(prev, '\n') =~= Seq::<char>::empty());
            }
            assert(s@ =~= join_with(next, '\n'));
        }
        i = i + 1;
    }
    proof {
        assert(lines.deep_view().take(lines@.len() as int) =~= lines.deep_view());
    }
    s
}

/// Returns whether a line is empty or a comment.
fn comment_line(l: &str) -> (r: bool)
    ensures
        r == is_comment_line(l@),
{
    let t = trim_text(l);
    t.as_str().unicode_len() == 0 || text_has_prefix(t.as_str(), "#")
}

/// Returns the first line that is neither empty nor a comment.
fn first_significant_line(ls: &Vec<String>) -> (r: Option<usize>)
    ensures
        r matches Some(i) ==> i < ls@.len(),
        first_significant(ls.deep_view(), 0) == match r {
            Some(i) => Some(i as int),
            None => None::<int>,
        },
{
    let mut i: usize = 0;
    while i < ls.len()
        invariant
            i <= ls@.len(),
            first_significant(ls.deep_view(), 0) == first_significant(ls.deep_view(), i as int),
        decreases ls@.len() - i,
    {
        proof {
            assert(ls.deep_view()[i as int] == ls@[i as int]@);
        }
        if !comment_line(ls[i].as_str()) {
            return Some(i);
        }
        i = i + 1;
    }
    None
}

/// Removes two leading spaces from each line and joins the lines.
fn dedent_join(ls: &Vec<String>) -> (r: String)
    ensures
        r@ == dedented(ls.deep_view()),
{
    let mut out: Vec<String> = Vec::new();
    let mut i: usize = 0;
    while i < ls.len()
        invariant
            i <= ls@.len(),
            out.deep_view() == Seq::new(i as nat, |k: int| dedent(ls.deep_view()[k])),
        decreases ls@.len() - i,
    {
        let l = ls[i].as_str();
        proof {
            assert(ls.deep_view()[i as int] == l@);
        }
        proof {
            reveal_strlit("  ");
        }
        let d = if text_has_prefix(l, "  ") {
            skip_chars(l, 2)
        } else {
            l.to_owned()
        };
        let ghost before = out.deep_view();
        let ghost dv = d@;
        out.push(d);
        proof {
            assert(dv == dedent(ls.deep_view()[i as int]));
            assert(out.deep_view() =~= before.push(dv));
            assert(out.deep_view() =~= Seq::new((i + 1) as nat, |k: int| dedent(ls.deep_view()[k])));
        }
        i = i + 1;
    }
    join_lines(&out)
}

/// Removes the section key line of a split section template.
pub fn strip_section_root_key(content: &str, section: &str) -> (r: String)
    ensures
        r@ == without_section_key(content@, section@),
{
    let ls = text_lines(content);
    let mut key = section.to_owned();
    key.append(":");
    match first_significant_line(&ls) {
        Some(i) => {
            let t = trim_text(ls[i].as_str());
            proof {
                assert(ls.deep_view()[i as int] == ls@[i as int]@);
            }
            if t == key {
                let mut rest = ls;
                let ghost before = rest.deep_view();
                let _ = rest.remove(i);
                proof {
                    assert(rest.deep_view() =~= before.remove(i as int));
                }
                dedent_join(&rest)
            } else {
                content.to_owned()
            }
        },
        None => content.to_owned(),
    }
}

/// Replaces the items wrapper line of a transparent section template by the
/// value written after it, and dedents the lines.
pub fn strip_items_wrapper(content: &str, inner_field: &str) -> (r: String)
    ensures
        r@ == without_items_wrapper(content@, inner_field@),
{
    let ls = text_lines(content);
    let mut prefix = inner_field.to_owned();
    prefix.append(":");
    match first_significant_line(&ls) {
        Some(i) => {
            let t = trim_text(ls[i].as_str());
            proof {
                assert(ls.deep_view()[i as int] == ls@[i as int]@);
            }
            if text_has_prefix(t.as_str(), prefix.as_str()) {
                let rest_text = skip_chars(t.as_str(), prefix.as_str().unicode_len());
                let value = trim_text(rest_text.as_str());
                let mut lines = ls;
                let ghost before = lines.deep_view();
                if value.as_str().unicode_len() > 0 {
                    lines.set(i, value);
                    proof {
                        assert(lines.deep_view() =~= before.update(i as int, trim(trim(before[i as int]).skip(prefix@.len() as int))));
                    }
                } else {
                    let _ = lines.remove(i);
                    proof {
                        assert(lines.deep_view() =~= before.remove(i as int));
                    }
                }
                dedent_join(&lines)
            } else {
                content.to_owned()
            }
        },
        None => content.to_owned(),
    }
}

/// Splits a template into its comment prefix and its body.
pub fn split_template_prefix_and_body(content: &str) -> (r: (String, String))
    ensures
        r.0@ == template_prefix(content@),
        r.1@ == template_body(content@),
{
    let ls = text_lines(content);
    match first_significant_line(&ls) {
        Some(i) => {
            let mut pre: Vec<String> = Vec::new();
            let mut body: Vec<String> = Vec::new();
            let mut k: usize = 0;
            while k < ls.len()
                invariant
                    k <= ls@.len(),
                    i < ls@.len(),
                    pre.deep_view() == ls.deep_view().take(if k < i { k as int } else { i as int }),
                    body.deep_view() == (if k <= i { Seq::<Seq<char>>::empty() } else { ls.deep_view().subrange(i as int, k as int) }),
                decreases ls@.len() - k,
            {
                let ghost pb = pre.deep_view();
                let ghost bb = body.deep_view();
                proof {
                    assert(ls.deep_view()[k as int] == ls@[k as int]@);
                }
                if k < i {
                    pre.push(ls[k].clone());
                    proof {
                        assert(pre.deep_view() =~= pb.push(ls@[k as int]@));
                        assert(pre.deep_view() =~= ls.deep_view().take(k + 1));
                    }
                } else {
                    body.push(ls[k].clone());
                    proof {
                        assert(body.deep_view() =~= bb.push(ls@[k as int]@));
                        assert(body.deep_view() =~= ls.deep_view().subrange(i as int, k + 1));
                    }
                }
                k = k + 1;
            }
            proof {
                assert(body.deep_view() =~= ls.deep_view().skip(i as int));
            }
            (join_lines(&pre), join_lines(&body))
        },
        None => {
            proof {
                assert(join_with(Seq::<Seq<char>>::empty(), '\n') =~= Seq::<char>::empty());
            }
            (join_lines(&ls), String::new())
        },
    }
}

/// Removes the default-value comment lines from a comment prefix.
pub fn strip_default_value_comments(prefix: &str) -> (r: String)
    ensures
        r@ == without_default_comments(prefix@),
{
    let ls = text_lines(prefix);
    let mut kept: Vec<String> = Vec::new();
    let mut i: usize = 0;
    while i < ls.len()
        invariant
            i <= ls@.len(),
            kept.deep_view() == non_default_lines(ls.deep_view(), i as int),
        decreases ls@.len() - i,
    {
        let t = trim_text(ls[i].as_str());
        proof {
            assert(ls.deep_view()[i as int] == ls@[i as int]@);
        }
        if !text_has_prefix(t.as_str(), "# Default value:") {
            let ghost before = kept.deep_view();
            kept.push(ls[i].clone());
            proof {
                assert(kept.deep_view() =~= before.push(ls@[i as int]@));
            }
        }
        i = i + 1;
    }
    join_lines(&kept)
}

/// Rewrites the body of a transparent section template as block YAML: `[]`
/// when it is blank; otherwise the trimmed body is parsed, pruned of empty
/// values and written back, and the written text is trimmed. The body is
/// kept as it is when it does not parse or cannot be written back.
pub fn rewrite_body_as_block_yaml(body: &str) -> (r: String)
    ensures
        block_yaml_body(body@, r@),
{
    let trimmed = trim_text(body);
    if trimmed.as_str().unicode_len() == 0 {
        let r = String::from_str("[]");
        proof {
            reveal_strlit("[]");
        }
        return r;
    }
    match parse_yaml(trimmed.as_str()) {
        None => body.to_owned(),
        Some(v) => {
            let pruned = prune_template_yaml_value(v);
            let ghost gp = pruned;
            let r = match yaml_to_text(pruned) {
                Some(t) => trim_text(t.as_str()),
                None => body.to_owned(),
            };
            proof {
                assert(pruned_shape(v, gp));
            }
            r
        },
    }
}

/// Normalizes the template of a transparent array section for a split
/// file: the section key and items wrapper are taken out, the body is
/// rewritten as block YAML, default-value comments are dropped from the
/// comment prefix, and the result ends with one line break.
pub fn normalize_transparent_split_template(content: &str, section: &str, inner_field: &str) -> (r: String)
    ensures
        exists|body: Seq<char>|
            block_yaml_body(
                template_body(without_items_wrapper(without_section_key(content@, section@), inner_field@)),
                body,
            ) && r@ == transparent_template(content@, section@, inner_field@, body),
{
    let without_section = strip_section_root_key(content, section);
    let without_items = strip_items_wrapper(without_section.as_str(), inner_field);
    let (prefix, body) = split_template_prefix_and_body(without_items.as_str());
    let body = rewrite_body_as_block_yaml(body.as_str());
    let prefix = strip_default_value_comments(prefix.as_str());
    let mut output = if prefix.as_str().unicode_len() == 0 {
        body.clone()
    } else {
        let mut o = prefix.clone();
        o.append("\n");
        o.append(body.as_str());
        o
    };
    ensure_single_trailing_newline(&mut output);
    proof {
        assert(block_yaml_body(
            template_body(without_items_wrapper(without_section_key(content@, section@), inner_field@)),
            body@,
        ) && output@ == transparent_template(content@, section@, inner_field@, body@));
    }
    output
}

} // verus!
