//! JSON5 templates: one object whose leaves are commented out unless they
//! have a default, whose nested sections are nested objects, and which leaves
//! env-only leaves out.

use vstd::prelude::*;
use crate::expr::{expr_text, render_expr, ExprStyle};
use crate::meta::{
    child_meta, child_splits, contains_path, has_renderable, has_renderable_fields, is_env_only,
    is_env_only_field, is_include_name, pop_segment, push_segment, skips_leaf, split_below,
    ConfigField, ConfigMeta, FieldKind, LeafKind,
};
use crate::render_yaml::{append_env_note, env_note};
use crate::template_text::{
    append_comment_lines, append_quoted_lines, blocks_text, comment_lines, json5_include_text,
    lemma_blocks_push, lemma_spaces_step, quoted_lines, render_json5_include, spaces,
};
use crate::text::{ensure_single_trailing_newline, single_trailing_newline};
use crate::cli::no_line_break;

verus! {

/// The key line(s) of a leaf in a JSON5 template: a commented key unless a
/// default value is known.
pub open spec fn json5_value_text(indent: Seq<char>, name: Seq<char>, kind: LeafKind) -> Seq<char> {
    match kind {
        LeafKind::Optional => indent + "//"@ + name + ": ,\n"@,
        LeafKind::Required { default } => match default {
            Some(d) => indent + "// Default value: "@ + expr_text(ExprStyle::Json5, d) + "\n"@ + indent + name + ": "@
                + expr_text(ExprStyle::Json5, d) + ",\n"@,
            None => indent + "// Required! This value must be specified.\n"@ + indent + name + ": ,\n"@,
        },
    }
}

/// The text of one leaf field in a JSON5 template.
pub open spec fn json5_leaf_text(f: ConfigField, indent: Seq<char>) -> Seq<char> {
    match f.kind {
        FieldKind::Leaf { env, kind } => comment_lines(indent, "//"@, f.doc.deep_view()) + env_note(
            indent,
            "//"@,
            f.doc@.len() > 0,
            env,
        ) + json5_value_text(indent, f.name@, kind),
        FieldKind::Nested { .. } => Seq::empty(),
    }
}

/// Every line of `t` starts with `indent` and `//`, and `t` ends with a line
/// break: the text is comments only.
pub open spec fn comment_lines_only(t: Seq<char>, indent: Seq<char>) -> bool {
    &&& (t.len() > 0 ==> t.last() == '\n')
    &&& forall|i: int|
        0 <= i < t.len() && (i == 0 || t[i - 1] == '\n') ==> #[trigger] t.skip(i).len() >= indent.len() + 2 && t.skip(
            i,
        ).take(indent.len() + 2int) == indent + seq!['/', '/']
}

/// One comment line is comments only.
proof fn lemma_one_comment_line(indent: Seq<char>, x: Seq<char>)
    requires
        no_line_break(indent),
        no_line_break(x),
    ensures
        comment_lines_only(indent + seq!['/', '/'] + x + seq!['\n'], indent),
{
    let t = indent + seq!['/', '/'] + x + seq!['\n'];
    assert forall|i: int| 0 <= i < t.len() && (i == 0 || t[i - 1] == '\n') implies #[trigger] t.skip(i).len()
        >= indent.len() + 2 && t.skip(i).take(indent.len() + 2int) == indent + seq!['/', '/'] by {
        if i > 0 {
            let q = i - 1;
            if q < indent.len() {
                assert(t[q] == indent[q]);
            } else if q < indent.len() + 2 {
                assert(t[q] == '/');
            } else {
                assert(q < indent.len() + 2 + x.len());
                assert(t[q] == x[q - indent.len() - 2]);
            }
        }
        assert(t.skip(0) =~= t);
        assert(t.take(indent.len() + 2int) =~= indent + seq!['/', '/']);
    }
}

/// Comment texts put together are comments only.
proof fn lemma_comment_concat(a: Seq<char>, b: Seq<char>, indent: Seq<char>)
    requires
        comment_lines_only(a, indent),
        comment_lines_only(b, indent),
    ensures
        comment_lines_only(a + b, indent),
{
    let t = a + b;
    assert forall|i: int| 0 <= i < t.len() && (i == 0 || t[i - 1] == '\n') implies #[trigger] t.skip(i).len()
        >= indent.len() + 2 && t.skip(i).take(indent.len() + 2int) == indent + seq!['/', '/'] by {
        if i < a.len() {
            if i > 0 {
                assert(a[i - 1] == t[i - 1]);
            }
            assert(a.skip(i).len() >= indent.len() + 2);
            assert(t.skip(i).take(indent.len() + 2int) =~= a.skip(i).take(indent.len() + 2int));
        } else {
            let k = i - a.len();
            if k > 0 {
                assert(b[k - 1] == t[i - 1]);
            }
            assert(b.skip(k).len() >= indent.len() + 2);
            assert(t.skip(i) =~= b.skip(k));
        }
    }
}

/// Documentation lines without line breaks are comments only.
proof fn lemma_doc_comments(indent: Seq<char>, doc: Seq<Seq<char>>)
    requires
        no_line_break(indent),
        forall|i: int| 0 <= i < doc.len() ==> no_line_break(#[trigger] doc[i]),
    ensures
        comment_lines_only(comment_lines(indent, "//"@, doc), indent),
    decreases doc.len(),
{
    reveal_strlit("//");
    reveal_strlit("\n");
    if doc.len() > 0 {
        lemma_doc_comments(indent, doc.drop_last());
        assert(no_line_break(doc[doc.len() - 1]));
        lemma_one_comment_line(indent, doc.last());
        assert(indent + "//"@ + doc.last() + "\n"@ =~= indent + seq!['/', '/'] + doc.last() + seq!['\n']);
        lemma_comment_concat(comment_lines(indent, "//"@, doc.drop_last()), indent + "//"@ + doc.last() + "\n"@, indent);
        assert(comment_lines(indent, "//"@, doc) =~= comment_lines(indent, "//"@, doc.drop_last()) + (indent
            + "//"@ + doc.last() + "\n"@));
    } else {
        assert(comment_lines(indent, "//"@, doc) =~= Seq::<char>::empty());
    }
}

/// Every line that a JSON5 template writes for an optional leaf is a comment:
/// its documentation, its environment note and its key, so that the leaf is
/// shown without being set. Names, documentation lines, the variable and the
/// indentation hold no line break.
pub proof fn lemma_optional_json5_leaf_is_commented(f: ConfigField, indent: Seq<char>)
    requires
        f.kind matches FieldKind::Leaf { kind: LeafKind::Optional, .. },
        no_line_break(indent),
        no_line_break(f.name@),
        forall|i: int| 0 <= i < f.doc@.len() ==> no_line_break(#[trigger] f.doc@[i]@),
        f.kind->Leaf_env matches Some(v) ==> no_line_break(v@),
    ensures
        comment_lines_only(json5_leaf_text(f, indent), indent),
{
    reveal_strlit("//");
    reveal_strlit("\n");
    reveal_strlit(": ,\n");
    reveal_strlit(" Can also be specified via environment variable `");
    reveal_strlit("`.\n");
    let doc = f.doc.deep_view();
    assert forall|i: int| 0 <= i < doc.len() implies no_line_break(#[trigger] doc[i]) by {
        assert(doc[i] == f.doc@[i]@);
    }
    lemma_doc_comments(indent, doc);
    let env = f.kind->Leaf_env;
    let note = env_note(indent, "//"@, f.doc@.len() > 0, env);
    assert(comment_lines_only(note, indent)) by {
        if env is Some {
            let v = env->0;
            let x = " Can also be specified via environment variable `"@ + v@ + "`."@;
            reveal_strlit("`.");
            assert forall|i: int| 0 <= i < x.len() implies x[i] != '\n' by {
                if i >= 49 && i < 49 + v@.len() {
                    assert(x[i] == v@[i - 49]);
                }
            }
            lemma_one_comment_line(indent, x);
            let second = indent + "//"@ + " Can also be specified via environment variable `"@ + v@ + "`.\n"@;
            assert(second =~= indent + seq!['/', '/'] + x + seq!['\n']);
            if f.doc@.len() > 0 {
                lemma_one_comment_line(indent, Seq::empty());
                assert(indent + "//"@ + "\n"@ =~= indent + seq!['/', '/'] + Seq::<char>::empty() + seq!['\n']);
                lemma_comment_concat(indent + "//"@ + "\n"@, second, indent);
                assert(note =~= (indent + "//"@ + "\n"@) + second);
            } else {
                assert(note =~= second);
            }
        } else {
            assert(note =~= Seq::<char>::empty());
        }
    }
    let name = f.name@;
    let y = name + seq![':', ' ', ','];
    assert forall|i: int| 0 <= i < y.len() implies y[i] != '\n' by {
        if i < name.len() {
            assert(y[i] == name[i]);
        }
    }
    lemma_one_comment_line(indent, y);
    let value = json5_value_text(indent, name, LeafKind::Optional);
    assert(value =~= indent + seq!['/', '/'] + y + seq!['\n']);
    lemma_comment_concat(comment_lines(indent, "//"@, doc), note, indent);
    lemma_comment_concat(comment_lines(indent, "//"@, doc) + note, value, indent);
    assert(json5_leaf_text(f, indent) =~= comment_lines(indent, "//"@, doc) + note + value);
}

/// The leaf blocks among the first `k` fields of `meta`.
pub open spec fn json5_leaf_blocks(
    meta: ConfigMeta,
    path: Seq<Seq<char>>,
    env_only: Seq<Seq<Seq<char>>>,
    indent: Seq<char>,
    skip_include: bool,
    k: int,
) -> Seq<Seq<char>>
    decreases k,
{
    if k <= 0 || k > meta.fields@.len() {
        Seq::empty()
    } else {
        let rest = json5_leaf_blocks(meta, path, env_only, indent, skip_include, k - 1);
        let f = meta.fields@[k - 1];
        if f.kind is Leaf && !skips_leaf(skip_include, path, f.name@) && !is_env_only(env_only, path, f.name@) {
            rest.push(json5_leaf_text(f, indent))
        } else {
            rest
        }
    }
}

/// The leaves of `meta` followed by its shown nested sections as objects,
/// one block each, separated by blank lines.
pub open spec fn json5_fields(
    meta: ConfigMeta,
    path: Seq<Seq<char>>,
    splits: Seq<Seq<Seq<char>>>,
    env_only: Seq<Seq<Seq<char>>>,
    indent: Seq<char>,
    skip_include: bool,
) -> Seq<char>
    decreases meta, 1int, 0int,
{
    blocks_text(
        json5_leaf_blocks(meta, path, env_only, indent, skip_include, meta.fields@.len() as int)
            + json5_nested_blocks(meta, path, splits, env_only, indent, meta.fields@.len() as int),
    )
}

/// The object blocks among the first `k` fields of `meta`: nested sections
/// that are neither split out nor empty, with documentation, the opening
/// key, the section's fields one level deeper, and the closing brace.
pub open spec fn json5_nested_blocks(
    meta: ConfigMeta,
    path: Seq<Seq<char>>,
    splits: Seq<Seq<Seq<char>>>,
    env_only: Seq<Seq<Seq<char>>>,
    indent: Seq<char>,
    k: int,
) -> Seq<Seq<char>>
    decreases meta, 0int, k,
{
    if k <= 0 || k > meta.fields@.len() {
        Seq::empty()
    } else {
        let rest = json5_nested_blocks(meta, path, splits, env_only, indent, k - 1);
        let f = meta.fields@[k - 1];
        match f.kind {
            FieldKind::Nested { meta: child } => {
                let cp = path.push(f.name@);
                let cs = child_splits(splits, cp);
                proof {
                    assert(decreases_to!(meta => meta.fields));
                }
                if splits.contains(cp) || !has_renderable(*child, cp, cs, env_only, false) {
                    rest
                } else {
                    rest.push(
                        comment_lines(indent, "//"@, f.doc.deep_view()) + indent + f.name@ + ": {\n"@
                            + json5_fields(*child, cp, cs, env_only, indent + "  "@, false) + indent + "},\n"@,
                    )
                }
            },
            FieldKind::Leaf { .. } => rest,
        }
    }
}

/// The list of included files of a split section, at the given
/// indentation.
pub open spec fn json5_nested_include_text(paths: Seq<Seq<char>>, indent: Seq<char>) -> Seq<char> {
    indent + "include: [\n"@ + quoted_lines(indent + "  "@, ""@, ",\n"@, paths) + indent + "],\n"@
}

/// The closing braces of the objects opened for a split section's path,
/// innermost first.
pub open spec fn json5_closing(depth: nat) -> Seq<char>
    decreases depth,
{
    if depth == 0 {
        Seq::empty()
    } else {
        spaces(depth) + "},\n"@ + json5_closing((depth - 1) as nat)
    }
}

/// A split section's object lines from step `d` of its path on: ancestors
/// as commented keys, the section itself as an object holding its included
/// files and fields, then the closing braces. Rendering stops after a key
/// that does not name a nested section.
pub open spec fn json5_section_from(
    cur: ConfigMeta,
    path: Seq<Seq<char>>,
    d: int,
    includes: Seq<Seq<char>>,
    splits: Seq<Seq<Seq<char>>>,
    env_only: Seq<Seq<Seq<char>>>,
) -> Seq<char>
    decreases path.len() - d,
{
    if d < 0 || d >= path.len() {
        (if includes.len() > 0 {
            json5_nested_include_text(includes, spaces(path.len() + 1)) + "\n"@
        } else {
            Seq::empty()
        }) + json5_fields(cur, path, splits, env_only, spaces(path.len() + 1), false) + json5_closing(path.len())
            + "}\n"@
    } else {
        spaces((d + 1) as nat) + (if d + 1 == path.len() {
            Seq::empty()
        } else {
            "// "@
        }) + path[d] + ": {\n"@ + match child_meta(cur, path[d]) {
            Some(m) => json5_section_from(m, path, d + 1, includes, splits, env_only),
            None => Seq::empty(),
        }
    }
}

/// A JSON5 template for the root (empty section path) or one split section.
pub open spec fn json5_template(
    meta: ConfigMeta,
    includes: Seq<Seq<char>>,
    section: Seq<Seq<char>>,
    splits: Seq<Seq<Seq<char>>>,
    env_only: Seq<Seq<Seq<char>>>,
) -> Seq<char> {
    if section.len() == 0 {
        single_trailing_newline(
            "{\n"@ + (if includes.len() > 0 {
                json5_include_text(includes) + "\n"@
            } else {
                Seq::empty()
            }) + json5_fields(meta, Seq::empty(), splits, env_only, spaces(1), includes.len() > 0) + "}\n"@,
        )
    } else {
        single_trailing_newline("{\n"@ + json5_section_from(meta, section, 0, includes, splits, env_only))
    }
}

/// Appends the key line(s) of a leaf.
fn append_json5_value(output: &mut String, indent: &str, name: &str, kind: &LeafKind)
    ensures
        final(output)@ == old(output)@ + json5_value_text(indent@, name@, *kind),
{
    let ghost start = output@;
    match kind {
        LeafKind::Optional => {
            output.append(indent);
            output.append("//");
            output.append(name);
            output.append(": ,\n");
            proof {
                assert(output@ =~= start + json5_value_text(indent@, name@, *kind));
            }
        },
        LeafKind::Required { default } => {
            match default {
                Some(d) => {
                    let text = render_expr(ExprStyle::Json5, d);
                    output.append(indent);
                    output.append("// Default value: ");
                    output.append(text.as_str());
                    output.append("\n");
                    let ghost mid = output@;
                    output.append(indent);
                    output.append(name);
                    output.append(": ");
                    output.append(text.as_str());
                    output.append(",\n");
                    proof {
                        assert(mid =~= start + (indent@ + "// Default value: "@ + text@ + "\n"@));
                        assert(output@ =~= mid + (indent@ + name@ + ": "@ + text@ + ",\n"@));
                        assert(output@ =~= start + json5_value_text(indent@, name@, *kind));
                    }
                },
                None => {
                    output.append(indent);
                    output.append("// Required! This value must be specified.\n");
                    output.append(indent);
                    output.append(name);
                    output.append(": ,\n");
                    proof {
                        assert(output@ =~= start + json5_value_text(indent@, name@, *kind));
                    }
                },
            }
        },
    }
}

/// Renders one leaf field with docs, environment hint and default value.
fn render_json5_leaf(field: &ConfigField, indent: &str, output: &mut String)
    requires
        field.kind is Leaf,
    ensures
        final(output)@ == old(output)@ + json5_leaf_text(*field, indent@),
{
    let ghost start = output@;
    append_comment_lines(output, indent, "//", &field.doc);
    match &field.kind {
        FieldKind::Leaf { env, kind } => {
            append_env_note(output, indent, "//", field.doc.len() > 0, env);
            append_json5_value(output, indent, field.name.as_str(), kind);
            proof {
                assert(output@ =~= start + json5_leaf_text(*field, indent@));
            }
        },
        FieldKind::Nested { .. } => {},
    }
}

/// Renders the leaves and the shown nested objects of one section.
#[verifier::rlimit(40)]
fn render_json5_fields(
    meta: &ConfigMeta,
    current_path: &mut Vec<String>,
    split_paths: &Vec<Vec<String>>,
    env_only_paths: &Vec<Vec<String>>,
    indent: &str,
    skip_include_field: bool,
    output: &mut String,
)
    ensures
        final(current_path).deep_view() == old(current_path).deep_view(),
        final(output)@ == old(output)@ + json5_fields(
            *meta,
            old(current_path).deep_view(),
            split_paths.deep_view(),
            env_only_paths.deep_view(),
            indent@,
            skip_include_field,
        ),
    decreases meta,
{
    let ghost start = output@;
    let ghost path = current_path.deep_view();
    let ghost splits = split_paths.deep_view();
    let ghost env = env_only_paths.deep_view();
    let n = meta.fields.len();
    let mut emitted = false;
    let mut i: usize = 0;
    proof {
        assert(blocks_text(Seq::<Seq<char>>::empty()) =~= Seq::<char>::empty());
        assert(output@ =~= start + blocks_text(json5_leaf_blocks(*meta, path, env, indent@, skip_include_field, 0)));
    }
    while i < n
        invariant
            n == meta.fields@.len(),
            i <= n,
            current_path.deep_view() == path,
            env == env_only_paths.deep_view(),
            output@ == start + blocks_text(json5_leaf_blocks(*meta, path, env, indent@, skip_include_field, i as int)),
            emitted == (json5_leaf_blocks(*meta, path, env, indent@, skip_include_field, i as int).len() > 0),
        decreases n - i,
    {
        let field = &meta.fields[i];
        let ghost before = json5_leaf_blocks(*meta, path, env, indent@, skip_include_field, i as int);
        let is_leaf = match &field.kind {
            FieldKind::Leaf { .. } => true,
            FieldKind::Nested { .. } => false,
        };
        if is_leaf {
            let skipped = skip_include_field && current_path.len() == 0 && is_include_name(field.name.as_str());
            proof {
                assert(current_path.deep_view().len() == current_path@.len());
            }
            if !skipped && !is_env_only_field(current_path, field.name.as_str(), env_only_paths) {
                if emitted {
                    output.append("\n");
                }
                render_json5_leaf(field, indent, output);
                proof {
                    reveal_strlit("\n");
                    lemma_blocks_push(before, json5_leaf_text(*field, indent@));
                    assert(output@ =~= start + blocks_text(before.push(json5_leaf_text(*field, indent@))));
                }
                emitted = true;
            }
        }
        i = i + 1;
    }
    let ghost leaves = json5_leaf_blocks(*meta, path, env, indent@, skip_include_field, n as int);
    let mut child_indent = indent.to_owned();
    child_indent.append("  ");
    let mut i: usize = 0;
    proof {
        assert(leaves + json5_nested_blocks(*meta, path, splits, env, indent@, 0) =~= leaves);
    }
    while i < n
        invariant
            n == meta.fields@.len(),
            i <= n,
            current_path.deep_view() == path,
            splits == split_paths.deep_view(),
            env == env_only_paths.deep_view(),
            child_indent@ == indent@ + "  "@,
            leaves == json5_leaf_blocks(*meta, path, env, indent@, skip_include_field, n as int),
            output@ == start + blocks_text(leaves + json5_nested_blocks(*meta, path, splits, env, indent@, i as int)),
            emitted == ((leaves + json5_nested_blocks(*meta, path, splits, env, indent@, i as int)).len() > 0),
        decreases n - i,
    {
        let field = &meta.fields[i];
        let ghost before = leaves + json5_nested_blocks(*meta, path, splits, env, indent@, i as int);
        match &field.kind {
            FieldKind::Nested { meta: child } => {
                push_segment(current_path, &field.name);
                let ghost cp = path.push(field.name@);
                let split_exact = contains_path(split_paths, current_path);
                let below = split_below(split_paths, current_path);
                let none: Vec<Vec<String>> = Vec::new();
                proof {
                    assert(none.deep_view() =~= Seq::<Seq<Seq<char>>>::empty());
                    assert(decreases_to!(*meta => meta.fields));
                }
                let child_split_paths = if below { split_paths } else { &none };
                let shown = !split_exact && has_renderable_fields(child, current_path, child_split_paths, env_only_paths, false);
                if shown {
                    if emitted {
                        output.append("\n");
                    }
                    let ghost b0 = output@;
                    append_comment_lines(output, indent, "//", &field.doc);
                    output.append(indent);
                    output.append(field.name.as_str());
                    output.append(": {\n");
                    render_json5_fields(child, current_path, child_split_paths, env_only_paths, child_indent.as_str(), false, output);
                    output.append(indent);
                    output.append("},\n");
                    proof {
                        let b = comment_lines(indent@, "//"@, field.doc.deep_view()) + indent@ + field.name@ + ": {\n"@
                            + json5_fields(**child, cp, child_splits(splits, cp), env, indent@ + "  "@, false) + indent@
                            + "},\n"@;
                        assert(output@ =~= b0 + b);
                        assert(json5_nested_blocks(*meta, path, splits, env, indent@, i + 1)
                            == json5_nested_blocks(*meta, path, splits, env, indent@, i as int).push(b));
                        assert(leaves + json5_nested_blocks(*meta, path, splits, env, indent@, i + 1) =~= before.push(b));
                        reveal_strlit("\n");
                        lemma_blocks_push(before, b);
                        assert(output@ =~= start + blocks_text(before.push(b)));
                    }
                    emitted = true;
                } else {
                    proof {
                        assert(leaves + json5_nested_blocks(*meta, path, splits, env, indent@, i + 1) =~= before);
                    }
                }
                pop_segment(current_path);
                proof {
                    assert(path.push(field.name@).drop_last() =~= path);
                }
            },
            FieldKind::Leaf { .. } => {
                proof {
                    assert(leaves + json5_nested_blocks(*meta, path, splits, env, indent@, i + 1) =~= before);
                }
            },
        }
        i = i + 1;
    }
}

/// Appends the list of included files of a split section.
fn append_json5_include(output: &mut String, paths: &Vec<String>, indent: &str)
    ensures
        final(output)@ == old(output)@ + json5_nested_include_text(paths.deep_view(), indent@),
{
    let ghost start = output@;
    output.append(indent);
    output.append("include: [\n");
    let mut inner = indent.to_owned();
    inner.append("  ");
    append_quoted_lines(output, inner.as_str(), "", ",\n", paths);
    output.append(indent);
    output.append("],\n");
    proof {
        assert(output@ =~= start + json5_nested_include_text(paths.deep_view(), indent@));
    }
}

/// Appends the closing braces of the objects opened for a section path.
fn append_json5_closing(output: &mut String, depth: usize)
    ensures
        final(output)@ == old(output)@ + json5_closing(depth as nat),
{
    let ghost start = output@;
    let mut k: usize = depth;
    proof {
        assert(output@ =~= start + (json5_closing(depth as nat).take(0)));
    }
    while k > 0
        invariant
            k <= depth,
            start + json5_closing(depth as nat) == output@ + json5_closing(k as nat),
        decreases k,
    {
        let mut indent = String::new();
        let mut j: usize = 0;
        while j < k
            invariant
                j <= k,
                indent@ == spaces(j as nat),
            decreases k - j,
        {
            indent.append("  ");
            proof {
                lemma_spaces_step(j as nat);
            }
            j = j + 1;
        }
        let ghost before = output@;
        output.append(indent.as_str());
        output.append("},\n");
        proof {
            assert(output@ + json5_closing((k - 1) as nat) =~= before + json5_closing(k as nat));
        }
        k = k - 1;
    }
    proof {
        assert(output@ =~= start + json5_closing(depth as nat));
    }
}

/// Renders a split section: the ancestor keys as comments, the section as
/// an object holding its included files and fields, and the closing braces.
fn render_json5_section(
    meta: &ConfigMeta,
    section_path: &Vec<String>,
    include_paths: &Vec<String>,
    split_paths: &Vec<Vec<String>>,
    env_only_paths: &Vec<Vec<String>>,
    output: &mut String,
)
    ensures
        final(output)@ == old(output)@ + json5_section_from(
            *meta,
            section_path.deep_view(),
            0,
            include_paths.deep_view(),
            split_paths.deep_view(),
            env_only_paths.deep_view(),
        ),
{
    let ghost start = output@;
    let ghost sp = section_path.deep_view();
    let ghost inc = include_paths.deep_view();
    let ghost splits = split_paths.deep_view();
    let ghost env = env_only_paths.deep_view();
    let mut current: &ConfigMeta = meta;
    let mut current_path: Vec<String> = Vec::new();
    let n = section_path.len();
    let mut indent = String::from_str("  ");
    let mut d: usize = 0;
    let mut found = true;
    proof {
        assert(current_path.deep_view() =~= sp.take(0));
        reveal_strlit("  ");
        assert(indent@ =~= spaces(1));
    }
    while d < n && found
        invariant
            n == section_path@.len(),
            d <= n,
            sp == section_path.deep_view(),
            inc == include_paths.deep_view(),
            splits == split_paths.deep_view(),
            env == env_only_paths.deep_view(),
            current_path.deep_view() == sp.take(d as int),
            indent@ == spaces((d + 1) as nat),
            found ==> start + json5_section_from(*meta, sp, 0, inc, splits, env) == output@ + json5_section_from(*current, sp, d as int, inc, splits, env),
            !found ==> output@ == start + json5_section_from(*meta, sp, 0, inc, splits, env),
        decreases n - d,
    {
        let ghost before = output@;
        proof {
            assert(sp[d as int] == section_path@[d as int]@);
        }
        output.append(indent.as_str());
        if d + 1 != n {
            output.append("// ");
        }
        output.append(section_path[d].as_str());
        output.append(": {\n");
        proof {
            if d + 1 == n {
                assert(output@ =~= before + (spaces((d + 1) as nat) + Seq::<char>::empty() + sp[d as int] + ": {\n"@));
            } else {
                assert(output@ =~= before + (spaces((d + 1) as nat) + "// "@ + sp[d as int] + ": {\n"@));
            }
        }
        push_segment(&mut current_path, &section_path[d]);
        proof {
            assert(current_path.deep_view() =~= sp.take(d + 1));
            lemma_spaces_step((d + 1) as nat);
        }
        indent.append("  ");
        match crate::meta::child_meta_of(current, section_path[d].as_str()) {
            Some(next) => {
                proof {
                    assert(output@ + json5_section_from(*next, sp, d + 1, inc, splits, env) =~= start + json5_section_from(*meta, sp, 0, inc, splits, env));
                }
                current = next;
            },
            None => {
                proof {
                    assert(output@ =~= start + json5_section_from(*meta, sp, 0, inc, splits, env));
                }
                found = false;
            },
        }
        d = d + 1;
    }
    if found {
        proof {
            assert(current_path.deep_view() =~= sp);
            assert(inc.len() == include_paths@.len());
        }
        let ghost before = output@;
        if include_paths.len() > 0 {
            append_json5_include(output, include_paths, indent.as_str());
            output.append("\n");
        }
        let ghost mid = output@;
        render_json5_fields(current, &mut current_path, split_paths, env_only_paths, indent.as_str(), false, output);
        append_json5_closing(output, n);
        output.append("}\n");
        proof {
            assert(output@ =~= start + json5_section_from(*meta, sp, 0, inc, splits, env));
        }
    }
}

/// Renders a JSON5 template for the root config (empty section path) or one
/// split section.
pub fn render_json5_template(
    meta: &ConfigMeta,
    include_paths: &Vec<String>,
    section_path: &Vec<String>,
    split_paths: &Vec<Vec<String>>,
    env_only_paths: &Vec<Vec<String>>,
) -> (r: String)
    ensures
        r@ == json5_template(
            *meta,
            include_paths.deep_view(),
            section_path.deep_view(),
            split_paths.deep_view(),
            env_only_paths.deep_view(),
        ),
{
    let mut output = String::from_str("{\n");
    proof {
        assert(include_paths.deep_view().len() == include_paths@.len());
        assert(section_path.deep_view().len() == section_path@.len());
    }
    if section_path.len() == 0 {
        let has_includes = include_paths.len() > 0;
        let ghost open = output@;
        if has_includes {
            let block = render_json5_include(include_paths);
            output.append(block.as_str());
            output.append("\n");
        }
        let ghost head = output@;
        proof {
            if has_includes {
                assert(head =~= open + (json5_include_text(include_paths.deep_view()) + "\n"@));
            } else {
                assert(head =~= open + Seq::<char>::empty());
            }
        }
        let mut root: Vec<String> = Vec::new();
        proof {
            assert(root.deep_view() =~= Seq::<Seq<char>>::empty());
            reveal_strlit("  ");
            assert("  "@ =~= spaces(1));
        }
        render_json5_fields(meta, &mut root, split_paths, env_only_paths, "  ", has_includes, &mut output);
        output.append("}\n");
        proof {
            assert(output@ =~= "{\n"@ + (if has_includes {
                json5_include_text(include_paths.deep_view()) + "\n"@
            } else {
                Seq::empty()
            }) + json5_fields(*meta, Seq::empty(), split_paths.deep_view(), env_only_paths.deep_view(), spaces(1), has_includes)
                + "}\n"@);
        }
    } else {
        render_json5_section(meta, section_path, include_paths, split_paths, env_only_paths, &mut output);
    }
    ensure_single_trailing_newline(&mut output);
    output
}

} // verus!
