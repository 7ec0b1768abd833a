//! TOML templates: leaves are commented out unless they have a default,
//! nested sections become tables, and env-only leaves are left out.

use vstd::prelude::*;
use crate::expr::{expr_text, render_expr, ExprStyle};
use crate::meta::{
    child_meta, child_splits, contains_path, has_renderable, has_renderable_fields, is_env_only,
    is_env_only_field, is_include_name, pop_segment, push_segment, skips_leaf, split_below,
    ConfigField, ConfigMeta, FieldKind, LeafKind,
};
use crate::path::join_with;
use crate::render_yaml::{append_env_note, env_note};
use crate::template_text::{
    append_comment_lines, blocks_text, comment_lines, lemma_blocks_push, quoted_list,
    render_quoted_list, render_toml_include, toml_include_text,
};
use crate::text::{ensure_single_trailing_newline, push_char, single_trailing_newline};

verus! {

/// A TOML comment line.
pub open spec fn toml_comment(text: Seq<char>) -> Seq<char> {
    "#"@ + text + "\n"@
}

/// A TOML table header for a section path.
pub open spec fn toml_table_header(path: Seq<Seq<char>>) -> Seq<char> {
    "["@ + join_with(path, '.') + "]\n"@
}

/// The key line(s) of a leaf in a TOML template: a commented key unless a
/// default value is known.
pub open spec fn toml_value_text(name: Seq<char>, kind: LeafKind) -> Seq<char> {
    match kind {
        LeafKind::Optional => toml_comment(name + " ="@),
        LeafKind::Required { default } => match default {
            Some(d) => toml_comment(" Default value: "@ + expr_text(ExprStyle::Toml, d)) + name + " = "@ + expr_text(
                ExprStyle::Toml,
                d,
            ) + "\n"@,
            None => toml_comment(" Required! This value must be specified."@) + toml_comment(name + " ="@),
        },
    }
}

/// The text of one leaf field in a TOML template.
pub open spec fn toml_leaf_text(f: ConfigField) -> Seq<char> {
    match f.kind {
        FieldKind::Leaf { env, kind } => comment_lines(""@, "#"@, f.doc.deep_view()) + env_note(
            ""@,
            "#"@,
            f.doc@.len() > 0,
            env,
        ) + toml_value_text(f.name@, kind),
        FieldKind::Nested { .. } => Seq::empty(),
    }
}

/// The leaf blocks among the first `k` fields of `meta`.
pub open spec fn toml_leaf_blocks(
    meta: ConfigMeta,
    path: Seq<Seq<char>>,
    env_only: Seq<Seq<Seq<char>>>,
    skip_include: bool,
    k: int,
) -> Seq<Seq<char>>
    decreases k,
{
    if k <= 0 || k > meta.fields@.len() {
        Seq::empty()
    } else {
        let rest = toml_leaf_blocks(meta, path, env_only, skip_include, k - 1);
        let f = meta.fields@[k - 1];
        if f.kind is Leaf && !skips_leaf(skip_include, path, f.name@) && !is_env_only(env_only, path, f.name@) {
            rest.push(toml_leaf_text(f))
        } else {
            rest
        }
    }
}

/// The leaves of `meta` followed by its shown nested sections as tables,
/// one block each, separated by blank lines.
pub open spec fn toml_fields(
    meta: ConfigMeta,
    path: Seq<Seq<char>>,
    splits: Seq<Seq<Seq<char>>>,
    env_only: Seq<Seq<Seq<char>>>,
    skip_include: bool,
) -> Seq<char>
    decreases meta, 1int, 0int,
{
    blocks_text(
        toml_leaf_blocks(meta, path, env_only, skip_include, meta.fields@.len() as int) + toml_nested_blocks(
            meta,
            path,
            splits,
            env_only,
            meta.fields@.len() as int,
        ),
    )
}

/// The table blocks among the first `k` fields of `meta`: nested sections
/// that are neither split out nor empty, with documentation, table header, a
/// blank line and the section's own fields.
pub open spec fn toml_nested_blocks(
    meta: ConfigMeta,
    path: Seq<Seq<char>>,
    splits: Seq<Seq<Seq<char>>>,
    env_only: Seq<Seq<Seq<char>>>,
    k: int,
) -> Seq<Seq<char>>
    decreases meta, 0int, k,
{
    if k <= 0 || k > meta.fields@.len() {
        Seq::empty()
    } else {
        let rest = toml_nested_blocks(meta, path, splits, env_only, k - 1);
        let f = meta.fields@[k - 1];
        match f.kind {
            FieldKind::Nested { meta: child } => {
                let cp = path.push(f.name@);
                let cs = child_splits(splits, cp);
                proof {
                    assert(decreases_to!(meta => meta.fields));
                }
                if splits.contains(cp) || !has_renderable(*child, cp, cs, env_only, false) {
                    rest
                } else {
                    rest.push(
                        comment_lines(""@, "#"@, f.doc.deep_view()) + toml_table_header(cp) + "\n"@ + toml_fields(
                            *child,
                            cp,
                            cs,
                            env_only,
                            false,
                        ),
                    )
                }
            },
            FieldKind::Leaf { .. } => rest,
        }
    }
}

/// The table-scoped list of included files of a split section.
pub open spec fn toml_table_include_text(paths: Seq<Seq<char>>, prefix: Seq<Seq<char>>) -> Seq<char> {
    if prefix.len() == 0 {
        toml_include_text(paths)
    } else {
        toml_table_header(prefix) + "include = ["@ + quoted_list(paths) + "]\n"@
    }
}

/// A split section's template from step `d` of its path on: ancestor
/// tables as comments, then the section's included files and fields.
/// Rendering stops after a key that does not name a nested section.
pub open spec fn toml_section_from(
    cur: ConfigMeta,
    path: Seq<Seq<char>>,
    d: int,
    includes: Seq<Seq<char>>,
    splits: Seq<Seq<Seq<char>>>,
    env_only: Seq<Seq<Seq<char>>>,
) -> Seq<char>
    decreases path.len() - d,
{
    if d < 0 || d >= path.len() {
        (if includes.len() > 0 {
            toml_table_include_text(includes, path) + "\n"@
        } else {
            Seq::empty()
        }) + toml_fields(cur, path, splits, env_only, false)
    } else {
        (if d + 1 != path.len() {
            toml_comment("["@ + path[d] + "]"@)
        } else {
            Seq::empty()
        }) + match child_meta(cur, path[d]) {
            Some(m) => toml_section_from(m, path, d + 1, includes, splits, env_only),
            None => Seq::empty(),
        }
    }
}

/// A TOML template for the root (empty section path) or one split section.
pub open spec fn toml_template(
    meta: ConfigMeta,
    includes: Seq<Seq<char>>,
    section: Seq<Seq<char>>,
    splits: Seq<Seq<Seq<char>>>,
    env_only: Seq<Seq<Seq<char>>>,
) -> Seq<char> {
    if section.len() == 0 {
        single_trailing_newline(
            (if includes.len() > 0 {
                toml_include_text(includes) + "\n"@
            } else {
                Seq::empty()
            }) + toml_fields(meta, Seq::empty(), splits, env_only, includes.len() > 0),
        )
    } else {
        single_trailing_newline(toml_section_from(meta, section, 0, includes, splits, env_only))
    }
}

/// Appends a TOML comment line.
pub fn write_toml_comment(output: &mut String, comment: &str)
    ensures
        final(output)@ == old(output)@ + toml_comment(comment@),
{
    let ghost start = output@;
    output.append("#");
    output.append(comment);
    output.append("\n");
    proof {
        assert(output@ =~= start + toml_comment(comment@));
    }
}

/// Appends a TOML table header for a section path.
pub fn write_toml_table_header(output: &mut String, table_path: &Vec<String>)
    ensures
        final(output)@ == old(output)@ + toml_table_header(table_path.deep_view()),
{
    let ghost start = output@;
    push_char(output, '[');
    let ghost head = output@;
    let mut i: usize = 0;
    proof {
        assert(table_path.deep_view().take(0) =~= Seq::<Seq<char>>::empty());
        assert(output@ =~= head + join_with(table_path.deep_view().take(0), '.'));
    }
    while i < table_path.len()
        invariant
            i <= table_path@.len(),
            output@ == head + join_with(table_path.deep_view().take(i as int), '.'),
        decreases table_path@.len() - i,
    {
        let ghost prev = table_path.deep_view().take(i as int);
        let ghost next = table_path.deep_view().take(i + 1);
        proof {
            assert(next.drop_last() =~= prev);
            assert(next.last() == table_path@[i as int]@);
        }
        if i > 0 {
            push_char(output, '.');
        }
        output.append(table_path[i].as_str());
        proof {
            if i == 0 {
                assert(join_with(prev, '.') =~= Seq::<char>::empty());
            }
            assert(output@ =~= head + join_with(next, '.'));
        }
        i = i + 1;
    }
    output.append("]\n");
    proof {
        reveal_strlit("[");
        assert(table_path.deep_view().take(table_path@.len() as int) =~= table_path.deep_view());
        assert(output@ =~= start + toml_table_header(table_path.deep_view()));
    }
}

/// Appends the list of included files of a table.
pub fn append_toml_include(output: &mut String, paths: &Vec<String>, table_prefix: &Vec<String>)
    ensures
        final(output)@ == old(output)@ + toml_table_include_text(paths.deep_view(), table_prefix.deep_view()),
{
    let ghost start = output@;
    if table_prefix.len() == 0 {
        let block = render_toml_include(paths);
        output.append(block.as_str());
        proof {
            assert(table_prefix.deep_view().len() == 0);
        }
        return;
    }
    write_toml_table_header(output, table_prefix);
    let ghost mid = output@;
    let entries = render_quoted_list(paths);
    output.append("include = [");
    output.append(entries.as_str());
    output.append("]\n");
    proof {
        assert(table_prefix.deep_view().len() == table_prefix@.len());
        assert(output@ =~= start + toml_table_include_text(paths.deep_view(), table_prefix.deep_view()));
    }
}

/// Appends the key line(s) of a leaf.
fn append_toml_value(output: &mut String, name: &str, kind: &LeafKind)
    ensures
        final(output)@ == old(output)@ + toml_value_text(name@, *kind),
{
    let ghost start = output@;
    let mut key_line = name.to_owned();
    key_line.append(" =");
    match kind {
        LeafKind::Optional => {
            write_toml_comment(output, key_line.as_str());
        },
        LeafKind::Required { default } => {
            match default {
                Some(d) => {
                    let text = render_expr(ExprStyle::Toml, d);
                    let mut note = String::from_str(" Default value: ");
                    note.append(text.as_str());
                    write_toml_comment(output, note.as_str());
                    let ghost mid = output@;
                    output.append(name);
                    output.append(" = ");
                    output.append(text.as_str());
                    output.append("\n");
                    proof {
                        assert(output@ =~= mid + (name@ + " = "@ + text@ + "\n"@));
                        assert(output@ =~= start + toml_value_text(name@, *kind));
                    }
                },
                None => {
                    write_toml_comment(output, " Required! This value must be specified.");
                    write_toml_comment(output, key_line.as_str());
                    proof {
                        assert(output@ =~= start + toml_value_text(name@, *kind));
                    }
                },
            }
        },
    }
}

/// Renders one leaf field with docs, environment hint and default value.
fn render_toml_leaf(field: &ConfigField, output: &mut String)
    requires
        field.kind is Leaf,
    ensures
        final(output)@ == old(output)@ + toml_leaf_text(*field),
{
    let ghost start = output@;
    append_comment_lines(output, "", "#", &field.doc);
    match &field.kind {
        FieldKind::Leaf { env, kind } => {
            append_env_note(output, "", "#", field.doc.len() > 0, env);
            append_toml_value(output, field.name.as_str(), kind);
            proof {
                assert(output@ =~= start + toml_leaf_text(*field));
            }
        },
        FieldKind::Nested { .. } => {},
    }
}

/// Renders the leaves and the shown nested tables of one section.
#[verifier::rlimit(40)]
fn render_toml_fields(
    meta: &ConfigMeta,
    current_path: &mut Vec<String>,
    split_paths: &Vec<Vec<String>>,
    env_only_paths: &Vec<Vec<String>>,
    skip_include_field: bool,
    output: &mut String,
)
    ensures
        final(current_path).deep_view() == old(current_path).deep_view(),
        final(output)@ == old(output)@ + toml_fields(
            *meta,
            old(current_path).deep_view(),
            split_paths.deep_view(),
            env_only_paths.deep_view(),
            skip_include_field,
        ),
    decreases meta,
{
    let ghost start = output@;
    let ghost path = current_path.deep_view();
    let ghost splits = split_paths.deep_view();
    let ghost env = env_only_paths.deep_view();
    let n = meta.fields.len();
    let mut emitted = false;
    let mut i: usize = 0;
    proof {
        assert(blocks_text(Seq::<Seq<char>>::empty()) =~= Seq::<char>::empty());
        assert(output@ =~= start + blocks_text(toml_leaf_blocks(*meta, path, env, skip_include_field, 0)));
    }
    while i < n
        invariant
            n == meta.fields@.len(),
            i <= n,
            current_path.deep_view() == path,
            env == env_only_paths.deep_view(),
            output@ == start + blocks_text(toml_leaf_blocks(*meta, path, env, skip_include_field, i as int)),
            emitted == (toml_leaf_blocks(*meta, path, env, skip_include_field, i as int).len() > 0),
        decreases n - i,
    {
        let field = &meta.fields[i];
        let ghost before = toml_leaf_blocks(*meta, path, env, skip_include_field, i as int);
        let is_leaf = match &field.kind {
            FieldKind::Leaf { .. } => true,
            FieldKind::Nested { .. } => false,
        };
        if is_leaf {
            let skipped = skip_include_field && current_path.len() == 0 && is_include_name(field.name.as_str());
            proof {
                assert(current_path.deep_view().len() == current_path@.len());
            }
            if !skipped && !is_env_only_field(current_path, field.name.as_str(), env_only_paths) {
                if emitted {
                    output.append("\n");
                }
                render_toml_leaf(field, output);
                proof {
                    reveal_strlit("\n");
                    lemma_blocks_push(before, toml_leaf_text(*field));
                    assert(output@ =~= start + blocks_text(before.push(toml_leaf_text(*field))));
                }
                emitted = true;
            }
        }
        i = i + 1;
    }
    let ghost leaves = toml_leaf_blocks(*meta, path, env, skip_include_field, n as int);
    let mut i: usize = 0;
    proof {
        assert(leaves + toml_nested_blocks(*meta, path, splits, env, 0) =~= leaves);
    }
    while i < n
        invariant
            n == meta.fields@.len(),
            i <= n,
            current_path.deep_view() == path,
            splits == split_paths.deep_view(),
            env == env_only_paths.deep_view(),
            leaves == toml_leaf_blocks(*meta, path, env, skip_include_field, n as int),
            output@ == start + blocks_text(leaves + toml_nested_blocks(*meta, path, splits, env, i as int)),
            emitted == ((leaves + toml_nested_blocks(*meta, path, splits, env, i as int)).len() > 0),
        decreases n - i,
    {
        let field = &meta.fields[i];
        let ghost before = leaves + toml_nested_blocks(*meta, path, splits, env, i as int);
        match &field.kind {
            FieldKind::Nested { meta: child } => {
                push_segment(current_path, &field.name);
                let ghost cp = path.push(field.name@);
                let split_exact = contains_path(split_paths, current_path);
                let below = split_below(split_paths, current_path);
                let none: Vec<Vec<String>> = Vec::new();
                proof {
                    assert(none.deep_view() =~= Seq::<Seq<Seq<char>>>::empty());
                    assert(decreases_to!(*meta => meta.fields));
                }
                let child_split_paths = if below { split_paths } else { &none };
                let shown = !split_exact && has_renderable_fields(child, current_path, child_split_paths, env_only_paths, false);
                if shown {
                    if emitted {
                        output.append("\n");
                    }
                    append_comment_lines(output, "", "#", &field.doc);
                    write_toml_table_header(output, current_path);
                    output.append("\n");
                    render_toml_fields(child, current_path, child_split_paths, env_only_paths, false, output);
                    proof {
                        let b = comment_lines(""@, "#"@, field.doc.deep_view()) + toml_table_header(cp) + "\n"@
                            + toml_fields(**child, cp, child_splits(splits, cp), env, false);
                        assert(toml_nested_blocks(*meta, path, splits, env, i + 1)
                            == toml_nested_blocks(*meta, path, splits, env, i as int).push(b));
                        assert(leaves + toml_nested_blocks(*meta, path, splits, env, i + 1) =~= before.push(b));
                        reveal_strlit("\n");
                        lemma_blocks_push(before, b);
                        assert(output@ =~= start + blocks_text(before.push(b)));
                    }
                    emitted = true;
                } else {
                    proof {
                        assert(leaves + toml_nested_blocks(*meta, path, splits, env, i + 1) =~= before);
                    }
                }
                pop_segment(current_path);
                proof {
                    assert(path.push(field.name@).drop_last() =~= path);
                }
            },
            FieldKind::Leaf { .. } => {
                proof {
                    assert(leaves + toml_nested_blocks(*meta, path, splits, env, i + 1) =~= before);
                }
            },
        }
        i = i + 1;
    }
}

/// Renders a split section: commented ancestor tables, then the section's
/// included files and fields.
fn render_toml_section(
    meta: &ConfigMeta,
    section_path: &Vec<String>,
    include_paths: &Vec<String>,
    split_paths: &Vec<Vec<String>>,
    env_only_paths: &Vec<Vec<String>>,
    output: &mut String,
)
    ensures
        final(output)@ == old(output)@ + toml_section_from(
            *meta,
            section_path.deep_view(),
            0,
            include_paths.deep_view(),
            split_paths.deep_view(),
            env_only_paths.deep_view(),
        ),
{
    let ghost start = output@;
    let ghost sp = section_path.deep_view();
    let ghost inc = include_paths.deep_view();
    let ghost splits = split_paths.deep_view();
    let ghost env = env_only_paths.deep_view();
    let mut current: &ConfigMeta = meta;
    let mut current_path: Vec<String> = Vec::new();
    let n = section_path.len();
    let mut d: usize = 0;
    let mut found = true;
    proof {
        assert(current_path.deep_view() =~= sp.take(0));
    }
    while d < n && found
        invariant
            n == section_path@.len(),
            d <= n,
            sp == section_path.deep_view(),
            inc == include_paths.deep_view(),
            splits == split_paths.deep_view(),
            env == env_only_paths.deep_view(),
            current_path.deep_view() == sp.take(d as int),
            found ==> start + toml_section_from(*meta, sp, 0, inc, splits, env) == output@ + toml_section_from(*current, sp, d as int, inc, splits, env),
            !found ==> output@ == start + toml_section_from(*meta, sp, 0, inc, splits, env),
        decreases n - d,
    {
        let ghost before = output@;
        proof {
            assert(sp[d as int] == section_path@[d as int]@);
        }
        if d + 1 != n {
            let mut label = String::from_str("[");
            label.append(section_path[d].as_str());
            label.append("]");
            write_toml_comment(output, label.as_str());
        }
        push_segment(&mut current_path, &section_path[d]);
        proof {
            assert(current_path.deep_view() =~= sp.take(d + 1));
        }
        match crate::meta::child_meta_of(current, section_path[d].as_str()) {
            Some(next) => {
                proof {
                    assert(output@ + toml_section_from(*next, sp, d + 1, inc, splits, env) =~= start + toml_section_from(*meta, sp, 0, inc, splits, env));
                }
                current = next;
            },
            None => {
                proof {
                    assert(output@ =~= start + toml_section_from(*meta, sp, 0, inc, splits, env));
                }
                found = false;
            },
        }
        d = d + 1;
    }
    if found {
        proof {
            assert(current_path.deep_view() =~= sp);
        }
        let ghost before = output@;
        if include_paths.len() > 0 {
            append_toml_include(output, include_paths, &current_path);
            output.append("\n");
        }
        proof {
            assert(inc.len() == include_paths@.len());
        }
        render_toml_fields(current, &mut current_path, split_paths, env_only_paths, false, output);
        proof {
            assert(output@ =~= start + toml_section_from(*meta, sp, 0, inc, splits, env));
        }
    }
}

/// Renders a TOML template for the root config (empty section path) or one
/// split section.
pub fn render_toml_template(
    meta: &ConfigMeta,
    include_paths: &Vec<String>,
    section_path: &Vec<String>,
    split_paths: &Vec<Vec<String>>,
    env_only_paths: &Vec<Vec<String>>,
) -> (r: String)
    ensures
        r@ == toml_template(
            *meta,
            include_paths.deep_view(),
            section_path.deep_view(),
            split_paths.deep_view(),
            env_only_paths.deep_view(),
        ),
{
    let mut output = String::new();
    proof {
        assert(include_paths.deep_view().len() == include_paths@.len());
        assert(section_path.deep_view().len() == section_path@.len());
    }
    if section_path.len() == 0 {
        let has_includes = include_paths.len() > 0;
        if has_includes {
            let block = render_toml_include(include_paths);
            output.append(block.as_str());
            output.append("\n");
        }
        proof {
            if !has_includes {
                assert(output@ =~= Seq::<char>::empty());
            }
        }
        let mut root: Vec<String> = Vec::new();
        proof {
            assert(root.deep_view() =~= Seq::<Seq<char>>::empty());
        }
        render_toml_fields(meta, &mut root, split_paths, env_only_paths, has_includes, &mut output);
    } else {
        render_toml_section(meta, section_path, include_paths, split_paths, env_only_paths, &mut output);
        proof {
            assert(output@ =~= Seq::<char>::empty() + toml_section_from(*meta, section_path.deep_view(), 0,
                include_paths.deep_view(), split_paths.deep_view(), env_only_paths.deep_view()));
        }
    }
    ensure_single_trailing_newline(&mut output);
    output
}

} // verus!
