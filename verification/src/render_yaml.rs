//! YAML templates: every field is shown commented out, with its
//! documentation, environment variable and default value, so that the
//! template is valid, empty YAML until a user uncomments a line.

use vstd::prelude::*;
use crate::expr::{expr_text, render_expr, ExprStyle};
use crate::meta::{
    child_meta, child_splits, contains_path, is_env_only, is_env_only_field, is_include_name,
    skips_leaf, split_below, push_segment, pop_segment, ConfigField, ConfigMeta, DefaultExpr, FieldKind, LeafKind,
};
use crate::template_text::{
    append_comment_lines, blocks_text, comment_lines, lemma_blocks_push, lemma_spaces_step,
    render_yaml_include, spaces, yaml_include_text,
};
use crate::text::{ensure_single_trailing_newline, single_trailing_newline};
use crate::tree::clone_strings;

verus! {

/// The environment-variable note of a leaf, preceded by an empty comment
/// line when documentation lines come before it.
pub open spec fn env_note(indent: Seq<char>, marker: Seq<char>, has_doc: bool, env: Option<String>) -> Seq<char> {
    match env {
        Some(v) => (if has_doc {
            indent + marker + "\n"@
        } else {
            Seq::empty()
        }) + indent + marker + " Can also be specified via environment variable `"@ + v@ + "`.\n"@,
        None => Seq::empty(),
    }
}

/// The commented key line(s) of a leaf in a YAML template.
pub open spec fn yaml_value_text(indent: Seq<char>, name: Seq<char>, kind: LeafKind) -> Seq<char> {
    match kind {
        LeafKind::Optional => indent + "#"@ + name + ":\n"@,
        LeafKind::Required { default } => match default {
            Some(d) => indent + "# Default value: "@ + expr_text(ExprStyle::Yaml, d) + "\n"@ + indent + "#"@ + name
                + ": "@ + expr_text(ExprStyle::Yaml, d) + "\n"@,
            None => indent + "# Required! This value must be specified.\n"@ + indent + "#"@ + name + ":\n"@,
        },
    }
}

/// The text of one leaf field in a YAML template: documentation, the
/// environment-variable note and the commented key.
pub open spec fn yaml_leaf_text(f: ConfigField, indent: Seq<char>) -> Seq<char> {
    match f.kind {
        FieldKind::Leaf { env, kind } => comment_lines(indent, "#"@, f.doc.deep_view()) + env_note(
            indent,
            "#"@,
            f.doc@.len() > 0,
            env,
        ) + yaml_value_text(indent, f.name@, kind),
        FieldKind::Nested { .. } => Seq::empty(),
    }
}

/// The leaf blocks among the first `k` fields of `meta`.
pub open spec fn yaml_leaf_blocks(
    meta: ConfigMeta,
    path: Seq<Seq<char>>,
    env_only: Seq<Seq<Seq<char>>>,
    indent: Seq<char>,
    skip_include: bool,
    k: int,
) -> Seq<Seq<char>>
    decreases k,
{
    if k <= 0 || k > meta.fields@.len() {
        Seq::empty()
    } else {
        let rest = yaml_leaf_blocks(meta, path, env_only, indent, skip_include, k - 1);
        let f = meta.fields@[k - 1];
        if f.kind is Leaf && !skips_leaf(skip_include, path, f.name@) && !is_env_only(env_only, path, f.name@) {
            rest.push(yaml_leaf_text(f, indent))
        } else {
            rest
        }
    }
}

/// The leaves of `meta` followed by its nested sections that are not split
/// out, one block each, separated by blank lines.
pub open spec fn yaml_fields(
    meta: ConfigMeta,
    path: Seq<Seq<char>>,
    splits: Seq<Seq<Seq<char>>>,
    env_only: Seq<Seq<Seq<char>>>,
    indent: Seq<char>,
    skip_include: bool,
) -> Seq<char>
    decreases meta, 1int, 0int,
{
    blocks_text(
        yaml_leaf_blocks(meta, path, env_only, indent, skip_include, meta.fields@.len() as int)
            + yaml_nested_blocks(meta, path, splits, env_only, indent, meta.fields@.len() as int),
    )
}

/// The nested-section blocks among the first `k` fields of `meta`: the
/// section's documentation and commented key, then its own fields one level
/// deeper.
pub open spec fn yaml_nested_blocks(
    meta: ConfigMeta,
    path: Seq<Seq<char>>,
    splits: Seq<Seq<Seq<char>>>,
    env_only: Seq<Seq<Seq<char>>>,
    indent: Seq<char>,
    k: int,
) -> Seq<Seq<char>>
    decreases meta, 0int, k,
{
    if k <= 0 || k > meta.fields@.len() {
        Seq::empty()
    } else {
        let rest = yaml_nested_blocks(meta, path, splits, env_only, indent, k - 1);
        let f = meta.fields@[k - 1];
        match f.kind {
            FieldKind::Nested { meta: child } => {
                let cp = path.push(f.name@);
                proof {
                    assert(decreases_to!(meta => meta.fields));
                }
                if splits.contains(cp) {
                    rest
                } else {
                    rest.push(
                        comment_lines(indent, "#"@, f.doc.deep_view()) + indent + "#"@ + f.name@ + ":\n"@
                            + yaml_fields(*child, cp, child_splits(splits, cp), env_only, indent + "  "@, false),
                    )
                }
            },
            FieldKind::Leaf { .. } => rest,
        }
    }
}

/// A split section's template from step `d` of its path on: the commented
/// ancestor key, then the next step, until the section's own fields.
/// Rendering stops after a key that does not name a nested section.
pub open spec fn yaml_section_from(
    cur: ConfigMeta,
    path: Seq<Seq<char>>,
    d: int,
    splits: Seq<Seq<Seq<char>>>,
    env_only: Seq<Seq<Seq<char>>>,
) -> Seq<char>
    decreases path.len() - d,
{
    if d < 0 || d >= path.len() {
        yaml_fields(cur, path, splits, env_only, spaces(path.len()), false)
    } else {
        spaces(d as nat) + "#"@ + path[d] + ":\n"@ + match child_meta(cur, path[d]) {
            Some(m) => yaml_section_from(m, path, d + 1, splits, env_only),
            None => Seq::empty(),
        }
    }
}

/// A YAML template for the root (empty section path) or one split section.
pub open spec fn yaml_template(
    meta: ConfigMeta,
    includes: Seq<Seq<char>>,
    section: Seq<Seq<char>>,
    splits: Seq<Seq<Seq<char>>>,
    env_only: Seq<Seq<Seq<char>>>,
) -> Seq<char> {
    let head = if includes.len() > 0 {
        yaml_include_text(includes) + "\n"@
    } else {
        Seq::empty()
    };
    let body = if section.len() == 0 {
        yaml_fields(meta, Seq::empty(), splits, env_only, Seq::empty(), includes.len() > 0)
    } else {
        yaml_section_from(meta, section, 0, splits, env_only)
    };
    single_trailing_newline(head + body)
}

/// Appends the environment-variable note of a leaf.
pub fn append_env_note(output: &mut String, indent: &str, marker: &str, has_doc: bool, env: &Option<String>)
    ensures
        final(output)@ == old(output)@ + env_note(indent@, marker@, has_doc, *env),
{
    let ghost start = output@;
    match env {
        Some(v) => {
            if has_doc {
                output.append(indent);
                output.append(marker);
                output.append("\n");
            }
            let ghost mid = output@;
            output.append(indent);
            output.append(marker);
            output.append(" Can also be specified via environment variable `");
            output.append(v.as_str());
            output.append("`.\n");
            proof {
                assert(output@ =~= mid + indent@ + marker@ + " Can also be specified via environment variable `"@ + v@
                    + "`.\n"@);
                if has_doc {
                    assert(mid =~= start + (indent@ + marker@ + "\n"@));
                } else {
                    assert(mid =~= start + Seq::<char>::empty());
                }
                assert(output@ =~= start + env_note(indent@, marker@, has_doc, *env));
            }
        },
        None => {
            proof {
                assert(output@ =~= start + env_note(indent@, marker@, has_doc, *env));
            }
        },
    }
}

/// Appends the commented key line(s) of a leaf.
fn append_yaml_value(output: &mut String, indent: &str, name: &str, kind: &LeafKind)
    ensures
        final(output)@ == old(output)@ + yaml_value_text(indent@, name@, *kind),
{
    let ghost start = output@;
    match kind {
        LeafKind::Optional => {
            output.append(indent);
            output.append("#");
            output.append(name);
            output.append(":\n");
            proof {
                assert(output@ =~= start + yaml_value_text(indent@, name@, *kind));
            }
        },
        LeafKind::Required { default } => {
            match default {
                Some(d) => {
                    let text = render_expr(ExprStyle::Yaml, d);
                    output.append(indent);
                    output.append("# Default value: ");
                    output.append(text.as_str());
                    output.append("\n");
                    let ghost mid = output@;
                    output.append(indent);
                    output.append("#");
                    output.append(name);
                    output.append(": ");
                    output.append(text.as_str());
                    output.append("\n");
                    proof {
                        assert(mid =~= start + (indent@ + "# Default value: "@ + text@ + "\n"@));
                        assert(output@ =~= mid + (indent@ + "#"@ + name@ + ": "@ + text@ + "\n"@));
                        assert(output@ =~= start + yaml_value_text(indent@, name@, *kind));
                    }
                },
                None => {
                    output.append(indent);
                    output.append("# Required! This value must be specified.\n");
                    output.append(indent);
                    output.append("#");
                    output.append(name);
                    output.append(":\n");
                    proof {
                        assert(output@ =~= start + yaml_value_text(indent@, name@, *kind));
                    }
                },
            }
        },
    }
}

/// Renders one leaf field with docs, environment hint and default value.
fn render_yaml_leaf(field: &ConfigField, indent: &str, output: &mut String)
    requires
        field.kind is Leaf,
    ensures
        final(output)@ == old(output)@ + yaml_leaf_text(*field, indent@),
{
    let ghost start = output@;
    append_comment_lines(output, indent, "#", &field.doc);
    let ghost a = output@;
    match &field.kind {
        FieldKind::Leaf { env, kind } => {
            append_env_note(output, indent, "#", field.doc.len() > 0, env);
            let ghost b = output@;
            append_yaml_value(output, indent, field.name.as_str(), kind);
            proof {
                assert(output@ =~= start + yaml_leaf_text(*field, indent@));
            }
        },
        FieldKind::Nested { .. } => {},
    }
}

/// Renders the leaves and the non-split nested sections of one section.
#[verifier::rlimit(40)]
fn render_yaml_fields(
    meta: &ConfigMeta,
    current_path: &mut Vec<String>,
    split_paths: &Vec<Vec<String>>,
    env_only_paths: &Vec<Vec<String>>,
    indent: &str,
    skip_include_field: bool,
    output: &mut String,
)
    ensures
        final(current_path).deep_view() == old(current_path).deep_view(),
        final(output)@ == old(output)@ + yaml_fields(
            *meta,
            old(current_path).deep_view(),
            split_paths.deep_view(),
            env_only_paths.deep_view(),
            indent@,
            skip_include_field,
        ),
    decreases meta,
{
    let ghost start = output@;
    let ghost path = current_path.deep_view();
    let ghost splits = split_paths.deep_view();
    let ghost env = env_only_paths.deep_view();
    let n = meta.fields.len();
    let mut emitted = false;
    let mut i: usize = 0;
    proof {
        assert(blocks_text(Seq::<Seq<char>>::empty()) =~= Seq::<char>::empty());
        assert(output@ =~= start + blocks_text(yaml_leaf_blocks(*meta, path, env, indent@, skip_include_field, 0)));
    }
    while i < n
        invariant
            n == meta.fields@.len(),
            i <= n,
            current_path.deep_view() == path,
            env == env_only_paths.deep_view(),
            output@ == start + blocks_text(yaml_leaf_blocks(*meta, path, env, indent@, skip_include_field, i as int)),
            emitted == (yaml_leaf_blocks(*meta, path, env, indent@, skip_include_field, i as int).len() > 0),
        decreases n - i,
    {
        let field = &meta.fields[i];
        let ghost before = yaml_leaf_blocks(*meta, path, env, indent@, skip_include_field, i as int);
        let is_leaf = match &field.kind {
            FieldKind::Leaf { .. } => true,
            FieldKind::Nested { .. } => false,
        };
        if is_leaf {
            let skipped = skip_include_field && current_path.len() == 0 && is_include_name(field.name.as_str());
            proof {
                assert(current_path.deep_view().len() == current_path@.len());
            }
            if !skipped && !is_env_only_field(current_path, field.name.as_str(), env_only_paths) {
                if emitted {
                    output.append("\n");
                }
                render_yaml_leaf(field, indent, output);
                proof {
                    reveal_strlit("\n");
                    lemma_blocks_push(before, yaml_leaf_text(*field, indent@));
                    assert(output@ =~= start + blocks_text(before.push(yaml_leaf_text(*field, indent@))));
                }
                emitted = true;
            }
        }
        i = i + 1;
    }
    let ghost leaves = yaml_leaf_blocks(*meta, path, env, indent@, skip_include_field, n as int);
    let mut child_indent = indent.to_owned();
    child_indent.append("  ");
    let mut i: usize = 0;
    proof {
        assert(leaves + yaml_nested_blocks(*meta, path, splits, env, indent@, 0) =~= leaves);
    }
    while i < n
        invariant
            n == meta.fields@.len(),
            i <= n,
            current_path.deep_view() == path,
            splits == split_paths.deep_view(),
            env == env_only_paths.deep_view(),
            child_indent@ == indent@ + "  "@,
            leaves == yaml_leaf_blocks(*meta, path, env, indent@, skip_include_field, n as int),
            output@ == start + blocks_text(leaves + yaml_nested_blocks(*meta, path, splits, env, indent@, i as int)),
            emitted == ((leaves + yaml_nested_blocks(*meta, path, splits, env, indent@, i as int)).len() > 0),
        decreases n - i,
    {
        let field = &meta.fields[i];
        let ghost before = leaves + yaml_nested_blocks(*meta, path, splits, env, indent@, i as int);
        match &field.kind {
            FieldKind::Nested { meta: child } => {
                push_segment(current_path, &field.name);
                if !contains_path(split_paths, current_path) {
                    if emitted {
                        output.append("\n");
                    }
                    let ghost block_start = output@;
                    append_comment_lines(output, indent, "#", &field.doc);
                    output.append(indent);
                    output.append("#");
                    output.append(field.name.as_str());
                    output.append(":\n");
                    let below = split_below(split_paths, current_path);
                    proof {
                        assert(decreases_to!(*meta => meta.fields));
                    }
                    if below {
                        render_yaml_fields(child, current_path, split_paths, env_only_paths, child_indent.as_str(), false, output);
                    } else {
                        let none: Vec<Vec<String>> = Vec::new();
                        proof {
                            assert(none.deep_view() =~= Seq::<Seq<Seq<char>>>::empty());
                        }
                        render_yaml_fields(child, current_path, &none, env_only_paths, child_indent.as_str(), false, output);
                    }
                    proof {
                        let cp = path.push(field.name@);
                        let b = comment_lines(indent@, "#"@, field.doc.deep_view()) + indent@ + "#"@ + field.name@ + ":\n"@
                            + yaml_fields(**child, cp, child_splits(splits, cp), env, indent@ + "  "@, false);
                        assert(yaml_nested_blocks(*meta, path, splits, env, indent@, i + 1)
                            == yaml_nested_blocks(*meta, path, splits, env, indent@, i as int).push(b));
                        assert(leaves + yaml_nested_blocks(*meta, path, splits, env, indent@, i + 1) =~= before.push(b));
                        reveal_strlit("\n");
                        lemma_blocks_push(before, b);
                        assert(output@ =~= start + blocks_text(before.push(b)));
                    }
                    emitted = true;
                } else {
                    proof {
                        assert(leaves + yaml_nested_blocks(*meta, path, splits, env, indent@, i + 1) =~= before);
                    }
                }
                pop_segment(current_path);
                proof {
                    assert(path.push(field.name@).drop_last() =~= path);
                }
            },
            FieldKind::Leaf { .. } => {
                proof {
                    assert(leaves + yaml_nested_blocks(*meta, path, splits, env, indent@, i + 1) =~= before);
                }
            },
        }
        i = i + 1;
    }
}

/// Renders a split section: commented ancestor keys, then the section's
/// fields at the section's depth.
fn render_yaml_section(
    meta: &ConfigMeta,
    section_path: &Vec<String>,
    split_paths: &Vec<Vec<String>>,
    env_only_paths: &Vec<Vec<String>>,
    output: &mut String,
)
    ensures
        final(output)@ == old(output)@ + yaml_section_from(
            *meta,
            section_path.deep_view(),
            0,
            split_paths.deep_view(),
            env_only_paths.deep_view(),
        ),
{
    let ghost start = output@;
    let ghost sp = section_path.deep_view();
    let ghost splits = split_paths.deep_view();
    let ghost env = env_only_paths.deep_view();
    let mut current: &ConfigMeta = meta;
    let mut current_path: Vec<String> = Vec::new();
    let mut indent = String::new();
    let mut d: usize = 0;
    let mut found = true;
    proof {
        assert(current_path.deep_view() =~= sp.take(0));
        assert(indent@ =~= spaces(0));
    }
    while d < section_path.len() && found
        invariant
            d <= section_path@.len(),
            sp == section_path.deep_view(),
            splits == split_paths.deep_view(),
            env == env_only_paths.deep_view(),
            current_path.deep_view() == sp.take(d as int),
            indent@ == spaces(d as nat),
            found ==> start + yaml_section_from(*meta, sp, 0, splits, env) == output@ + yaml_section_from(*current, sp, d as int, splits, env),
            !found ==> output@ == start + yaml_section_from(*meta, sp, 0, splits, env),
        decreases section_path@.len() - d,
    {
        let ghost before = output@;
        output.append(indent.as_str());
        output.append("#");
        output.append(section_path[d].as_str());
        output.append(":\n");
        proof {
            assert(sp[d as int] == section_path@[d as int]@);
            assert(output@ =~= before + (spaces(d as nat) + "#"@ + sp[d as int] + ":\n"@));
        }
        push_segment(&mut current_path, &section_path[d]);
        proof {
            assert(current_path.deep_view() =~= sp.take(d + 1));
            lemma_spaces_step(d as nat);
        }
        indent.append("  ");
        match crate::meta::child_meta_of(current, section_path[d].as_str()) {
            Some(next) => {
                proof {
                    assert(output@ + yaml_section_from(*next, sp, d + 1, splits, env) =~= start + yaml_section_from(*meta, sp, 0, splits, env));
                }
                current = next;
            },
            None => {
                proof {
                    assert(output@ =~= start + yaml_section_from(*meta, sp, 0, splits, env));
                }
                found = false;
            },
        }
        d = d + 1;
    }
    if found {
        proof {
            assert(current_path.deep_view() =~= sp);
        }
        render_yaml_fields(current, &mut current_path, split_paths, env_only_paths, indent.as_str(), false, output);
    }
}

/// Renders a YAML template for the root config (empty section path) or one
/// split section.
pub fn render_yaml_template(
    meta: &ConfigMeta,
    include_paths: &Vec<String>,
    section_path: &Vec<String>,
    split_paths: &Vec<Vec<String>>,
    env_only_paths: &Vec<Vec<String>>,
) -> (r: String)
    ensures
        r@ == yaml_template(
            *meta,
            include_paths.deep_view(),
            section_path.deep_view(),
            split_paths.deep_view(),
            env_only_paths.deep_view(),
        ),
{
    let mut output = String::new();
    let has_includes = include_paths.len() > 0;
    if has_includes {
        let block = render_yaml_include(include_paths);
        output.append(block.as_str());
        output.append("\n");
    }
    let ghost head = output@;
    proof {
        assert(include_paths.deep_view().len() == include_paths@.len());
        if !has_includes {
            assert(head =~= Seq::<char>::empty());
        }
    }
    if section_path.len() == 0 {
        let mut root: Vec<String> = Vec::new();
        proof {
            assert(root.deep_view() =~= Seq::<Seq<char>>::empty());
        }
        render_yaml_fields(meta, &mut root, split_paths, env_only_paths, "", has_includes, &mut output);
        proof {
            reveal_strlit("");
            assert(""@ =~= Seq::<char>::empty());
        }
    } else {
        render_yaml_section(meta, section_path, split_paths, env_only_paths, &mut output);
        proof {
            assert(section_path.deep_view().len() == section_path@.len());
        }
    }
    ensure_single_trailing_newline(&mut output);
    output
}

} // verus!
