//! Planning and rendering of the template files that mirror a config tree.
//!
//! Targets are collected from the source tree. A source keeps the files it
//! declares unless they stand for a known section that is no longer split
//! out, and gains the files of split child sections it does not list yet.
//! Each target is then rendered for the section it stands for, with the split
//! sections narrowed to those that produced a target.

use vstd::prelude::*;
use crate::binding::{schema_path_for_template_target, target_schema_path, template_with_schema_directive_from, with_schema_directive, schema_reference};
use crate::error::ConfigTreeError;
use crate::format::format_of;
use crate::meta::ConfigMeta;
use crate::path::{absolutize_lexical_from, spec_absolutize, spec_join_sibling, spec_resolve};
use crate::render::{template_for_target, template_text};
use crate::sections::{
    append_missing_include_paths, default_child_include_paths, default_child_includes, kept_includes,
    retain_split_include_paths, section_for_target, section_path_for_target_candidates, with_missing,
};
use crate::template_tree::{target_segment, 
    collect_template_targets_from, has_earlier_target, target_closed, target_sources, targets_collected,
    targets_error_sound, TemplateTarget,
};
use crate::reach::{closes_cycle, has_include_cycle, is_include_cycle, lemma_reads_mono, reachable};
use crate::template_tree::{read_fails, read_reads};
use crate::tree::{clone_strings, first_empty, no_empty_path};

verus! {

/// A generated template file.
#[derive(Debug, Clone)]
pub struct ConfigTemplateTarget {
    /// Output path of the template.
    pub path: String,
    /// Rendered template content.
    pub content: String,
}

/// The sections, among the first `k` targets, that targets stand for and
/// that are not the root.
pub open spec fn narrowed_splits(
    output: Seq<char>,
    ts: Seq<TemplateTarget>,
    splits: Seq<Seq<Seq<char>>>,
    overrides: Seq<(Seq<Seq<char>>, Seq<char>)>,
    k: int,
) -> Seq<Seq<Seq<char>>>
    decreases k,
{
    if k <= 0 || k > ts.len() {
        Seq::empty()
    } else {
        let rest = narrowed_splits(output, ts, splits, overrides, k - 1);
        match section_for_target(output, ts[k - 1].target_path@, splits, overrides) {
            Some(s) => if s.len() > 0 {
                rest.push(s)
            } else {
                rest
            },
            None => rest,
        }
    }
}

/// The section a target stands for, the root when none.
pub open spec fn target_section(
    output: Seq<char>,
    target: Seq<char>,
    splits: Seq<Seq<Seq<char>>>,
    overrides: Seq<(Seq<Seq<char>>, Seq<char>)>,
) -> Seq<Seq<char>> {
    match section_for_target(output, target, splits, overrides) {
        Some(s) => s,
        None => Seq::empty(),
    }
}

/// The rendered content of one target.
pub open spec fn target_content(
    meta: ConfigMeta,
    output: Seq<char>,
    t: TemplateTarget,
    narrowed: Seq<Seq<Seq<char>>>,
    env_only: Seq<Seq<Seq<char>>>,
    overrides: Seq<(Seq<Seq<char>>, Seq<char>)>,
) -> Seq<char> {
    template_text(
        format_of(t.target_path@),
        meta,
        t.include_paths.deep_view(),
        target_section(output, t.target_path@, narrowed, overrides),
        narrowed,
        env_only,
    )
}

/// `v` is the rendering of the targets `ts`, in order.
pub open spec fn rendered_targets(
    meta: ConfigMeta,
    output: Seq<char>,
    ts: Seq<TemplateTarget>,
    splits: Seq<Seq<Seq<char>>>,
    env_only: Seq<Seq<Seq<char>>>,
    overrides: Seq<(Seq<Seq<char>>, Seq<char>)>,
    v: Seq<ConfigTemplateTarget>,
) -> bool {
    let narrowed = narrowed_splits(output, ts, splits, overrides, ts.len() as int);
    &&& v.len() == ts.len()
    &&& forall|i: int|
        0 <= i < ts.len() ==> (#[trigger] v[i]).path@ == ts[i].target_path@ && v[i].content@ == target_content(
            meta,
            output,
            ts[i],
            narrowed,
            env_only,
            overrides,
        )
}

/// Renders collected targets: the split sections are narrowed to those a
/// target stands for, and each target is rendered for its own section.
pub fn render_template_targets(
    meta: &ConfigMeta,
    output_path: &str,
    targets: Vec<TemplateTarget>,
    split_paths: &Vec<Vec<String>>,
    env_only_paths: &Vec<Vec<String>>,
    overrides: &Vec<(Vec<String>, String)>,
) -> (r: Vec<ConfigTemplateTarget>)
    ensures
        rendered_targets(*meta, output_path@, targets@, split_paths.deep_view(), env_only_paths.deep_view(), overrides.deep_view(), r@),
{
    let ghost ts = targets@;
    let ghost splits = split_paths.deep_view();
    let ghost ov = overrides.deep_view();
    let mut narrowed: Vec<Vec<String>> = Vec::new();
    let mut i: usize = 0;
    while i < targets.len()
        invariant
            i <= targets@.len(),
            ts == targets@,
            splits == split_paths.deep_view(),
            ov == overrides.deep_view(),
            narrowed.deep_view() == narrowed_splits(output_path@, ts, splits, ov, i as int),
        decreases targets@.len() - i,
    {
        match section_path_for_target_candidates(output_path, targets[i].target_path.as_str(), split_paths, overrides) {
            Some(section) => {
                if section.len() > 0 {
                    let ghost before = narrowed.deep_view();
                    let ghost sv = section.deep_view();
                    narrowed.push(section);
                    proof {
                        assert(narrowed.deep_view() =~= before.push(sv));
                    }
                } else {
                    proof {
                        assert(section.deep_view().len() == section@.len());
                    }
                }
            },
            None => {},
        }
        i = i + 1;
    }
    let ghost nv = narrowed.deep_view();
    let mut out: Vec<ConfigTemplateTarget> = Vec::new();
    let mut i: usize = 0;
    while i < targets.len()
        invariant
            i <= targets@.len(),
            ts == targets@,
            ov == overrides.deep_view(),
            nv == narrowed.deep_view(),
            nv == narrowed_splits(output_path@, ts, splits, ov, ts.len() as int),
            out@.len() == i,
            forall|j: int|
                0 <= j < i ==> (#[trigger] out@[j]).path@ == ts[j].target_path@ && out@[j].content@
                    == target_content(*meta, output_path@, ts[j], nv, env_only_paths.deep_view(), ov),
        decreases targets@.len() - i,
    {
        let t = &targets[i];
        let section = match section_path_for_target_candidates(output_path, t.target_path.as_str(), &narrowed, overrides) {
            Some(s) => s,
            None => Vec::new(),
        };
        proof {
            if section_for_target(output_path@, t.target_path@, nv, ov) is None {
                assert(section.deep_view() =~= Seq::<Seq<char>>::empty());
            }
        }
        let content = template_for_target(
            t.target_path.as_str(),
            meta,
            &t.include_paths,
            &section,
            &narrowed,
            env_only_paths,
        );
        out.push(ConfigTemplateTarget { path: t.target_path.clone(), content });
        i = i + 1;
    }
    out
}

/// What the planned reader returns for a source: the files the source
/// declares (as `read` returned them) that still point at split sections or
/// at no known section, followed by the files of split child sections not
/// listed yet.
pub open spec fn planned_includes(
    root: Seq<char>,
    node: Seq<char>,
    raw: Seq<Seq<char>>,
    all_sections: Seq<Seq<Seq<char>>>,
    splits: Seq<Seq<Seq<char>>>,
    overrides: Seq<(Seq<Seq<char>>, Seq<char>)>,
) -> Seq<Seq<char>> {
    let defaults = default_child_includes(root, node, splits, overrides);
    with_missing(kept_includes(root, node, raw, all_sections, splits, overrides, raw.len() as int), defaults, defaults.len() as int)
}

/// A target's declared files are the plan for what `read` returned for its
/// source.
pub open spec fn target_planned<F: Fn(&str) -> Result<Vec<String>, String>>(
    read: F,
    root: Seq<char>,
    all_sections: Seq<Seq<Seq<char>>>,
    splits: Seq<Seq<Seq<char>>>,
    overrides: Seq<(Seq<Seq<char>>, Seq<char>)>,
    t: TemplateTarget,
) -> bool {
    exists|p: &str, raw: Vec<String>|
        #![trigger call_ensures(read, (p,), Ok::<Vec<String>, String>(raw))]
        p@ == t.source_path@ && call_ensures(read, (p,), Ok::<Vec<String>, String>(raw))
            && t.include_paths.deep_view() == planned_includes(root, p@, raw.deep_view(), all_sections, splits, overrides)
}

/// What holds of the planned targets of a template tree: the first is the
/// root source mapped to the output path, sources are distinct, every
/// target's declared files follow the plan, every target but the first is
/// reached from an earlier one, and every declared file reaches a target.
pub open spec fn targets_planned<F: Fn(&str) -> Result<Vec<String>, String>>(
    cwd: Seq<char>,
    root: Seq<char>,
    output: Seq<char>,
    ts: Seq<TemplateTarget>,
    read: F,
    all_sections: Seq<Seq<Seq<char>>>,
    splits: Seq<Seq<Seq<char>>>,
    overrides: Seq<(Seq<Seq<char>>, Seq<char>)>,
) -> bool {
    &&& ts.len() >= 1
    &&& ts[0].source_path@ == root
    &&& ts[0].target_path@ == output
    &&& target_sources(ts).no_duplicates()
    &&& forall|i: int| 0 <= i < ts.len() ==> target_planned(read, root, all_sections, splits, overrides, #[trigger] ts[i])
    &&& forall|i: int| 1 <= i < ts.len() ==> has_earlier_target::<()>(cwd, ts, i)
    &&& forall|i: int| 0 <= i < ts.len() ==> #[trigger] target_closed(cwd, ts, i)
    &&& target_segment(cwd, ts, 0, ts.len() as int, root, output)
}

/// `v` renders the planned targets of the template tree rooted at
/// `source` (made absolute against `cwd`) and mapped to `output`.
pub open spec fn templates_planned<F: Fn(&str) -> Result<Vec<String>, String>>(
    cwd: Seq<char>,
    meta: ConfigMeta,
    source: Seq<char>,
    output: Seq<char>,
    all_sections: Seq<Seq<Seq<char>>>,
    splits: Seq<Seq<Seq<char>>>,
    env_only: Seq<Seq<Seq<char>>>,
    overrides: Seq<(Seq<Seq<char>>, Seq<char>)>,
    read: F,
    v: Seq<ConfigTemplateTarget>,
) -> bool {
    exists|ts: Seq<TemplateTarget>|
        targets_planned(cwd, spec_absolutize(cwd, source), output, ts, read, all_sections, splits, overrides)
            && rendered_targets(meta, output, ts, splits, env_only, overrides, v)
}

/// What planning a source may give: the plan for a list of paths that
/// `read` returned for it.
pub open spec fn planned_reads<F: Fn(&str) -> Result<Vec<String>, String>>(
    read: F,
    root: Seq<char>,
    all_sections: Seq<Seq<Seq<char>>>,
    splits: Seq<Seq<Seq<char>>>,
    overrides: Seq<(Seq<Seq<char>>, Seq<char>)>,
) -> spec_fn(Seq<char>, Seq<Seq<char>>) -> bool {
    |q: Seq<char>, incs: Seq<Seq<char>>|
        exists|p: &str, raw: Vec<String>|
            #![trigger call_ensures(read, (p,), Ok::<Vec<String>, String>(raw))]
            p@ == q && call_ensures(read, (p,), Ok::<Vec<String>, String>(raw)) && incs == planned_includes(
                root,
                q,
                raw.deep_view(),
                all_sections,
                splits,
                overrides,
            )
}

/// Whatever `read` returns for `q` is a list whose plan holds no empty path.
pub open spec fn plans_cleanly<F: Fn(&str) -> Result<Vec<String>, String>>(
    read: F,
    root: Seq<char>,
    all_sections: Seq<Seq<Seq<char>>>,
    splits: Seq<Seq<Seq<char>>>,
    overrides: Seq<(Seq<Seq<char>>, Seq<char>)>,
    q: Seq<char>,
) -> bool {
    forall|p: &str, res: Result<Vec<String>, String>|
        #[trigger] call_ensures(read, (p,), res) && p@ == q ==> res is Ok && no_empty_path(
            planned_includes(root, q, res->Ok_0.deep_view(), all_sections, splits, overrides),
        )
}

/// The planned template tree from the absolute path `root` can be built:
/// every source reachable through planned paths reads and plans cleanly, and
/// no cycle of planned paths is reachable.
pub open spec fn templates_load<F: Fn(&str) -> Result<Vec<String>, String>>(
    read: F,
    cwd: Seq<char>,
    root: Seq<char>,
    all_sections: Seq<Seq<Seq<char>>>,
    splits: Seq<Seq<Seq<char>>>,
    overrides: Seq<(Seq<Seq<char>>, Seq<char>)>,
) -> bool {
    let reads = planned_reads(read, root, all_sections, splits, overrides);
    &&& forall|q: Seq<char>|
        #[trigger] reachable(reads, cwd, root, q) ==> plans_cleanly(read, root, all_sections, splits, overrides, q)
    &&& !has_include_cycle(reads, cwd, root)
}

/// What planning templates from the absolute path `root` reports when it
/// fails: the reader's own failure for a source reachable through planned
/// paths; a reachable source whose plan holds an empty path, with the first
/// such position; or a cycle of planned paths, from the repeated source along
/// the walk from the root and back to it.
pub open spec fn planned_error_sound<F: Fn(&str) -> Result<Vec<String>, String>>(
    e: ConfigTreeError,
    read: F,
    cwd: Seq<char>,
    root: Seq<char>,
    all_sections: Seq<Seq<Seq<char>>>,
    splits: Seq<Seq<Seq<char>>>,
    overrides: Seq<(Seq<Seq<char>>, Seq<char>)>,
) -> bool {
    let reads = planned_reads(read, root, all_sections, splits, overrides);
    match e {
        ConfigTreeError::CurrentDir { .. } => false,
        ConfigTreeError::Load { path, source } => reachable(reads, cwd, root, path@) && exists|p: &str|
            #![trigger call_ensures(read, (p,), Err::<Vec<String>, String>(source))]
            p@ == path@ && call_ensures(read, (p,), Err::<Vec<String>, String>(source)),
        ConfigTreeError::EmptyIncludePath { path, index } => reachable(reads, cwd, root, path@) && exists|
            p: &str,
            raw: Vec<String>,
        |
            #![trigger call_ensures(read, (p,), Ok::<Vec<String>, String>(raw))]
            p@ == path@ && call_ensures(read, (p,), Ok::<Vec<String>, String>(raw)) && first_empty(
                planned_includes(root, path@, raw.deep_view(), all_sections, splits, overrides),
                index as int,
            ),
        ConfigTreeError::IncludeCycle { chain } => is_include_cycle(reads, cwd, root, chain.deep_view()),
    }
}

/// Reads a source's declared files and plans them.
fn read_planned<F>(
    read: &F,
    root: &str,
    node: &str,
    all_section_paths: &Vec<Vec<String>>,
    split_paths: &Vec<Vec<String>>,
    overrides: &Vec<(Vec<String>, String)>,
) -> (r: Result<Vec<String>, String>) where F: Fn(&str) -> Result<Vec<String>, String>
    requires
        forall|p: &str| call_requires(*read, (p,)),
    ensures
        r matches Ok(v) ==> exists|raw: Vec<String>|
            call_ensures(*read, (node,), Ok::<Vec<String>, String>(raw)) && v.deep_view() == planned_includes(
                root@,
                node@,
                raw.deep_view(),
                all_section_paths.deep_view(),
                split_paths.deep_view(),
                overrides.deep_view(),
            ),
        r matches Err(m) ==> call_ensures(*read, (node,), Err::<Vec<String>, String>(m)),
{
    let raw = match read(node) {
        Ok(v) => v,
        Err(m) => {
            return Err(m);
        },
    };
    let ghost rv = raw;
    let kept = retain_split_include_paths(root, node, clone_strings(&raw), all_section_paths, split_paths, overrides);
    let defaults = default_child_include_paths(root, node, split_paths, overrides);
    let mut planned = kept;
    append_missing_include_paths(&mut planned, defaults);
    proof {
        assert(call_ensures(*read, (node,), Ok::<Vec<String>, String>(rv)));
    }
    Ok(planned)
}

/// Plans and renders the template files for a config tree whose root
/// source is `source_path`, mapped to `output_path`; relative paths are
/// made absolute against `current_dir`.
///
/// `read` returns the files a source file declares; `all_section_paths` are
/// the schema's nested sections, `split_paths` those split into files of
/// their own, `env_only_paths` the leaves left out of templates and
/// `overrides` the template paths the schema gives for sections.
#[verifier::rlimit(40)]
pub fn template_targets_for_paths_from<F>(
    current_dir: &str,
    meta: &ConfigMeta,
    source_path: &str,
    output_path: &str,
    all_section_paths: &Vec<Vec<String>>,
    split_paths: &Vec<Vec<String>>,
    env_only_paths: &Vec<Vec<String>>,
    overrides: &Vec<(Vec<String>, String)>,
    read: F,
) -> (r: Result<Vec<ConfigTemplateTarget>, ConfigTreeError>) where F: Fn(&str) -> Result<Vec<String>, String>
    requires
        forall|p: &str| call_requires(read, (p,)),
    ensures
        r matches Ok(v) ==> templates_planned(
            current_dir@,
            *meta,
            source_path@,
            output_path@,
            all_section_paths.deep_view(),
            split_paths.deep_view(),
            env_only_paths.deep_view(),
            overrides.deep_view(),
            read,
            v@,
        ),
        r matches Err(e) ==> planned_error_sound(
            e,
            read,
            current_dir@,
            spec_absolutize(current_dir@, source_path@),
            all_section_paths.deep_view(),
            split_paths.deep_view(),
            overrides.deep_view(),
        ),
        templates_load(
            read,
            current_dir@,
            spec_absolutize(current_dir@, source_path@),
            all_section_paths.deep_view(),
            split_paths.deep_view(),
            overrides.deep_view(),
        ) ==> r is Ok,
        read_fails(read, spec_absolutize(current_dir@, source_path@)) ==> (r matches Err(e) && e is Load
            && e->Load_path@ == spec_absolutize(current_dir@, source_path@)),
{
    let ghost read0 = read;
    let root = absolutize_lexical_from(current_dir, source_path);
    let ghost rv = root@;
    let read_ref = &read;
    let root_ref = &root;
    let plan = |node: &str| -> (pr: Result<Vec<String>, String>)
        ensures
            pr matches Ok(v) ==> exists|raw: Vec<String>|
                call_ensures(*read_ref, (node,), Ok::<Vec<String>, String>(raw)) && v.deep_view() == planned_includes(
                    root_ref@,
                    node@,
                    raw.deep_view(),
                    all_section_paths.deep_view(),
                    split_paths.deep_view(),
                    overrides.deep_view(),
                ),
            pr matches Err(m) ==> call_ensures(*read_ref, (node,), Err::<Vec<String>, String>(m)),
        { read_planned(read_ref, root_ref.as_str(), node, all_section_paths, split_paths, overrides) };
    proof {
        if read_fails(read0, rv) {
            assert forall|p: &str, res: Result<Vec<String>, String>|
                #[trigger] call_ensures(plan, (p,), res) && p@ == rv implies res is Err by {
                if res is Ok {
                    let raw = choose|raw: Vec<String>|
                        call_ensures(read0, (p,), Ok::<Vec<String>, String>(raw)) && res->Ok_0.deep_view()
                            == planned_includes(rv, p@, raw.deep_view(), all_section_paths.deep_view(),
                            split_paths.deep_view(), overrides.deep_view());
                    assert(call_ensures(read0, (p,), Ok::<Vec<String>, String>(raw)));
                }
            }
            assert(read_fails(plan, rv));
        }
    }
    let collected = collect_template_targets_from(current_dir, source_path, output_path, plan);
    match collected {
        Err(e) => {
            let ghost ge = e;
            proof {
                let all = all_section_paths.deep_view();
                let sp = split_paths.deep_view();
                let ov = overrides.deep_view();
                let r1 = read_reads(plan);
                let r2 = planned_reads(read0, rv, all, sp, ov);
                assert forall|q: Seq<char>, incs: Seq<Seq<char>>| #[trigger] r1(q, incs) implies r2(q, incs) by {
                    let (p, v) = choose|p: &str, v: Vec<String>|
                        p@ == q && call_ensures(plan, (p,), Ok::<Vec<String>, String>(v)) && v.deep_view() == incs;
                    let raw = choose|raw: Vec<String>|
                        call_ensures(read0, (p,), Ok::<Vec<String>, String>(raw)) && v.deep_view() == planned_includes(
                            rv, p@, raw.deep_view(), all, sp, ov);
                    assert(call_ensures(read0, (p,), Ok::<Vec<String>, String>(raw)));
                }
                lemma_reads_mono(r1, r2, current_dir@, rv);
                match ge {
                    ConfigTreeError::Load { path, source } => {
                        let p = choose|p: &str| p@ == path@ && call_ensures(plan, (p,), Err::<Vec<String>, String>(source));
                        assert(call_ensures(read0, (p,), Err::<Vec<String>, String>(source)));
                        if templates_load(read0, current_dir@, rv, all, sp, ov) {
                            assert(plans_cleanly(read0, rv, all, sp, ov, path@));
                        }
                    },
                    ConfigTreeError::EmptyIncludePath { path, index } => {
                        let (p, v) = choose|p: &str, v: Vec<String>|
                            p@ == path@ && call_ensures(plan, (p,), Ok::<Vec<String>, String>(v)) && first_empty(
                                v.deep_view(), index as int);
                        let raw = choose|raw: Vec<String>|
                            call_ensures(read0, (p,), Ok::<Vec<String>, String>(raw)) && v.deep_view() == planned_includes(
                                rv, p@, raw.deep_view(), all, sp, ov);
                        assert(call_ensures(read0, (p,), Ok::<Vec<String>, String>(raw)));
                        if templates_load(read0, current_dir@, rv, all, sp, ov) {
                            assert(plans_cleanly(read0, rv, all, sp, ov, path@));
                            assert(v.deep_view()[index as int].len() > 0);
                        }
                    },
                    ConfigTreeError::IncludeCycle { chain } => {
                        assert(is_include_cycle(r1, current_dir@, rv, chain.deep_view()));
                        let (stack, pos) = choose|stack: Seq<Seq<char>>, pos: int|
                            #[trigger] closes_cycle(r2, current_dir@, rv, stack, pos) && chain.deep_view() == stack.skip(pos).push(stack[pos]);
                        assert(has_include_cycle(r2, current_dir@, rv));
                    },
                    ConfigTreeError::CurrentDir { .. } => {},
                }
            }
            return Err(e);
        },
        Ok(targets) => {
            let ghost ts = targets@;
            proof {
                assert(targets_collected(current_dir@, source_path@, output_path@, ts, plan));
                assert forall|i: int| 0 <= i < ts.len() implies target_planned(
                    read0, rv, all_section_paths.deep_view(), split_paths.deep_view(), overrides.deep_view(), #[trigger] ts[i]) by {
                    assert(crate::template_tree::target_read(plan, ts[i]));
                    let (p, v) = choose|p: &str, v: Vec<String>|
                        p@ == ts[i].source_path@ && call_ensures(plan, (p,), Ok::<Vec<String>, String>(v))
                            && v.deep_view() == ts[i].include_paths.deep_view();
                    let raw = choose|raw: Vec<String>|
                        call_ensures(read0, (p,), Ok::<Vec<String>, String>(raw)) && v.deep_view() == planned_includes(
                            rv, p@, raw.deep_view(), all_section_paths.deep_view(), split_paths.deep_view(), overrides.deep_view());
                    assert(call_ensures(read0, (p,), Ok::<Vec<String>, String>(raw)));
                }
            }
            proof {
                assert(targets_planned(current_dir@, rv, output_path@, ts, read0, all_section_paths.deep_view(),
                    split_paths.deep_view(), overrides.deep_view()));
            }
            let v = render_template_targets(meta, output_path, targets, split_paths, env_only_paths, overrides);
            proof {
                assert(rendered_targets(*meta, output_path@, ts, split_paths.deep_view(), env_only_paths.deep_view(),
                    overrides.deep_view(), v@));
                assert(templates_planned(current_dir@, *meta, source_path@, output_path@, all_section_paths.deep_view(),
                    split_paths.deep_view(), env_only_paths.deep_view(), overrides.deep_view(), read0, v@));
            }
            return Ok(v);
        },
    }
}

/// Binds rendered targets to their schemas: each target references the
/// schema of the split section it stands for, or the root schema;
/// relative paths are resolved against `current_dir`.
pub fn bind_template_targets_from(
    current_dir: &str,
    output_path: &str,
    schema_path: &str,
    targets: Vec<ConfigTemplateTarget>,
    split_paths: &Vec<Vec<String>>,
    overrides: &Vec<(Vec<String>, String)>,
) -> (r: Vec<ConfigTemplateTarget>)
    ensures
        r@.len() == targets@.len(),
        forall|i: int|
            0 <= i < targets@.len() ==> (#[trigger] r@[i]).path == targets@[i].path && r@[i].content@
                == with_schema_directive(
                format_of(targets@[i].path@),
                schema_reference(
                    current_dir@,
                    targets@[i].path@,
                    target_schema_path(output_path@, targets@[i].path@, schema_path@, split_paths.deep_view(), overrides.deep_view()),
                ),
                targets@[i].content@,
            ),
{
    let mut out: Vec<ConfigTemplateTarget> = Vec::new();
    let mut i: usize = 0;
    while i < targets.len()
        invariant
            i <= targets@.len(),
            out@.len() == i,
            forall|j: int|
                0 <= j < i ==> (#[trigger] out@[j]).path == targets@[j].path && out@[j].content@
                    == with_schema_directive(
                    format_of(targets@[j].path@),
                    schema_reference(
                        current_dir@,
                        targets@[j].path@,
                        target_schema_path(output_path@, targets@[j].path@, schema_path@, split_paths.deep_view(), overrides.deep_view()),
                    ),
                    targets@[j].content@,
                ),
        decreases targets@.len() - i,
    {
        let t = &targets[i];
        let target_schema = schema_path_for_template_target(output_path, t.path.as_str(), schema_path, split_paths, overrides);
        let content = template_with_schema_directive_from(current_dir, t.path.as_str(), target_schema.as_str(), t.content.as_str());
        out.push(ConfigTemplateTarget { path: t.path.clone(), content });
        i = i + 1;
    }
    out
}

} // verus!
