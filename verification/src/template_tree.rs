//! Template target discovery.
//!
//! Source config files are mapped to output template files by following the
//! paths each source declares. Every source is visited once; its output path
//! mirrors, relative to the parent output, the path the parent source wrote.
//! Rendering is left to callers.

use vstd::prelude::*;
use crate::error::ConfigTreeError;
use crate::path::{
    absolutize_lexical_from, current_dir, is_abs, join_sibling, path_is_absolute,
    resolve_include_path, spec_absolutize, spec_join_sibling, spec_resolve,
};
use crate::reach::{
    closes_cycle, declares, has_include_cycle, is_include_cycle, lemma_cycle_found, lemma_walk_push,
    lemma_walk_root, reachable, simple_walk_from, walk_step,
};
use crate::tree::{
    clone_strings, finish_index, finished_before, first_empty, lemma_ranks_fall, no_empty_path,
    validate_include_paths, TraversalState,
};

verus! {

/// A source config path paired with the template path generated from it.
#[derive(Debug, Clone)]
pub struct TemplateTarget {
    /// Normalized absolute source path.
    pub source_path: String,
    /// Output template path.
    pub target_path: String,
    /// Paths declared by the source, as written.
    pub include_paths: Vec<String>,
}

impl TemplateTarget {
    /// Returns the normalized absolute source path.
    pub fn source_path(&self) -> (r: &str)
        ensures
            r@ == self.source_path@,
    {
        self.source_path.as_str()
    }

    /// Returns the output template path.
    pub fn target_path(&self) -> (r: &str)
        ensures
            r@ == self.target_path@,
    {
        self.target_path.as_str()
    }

    /// Returns the paths declared by the source.
    pub fn include_paths(&self) -> (r: &[String])
        ensures
            r@ == self.include_paths@,
    {
        self.include_paths.as_slice()
    }

    /// Decomposes the target into source path, target path and declared paths.
    pub fn into_parts(self) -> (r: (String, String, Vec<String>))
        ensures
            r.0 == self.source_path,
            r.1 == self.target_path,
            r.2 == self.include_paths,
    {
        (self.source_path, self.target_path, self.include_paths)
    }
}

/// Picks the template source: the config path when it exists, the output
/// path otherwise.
pub fn choose_template_source(config_path: &str, output_path: &str, config_exists: bool) -> (r: String)
    ensures
        r@ == (if config_exists { config_path@ } else { output_path@ }),
{
    if config_exists {
        config_path.to_owned()
    } else {
        output_path.to_owned()
    }
}

/// Reports whether a path names an existing file system entry.
///
/// Calls `std::path::Path::exists`. The answer depends on the file system at
/// the time of the call, so nothing is claimed about it.
#[verifier::external_body]
fn path_exists(path: &str) -> bool {
    std::path::Path::new(path).exists()
}

/// Selects the source path used to generate templates: the config path when
/// it exists on disk, otherwise the output path.
pub fn select_template_source(config_path: &str, output_path: &str) -> (r: String)
    ensures
        r@ == config_path@ || r@ == output_path@,
{
    let exists = path_exists(config_path);
    choose_template_source(config_path, output_path, exists)
}

/// The source paths of a target list, in order.
pub open spec fn target_sources(ts: Seq<TemplateTarget>) -> Seq<Seq<char>> {
    Seq::new(ts.len(), |i: int| ts[i].source_path@)
}

/// `child` is reached from `parent` through one of the paths `parent`
/// declares: its source is that path resolved from the parent source, its
/// target is that path joined onto the parent target's directory.
pub open spec fn target_child_of(
    cwd: Seq<char>,
    parent: TemplateTarget,
    child_source: Seq<char>,
    child_target: Seq<char>,
) -> bool {
    exists|j: int|
        0 <= j < parent.include_paths@.len() && child_source == spec_absolutize(
            cwd,
            spec_resolve(parent.source_path@, #[trigger] parent.include_paths@[j]@),
        ) && child_target == spec_join_sibling(parent.target_path@, parent.include_paths@[j]@)
}

/// Every path declared by target `i` resolves to the source of some target.
pub open spec fn target_closed(cwd: Seq<char>, ts: Seq<TemplateTarget>, i: int) -> bool {
    forall|j: int|
        0 <= j < ts[i].include_paths@.len() ==> target_sources(ts).contains(
            spec_absolutize(cwd, spec_resolve(ts[i].source_path@, #[trigger] ts[i].include_paths@[j]@)),
        )
}

/// The reader returned `Ok` with exactly the target's declared paths when
/// called with the target's source path.
pub open spec fn target_read<F: Fn(&str) -> Result<Vec<String>, String>>(
    read: F,
    t: TemplateTarget,
) -> bool {
    exists|p: &str, v: Vec<String>|
        #![trigger call_ensures(read, (p,), Ok::<Vec<String>, String>(v))]
        p@ == t.source_path@ && call_ensures(read, (p,), Ok::<Vec<String>, String>(v))
            && v.deep_view() == t.include_paths.deep_view()
}

/// Some target before position `i` leads to target `i`.
pub open spec fn has_earlier_target<T>(cwd: Seq<char>, ts: Seq<TemplateTarget>, i: int) -> bool {
    exists|k: int|
        0 <= k < i && #[trigger] target_child_of(cwd, ts[k], ts[i].source_path@, ts[i].target_path@)
}

/// What holds of every collected target list: targets come from the reader,
/// declared paths are non-empty, sources are distinct, and every target but
/// the first is reached from an earlier one.
pub open spec fn targets_wf<F: Fn(&str) -> Result<Vec<String>, String>>(
    cwd: Seq<char>,
    ts: Seq<TemplateTarget>,
    read: F,
) -> bool {
    &&& target_sources(ts).no_duplicates()
    &&& forall|i: int| 0 <= i < ts.len() ==> target_read(read, #[trigger] ts[i])
    &&& forall|i: int, j: int|
        0 <= i < ts.len() && 0 <= j < ts[i].include_paths@.len() ==> (#[trigger] ts[i].include_paths@[j])@.len() > 0
    &&& forall|i: int| 1 <= i < ts.len() ==> has_earlier_target::<()>(cwd, ts, i)
}

/// What a successful collection returns: a well-formed target list whose
/// first target is the source made absolute, mapped to the output path, and in
/// which every declared path of every source reaches a target.
pub open spec fn targets_collected<F: Fn(&str) -> Result<Vec<String>, String>>(
    cwd: Seq<char>,
    source: Seq<char>,
    output: Seq<char>,
    ts: Seq<TemplateTarget>,
    read: F,
) -> bool {
    &&& targets_wf(cwd, ts, read)
    &&& ts.len() >= 1
    &&& ts[0].source_path@ == spec_absolutize(cwd, source)
    &&& ts[0].target_path@ == output
    &&& forall|i: int| 0 <= i < ts.len() ==> #[trigger] target_closed(cwd, ts, i)
}

/// What reading a source may declare: a list of paths that the reader
/// returned for it.
pub open spec fn read_reads<F: Fn(&str) -> Result<Vec<String>, String>>(read: F) -> spec_fn(
    Seq<char>,
    Seq<Seq<char>>,
) -> bool {
    |q: Seq<char>, incs: Seq<Seq<char>>|
        exists|p: &str, v: Vec<String>|
            #![trigger call_ensures(read, (p,), Ok::<Vec<String>, String>(v))]
            p@ == q && call_ensures(read, (p,), Ok::<Vec<String>, String>(v)) && v.deep_view() == incs
}

/// Whatever the reader returns for `q` is a list of non-empty paths.
pub open spec fn reads_cleanly<F: Fn(&str) -> Result<Vec<String>, String>>(read: F, q: Seq<char>) -> bool {
    forall|p: &str, res: Result<Vec<String>, String>|
        #[trigger] call_ensures(read, (p,), res) && p@ == q ==> res is Ok && no_empty_path(res->Ok_0.deep_view())
}

/// Whatever the reader returns for `q` is a failure.
pub open spec fn read_fails<F: Fn(&str) -> Result<Vec<String>, String>>(read: F, q: Seq<char>) -> bool {
    forall|p: &str, res: Result<Vec<String>, String>| #[trigger] call_ensures(read, (p,), res) && p@ == q ==> res is Err
}

/// The sources reachable from the absolute path `root` all read cleanly, and
/// no cycle of declared paths is reachable from it.
pub open spec fn targets_load<F: Fn(&str) -> Result<Vec<String>, String>>(
    read: F,
    cwd: Seq<char>,
    root: Seq<char>,
) -> bool {
    &&& forall|q: Seq<char>| #[trigger] reachable(read_reads(read), cwd, root, q) ==> reads_cleanly(read, q)
    &&& !has_include_cycle(read_reads(read), cwd, root)
}

/// What a collection from the absolute path `root` reports when it fails:
/// the reader's own failure for a source reachable from the root; a source
/// reachable from the root for which the reader returned a list holding an
/// empty path, with the first such position; or a cycle of declared paths,
/// from the repeated source along the walk from the root and back to it.
pub open spec fn targets_error_sound<F: Fn(&str) -> Result<Vec<String>, String>>(
    e: ConfigTreeError,
    read: F,
    cwd: Seq<char>,
    root: Seq<char>,
) -> bool {
    let reads = read_reads(read);
    match e {
        ConfigTreeError::CurrentDir { .. } => false,
        ConfigTreeError::Load { path, source } => reachable(reads, cwd, root, path@) && exists|p: &str|
            #![trigger call_ensures(read, (p,), Err::<Vec<String>, String>(source))]
            p@ == path@ && call_ensures(read, (p,), Err::<Vec<String>, String>(source)),
        ConfigTreeError::EmptyIncludePath { path, index } => reachable(reads, cwd, root, path@) && exists|
            p: &str,
            v: Vec<String>,
        |
            #![trigger call_ensures(read, (p,), Ok::<Vec<String>, String>(v))]
            p@ == path@ && call_ensures(read, (p,), Ok::<Vec<String>, String>(v)) && first_empty(
                v.deep_view(),
                index as int,
            ),
        ConfigTreeError::IncludeCycle { chain } => is_include_cycle(reads, cwd, root, chain.deep_view()),
    }
}

/// A collection that fails as stated shows that the sources do not all
/// read cleanly or that a cycle is reachable.
pub proof fn lemma_error_refutes_targets<F: Fn(&str) -> Result<Vec<String>, String>>(
    e: ConfigTreeError,
    read: F,
    cwd: Seq<char>,
    root: Seq<char>,
)
    requires
        targets_error_sound(e, read, cwd, root),
    ensures
        !targets_load(read, cwd, root),
{
    let reads = read_reads(read);
    match e {
        ConfigTreeError::Load { path, source } => {
            let p = choose|p: &str| p@ == path@ && call_ensures(read, (p,), Err::<Vec<String>, String>(source));
            if targets_load(read, cwd, root) {
                assert(reads_cleanly(read, path@));
                assert(call_ensures(read, (p,), Err::<Vec<String>, String>(source)));
            }
        },
        ConfigTreeError::EmptyIncludePath { path, index } => {
            let (p, v) = choose|p: &str, v: Vec<String>|
                p@ == path@ && call_ensures(read, (p,), Ok::<Vec<String>, String>(v)) && first_empty(
                    v.deep_view(), index as int);
            if targets_load(read, cwd, root) {
                assert(reads_cleanly(read, path@));
                assert(call_ensures(read, (p,), Ok::<Vec<String>, String>(v)));
                assert(v.deep_view()[index as int].len() > 0);
            }
        },
        ConfigTreeError::IncludeCycle { chain } => {
            let (stack, pos) = choose|stack: Seq<Seq<char>>, pos: int|
                #[trigger] closes_cycle(reads, cwd, root, stack, pos) && chain.deep_view() == stack.skip(pos).push(stack[pos]);
            assert(has_include_cycle(reads, cwd, root));
        },
        ConfigTreeError::CurrentDir { .. } => {},
    }
}

/// The source that the `j`-th declared path of target `i` leads to.
pub open spec fn child_source(cwd: Seq<char>, ts: Seq<TemplateTarget>, i: int, j: int) -> Seq<char> {
    spec_absolutize(cwd, spec_resolve(ts[i].source_path@, ts[i].include_paths@[j]@))
}

/// Every target whose traversal completed in `f` did so after each source
/// its declared paths lead to.
pub open spec fn targets_finish_first(cwd: Seq<char>, f: Seq<Seq<char>>, ts: Seq<TemplateTarget>) -> bool {
    forall|i: int, j: int|
        0 <= i < ts.len() && 0 <= j < ts[i].include_paths@.len() && f.contains(ts[i].source_path@) ==> finished_before(
            f,
            #[trigger] child_source(cwd, ts, i, j),
            ts[i].source_path@,
        )
}

/// The completed sources are the collected ones off the stack, each once,
/// each completed after the sources it leads to.
spec fn target_finish_inv(cwd: Seq<char>, f: Seq<Seq<char>>, visiting: Seq<Seq<char>>, ts: Seq<TemplateTarget>) -> bool {
    &&& f.no_duplicates()
    &&& forall|x: Seq<char>|
        #![trigger f.contains(x)]
        #![trigger target_sources(ts).contains(x)]
        f.contains(x) <==> (target_sources(ts).contains(x) && !visiting.contains(x))
    &&& targets_finish_first(cwd, f, ts)
}

proof fn lemma_target_finish_enter(
    cwd: Seq<char>,
    f: Seq<Seq<char>>,
    visiting: Seq<Seq<char>>,
    ts: Seq<TemplateTarget>,
    g: TemplateTarget,
)
    requires
        target_finish_inv(cwd, f, visiting, ts),
        !target_sources(ts).contains(g.source_path@),
    ensures
        target_finish_inv(cwd, f, visiting.push(g.source_path@), ts.push(g)),
{
    let m = ts.push(g);
    let x0 = g.source_path@;
    lemma_sources_push(ts, g);
    assert forall|x: Seq<char>| f.contains(x) <==> (target_sources(m).contains(x) && !visiting.push(x0).contains(x)) by {
        if x == x0 {
            assert(visiting.push(x0)[visiting.len() as int] == x);
        } else {
            if target_sources(m).contains(x) {
                let k = choose|k: int| 0 <= k < target_sources(m).len() && target_sources(m)[k] == x;
                assert(target_sources(ts)[k] == x);
            }
            if target_sources(ts).contains(x) {
                let k = choose|k: int| 0 <= k < target_sources(ts).len() && target_sources(ts)[k] == x;
                assert(target_sources(m)[k] == x);
            }
            if visiting.push(x0).contains(x) {
                let k = choose|k: int| 0 <= k < visiting.push(x0).len() && visiting.push(x0)[k] == x;
                assert(visiting[k] == x);
            }
            if visiting.contains(x) {
                let k = choose|k: int| 0 <= k < visiting.len() && visiting[k] == x;
                assert(visiting.push(x0)[k] == x);
            }
        }
    }
    assert forall|i: int, j: int|
        0 <= i < m.len() && 0 <= j < m[i].include_paths@.len() && f.contains(m[i].source_path@) implies finished_before(
            f,
            #[trigger] child_source(cwd, m, i, j),
            m[i].source_path@,
        ) by {
        if i < ts.len() {
            assert(m[i] == ts[i]);
            assert(child_source(cwd, m, i, j) == child_source(cwd, ts, i, j));
        } else {
            assert(m[i] == g);
            assert(target_sources(m)[i] == x0);
        }
    }
}

proof fn lemma_target_finish_leave(
    cwd: Seq<char>,
    f: Seq<Seq<char>>,
    visiting: Seq<Seq<char>>,
    ts: Seq<TemplateTarget>,
    me: int,
)
    requires
        target_finish_inv(cwd, f, visiting.push(ts[me].source_path@), ts),
        0 <= me < ts.len(),
        target_sources(ts).no_duplicates(),
        !visiting.contains(ts[me].source_path@),
        forall|j: int| 0 <= j < ts[me].include_paths@.len() ==> f.contains(#[trigger] child_source(cwd, ts, me, j)),
    ensures
        target_finish_inv(cwd, f.push(ts[me].source_path@), visiting, ts),
{
    let p = ts[me].source_path@;
    let g = f.push(p);
    let vp = visiting.push(p);
    assert(target_sources(ts)[me] == p);
    assert(vp[visiting.len() as int] == p);
    assert(!f.contains(p));
    assert forall|x: Seq<char>| g.contains(x) <==> (target_sources(ts).contains(x) && !visiting.contains(x)) by {
        if x != p {
            if g.contains(x) {
                let k = choose|k: int| 0 <= k < g.len() && g[k] == x;
                assert(f[k] == x);
            }
            if f.contains(x) {
                let k = choose|k: int| 0 <= k < f.len() && f[k] == x;
                assert(g[k] == x);
            }
            if vp.contains(x) {
                let k = choose|k: int| 0 <= k < vp.len() && vp[k] == x;
                assert(visiting[k] == x);
            }
            if visiting.contains(x) {
                let k = choose|k: int| 0 <= k < visiting.len() && visiting[k] == x;
                assert(vp[k] == x);
            }
        } else {
            assert(g[f.len() as int] == x);
        }
    }
    assert(g.no_duplicates()) by {
        assert forall|a: int, b: int| 0 <= a < g.len() && 0 <= b < g.len() && a != b implies g[a] != g[b] by {
            if a < f.len() && b < f.len() {
                assert(f[a] != f[b]);
            } else if a < f.len() {
                assert(f.contains(f[a]));
            } else {
                assert(f.contains(f[b]));
            }
        }
    }
    assert forall|i: int, j: int|
        0 <= i < ts.len() && 0 <= j < ts[i].include_paths@.len() && g.contains(ts[i].source_path@) implies finished_before(
            g,
            #[trigger] child_source(cwd, ts, i, j),
            ts[i].source_path@,
        ) by {
        if ts[i].source_path@ == p {
            assert(target_sources(ts)[i] == target_sources(ts)[me]);
            assert(i == me);
            assert(f.contains(child_source(cwd, ts, me, j)));
            assert(g.take(f.len() as int) =~= f);
            assert(g[f.len() as int] == p);
        } else {
            let k0 = choose|k0: int| 0 <= k0 < g.len() && g[k0] == ts[i].source_path@;
            assert(f[k0] == ts[i].source_path@);
            assert(f.contains(ts[i].source_path@));
            assert(finished_before(f, child_source(cwd, ts, i, j), ts[i].source_path@));
            let k = choose|k: int| 0 <= k < f.len() && #[trigger] f[k] == ts[i].source_path@ && f.take(k).contains(
                child_source(cwd, ts, i, j));
            assert(g.take(k) =~= f.take(k));
            assert(g[k] == f[k]);
        }
    }
}

/// The reader gives one result for each path.
pub open spec fn deterministic_reader<F: Fn(&str) -> Result<Vec<String>, String>>(read: F) -> bool {
    forall|p1: &str, p2: &str, r1: Result<Vec<String>, String>, r2: Result<Vec<String>, String>|
        #[trigger] call_ensures(read, (p1,), r1) && #[trigger] call_ensures(read, (p2,), r2) && p1@ == p2@ ==> r1
            == r2
}

/// With a reader that gives one result per path, what a collected source
/// declares leads to a collected source through one of its own paths.
proof fn lemma_declared_in_targets<F: Fn(&str) -> Result<Vec<String>, String>>(
    read: F,
    cwd: Seq<char>,
    ts: Seq<TemplateTarget>,
    a: Seq<char>,
    b: Seq<char>,
) -> (ij: (int, int))
    requires
        deterministic_reader(read),
        targets_wf(cwd, ts, read),
        forall|i: int| 0 <= i < ts.len() ==> #[trigger] target_closed(cwd, ts, i),
        target_sources(ts).contains(a),
        declares(read_reads(read), cwd, a, b),
    ensures
        0 <= ij.0 < ts.len(),
        ts[ij.0].source_path@ == a,
        0 <= ij.1 < ts[ij.0].include_paths@.len(),
        b == child_source(cwd, ts, ij.0, ij.1),
        target_sources(ts).contains(b),
{
    let reads = read_reads(read);
    let i = choose|i: int| 0 <= i < target_sources(ts).len() && target_sources(ts)[i] == a;
    let (incs, j) = choose|incs: Seq<Seq<char>>, j: int|
        #![trigger reads(a, incs), incs[j]]
        reads(a, incs) && 0 <= j < incs.len() && b == spec_absolutize(cwd, spec_resolve(a, incs[j]));
    let (p, v) = choose|p: &str, v: Vec<String>|
        p@ == a && call_ensures(read, (p,), Ok::<Vec<String>, String>(v)) && v.deep_view() == incs;
    assert(target_read(read, ts[i]));
    let (p2, v2) = choose|p2: &str, v2: Vec<String>|
        #![trigger call_ensures(read, (p2,), Ok::<Vec<String>, String>(v2))]
        p2@ == ts[i].source_path@ && call_ensures(read, (p2,), Ok::<Vec<String>, String>(v2))
            && v2.deep_view() == ts[i].include_paths.deep_view();
    assert(Ok::<Vec<String>, String>(v) == Ok::<Vec<String>, String>(v2));
    assert(incs[j] == ts[i].include_paths@[j]@);
    assert(target_closed(cwd, ts, i));
    (i, j)
}

/// Each source of a walk from the root is collected.
proof fn lemma_walk_in_targets<F: Fn(&str) -> Result<Vec<String>, String>>(
    read: F,
    cwd: Seq<char>,
    root: Seq<char>,
    ts: Seq<TemplateTarget>,
    w: Seq<Seq<char>>,
    m: int,
)
    requires
        deterministic_reader(read),
        targets_wf(cwd, ts, read),
        target_sources(ts).contains(root),
        forall|i: int| 0 <= i < ts.len() ==> #[trigger] target_closed(cwd, ts, i),
        simple_walk_from(read_reads(read), cwd, root, w),
        0 <= m < w.len(),
    ensures
        target_sources(ts).contains(w[m]),
    decreases m,
{
    if m > 0 {
        lemma_walk_in_targets(read, cwd, root, ts, w, m - 1);
        assert(walk_step(read_reads(read), cwd, w, m - 1));
        lemma_declared_in_targets(read, cwd, ts, w[m - 1], w[m]);
    }
}

/// With a reader that gives one result per path, a completed collection
/// shows that every reachable source reads cleanly and that no cycle is
/// reachable.
proof fn lemma_complete_targets_load<F: Fn(&str) -> Result<Vec<String>, String>>(
    read: F,
    cwd: Seq<char>,
    root: Seq<char>,
    ts: Seq<TemplateTarget>,
    f: Seq<Seq<char>>,
)
    requires
        deterministic_reader(read),
        targets_wf(cwd, ts, read),
        ts.len() >= 1,
        ts[0].source_path@ == root,
        forall|i: int| 0 <= i < ts.len() ==> #[trigger] target_closed(cwd, ts, i),
        f.no_duplicates(),
        forall|x: Seq<char>| #[trigger] f.contains(x) <==> target_sources(ts).contains(x),
        targets_finish_first(cwd, f, ts),
    ensures
        targets_load(read, cwd, root),
{
    let reads = read_reads(read);
    assert(target_sources(ts)[0] == root);
    assert forall|q: Seq<char>| #[trigger] reachable(reads, cwd, root, q) implies reads_cleanly(read, q) by {
        let w = choose|w: Seq<Seq<char>>| #[trigger] simple_walk_from(reads, cwd, root, w) && w.last() == q;
        lemma_walk_in_targets(read, cwd, root, ts, w, w.len() - 1);
        let i = choose|i: int| 0 <= i < target_sources(ts).len() && target_sources(ts)[i] == q;
        assert(target_read(read, ts[i]));
        let (p2, v2) = choose|p2: &str, v2: Vec<String>|
            #![trigger call_ensures(read, (p2,), Ok::<Vec<String>, String>(v2))]
            p2@ == ts[i].source_path@ && call_ensures(read, (p2,), Ok::<Vec<String>, String>(v2))
                && v2.deep_view() == ts[i].include_paths.deep_view();
        assert forall|p: &str, res: Result<Vec<String>, String>|
            #[trigger] call_ensures(read, (p,), res) && p@ == q implies res is Ok && no_empty_path(
                res->Ok_0.deep_view()) by {
            assert(call_ensures(read, (p2,), Ok::<Vec<String>, String>(v2)));
            assert(res == Ok::<Vec<String>, String>(v2));
            assert forall|k: int| 0 <= k < v2.deep_view().len() implies (#[trigger] v2.deep_view()[k]).len() > 0 by {
                assert(v2.deep_view()[k] == ts[i].include_paths@[k]@);
            }
        }
    }
    if has_include_cycle(reads, cwd, root) {
        let (stack, pos) = choose|stack: Seq<Seq<char>>, pos: int| #[trigger] closes_cycle(reads, cwd, root, stack, pos);
        let last = stack.len() - 1;
        assert forall|m: int| 0 <= m < stack.len() implies target_sources(ts).contains(#[trigger] stack[m]) by {
            lemma_walk_in_targets(read, cwd, root, ts, stack, m);
        }
        assert forall|a: Seq<char>, b: Seq<char>|
            target_sources(ts).contains(a) && #[trigger] declares(reads, cwd, a, b) implies finish_index(f, b)
                < finish_index(f, a) by {
            let (i, j) = lemma_declared_in_targets(read, cwd, ts, a, b);
            assert(target_sources(ts)[i] == a);
            assert(f.contains(a));
            assert(finished_before(f, child_source(cwd, ts, i, j), ts[i].source_path@));
            let k = choose|k: int| 0 <= k < f.len() && #[trigger] f[k] == a && f.take(k).contains(b);
            let kb = choose|kb: int| 0 <= kb < f.take(k).len() && f.take(k)[kb] == b;
            assert(f[kb] == b);
            assert(f.contains(b));
            let ia = finish_index(f, a);
            let ib = finish_index(f, b);
            assert(f[ia] == a && f[ib] == b);
            assert(ia == k);
            assert(ib == kb);
        }
        assert forall|m: int| pos <= m < stack.len() implies finish_index(f, #[trigger] stack[m]) <= finish_index(
            f, stack[pos]) by {
            lemma_ranks_fall(reads, cwd, target_sources(ts), f, stack, pos, m);
        }
        assert(declares(reads, cwd, stack[last], stack[pos]));
        assert(finish_index(f, stack[pos]) < finish_index(f, stack[last]));
    }
}

/// Every target came from the reader and declares only non-empty paths.
pub open spec fn targets_clean<F: Fn(&str) -> Result<Vec<String>, String>>(read: F, ts: Seq<TemplateTarget>) -> bool {
    &&& forall|i: int| 0 <= i < ts.len() ==> target_read(read, #[trigger] ts[i])
    &&& forall|i: int, j: int|
        0 <= i < ts.len() && 0 <= j < ts[i].include_paths@.len() ==> (#[trigger] ts[i].include_paths@[j])@.len() > 0
}

/// How a collection fails at `source` with the sources of `stack` open:
/// with the cycle from the place of `source` on the stack when it is there;
/// otherwise with the reader's failure for `source`, or with the first empty
/// path of the list the reader returned for it.
pub open spec fn read_fails_at<F: Fn(&str) -> Result<Vec<String>, String>>(
    e: ConfigTreeError,
    read: F,
    stack: Seq<Seq<char>>,
    source: Seq<char>,
) -> bool {
    match e {
        ConfigTreeError::IncludeCycle { chain } => exists|pos: int|
            0 <= pos < stack.len() && #[trigger] stack[pos] == source && chain.deep_view() == stack.skip(pos).push(
                source,
            ),
        ConfigTreeError::Load { path: lp, source: msg } => !stack.contains(source) && lp@ == source && exists|p: &str|
            #![trigger call_ensures(read, (p,), Err::<Vec<String>, String>(msg))]
            p@ == source && call_ensures(read, (p,), Err::<Vec<String>, String>(msg)),
        ConfigTreeError::EmptyIncludePath { path: ep, index } => !stack.contains(source) && ep@ == source && exists|
            p: &str,
            v: Vec<String>,
        |
            #![trigger call_ensures(read, (p,), Ok::<Vec<String>, String>(v))]
            p@ == source && call_ensures(read, (p,), Ok::<Vec<String>, String>(v)) && first_empty(
                v.deep_view(),
                index as int,
            ),
        ConfigTreeError::CurrentDir { .. } => false,
    }
}

/// `ts[start..]` is what a depth-first collection of `source` (mapped to
/// `target`) adds, with `ts[0..start)` collected and the sources of `stack`
/// open, before it fails with `e`: nothing when `source` is on the stack (a
/// cycle) or when reading `source` fails; otherwise the target of `source`,
/// what collecting each of its first `k` declared paths adds in full, and
/// what collecting the next one adds before failing.
pub open spec fn target_dfs_fail<F: Fn(&str) -> Result<Vec<String>, String>>(
    cwd: Seq<char>,
    read: F,
    ts: Seq<TemplateTarget>,
    start: int,
    stack: Seq<Seq<char>>,
    source: Seq<char>,
    target: Seq<char>,
    e: ConfigTreeError,
) -> bool
    decreases ts.len() - start,
{
    if !(0 <= start <= ts.len()) {
        false
    } else if stack.contains(source) {
        ts.len() == start && e is IncludeCycle && read_fails_at(e, read, stack, source)
    } else if target_sources(ts.take(start)).contains(source) {
        false
    } else if ts.len() == start {
        !(e is IncludeCycle) && read_fails_at(e, read, stack, source)
    } else {
        &&& ts[start].source_path@ == source
        &&& ts[start].target_path@ == target
        &&& exists|k: int, mid: int|
            #![trigger target_boundary(mid), ts[start].include_paths@[k]]
            0 <= k < ts[start].include_paths@.len() && start + 1 <= mid <= ts.len() && target_children(
                cwd,
                ts,
                start,
                start + 1,
                mid,
                k,
            ) && target_dfs_fail(
                cwd,
                read,
                ts,
                mid,
                stack.push(source),
                spec_absolutize(cwd, spec_resolve(ts[start].source_path@, ts[start].include_paths@[k]@)),
                spec_join_sibling(ts[start].target_path@, ts[start].include_paths@[k]@),
                e,
            )
    }
}

/// A failed collection from `source` fails as a depth-first collection
/// does: some list of cleanly read targets is what it adds before failing
/// with `e`.
pub open spec fn targets_fail<F: Fn(&str) -> Result<Vec<String>, String>>(
    e: ConfigTreeError,
    read: F,
    cwd: Seq<char>,
    source: Seq<char>,
    output: Seq<char>,
) -> bool {
    exists|ts: Seq<TemplateTarget>|
        #[trigger] targets_clean(read, ts) && target_dfs_fail(
            cwd,
            read,
            ts,
            0,
            Seq::empty(),
            spec_absolutize(cwd, source),
            output,
            e,
        )
}

/// Links the traversal state to the targets collected so far.
spec fn collect_inv<F: Fn(&str) -> Result<Vec<String>, String>>(
    cwd: Seq<char>,
    state: TraversalState,
    ts: Seq<TemplateTarget>,
    read: F,
) -> bool {
    &&& targets_wf(cwd, ts, read)
    &&& state.loaded.deep_view() == target_sources(ts)
    &&& state.visiting.deep_view().no_duplicates()
    &&& forall|k: int|
        0 <= k < state.visiting@.len() ==> target_sources(ts).contains(
            #[trigger] state.visiting.deep_view()[k],
        )
    &&& forall|i: int|
        0 <= i < ts.len() && !state.visiting.deep_view().contains(#[trigger] ts[i].source_path@)
            ==> target_closed(cwd, ts, i)
    &&& target_finish_inv(cwd, state.finished@, state.visiting.deep_view(), ts)
}

proof fn lemma_sources_push(ts: Seq<TemplateTarget>, t: TemplateTarget)
    ensures
        target_sources(ts.push(t)) == target_sources(ts).push(t.source_path@),
{
    assert(target_sources(ts.push(t)) =~= target_sources(ts).push(t.source_path@));
}

proof fn lemma_prefix_sources(a: Seq<TemplateTarget>, b: Seq<TemplateTarget>)
    requires
        a.len() <= b.len(),
        b.subrange(0, a.len() as int) == a,
    ensures
        forall|x: Seq<char>| target_sources(a).contains(x) ==> #[trigger] target_sources(b).contains(x),
        target_sources(b).subrange(0, a.len() as int) == target_sources(a),
{
    assert(target_sources(b).subrange(0, a.len() as int) =~= target_sources(a));
    assert forall|x: Seq<char>| target_sources(a).contains(x) implies #[trigger] target_sources(b).contains(x) by {
        let k = choose|k: int| 0 <= k < target_sources(a).len() && target_sources(a)[k] == x;
        assert(target_sources(b)[k] == x);
    }
}

proof fn lemma_earlier_push(cwd: Seq<char>, ts: Seq<TemplateTarget>, t: TemplateTarget, k: int)
    requires
        forall|i: int| 1 <= i < ts.len() ==> has_earlier_target::<()>(cwd, ts, i),
        ts.len() > 0 ==> 0 <= k < ts.len() && target_child_of(cwd, ts[k], t.source_path@, t.target_path@),
    ensures
        forall|i: int| 1 <= i < ts.push(t).len() ==> has_earlier_target::<()>(cwd, ts.push(t), i),
{
    let m = ts.push(t);
    assert forall|i: int| 1 <= i < m.len() implies has_earlier_target::<()>(cwd, m, i) by {
        if i < ts.len() {
            assert(has_earlier_target::<()>(cwd, ts, i));
            let k2 = choose|k2: int|
                0 <= k2 < i && #[trigger] target_child_of(cwd, ts[k2], ts[i].source_path@, ts[i].target_path@);
            assert(m[k2] == ts[k2] && m[i] == ts[i]);
            assert(target_child_of(cwd, m[k2], m[i].source_path@, m[i].target_path@));
        } else {
            assert(m[k] == ts[k] && m[i] == t);
            assert(target_child_of(cwd, m[k], m[i].source_path@, m[i].target_path@));
        }
    }
}

/// Names a boundary between two segments of the target list.
pub open spec fn target_boundary(m: int) -> bool {
    true
}

/// `ts[start..end)` is what collecting `source` (mapped to `target`) adds
/// once `ts[0..start)` are collected: nothing when `source` is among their
/// sources, and otherwise its target followed by what collecting each of its
/// declared paths adds, in declaration order (depth first).
pub open spec fn target_segment(
    cwd: Seq<char>,
    ts: Seq<TemplateTarget>,
    start: int,
    end: int,
    source: Seq<char>,
    target: Seq<char>,
) -> bool
    decreases end - start, 0int, 0int,
{
    if !(0 <= start <= end <= ts.len()) {
        false
    } else if target_sources(ts.take(start)).contains(source) {
        start == end
    } else {
        &&& start < end
        &&& ts[start].source_path@ == source
        &&& ts[start].target_path@ == target
        &&& target_children(cwd, ts, start, start + 1, end, ts[start].include_paths@.len() as int)
    }
}

/// `ts[lo..hi)` is what collecting the first `k` declared paths of target
/// `parent` adds, one after the other.
pub open spec fn target_children(cwd: Seq<char>, ts: Seq<TemplateTarget>, parent: int, lo: int, hi: int, k: int) -> bool
    decreases hi - lo, 1int, k,
{
    if k <= 0 {
        lo == hi
    } else if !(0 <= parent < ts.len()) || k > ts[parent].include_paths@.len() || !(lo <= hi <= ts.len()) {
        false
    } else {
        exists|mid: int|
            #[trigger] target_boundary(mid) && lo <= mid <= hi && target_children(cwd, ts, parent, lo, mid, k - 1)
                && target_segment(
                cwd,
                ts,
                mid,
                hi,
                spec_absolutize(cwd, spec_resolve(ts[parent].source_path@, ts[parent].include_paths@[k - 1]@)),
                spec_join_sibling(ts[parent].target_path@, ts[parent].include_paths@[k - 1]@),
            )
    }
}

/// A segment stays one when targets are added after it.
proof fn lemma_target_segment_extend(
    cwd: Seq<char>,
    a: Seq<TemplateTarget>,
    b: Seq<TemplateTarget>,
    start: int,
    end: int,
    source: Seq<char>,
    target: Seq<char>,
)
    requires
        target_segment(cwd, a, start, end, source, target),
        end <= b.len(),
        b.take(end) == a.take(end),
    ensures
        target_segment(cwd, b, start, end, source, target),
    decreases end - start, 0int, 0int,
{
    assert(b.take(start) =~= a.take(start)) by {
        assert(b.take(start) =~= b.take(end).take(start));
        assert(a.take(start) =~= a.take(end).take(start));
    }
    if !target_sources(a.take(start)).contains(source) {
        assert(b[start] == b.take(end)[start]);
        assert(a[start] == a.take(end)[start]);
        lemma_target_children_extend(cwd, a, b, start, start + 1, end, a[start].include_paths@.len() as int);
    }
}

/// Child segments stay so when targets are added after them.
proof fn lemma_target_children_extend(
    cwd: Seq<char>,
    a: Seq<TemplateTarget>,
    b: Seq<TemplateTarget>,
    parent: int,
    lo: int,
    hi: int,
    k: int,
)
    requires
        target_children(cwd, a, parent, lo, hi, k),
        0 <= parent < lo,
        hi <= b.len(),
        b.take(hi) == a.take(hi),
    ensures
        target_children(cwd, b, parent, lo, hi, k),
    decreases hi - lo, 1int, k,
{
    if k > 0 {
        assert(b[parent] == b.take(hi)[parent]);
        assert(a[parent] == a.take(hi)[parent]);
        let mid = choose|mid: int|
            #[trigger] target_boundary(mid) && lo <= mid <= hi && target_children(cwd, a, parent, lo, mid, k - 1)
                && target_segment(
                cwd,
                a,
                mid,
                hi,
                spec_absolutize(cwd, spec_resolve(a[parent].source_path@, a[parent].include_paths@[k - 1]@)),
                spec_join_sibling(a[parent].target_path@, a[parent].include_paths@[k - 1]@),
            );
        assert(b.take(mid) =~= a.take(mid)) by {
            assert(b.take(mid) =~= b.take(hi).take(mid));
            assert(a.take(mid) =~= a.take(hi).take(mid));
        }
        lemma_target_children_extend(cwd, a, b, parent, lo, mid, k - 1);
        lemma_target_segment_extend(
            cwd,
            a,
            b,
            mid,
            hi,
            spec_absolutize(cwd, spec_resolve(a[parent].source_path@, a[parent].include_paths@[k - 1]@)),
            spec_join_sibling(a[parent].target_path@, a[parent].include_paths@[k - 1]@),
        );
        assert(target_boundary(mid));
    }
}

/// Recursively collects one source path, mapped to `target_path`, and the
/// paths it declares.
fn collect_template_target<F>(
    cwd: &str,
    source_path: &str,
    target_path: &str,
    read: &F,
    state: &mut TraversalState,
    targets: &mut Vec<TemplateTarget>,
    Ghost(root): Ghost<Seq<char>>,
) -> (r: Result<(), ConfigTreeError>) where F: Fn(&str) -> Result<Vec<String>, String>
    requires
        forall|p: &str| call_requires(*read, (p,)),
        collect_inv(cwd@, *old(state), old(targets)@, *read),
        old(state).visiting@.len() == 0 ==> spec_absolutize(cwd@, source_path@) == root,
        old(state).visiting@.len() > 0 ==> simple_walk_from(read_reads(*read), cwd@, root, old(state).visiting.deep_view())
            && declares(
            read_reads(*read),
            cwd@,
            old(state).visiting.deep_view().last(),
            spec_absolutize(cwd@, source_path@),
        ),
        old(state).visiting@.len() == 0 ==> old(targets)@.len() == 0,
        old(state).visiting@.len() > 0 ==> exists|k: int|
            0 <= k < old(targets)@.len() && old(targets)@[k].source_path@
                == old(state).visiting.deep_view().last() && #[trigger] target_child_of(
                cwd@,
                old(targets)@[k],
                spec_absolutize(cwd@, source_path@),
                target_path@,
            ),
    ensures
        r is Ok ==> {
            &&& collect_inv(cwd@, *final(state), final(targets)@, *read)
            &&& final(state).visiting.deep_view() == old(state).visiting.deep_view()
            &&& !old(state).visiting.deep_view().contains(spec_absolutize(cwd@, source_path@))
            &&& final(targets)@.len() >= old(targets)@.len()
            &&& final(targets)@.subrange(0, old(targets)@.len() as int) == old(targets)@
            &&& target_sources(final(targets)@).contains(spec_absolutize(cwd@, source_path@))
            &&& old(targets)@.len() == 0 ==> final(targets)@.len() > 0
                && final(targets)@[0].source_path@ == spec_absolutize(cwd@, source_path@)
                && final(targets)@[0].target_path@ == target_path@
            &&& target_segment(
                cwd@,
                final(targets)@,
                old(targets)@.len() as int,
                final(targets)@.len() as int,
                spec_absolutize(cwd@, source_path@),
                target_path@,
            )
        },
        r matches Err(e) ==> targets_error_sound(e, *read, cwd@, root),
        r matches Err(e) ==> {
            &&& final(targets)@.len() >= old(targets)@.len()
            &&& final(targets)@.subrange(0, old(targets)@.len() as int) == old(targets)@
            &&& targets_clean(*read, final(targets)@)
            &&& target_dfs_fail(
                cwd@,
                *read,
                final(targets)@,
                old(targets)@.len() as int,
                old(state).visiting.deep_view(),
                spec_absolutize(cwd@, source_path@),
                target_path@,
                e,
            )
        },
        old(state).visiting@.len() == 0 && read_fails(*read, root) ==> (r matches Err(e) && e is Load
            && e->Load_path@ == root),
    decreases usize::MAX - old(targets)@.len(),
{
    let ghost old_ts = targets@;
    let ghost old_visiting = state.visiting.deep_view();
    let abs_path = absolutize_lexical_from(cwd, source_path);
    match state.enter(&abs_path) {
        Err(e) => {
            proof {
                let pos = choose|pos: int|
                    0 <= pos < old(state).visiting@.len() && old(state).visiting@[pos]@ == abs_path@
                        && (e matches ConfigTreeError::IncludeCycle { chain }
                        && chain.deep_view() == old(state).visiting.deep_view().skip(pos).push(abs_path@));
                assert(old_visiting[pos] == abs_path@);
                assert(closes_cycle(read_reads(*read), cwd@, root, old_visiting, pos));
                lemma_cycle_found(read_reads(*read), cwd@, root, old_visiting, pos);
                assert(old_visiting.contains(abs_path@));
                assert(read_fails_at(e, *read, old_visiting, abs_path@));
                assert(targets@.subrange(0, old_ts.len() as int) =~= old_ts);
            }
            return Err(e);
        },
        Ok(false) => {
            proof {
                if old_visiting.len() == 0 {
                    assert(target_sources(old_ts) =~= Seq::<Seq<char>>::empty());
                }
                assert(targets@.subrange(0, old_ts.len() as int) =~= old_ts);
                lemma_prefix_sources(old_ts, targets@);
                assert(targets@.take(targets@.len() as int) =~= targets@);
            }
            return Ok(());
        },
        Ok(true) => {},
    }
    let ghost reads = read_reads(*read);
    let ghost walk = old_visiting.push(abs_path@);
    proof {
        if old_visiting.len() == 0 {
            lemma_walk_root(reads, cwd@, root);
            assert(walk =~= seq![root]);
        } else {
            lemma_walk_push(reads, cwd@, root, old_visiting, abs_path@);
        }
        assert(simple_walk_from(reads, cwd@, root, walk));
        assert(reachable(reads, cwd@, root, abs_path@));
    }
    let p = abs_path.as_str();
    let read_result = read(p);
    let ghost gr = read_result;
    let includes = match read_result {
        Ok(v) => v,
        Err(msg) => {
            let e = ConfigTreeError::load(p, msg);
            proof {
                assert(call_ensures(*read, (p,), Err::<Vec<String>, String>(msg)));
                assert(targets@.take(old_ts.len() as int) =~= old_ts);
                assert(targets@.subrange(0, old_ts.len() as int) =~= old_ts);
                assert(!target_sources(old_ts).contains(abs_path@));
                assert(read_fails_at(e, *read, old_visiting, abs_path@));
            }
            return Err(e);
        },
    };
    proof {
        assert(call_ensures(*read, (p,), Ok::<Vec<String>, String>(includes)));
        assert(reads(abs_path@, includes.deep_view()));
        if old_visiting.len() == 0 && read_fails(*read, root) {
            assert(call_ensures(*read, (p,), gr));
        }
        assert(includes.deep_view().len() == includes@.len());
        assert(forall|i: int| 0 <= i < includes@.len() ==> #[trigger] includes.deep_view()[i] == includes@[i]@);
    }
    match validate_include_paths(abs_path.as_str(), &includes) {
        Err(e) => {
            proof {
                let index = e->EmptyIncludePath_index;
                assert(includes@[index as int]@.len() == 0);
                assert(first_empty(includes.deep_view(), index as int));
                assert(targets@.take(old_ts.len() as int) =~= old_ts);
                assert(targets@.subrange(0, old_ts.len() as int) =~= old_ts);
                assert(!target_sources(old_ts).contains(abs_path@));
                assert(read_fails_at(e, *read, old_visiting, abs_path@));
            }
            return Err(e);
        },
        Ok(()) => {},
    }
    let me = targets.len();
    let target = TemplateTarget {
        source_path: abs_path.clone(),
        target_path: target_path.to_owned(),
        include_paths: clone_strings(&includes),
    };
    let ghost gt = target;
    targets.push(target);
    proof {
        lemma_sources_push(old_ts, gt);
        assert(targets@ == old_ts.push(gt));
        assert(target_read(*read, gt));
        assert forall|i: int| 0 <= i < targets@.len() implies target_read(*read, #[trigger] targets@[i]) by {
            if i < me as int {
                assert(targets@[i] == old_ts[i]);
            }
        }
        assert forall|i: int, j: int|
            0 <= i < targets@.len() && 0 <= j < targets@[i].include_paths@.len() implies (#[trigger] targets@[i].include_paths@[j])@.len() > 0 by {
            if i < me as int {
                assert(targets@[i] == old_ts[i]);
            } else {
                assert(targets@[i] == gt);
                assert(gt.include_paths.deep_view().len() == gt.include_paths@.len());
                assert(includes.deep_view().len() == includes@.len());
                assert(gt.include_paths.deep_view()[j] == includes.deep_view()[j]);
                assert(includes@[j]@.len() > 0);
            }
        }
        if old_ts.len() > 0 {
            assert(old_visiting.len() > 0);
            let k = choose|k: int|
                0 <= k < old(targets)@.len() && old(targets)@[k].source_path@ == old(state).visiting.deep_view().last()
                    && #[trigger] target_child_of(cwd@, old(targets)@[k], spec_absolutize(cwd@, source_path@), target_path@);
            lemma_earlier_push(cwd@, old_ts, gt, k);
        } else {
            lemma_earlier_push(cwd@, old_ts, gt, 0);
        }
        assert forall|i: int|
            0 <= i < targets@.len() && !state.visiting.deep_view().contains(#[trigger] targets@[i].source_path@)
            implies target_closed(cwd@, targets@, i) by {
            if i < me as int {
                assert(targets@[i] == old_ts[i]);
                if old_visiting.contains(targets@[i].source_path@) {
                    let k = choose|k: int| 0 <= k < old_visiting.len() && old_visiting[k] == targets@[i].source_path@;
                    assert(state.visiting.deep_view()[k] == targets@[i].source_path@);
                }
                assert(target_closed(cwd@, old_ts, i));
                assert forall|j: int| 0 <= j < targets@[i].include_paths@.len() implies target_sources(targets@).contains(
                    spec_absolutize(cwd@, spec_resolve(targets@[i].source_path@, #[trigger] targets@[i].include_paths@[j]@))) by {
                    let x = spec_absolutize(cwd@, spec_resolve(old_ts[i].source_path@, old_ts[i].include_paths@[j]@));
                    assert(target_sources(old_ts).contains(x));
                    let k = choose|k: int| 0 <= k < target_sources(old_ts).len() && target_sources(old_ts)[k] == x;
                    assert(target_sources(targets@)[k] == x);
                }
            } else {
                assert(state.visiting.deep_view()[state.visiting.deep_view().len() - 1] == abs_path@);
            }
        }
        assert forall|k: int| 0 <= k < state.visiting@.len() implies target_sources(targets@).contains(
            #[trigger] state.visiting.deep_view()[k]) by {
            if k < old_visiting.len() {
                assert(state.visiting.deep_view()[k] == old_visiting[k]);
                let x = old_visiting[k];
                assert(target_sources(old_ts).contains(x));
                let m = choose|m: int| 0 <= m < target_sources(old_ts).len() && target_sources(old_ts)[m] == x;
                assert(target_sources(targets@)[m] == x);
            } else {
                assert(target_sources(targets@)[me as int] == abs_path@);
            }
        }
        assert(target_sources(targets@) =~= target_sources(old_ts).push(abs_path@));
        assert(target_sources(targets@).no_duplicates());
        assert(targets_wf(cwd@, targets@, *read));
        lemma_target_finish_enter(cwd@, state.finished@, old_visiting, old_ts, gt);
        assert(collect_inv(cwd@, *state, targets@, *read));
    }
    let n = includes.len();
    let mut t: usize = 0;
    while t < n
        invariant
            n == includes@.len(),
            t <= n,
            forall|p: &str| call_requires(*read, (p,)),
            collect_inv(cwd@, *state, targets@, *read),
            state.visiting.deep_view() == old_visiting.push(abs_path@),
            me == old_ts.len(),
            old_ts == old(targets)@,
            targets@.len() > me,
            targets@.subrange(0, me as int) == old_ts,
            targets@[me as int] == gt,
            gt.source_path@ == abs_path@,
            gt.target_path@ == target_path@,
            gt.include_paths.deep_view() == includes.deep_view(),
            !target_sources(old_ts).contains(abs_path@),
            abs_path@ == spec_absolutize(cwd@, source_path@),
            reads == read_reads(*read),
            old_visiting == old(state).visiting.deep_view(),
            !old_visiting.contains(abs_path@),
            walk == old_visiting.push(abs_path@),
            simple_walk_from(reads, cwd@, root, walk),
            reads(abs_path@, includes.deep_view()),
            target_children(cwd@, targets@, me as int, me + 1, targets@.len() as int, t as int),
            forall|u: int|
                0 <= u < t ==> target_sources(targets@).contains(
                    spec_absolutize(cwd@, spec_resolve(abs_path@, #[trigger] includes@[u]@)),
                ) && !state.visiting.deep_view().contains(spec_absolutize(cwd@, spec_resolve(abs_path@, includes@[u]@))),
        decreases n - t,
    {
        let child_source = resolve_include_path(abs_path.as_str(), includes[t].as_str());
        let child_target = join_sibling(target_path, includes[t].as_str());
        let ghost before = targets@;
        let cur_len = targets.len();
        proof {
            assert(state.visiting.deep_view().len() == state.visiting@.len());
            assert(cur_len as int == targets@.len());
            assert(usize::MAX - targets@.len() < usize::MAX - old(targets)@.len());
            assert(gt.include_paths.deep_view().len() == gt.include_paths@.len());
            assert(includes.deep_view().len() == includes@.len());
            assert(gt.include_paths@[t as int]@ == includes@[t as int]@) by {
                assert(gt.include_paths.deep_view()[t as int] == includes.deep_view()[t as int]);
            }
            assert(target_child_of(cwd@, targets@[me as int], spec_absolutize(cwd@, child_source@), child_target@));
            assert(includes.deep_view()[t as int] == includes@[t as int]@);
            assert(declares(reads, cwd@, abs_path@, spec_absolutize(cwd@, child_source@)));
            assert(state.visiting.deep_view().last() == abs_path@);
        }
        match collect_template_target(cwd, child_source.as_str(), child_target.as_str(), read, state, targets, Ghost(root)) {
            Err(e) => {
                proof {
                    let ns = targets@;
                    let mid = before.len() as int;
                    assert(ns.take(mid) =~= before.take(mid));
                    lemma_target_children_extend(cwd@, before, ns, me as int, me + 1, mid, t as int);
                    assert(ns[me as int] == before[me as int]);
                    assert(ns.take(me as int) =~= old_ts);
                    assert(ns.subrange(0, old_ts.len() as int) =~= old_ts);
                    assert(target_boundary(mid));
                    assert(ns[me as int].include_paths@.len() == n);
                    assert(ns[me as int].include_paths@[t as int]@ == includes@[t as int]@);
                    assert(target_dfs_fail(cwd@, *read, ns, mid, old_visiting.push(abs_path@),
                        spec_absolutize(cwd@, spec_resolve(ns[me as int].source_path@, ns[me as int].include_paths@[t as int]@)),
                        spec_join_sibling(ns[me as int].target_path@, ns[me as int].include_paths@[t as int]@), e));
                    assert(target_dfs_fail(cwd@, *read, ns, me as int, old_visiting, abs_path@, target_path@, e));
                }
                return Err(e);
            },
            Ok(()) => {},
        }
        proof {
            lemma_prefix_sources(before, targets@);
            assert(targets@.subrange(0, me as int) =~= before.subrange(0, me as int));
            assert(targets@[me as int] == before[me as int]);
            assert(targets@.take(before.len() as int) =~= before.take(before.len() as int));
            lemma_target_children_extend(cwd@, before, targets@, me as int, me + 1, before.len() as int, t as int);
            assert(target_boundary(before.len() as int));
            assert(target_children(cwd@, targets@, me as int, me + 1, targets@.len() as int, t + 1));
        }
        t = t + 1;
    }
    proof {
        assert(target_closed(cwd@, targets@, me as int)) by {
            assert forall|j: int| 0 <= j < targets@[me as int].include_paths@.len() implies target_sources(targets@).contains(
                spec_absolutize(cwd@, spec_resolve(targets@[me as int].source_path@, #[trigger] targets@[me as int].include_paths@[j]@))) by {
                assert(gt.include_paths.deep_view().len() == gt.include_paths@.len());
                assert(includes.deep_view().len() == includes@.len());
                assert(gt.include_paths@[j]@ == includes@[j]@) by {
                    assert(gt.include_paths.deep_view()[j] == includes.deep_view()[j]);
                }
            }
        }
    }
    let ghost f_before = state.finished@;
    proof {
        assert forall|j: int| 0 <= j < targets@[me as int].include_paths@.len() implies f_before.contains(
            #[trigger] child_source(cwd@, targets@, me as int, j)) by {
            assert(targets@[me as int] == gt);
            assert(gt.include_paths.deep_view().len() == gt.include_paths@.len());
            assert(includes.deep_view().len() == includes@.len());
            assert(gt.include_paths@[j]@ == includes@[j]@) by {
                assert(gt.include_paths.deep_view()[j] == includes.deep_view()[j]);
            }
            assert(0 <= j < t);
            let c = child_source(cwd@, targets@, me as int, j);
            assert(target_sources(targets@).contains(c) && !state.visiting.deep_view().contains(c));
        }
        assert(targets@[me as int].source_path@ == abs_path@);
        assert(target_sources(targets@).no_duplicates());
    }
    state.leave();
    proof {
        lemma_target_finish_leave(cwd@, f_before, old_visiting, targets@, me as int);
        assert(state.visiting.deep_view() =~= old_visiting);
        assert forall|i: int|
            0 <= i < targets@.len() && !state.visiting.deep_view().contains(#[trigger] targets@[i].source_path@)
            implies target_closed(cwd@, targets@, i) by {
            if i != me as int {
                if old_visiting.push(abs_path@).contains(targets@[i].source_path@) {
                    let k = choose|k: int| 0 <= k < old_visiting.push(abs_path@).len() && old_visiting.push(abs_path@)[k] == targets@[i].source_path@;
                    if k < old_visiting.len() {
                        assert(old_visiting[k] == targets@[i].source_path@);
                    } else {
                        assert(target_sources(targets@)[i] == target_sources(targets@)[me as int]);
                    }
                }
            }
        }
        assert forall|k: int| 0 <= k < state.visiting@.len() implies target_sources(targets@).contains(
            #[trigger] state.visiting.deep_view()[k]) by {
            assert(old_visiting.push(abs_path@)[k] == old_visiting[k]);
        }
        assert(target_sources(targets@)[me as int] == abs_path@);
        lemma_prefix_sources(old_ts, targets@);
        assert(targets@.take(me as int) =~= old_ts);
        assert(gt.include_paths.deep_view().len() == gt.include_paths@.len());
        assert(includes.deep_view().len() == includes@.len());
        assert(targets@[me as int].include_paths@.len() == n);
        assert(target_segment(cwd@, targets@, me as int, targets@.len() as int, abs_path@, target_path@));
    }
    Ok(())
}

/// Collects template targets from `source_path`, mapped to `output_path`,
/// making relative paths absolute against `current_dir`.
///
/// The reader returns the paths declared by a source file. Each relative
/// declared path is resolved from the declaring source and mirrored under the
/// declaring target's directory; absolute declared paths are used as written
/// for the target. A failure is the first one the depth-first collection
/// meets.
pub fn collect_template_targets_from<F>(
    current_dir: &str,
    source_path: &str,
    output_path: &str,
    read_includes: F,
) -> (r: Result<Vec<TemplateTarget>, ConfigTreeError>) where
    F: Fn(&str) -> Result<Vec<String>, String>
    requires
        forall|p: &str| call_requires(read_includes, (p,)),
    ensures
        r matches Ok(ts) ==> targets_collected(current_dir@, source_path@, output_path@, ts@, read_includes)
            && target_segment(
            current_dir@,
            ts@,
            0,
            ts@.len() as int,
            spec_absolutize(current_dir@, source_path@),
            output_path@,
        ),
        r matches Err(e) ==> targets_error_sound(e, read_includes, current_dir@, spec_absolutize(current_dir@, source_path@))
            && targets_fail(e, read_includes, current_dir@, source_path@, output_path@),
        targets_load(read_includes, current_dir@, spec_absolutize(current_dir@, source_path@)) ==> r is Ok,
        deterministic_reader(read_includes) ==> (r is Ok <==> targets_load(
            read_includes,
            current_dir@,
            spec_absolutize(current_dir@, source_path@),
        )),
        read_fails(read_includes, spec_absolutize(current_dir@, source_path@)) ==> (r matches Err(e) && e is Load
            && e->Load_path@ == spec_absolutize(current_dir@, source_path@)),
{
    let ghost root = spec_absolutize(current_dir@, source_path@);
    let ghost empty_stack = Seq::<Seq<char>>::empty();
    let mut state = TraversalState::new();
    let mut targets: Vec<TemplateTarget> = Vec::new();
    proof {
        assert(target_sources(targets@) =~= Seq::<Seq<char>>::empty());
        assert(state.loaded.deep_view() =~= target_sources(targets@));
        assert(state.visiting.deep_view() =~= Seq::<Seq<char>>::empty());
        assert(state.visiting.deep_view() == empty_stack);
    }
    match collect_template_target(current_dir, source_path, output_path, &read_includes, &mut state, &mut targets, Ghost(root)) {
        Err(e) => {
            proof {
                lemma_error_refutes_targets(e, read_includes, current_dir@, root);
                assert(targets_clean(read_includes, targets@));
            }
            Err(e)
        },
        Ok(()) => {
            proof {
                assert(state.visiting.deep_view().len() == 0);
                assert forall|i: int| 0 <= i < targets@.len() implies #[trigger] target_closed(current_dir@, targets@, i) by {
                    assert(!state.visiting.deep_view().contains(targets@[i].source_path@));
                }
                if deterministic_reader(read_includes) {
                    let f = state.finished@;
                    assert forall|x: Seq<char>| #[trigger] f.contains(x) <==> target_sources(targets@).contains(x) by {
                        assert(!state.visiting.deep_view().contains(x));
                    }
                    lemma_complete_targets_load(read_includes, current_dir@, root, targets@, f);
                }
            }
            Ok(targets)
        },
    }
}

/// Collects template targets by following declared paths from the selected
/// template source.
///
/// The source is `config_path` when it exists and `output_path` otherwise;
/// the first target maps that source to `output_path`. Relative paths are
/// made absolute against the process's current directory.
pub fn collect_template_targets<F>(
    config_path: &str,
    output_path: &str,
    read_includes: F,
) -> (r: Result<Vec<TemplateTarget>, ConfigTreeError>) where
    F: Fn(&str) -> Result<Vec<String>, String>
    requires
        forall|p: &str| call_requires(read_includes, (p,)),
    ensures
        r matches Ok(ts) ==> exists|cwd: Seq<char>, source: Seq<char>|
            is_abs(cwd) && (source == config_path@ || source == output_path@)
                && targets_collected(cwd, source, output_path@, ts@, read_includes)
                && target_segment(cwd, ts@, 0, ts@.len() as int, spec_absolutize(cwd, source), output_path@),
        r matches Err(e) ==> (e is CurrentDir && (!is_abs(config_path@) || !is_abs(output_path@))) || exists|
            cwd: Seq<char>,
            source: Seq<char>,
        |
            is_abs(cwd) && (source == config_path@ || source == output_path@) && targets_error_sound(
                e,
                read_includes,
                cwd,
                spec_absolutize(cwd, source),
            ) && targets_fail(e, read_includes, cwd, source, output_path@),
        (forall|cwd: Seq<char>, source: Seq<char>|
            is_abs(cwd) && (source == config_path@ || source == output_path@) ==> #[trigger] targets_load(
                read_includes,
                cwd,
                spec_absolutize(cwd, source),
            )) ==> (r is Ok || (r->Err_0 is CurrentDir && (!is_abs(config_path@) || !is_abs(output_path@)))),
        deterministic_reader(read_includes) && r is Ok ==> exists|cwd: Seq<char>, source: Seq<char>|
            is_abs(cwd) && (source == config_path@ || source == output_path@) && targets_load(
                read_includes,
                cwd,
                spec_absolutize(cwd, source),
            ),
        (forall|cwd: Seq<char>, source: Seq<char>|
            is_abs(cwd) && (source == config_path@ || source == output_path@) ==> #[trigger] read_fails(
                read_includes,
                spec_absolutize(cwd, source),
            )) ==> (r matches Err(e) && ((e is CurrentDir && (!is_abs(config_path@) || !is_abs(output_path@))) || (
            e is Load && exists|cwd: Seq<char>, source: Seq<char>|
            is_abs(cwd) && (source == config_path@ || source == output_path@) && e->Load_path@ == spec_absolutize(
                cwd,
                source,
            )))),
{
    let source = select_template_source(config_path, output_path);
    let cwd = match current_dir() {
        Ok(c) => c,
        Err(e) => {
            if path_is_absolute(source.as_str()) {
                let root = String::from_str("/");
                proof {
                    reveal_strlit("/");
                }
                root
            } else {
                return Err(e);
            }
        },
    };
    let ghost g = cwd@;
    proof {
        reveal_strlit("/");
    }
    assert(is_abs(g));
    let r = collect_template_targets_from(cwd.as_str(), source.as_str(), output_path, read_includes);
    assert(r matches Ok(ts) ==> is_abs(g) && (source@ == config_path@ || source@ == output_path@)
        && targets_collected(g, source@, output_path@, ts@, read_includes)
        && target_segment(g, ts@, 0, ts@.len() as int, spec_absolutize(g, source@), output_path@));
    assert(r matches Err(e) ==> is_abs(g) && (source@ == config_path@ || source@ == output_path@)
        && targets_error_sound(e, read_includes, g, spec_absolutize(g, source@))
        && targets_fail(e, read_includes, g, source@, output_path@));
    proof {
        if forall|cwd: Seq<char>, src: Seq<char>|
            is_abs(cwd) && (src == config_path@ || src == output_path@) ==> #[trigger] targets_load(
                read_includes, cwd, spec_absolutize(cwd, src)) {
            assert(targets_load(read_includes, g, spec_absolutize(g, source@)));
        }
        if forall|cwd: Seq<char>, src: Seq<char>|
            is_abs(cwd) && (src == config_path@ || src == output_path@) ==> #[trigger] read_fails(
                read_includes, spec_absolutize(cwd, src)) {
            assert(read_fails(read_includes, spec_absolutize(g, source@)));
        }
        if deterministic_reader(read_includes) && r is Ok {
            assert(targets_load(read_includes, g, spec_absolutize(g, source@)));
        }
    }
    r
}

} // verus!
