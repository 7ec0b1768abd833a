//! Recursive traversal of config files that name further config files.
//!
//! Callers supply a loader that returns a source value and the paths of the
//! files that source pulls in. The traversal resolves those paths relative to
//! the declaring file, loads each file once, rejects cycles and returns the
//! loaded nodes in traversal order.

use vstd::prelude::*;
use crate::error::ConfigTreeError;
use crate::path::{
    absolutize_lexical_from, current_dir, is_abs, path_is_absolute, resolve_include_path,
    spec_absolutize, spec_resolve,
};
use crate::reach::{
    closes_cycle, declares, has_include_cycle, is_include_cycle, is_walk, lemma_cycle_found, lemma_declares_mono,
    lemma_walk_push,
    lemma_walk_root, reachable, simple_walk_from, walk_step,
};

verus! {

/// Controls the order in which sibling paths are traversed.
#[derive(Clone, Copy, Debug, PartialEq, Eq, Structural)]
pub enum IncludeOrder {
    /// Visit paths in the order they were declared.
    Declared,
    /// Visit sibling paths in reverse declaration order.
    Reverse,
}

impl Default for IncludeOrder {
    fn default() -> (r: Self)
        ensures
            r == IncludeOrder::Declared,
    {
        IncludeOrder::Declared
    }
}

/// Options for loading a recursive config tree.
#[derive(Clone, Copy, Debug, PartialEq, Eq, Structural)]
pub struct ConfigTreeOptions {
    include_order: IncludeOrder,
}

impl Default for ConfigTreeOptions {
    fn default() -> (r: Self)
        ensures
            r.order() == IncludeOrder::Declared,
    {
        ConfigTreeOptions { include_order: IncludeOrder::Declared }
    }
}

/// Value and included paths returned by a config source loader.
#[derive(Debug, Clone, PartialEq, Eq)]
pub struct ConfigSource<T> {
    value: T,
    includes: Vec<String>,
}

/// One loaded config source in a tree.
#[derive(Debug, Clone, PartialEq, Eq)]
pub struct ConfigNode<T> {
    /// Normalized absolute source path.
    pub path: String,
    /// Loaded source value.
    pub value: T,
    /// Paths declared by this source, as written.
    pub includes: Vec<String>,
}

/// A loaded config tree in traversal order.
#[derive(Debug, Clone, PartialEq, Eq)]
pub struct ConfigTree<T> {
    /// Loaded nodes in traversal order.
    pub nodes: Vec<ConfigNode<T>>,
}

impl ConfigTreeOptions {
    /// The sibling traversal order.
    pub closed spec fn order(self) -> IncludeOrder {
        self.include_order
    }

    /// Sets the sibling traversal order.
    pub fn include_order(self, include_order: IncludeOrder) -> (r: Self)
        ensures
            r.order() == include_order,
    {
        let mut s = self;
        s.include_order = include_order;
        s
    }
}

impl<T> ConfigSource<T> {
    /// The loaded source value.
    pub closed spec fn spec_value(self) -> T {
        self.value
    }

    /// The declared paths, as text.
    pub closed spec fn spec_includes(self) -> Seq<Seq<char>> {
        self.includes.deep_view()
    }

    /// The source holding `value` and the declared paths `includes`.
    pub closed spec fn spec_new(value: T, includes: Vec<String>) -> Self {
        ConfigSource { value, includes }
    }

    /// A source built from a value and paths holds exactly them.
    pub proof fn lemma_spec_new(value: T, includes: Vec<String>)
        ensures
            Self::spec_new(value, includes).spec_value() == value,
            Self::spec_new(value, includes).spec_includes() == includes.deep_view(),
    {
    }

    /// Creates a source from a loaded value and its declared paths.
    pub fn new(value: T, includes: Vec<String>) -> (r: Self)
        ensures
            r == Self::spec_new(value, includes),
            r.spec_value() == value,
            r.spec_includes() == includes.deep_view(),
    {
        ConfigSource { value, includes }
    }

    /// Returns the loaded source value.
    pub fn value(&self) -> (r: &T)
        ensures
            *r == self.spec_value(),
    {
        &self.value
    }

    /// Returns the paths declared by the source.
    pub fn includes(&self) -> (r: &[String])
        ensures
            r@.map_values(|s: String| s@) == self.spec_includes(),
    {
        proof {
            assert(self.includes@.map_values(|s: String| s@) =~= self.includes.deep_view());
        }
        self.includes.as_slice()
    }

    /// Decomposes the source into its value and declared paths.
    pub fn into_parts(self) -> (r: (T, Vec<String>))
        ensures
            r.0 == self.spec_value(),
            r.1.deep_view() == self.spec_includes(),
    {
        (self.value, self.includes)
    }
}

impl<T> From<(T, Vec<String>)> for ConfigSource<T> {
    /// Builds a source from a loaded value and its declared paths.
    fn from(parts: (T, Vec<String>)) -> (r: Self) {
        ConfigSource { value: parts.0, includes: parts.1 }
    }
}

impl<T> vstd::std_specs::convert::FromSpecImpl<(T, Vec<String>)> for ConfigSource<T> {
    open spec fn obeys_from_spec() -> bool {
        true
    }

    open spec fn from_spec(parts: (T, Vec<String>)) -> Self {
        ConfigSource::spec_new(parts.0, parts.1)
    }
}

/// The paths of a node list, in order.
pub open spec fn node_paths<T>(nodes: Seq<ConfigNode<T>>) -> Seq<Seq<char>> {
    Seq::new(nodes.len(), |i: int| nodes[i].path@)
}

/// `child` is the absolutized resolution of one of the paths declared by
/// `parent`.
pub open spec fn child_of<T>(cwd: Seq<char>, parent: ConfigNode<T>, child: Seq<char>) -> bool {
    exists|j: int|
        0 <= j < parent.includes@.len() && child == spec_absolutize(
            cwd,
            spec_resolve(parent.path@, #[trigger] parent.includes@[j]@),
        )
}

/// Every path declared by node `i` resolves to the path of some node.
pub open spec fn node_closed<T>(cwd: Seq<char>, nodes: Seq<ConfigNode<T>>, i: int) -> bool {
    forall|j: int|
        0 <= j < nodes[i].includes@.len() ==> node_paths(nodes).contains(
            spec_absolutize(cwd, spec_resolve(nodes[i].path@, #[trigger] nodes[i].includes@[j]@)),
        )
}

/// The loader returned `Ok` with exactly this value and these paths when
/// called with the node's path.
pub open spec fn node_sourced<T, F: Fn(&str) -> Result<ConfigSource<T>, String>>(
    load: F,
    node: ConfigNode<T>,
) -> bool {
    exists|p: &str, s: ConfigSource<T>|
        #![trigger call_ensures(load, (p,), Ok::<ConfigSource<T>, String>(s))]
        p@ == node.path@ && call_ensures(load, (p,), Ok::<ConfigSource<T>, String>(s))
            && s.spec_value() == node.value && s.spec_includes() == node.includes.deep_view()
}

/// What holds of every loaded tree: each node comes from the loader, every
/// declared path is non-empty and resolves to a loaded node, node paths are
/// distinct, and every node but the first is a child of an earlier node.
pub open spec fn tree_wf<T, F: Fn(&str) -> Result<ConfigSource<T>, String>>(
    cwd: Seq<char>,
    nodes: Seq<ConfigNode<T>>,
    load: F,
) -> bool {
    &&& node_paths(nodes).no_duplicates()
    &&& forall|i: int| 0 <= i < nodes.len() ==> node_sourced(load, #[trigger] nodes[i])
    &&& forall|i: int, j: int|
        0 <= i < nodes.len() && 0 <= j < nodes[i].includes@.len() ==> (#[trigger] nodes[i].includes@[j])@.len() > 0
    &&& parents_first(cwd, nodes)
}

/// Every node but the first is a child of an earlier node.
pub open spec fn parents_first<T>(cwd: Seq<char>, nodes: Seq<ConfigNode<T>>) -> bool {
    forall|i: int| 1 <= i < nodes.len() ==> has_earlier_parent(cwd, nodes, i)
}

/// Some node before position `i` declares the path of node `i`.
pub open spec fn has_earlier_parent<T>(cwd: Seq<char>, nodes: Seq<ConfigNode<T>>, i: int) -> bool {
    exists|k: int| 0 <= k < i && #[trigger] child_of(cwd, nodes[k], nodes[i].path@)
}

proof fn lemma_parents_first_push<T>(cwd: Seq<char>, nodes: Seq<ConfigNode<T>>, n: ConfigNode<T>, k: int)
    requires
        parents_first(cwd, nodes),
        nodes.len() > 0 ==> 0 <= k < nodes.len() && child_of(cwd, nodes[k], n.path@),
    ensures
        parents_first(cwd, nodes.push(n)),
{
    let m = nodes.push(n);
    assert forall|i: int| 1 <= i < m.len() implies has_earlier_parent(cwd, m, i) by {
        if i < nodes.len() {
            assert(has_earlier_parent(cwd, nodes, i));
            let k2 = choose|k2: int| 0 <= k2 < i && #[trigger] child_of(cwd, nodes[k2], nodes[i].path@);
            assert(m[k2] == nodes[k2] && m[i] == nodes[i]);
            assert(child_of(cwd, m[k2], m[i].path@));
        } else {
            assert(m[k] == nodes[k] && m[i] == n);
            assert(child_of(cwd, m[k], m[i].path@));
        }
    }
}

/// Tracks paths currently being visited and paths already loaded.
pub(crate) struct TraversalState {
    pub(crate) visiting: Vec<String>,
    pub(crate) loaded: Vec<String>,
    /// Paths whose traversal is complete, in the order it completed.
    pub(crate) finished: Ghost<Seq<Seq<char>>>,
}

/// Returns the first index of `x` in `v`.
fn position_of(v: &Vec<String>, x: &String) -> (r: Option<usize>)
    ensures
        match r {
            Some(i) => i < v@.len() && v@[i as int]@ == x@ && forall|j: int|
                0 <= j < i ==> v@[j]@ != x@,
            None => !v.deep_view().contains(x@),
        },
{
    let mut i: usize = 0;
    while i < v.len()
        invariant
            i <= v@.len(),
            forall|j: int| 0 <= j < i ==> v@[j]@ != x@,
        decreases v@.len() - i,
    {
        if v[i] == *x {
            return Some(i);
        }
        i = i + 1;
    }
    proof {
        if v.deep_view().contains(x@) {
            let k = choose|k: int| 0 <= k < v.deep_view().len() && v.deep_view()[k] == x@;
            assert(v@[k]@ == x@);
        }
    }
    None
}

/// Copies a list of strings.
pub(crate) fn clone_strings(v: &Vec<String>) -> (r: Vec<String>)
    ensures
        r.deep_view() == v.deep_view(),
{
    let mut r: Vec<String> = Vec::new();
    let mut i: usize = 0;
    while i < v.len()
        invariant
            i <= v@.len(),
            r.deep_view() == v.deep_view().take(i as int),
        decreases v@.len() - i,
    {
        let ghost before = r.deep_view();
        r.push(v[i].clone());
        proof {
            assert(r.deep_view() =~= before.push(v@[i as int]@));
            assert(v.deep_view().take(i + 1) =~= v.deep_view().take(i as int).push(v@[i as int]@));
        }
        i = i + 1;
    }
    proof {
        assert(v.deep_view().take(v@.len() as int) =~= v.deep_view());
    }
    r
}

impl TraversalState {
    pub(crate) fn new() -> (r: Self)
        ensures
            r.visiting@.len() == 0,
            r.loaded@.len() == 0,
            r.finished@.len() == 0,
    {
        TraversalState { visiting: Vec::new(), loaded: Vec::new(), finished: Ghost(Seq::empty()) }
    }

    /// Enters a normalized source path during traversal.
    ///
    /// Returns `Ok(true)` when traversal should load the path, `Ok(false)`
    /// when it was already loaded, or a cycle error when the path is already
    /// on the active traversal stack.
    pub(crate) fn enter(&mut self, path: &String) -> (r: Result<bool, ConfigTreeError>)
        ensures
            !(r is Ok && r->Ok_0) ==> *final(self) == *old(self),
            r matches Err(e) ==> exists|pos: int|
                0 <= pos < old(self).visiting@.len() && old(self).visiting@[pos]@ == path@
                    && (e matches ConfigTreeError::IncludeCycle { chain }
                    && chain.deep_view() == old(self).visiting.deep_view().skip(pos).push(path@)),
            r is Ok ==> !old(self).visiting.deep_view().contains(path@),
            r == Ok::<bool, ConfigTreeError>(false) ==> old(self).loaded.deep_view().contains(path@),
            r == Ok::<bool, ConfigTreeError>(true) ==> {
                &&& !old(self).loaded.deep_view().contains(path@)
                &&& final(self).visiting.deep_view() == old(self).visiting.deep_view().push(path@)
                &&& final(self).loaded.deep_view() == old(self).loaded.deep_view().push(path@)
                &&& final(self).finished == old(self).finished
            },
    {
        match position_of(&self.visiting, path) {
            Some(pos) => {
                let mut chain: Vec<String> = Vec::new();
                let mut i = pos;
                proof {
                    assert(chain.deep_view() =~= self.visiting.deep_view().subrange(pos as int, i as int));
                }
                while i < self.visiting.len()
                    invariant
                        pos <= i <= self.visiting@.len(),
                        chain.deep_view() == self.visiting.deep_view().subrange(pos as int, i as int),
                    decreases self.visiting@.len() - i,
                {
                    let ghost before = chain.deep_view();
                    chain.push(self.visiting[i].clone());
                    proof {
                        assert(chain.deep_view() =~= before.push(self.visiting@[i as int]@));
                        assert(self.visiting.deep_view().subrange(pos as int, i + 1) =~= self.visiting.deep_view().subrange(pos as int, i as int).push(self.visiting@[i as int]@));
                    }
                    i = i + 1;
                }
                let ghost before = chain.deep_view();
                chain.push(path.clone());
                proof {
                    assert(chain.deep_view() =~= before.push(path@));
                    assert(self.visiting.deep_view().subrange(pos as int, self.visiting@.len() as int) =~= self.visiting.deep_view().skip(pos as int));
                }
                let ghost cv = chain.deep_view();
                let e = ConfigTreeError::IncludeCycle { chain };
                proof {
                    let pi = pos as int;
                    assert(0 <= pi < self.visiting@.len() && self.visiting@[pi]@ == path@
                        && (e matches ConfigTreeError::IncludeCycle { chain }
                        && chain.deep_view() == self.visiting.deep_view().skip(pi).push(path@)));
                }
                Err(e)
            },
            None => {
                match position_of(&self.loaded, path) {
                    Some(k) => {
                        proof {
                            assert(self.loaded.deep_view()[k as int] == path@);
                        }
                        Ok(false)
                    },
                    None => {
                        let ghost lv = self.loaded.deep_view();
                        let ghost vv = self.visiting.deep_view();
                        self.loaded.push(path.clone());
                        self.visiting.push(path.clone());
                        proof {
                            assert(self.loaded.deep_view() =~= lv.push(path@));
                            assert(self.visiting.deep_view() =~= vv.push(path@));
                        }
                        Ok(true)
                    },
                }
            },
        }
    }

    /// Leaves the current traversal path.
    pub(crate) fn leave(&mut self)
        ensures
            final(self).loaded == old(self).loaded,
            final(self).visiting.deep_view() == (if old(self).visiting@.len() > 0 {
                old(self).visiting.deep_view().drop_last()
            } else {
                old(self).visiting.deep_view()
            }),
            final(self).finished@ == (if old(self).visiting@.len() > 0 {
                old(self).finished@.push(old(self).visiting.deep_view().last())
            } else {
                old(self).finished@
            }),
    {
        let ghost vv = self.visiting.deep_view();
        proof {
            if vv.len() > 0 {
                self.finished = Ghost(self.finished@.push(vv.last()));
            }
        }
        let _ = self.visiting.pop();
        proof {
            if vv.len() > 0 {
                assert(self.visiting.deep_view() =~= vv.drop_last());
            } else {
                assert(self.visiting.deep_view() =~= vv);
            }
        }
    }
}

/// Checks that every declared path is non-empty.
pub(crate) fn validate_include_paths(path: &str, paths: &Vec<String>) -> (r: Result<(), ConfigTreeError>)
    ensures
        r is Ok <==> forall|i: int| 0 <= i < paths@.len() ==> (#[trigger] paths@[i])@.len() > 0,
        r matches Err(e) ==> e matches ConfigTreeError::EmptyIncludePath { path: p, index }
            && p@ == path@ && index < paths@.len() && paths@[index as int]@.len() == 0
            && forall|i: int| 0 <= i < index ==> (#[trigger] paths@[i])@.len() > 0,
{
    let mut index: usize = 0;
    while index < paths.len()
        invariant
            index <= paths@.len(),
            forall|i: int| 0 <= i < index ==> (#[trigger] paths@[i])@.len() > 0,
        decreases paths@.len() - index,
    {
        if paths[index].as_str().is_empty() {
            return Err(ConfigTreeError::EmptyIncludePath { path: path.to_owned(), index });
        }
        index = index + 1;
    }
    Ok(())
}


/// Turns what the loader returned for `path` into the node of `path`.
///
/// A loader failure becomes a load error for `path`; a source that declares
/// an empty path is refused at the first such position; any other source
/// becomes a node holding its value and its declared paths.
pub fn node_from_load<T>(path: &str, loaded: Result<ConfigSource<T>, String>) -> (r: Result<
    ConfigNode<T>,
    ConfigTreeError,
>)
    ensures
        loaded is Err ==> (r matches Err(e) && e matches ConfigTreeError::Load { path: lp, source } && lp@
            == path@ && source == loaded->Err_0),
        loaded is Ok && no_empty_path(loaded->Ok_0.spec_includes()) ==> (r matches Ok(n) && n.path@ == path@
            && n.value == loaded->Ok_0.spec_value() && n.includes.deep_view() == loaded->Ok_0.spec_includes()),
        loaded is Ok && !no_empty_path(loaded->Ok_0.spec_includes()) ==> (r matches Err(e)
            && e matches ConfigTreeError::EmptyIncludePath { path: ep, index } && ep@ == path@ && first_empty(
            loaded->Ok_0.spec_includes(),
            index as int,
        )),
{
    match loaded {
        Err(m) => Err(ConfigTreeError::load(path, m)),
        Ok(source) => {
            let ghost dv = source.includes.deep_view();
            proof {
                assert(dv.len() == source.includes@.len());
                assert(forall|i: int| 0 <= i < dv.len() ==> #[trigger] dv[i] == source.includes@[i]@);
            }
            match validate_include_paths(path, &source.includes) {
                Err(e) => {
                    proof {
                        if no_empty_path(dv) {
                            let index = e->EmptyIncludePath_index;
                            assert(dv[index as int].len() > 0);
                        }
                    }
                    Err(e)
                },
                Ok(()) => {
                    let ConfigSource { value, includes } = source;
                    Ok(ConfigNode { path: path.to_owned(), value, includes })
                },
            }
        },
    }
}

/// What loading a path may declare: the paths of a source that the loader
/// returned for it.
pub open spec fn load_reads<T, F: Fn(&str) -> Result<ConfigSource<T>, String>>(load: F) -> spec_fn(
    Seq<char>,
    Seq<Seq<char>>,
) -> bool {
    |q: Seq<char>, incs: Seq<Seq<char>>|
        exists|p: &str, s: ConfigSource<T>|
            #![trigger call_ensures(load, (p,), Ok::<ConfigSource<T>, String>(s))]
            p@ == q && call_ensures(load, (p,), Ok::<ConfigSource<T>, String>(s)) && s.spec_includes() == incs
}

/// No declared path in `paths` is empty.
pub open spec fn no_empty_path(paths: Seq<Seq<char>>) -> bool {
    forall|i: int| 0 <= i < paths.len() ==> (#[trigger] paths[i]).len() > 0
}

/// `index` is the first position of an empty path in `paths`.
pub open spec fn first_empty(paths: Seq<Seq<char>>, index: int) -> bool {
    &&& 0 <= index < paths.len()
    &&& paths[index].len() == 0
    &&& forall|i: int| 0 <= i < index ==> (#[trigger] paths[i]).len() > 0
}

/// Whatever the loader returns for `q` is a source whose declared paths are
/// all non-empty.
pub open spec fn loads_cleanly<T, F: Fn(&str) -> Result<ConfigSource<T>, String>>(load: F, q: Seq<char>) -> bool {
    forall|p: &str, res: Result<ConfigSource<T>, String>|
        #[trigger] call_ensures(load, (p,), res) && p@ == q ==> res is Ok && no_empty_path(
            res->Ok_0.spec_includes(),
        )
}

/// Whatever the loader returns for `q` is a failure.
pub open spec fn load_fails<T, F: Fn(&str) -> Result<ConfigSource<T>, String>>(load: F, q: Seq<char>) -> bool {
    forall|p: &str, res: Result<ConfigSource<T>, String>|
        #[trigger] call_ensures(load, (p,), res) && p@ == q ==> res is Err
}

/// The tree rooted at the absolute path `root` loads fully: every file
/// reachable from it loads cleanly, and no cycle of declared paths is
/// reachable from it.
pub open spec fn tree_loads<T, F: Fn(&str) -> Result<ConfigSource<T>, String>>(
    load: F,
    cwd: Seq<char>,
    root: Seq<char>,
) -> bool {
    &&& forall|q: Seq<char>|
        #[trigger] reachable(load_reads::<T, F>(load), cwd, root, q) ==> loads_cleanly::<T, F>(load, q)
    &&& !has_include_cycle(load_reads::<T, F>(load), cwd, root)
}

/// What a traversal from the absolute path `root` reports when it fails:
/// the loader's own failure for a file reachable from the root; a file
/// reachable from the root for which the loader returned a source whose
/// declared paths hold an empty one, with the first such position; or a
/// cycle of declared paths, from the repeated file along the walk from the
/// root and back to it.
pub open spec fn tree_error_sound<T, F: Fn(&str) -> Result<ConfigSource<T>, String>>(
    e: ConfigTreeError,
    load: F,
    cwd: Seq<char>,
    root: Seq<char>,
) -> bool {
    let reads = load_reads::<T, F>(load);
    match e {
        ConfigTreeError::CurrentDir { .. } => false,
        ConfigTreeError::Load { path, source } => reachable(reads, cwd, root, path@) && exists|p: &str|
            #![trigger call_ensures(load, (p,), Err::<ConfigSource<T>, String>(source))]
            p@ == path@ && call_ensures(load, (p,), Err::<ConfigSource<T>, String>(source)),
        ConfigTreeError::EmptyIncludePath { path, index } => reachable(reads, cwd, root, path@) && exists|
            p: &str,
            s: ConfigSource<T>,
        |
            #![trigger call_ensures(load, (p,), Ok::<ConfigSource<T>, String>(s))]
            p@ == path@ && call_ensures(load, (p,), Ok::<ConfigSource<T>, String>(s)) && first_empty(
                s.spec_includes(),
                index as int,
            ),
        ConfigTreeError::IncludeCycle { chain } => is_include_cycle(reads, cwd, root, chain.deep_view()),
    }
}

/// The loader gives one result for each path.
pub open spec fn deterministic_loader<T, F: Fn(&str) -> Result<ConfigSource<T>, String>>(load: F) -> bool {
    forall|p1: &str, p2: &str, r1: Result<ConfigSource<T>, String>, r2: Result<ConfigSource<T>, String>|
        #[trigger] call_ensures(load, (p1,), r1) && #[trigger] call_ensures(load, (p2,), r2) && p1@ == p2@ ==> r1
            == r2
}

/// The position of `x` in the completion order `f`.
pub(crate) open spec fn finish_index(f: Seq<Seq<char>>, x: Seq<char>) -> int {
    choose|k: int| 0 <= k < f.len() && f[k] == x
}

/// With a loader that gives one result per path, what a loaded node
/// declares leads to a loaded node through one of the node's own paths.
proof fn lemma_declared_in_tree<T, F: Fn(&str) -> Result<ConfigSource<T>, String>>(
    load: F,
    cwd: Seq<char>,
    nodes: Seq<ConfigNode<T>>,
    a: Seq<char>,
    b: Seq<char>,
) -> (ij: (int, int))
    requires
        deterministic_loader(load),
        tree_wf(cwd, nodes, load),
        forall|i: int| 0 <= i < nodes.len() ==> #[trigger] node_closed(cwd, nodes, i),
        node_paths(nodes).contains(a),
        declares(load_reads::<T, F>(load), cwd, a, b),
    ensures
        0 <= ij.0 < nodes.len(),
        nodes[ij.0].path@ == a,
        0 <= ij.1 < nodes[ij.0].includes@.len(),
        b == child_path(cwd, nodes, ij.0, ij.1),
        node_paths(nodes).contains(b),
{
    let reads = load_reads::<T, F>(load);
    let i = choose|i: int| 0 <= i < node_paths(nodes).len() && node_paths(nodes)[i] == a;
    let (incs, j) = choose|incs: Seq<Seq<char>>, j: int|
        #![trigger reads(a, incs), incs[j]]
        reads(a, incs) && 0 <= j < incs.len() && b == spec_absolutize(cwd, spec_resolve(a, incs[j]));
    let (p, src) = choose|p: &str, src: ConfigSource<T>|
        p@ == a && call_ensures(load, (p,), Ok::<ConfigSource<T>, String>(src)) && src.spec_includes() == incs;
    assert(node_sourced(load, nodes[i]));
    let (p2, s2) = choose|p2: &str, s2: ConfigSource<T>|
        #![trigger call_ensures(load, (p2,), Ok::<ConfigSource<T>, String>(s2))]
        p2@ == nodes[i].path@ && call_ensures(load, (p2,), Ok::<ConfigSource<T>, String>(s2))
            && s2.spec_value() == nodes[i].value && s2.spec_includes() == nodes[i].includes.deep_view();
    assert(Ok::<ConfigSource<T>, String>(src) == Ok::<ConfigSource<T>, String>(s2));
    assert(incs[j] == nodes[i].includes@[j]@);
    assert(node_closed(cwd, nodes, i));
    (i, j)
}

/// With a loader that gives one result per path, a completed traversal
/// shows that the tree loads fully: the completion order ranks every node
/// after the nodes it leads to, so no cycle is reachable.
proof fn lemma_complete_tree_loads<T, F: Fn(&str) -> Result<ConfigSource<T>, String>>(
    load: F,
    cwd: Seq<char>,
    root: Seq<char>,
    nodes: Seq<ConfigNode<T>>,
    f: Seq<Seq<char>>,
)
    requires
        deterministic_loader(load),
        tree_wf(cwd, nodes, load),
        nodes.len() >= 1,
        nodes[0].path@ == root,
        forall|i: int| 0 <= i < nodes.len() ==> #[trigger] node_closed(cwd, nodes, i),
        f.no_duplicates(),
        forall|x: Seq<char>| #[trigger] f.contains(x) <==> node_paths(nodes).contains(x),
        children_finish_first(cwd, f, nodes),
    ensures
        tree_loads(load, cwd, root),
{
    let reads = load_reads::<T, F>(load);
    assert(node_paths(nodes)[0] == root);
    assert forall|q: Seq<char>| #[trigger] reachable(reads, cwd, root, q) implies loads_cleanly::<T, F>(load, q) by {
        let w = choose|w: Seq<Seq<char>>| #[trigger] simple_walk_from(reads, cwd, root, w) && w.last() == q;
        lemma_walk_in_tree(load, cwd, root, nodes, w, w.len() - 1);
        let i = choose|i: int| 0 <= i < node_paths(nodes).len() && node_paths(nodes)[i] == q;
        assert(node_sourced(load, nodes[i]));
        let (p2, s2) = choose|p2: &str, s2: ConfigSource<T>|
            #![trigger call_ensures(load, (p2,), Ok::<ConfigSource<T>, String>(s2))]
            p2@ == nodes[i].path@ && call_ensures(load, (p2,), Ok::<ConfigSource<T>, String>(s2))
                && s2.spec_value() == nodes[i].value && s2.spec_includes() == nodes[i].includes.deep_view();
        assert forall|p: &str, res: Result<ConfigSource<T>, String>|
            #[trigger] call_ensures(load, (p,), res) && p@ == q implies res is Ok && no_empty_path(
                res->Ok_0.spec_includes()) by {
            assert(call_ensures(load, (p2,), Ok::<ConfigSource<T>, String>(s2)));
            assert(res == Ok::<ConfigSource<T>, String>(s2));
            assert forall|k: int| 0 <= k < s2.spec_includes().len() implies (#[trigger] s2.spec_includes()[k]).len() > 0 by {
                assert(s2.spec_includes()[k] == nodes[i].includes@[k]@);
            }
        }
    }
    if has_include_cycle(reads, cwd, root) {
        let (stack, pos) = choose|stack: Seq<Seq<char>>, pos: int| #[trigger] closes_cycle(reads, cwd, root, stack, pos);
        lemma_no_closed_cycle(load, cwd, root, nodes, f, stack, pos);
    }
}

/// Each file of a walk from the root is loaded.
proof fn lemma_walk_in_tree<T, F: Fn(&str) -> Result<ConfigSource<T>, String>>(
    load: F,
    cwd: Seq<char>,
    root: Seq<char>,
    nodes: Seq<ConfigNode<T>>,
    w: Seq<Seq<char>>,
    m: int,
)
    requires
        deterministic_loader(load),
        tree_wf(cwd, nodes, load),
        node_paths(nodes).contains(root),
        forall|i: int| 0 <= i < nodes.len() ==> #[trigger] node_closed(cwd, nodes, i),
        simple_walk_from(load_reads::<T, F>(load), cwd, root, w),
        0 <= m < w.len(),
    ensures
        node_paths(nodes).contains(w[m]),
    decreases m,
{
    if m > 0 {
        lemma_walk_in_tree(load, cwd, root, nodes, w, m - 1);
        assert(walk_step(load_reads::<T, F>(load), cwd, w, m - 1));
        lemma_declared_in_tree(load, cwd, nodes, w[m - 1], w[m]);
    }
}

/// No stack closes a cycle when every node completes after the nodes it
/// leads to.
proof fn lemma_no_closed_cycle<T, F: Fn(&str) -> Result<ConfigSource<T>, String>>(
    load: F,
    cwd: Seq<char>,
    root: Seq<char>,
    nodes: Seq<ConfigNode<T>>,
    f: Seq<Seq<char>>,
    stack: Seq<Seq<char>>,
    pos: int,
)
    requires
        deterministic_loader(load),
        tree_wf(cwd, nodes, load),
        node_paths(nodes).contains(root),
        forall|i: int| 0 <= i < nodes.len() ==> #[trigger] node_closed(cwd, nodes, i),
        f.no_duplicates(),
        forall|x: Seq<char>| #[trigger] f.contains(x) <==> node_paths(nodes).contains(x),
        children_finish_first(cwd, f, nodes),
    ensures
        !closes_cycle(load_reads::<T, F>(load), cwd, root, stack, pos),
{
    let reads = load_reads::<T, F>(load);
    if !closes_cycle(reads, cwd, root, stack, pos) {
        return;
    }
    let last = stack.len() - 1;
    assert forall|m: int| 0 <= m < stack.len() implies node_paths(nodes).contains(#[trigger] stack[m]) by {
        lemma_walk_in_tree(load, cwd, root, nodes, stack, m);
    }
    // Following a declared path goes to a node that completed earlier.
    assert forall|a: Seq<char>, b: Seq<char>|
        node_paths(nodes).contains(a) && #[trigger] declares(reads, cwd, a, b) implies finish_index(f, b) < finish_index(f, a) by {
        let (i, j) = lemma_declared_in_tree(load, cwd, nodes, a, b);
        assert(node_paths(nodes)[i] == a);
        assert(f.contains(a));
        assert(finished_before(f, child_path(cwd, nodes, i, j), nodes[i].path@));
        let k = choose|k: int| 0 <= k < f.len() && #[trigger] f[k] == a && f.take(k).contains(b);
        let kb = choose|kb: int| 0 <= kb < f.take(k).len() && f.take(k)[kb] == b;
        assert(f[kb] == b);
        assert(f.contains(b));
        let ia = finish_index(f, a);
        let ib = finish_index(f, b);
        assert(f[ia] == a && f[ib] == b);
        assert(ia == k);
        assert(ib == kb);
    }
    assert forall|m: int| pos <= m < stack.len() implies finish_index(f, #[trigger] stack[m]) <= finish_index(f, stack[pos]) by {
        lemma_ranks_fall(reads, cwd, node_paths(nodes), f, stack, pos, m);
    }
    assert(declares(reads, cwd, stack[last], stack[pos]));
    assert(finish_index(f, stack[pos]) < finish_index(f, stack[last]));
    assert(finish_index(f, stack[last]) <= finish_index(f, stack[pos]));
}

/// Along a walk whose every step goes to a node that completed earlier,
/// completion positions fall.
pub(crate) proof fn lemma_ranks_fall(
    reads: spec_fn(Seq<char>, Seq<Seq<char>>) -> bool,
    cwd: Seq<char>,
    paths: Seq<Seq<char>>,
    f: Seq<Seq<char>>,
    stack: Seq<Seq<char>>,
    pos: int,
    m: int,
)
    requires
        is_walk(reads, cwd, stack),
        0 <= pos <= m < stack.len(),
        forall|k: int| 0 <= k < stack.len() ==> paths.contains(#[trigger] stack[k]),
        forall|a: Seq<char>, b: Seq<char>|
            paths.contains(a) && #[trigger] declares(reads, cwd, a, b) ==> finish_index(f, b) < finish_index(f, a),
    ensures
        finish_index(f, stack[m]) <= finish_index(f, stack[pos]),
    decreases m - pos,
{
    if m > pos {
        lemma_ranks_fall(reads, cwd, paths, f, stack, pos, m - 1);
        assert(walk_step(reads, cwd, stack, m - 1));
        assert(paths.contains(stack[m - 1]));
    }
}

/// A traversal that fails as stated shows that the tree does not load
/// fully.
pub proof fn lemma_error_refutes_load<T, F: Fn(&str) -> Result<ConfigSource<T>, String>>(
    e: ConfigTreeError,
    load: F,
    cwd: Seq<char>,
    root: Seq<char>,
)
    requires
        tree_error_sound(e, load, cwd, root),
    ensures
        !tree_loads(load, cwd, root),
{
    let reads = load_reads::<T, F>(load);
    match e {
        ConfigTreeError::Load { path, source } => {
            let p = choose|p: &str| p@ == path@ && call_ensures(load, (p,), Err::<ConfigSource<T>, String>(source));
            if tree_loads(load, cwd, root) {
                assert(loads_cleanly::<T, F>(load, path@));
                assert(call_ensures(load, (p,), Err::<ConfigSource<T>, String>(source)));
            }
        },
        ConfigTreeError::EmptyIncludePath { path, index } => {
            let (p, s) = choose|p: &str, s: ConfigSource<T>|
                p@ == path@ && call_ensures(load, (p,), Ok::<ConfigSource<T>, String>(s)) && first_empty(
                    s.spec_includes(), index as int);
            if tree_loads(load, cwd, root) {
                assert(loads_cleanly::<T, F>(load, path@));
                assert(call_ensures(load, (p,), Ok::<ConfigSource<T>, String>(s)));
                assert(s.spec_includes()[index as int].len() > 0);
            }
        },
        ConfigTreeError::IncludeCycle { chain } => {
            let (stack, pos) = choose|stack: Seq<Seq<char>>, pos: int|
                #[trigger] closes_cycle(reads, cwd, root, stack, pos) && chain.deep_view() == stack.skip(pos).push(stack[pos]);
            assert(has_include_cycle(reads, cwd, root));
        },
        ConfigTreeError::CurrentDir { .. } => {},
    }
}

/// The position of the `u`-th visited sibling among `n` declared paths.
pub open spec fn visit_index(reverse: bool, n: int, u: int) -> int {
    if reverse {
        n - 1 - u
    } else {
        u
    }
}

/// Whether sibling paths are visited from the last declared one.
pub open spec fn reverse_order(order: IncludeOrder) -> bool {
    order is Reverse
}

/// The absolute path that the `u`-th visited declared path of a node
/// resolves to.
pub open spec fn visited_child<T>(cwd: Seq<char>, reverse: bool, node: ConfigNode<T>, u: int) -> Seq<char> {
    spec_absolutize(
        cwd,
        spec_resolve(node.path@, node.includes@[visit_index(reverse, node.includes@.len() as int, u)]@),
    )
}

/// Names a boundary between two segments of the node list.
pub open spec fn boundary(m: int) -> bool {
    true
}

/// `nodes[start..end)` is what loading `path` adds once `nodes[0..start)`
/// are loaded: nothing when `path` is among them, and otherwise the node of
/// `path` followed by what loading each of its declared paths adds, in visit
/// order (depth first).
pub open spec fn dfs_segment<T>(
    cwd: Seq<char>,
    reverse: bool,
    nodes: Seq<ConfigNode<T>>,
    start: int,
    end: int,
    path: Seq<char>,
) -> bool
    decreases end - start, 0int, 0int,
{
    if !(0 <= start <= end <= nodes.len()) {
        false
    } else if node_paths(nodes.take(start)).contains(path) {
        start == end
    } else {
        &&& start < end
        &&& nodes[start].path@ == path
        &&& dfs_children(cwd, reverse, nodes, start, start + 1, end, nodes[start].includes@.len() as int)
    }
}

/// `nodes[lo..hi)` is what loading the first `k` visited declared paths of
/// node `parent` adds, one after the other.
pub open spec fn dfs_children<T>(
    cwd: Seq<char>,
    reverse: bool,
    nodes: Seq<ConfigNode<T>>,
    parent: int,
    lo: int,
    hi: int,
    k: int,
) -> bool
    decreases hi - lo, 1int, k,
{
    if k <= 0 {
        lo == hi
    } else if !(0 <= parent < nodes.len()) || k > nodes[parent].includes@.len() || !(lo <= hi <= nodes.len()) {
        false
    } else {
        exists|mid: int|
            #[trigger] boundary(mid) && lo <= mid <= hi && dfs_children(cwd, reverse, nodes, parent, lo, mid, k - 1)
                && dfs_segment(cwd, reverse, nodes, mid, hi, visited_child(cwd, reverse, nodes[parent], k - 1))
    }
}

/// A segment stays one when nodes are added after it.
proof fn lemma_segment_extend<T>(
    cwd: Seq<char>,
    reverse: bool,
    a: Seq<ConfigNode<T>>,
    b: Seq<ConfigNode<T>>,
    start: int,
    end: int,
    path: Seq<char>,
)
    requires
        dfs_segment(cwd, reverse, a, start, end, path),
        end <= b.len(),
        b.take(end) == a.take(end),
    ensures
        dfs_segment(cwd, reverse, b, start, end, path),
    decreases end - start, 0int, 0int,
{
    assert(b.take(start) =~= a.take(start)) by {
        assert(b.take(start) =~= b.take(end).take(start));
        assert(a.take(start) =~= a.take(end).take(start));
    }
    if !node_paths(a.take(start)).contains(path) {
        assert(b[start] == b.take(end)[start]);
        assert(a[start] == a.take(end)[start]);
        lemma_children_extend(cwd, reverse, a, b, start, start + 1, end, a[start].includes@.len() as int);
    }
}

/// Child segments stay so when nodes are added after them.
proof fn lemma_children_extend<T>(
    cwd: Seq<char>,
    reverse: bool,
    a: Seq<ConfigNode<T>>,
    b: Seq<ConfigNode<T>>,
    parent: int,
    lo: int,
    hi: int,
    k: int,
)
    requires
        dfs_children(cwd, reverse, a, parent, lo, hi, k),
        0 <= parent < lo,
        hi <= b.len(),
        b.take(hi) == a.take(hi),
    ensures
        dfs_children(cwd, reverse, b, parent, lo, hi, k),
    decreases hi - lo, 1int, k,
{
    if k > 0 {
        assert(b[parent] == b.take(hi)[parent]);
        assert(a[parent] == a.take(hi)[parent]);
        let mid = choose|mid: int|
            #[trigger] boundary(mid) && lo <= mid <= hi && dfs_children(cwd, reverse, a, parent, lo, mid, k - 1)
                && dfs_segment(cwd, reverse, a, mid, hi, visited_child(cwd, reverse, a[parent], k - 1));
        assert(b.take(mid) =~= a.take(mid)) by {
            assert(b.take(mid) =~= b.take(hi).take(mid));
            assert(a.take(mid) =~= a.take(hi).take(mid));
        }
        lemma_children_extend(cwd, reverse, a, b, parent, lo, mid, k - 1);
        lemma_segment_extend(cwd, reverse, a, b, mid, hi, visited_child(cwd, reverse, a[parent], k - 1));
        assert(boundary(mid));
    }
}

/// `c` completed before `v` in the completion order `f`.
pub open spec fn finished_before(f: Seq<Seq<char>>, c: Seq<char>, v: Seq<char>) -> bool {
    exists|k: int| 0 <= k < f.len() && #[trigger] f[k] == v && f.take(k).contains(c)
}

/// The path that the `j`-th declared path of node `i` leads to.
pub open spec fn child_path<T>(cwd: Seq<char>, nodes: Seq<ConfigNode<T>>, i: int, j: int) -> Seq<char> {
    spec_absolutize(cwd, spec_resolve(nodes[i].path@, nodes[i].includes@[j]@))
}

/// Every node whose traversal completed in `f` did so after each node its
/// declared paths lead to.
pub open spec fn children_finish_first<T>(cwd: Seq<char>, f: Seq<Seq<char>>, nodes: Seq<ConfigNode<T>>) -> bool {
    forall|i: int, j: int|
        0 <= i < nodes.len() && 0 <= j < nodes[i].includes@.len() && f.contains(nodes[i].path@) ==> finished_before(
            f,
            #[trigger] child_path(cwd, nodes, i, j),
            nodes[i].path@,
        )
}

/// The completed paths are the loaded ones off the stack, each once, each
/// completed after the nodes it leads to.
spec fn finish_inv<T>(cwd: Seq<char>, f: Seq<Seq<char>>, visiting: Seq<Seq<char>>, nodes: Seq<ConfigNode<T>>) -> bool {
    &&& f.no_duplicates()
    &&& forall|x: Seq<char>|
        #![trigger f.contains(x)]
        #![trigger node_paths(nodes).contains(x)]
        f.contains(x) <==> (node_paths(nodes).contains(x) && !visiting.contains(x))
    &&& children_finish_first(cwd, f, nodes)
}

proof fn lemma_finish_enter<T>(
    cwd: Seq<char>,
    f: Seq<Seq<char>>,
    visiting: Seq<Seq<char>>,
    nodes: Seq<ConfigNode<T>>,
    g: ConfigNode<T>,
)
    requires
        finish_inv(cwd, f, visiting, nodes),
        !node_paths(nodes).contains(g.path@),
    ensures
        finish_inv(cwd, f, visiting.push(g.path@), nodes.push(g)),
{
    let m = nodes.push(g);
    lemma_node_paths_push(nodes, g);
    assert forall|x: Seq<char>| f.contains(x) <==> (node_paths(m).contains(x) && !visiting.push(g.path@).contains(x)) by {
        if x == g.path@ {
            assert(visiting.push(g.path@)[visiting.len() as int] == x);
        } else {
            if node_paths(m).contains(x) {
                let k = choose|k: int| 0 <= k < node_paths(m).len() && node_paths(m)[k] == x;
                assert(node_paths(nodes)[k] == x);
            }
            if node_paths(nodes).contains(x) {
                let k = choose|k: int| 0 <= k < node_paths(nodes).len() && node_paths(nodes)[k] == x;
                assert(node_paths(m)[k] == x);
            }
            if visiting.push(g.path@).contains(x) {
                let k = choose|k: int| 0 <= k < visiting.push(g.path@).len() && visiting.push(g.path@)[k] == x;
                assert(visiting[k] == x);
            }
            if visiting.contains(x) {
                let k = choose|k: int| 0 <= k < visiting.len() && visiting[k] == x;
                assert(visiting.push(g.path@)[k] == x);
            }
        }
    }
    assert forall|i: int, j: int|
        0 <= i < m.len() && 0 <= j < m[i].includes@.len() && f.contains(m[i].path@) implies finished_before(
            f,
            #[trigger] child_path(cwd, m, i, j),
            m[i].path@,
        ) by {
        if i < nodes.len() {
            assert(m[i] == nodes[i]);
            assert(child_path(cwd, m, i, j) == child_path(cwd, nodes, i, j));
        } else {
            assert(m[i] == g);
            assert(node_paths(m)[i] == g.path@);
        }
    }
}

proof fn lemma_finish_leave<T>(
    cwd: Seq<char>,
    f: Seq<Seq<char>>,
    visiting: Seq<Seq<char>>,
    nodes: Seq<ConfigNode<T>>,
    me: int,
)
    requires
        finish_inv(cwd, f, visiting.push(nodes[me].path@), nodes),
        0 <= me < nodes.len(),
        node_paths(nodes).no_duplicates(),
        !visiting.contains(nodes[me].path@),
        forall|j: int| 0 <= j < nodes[me].includes@.len() ==> f.contains(#[trigger] child_path(cwd, nodes, me, j)),
    ensures
        finish_inv(cwd, f.push(nodes[me].path@), visiting, nodes),
{
    let p = nodes[me].path@;
    let g = f.push(p);
    let vp = visiting.push(p);
    assert(node_paths(nodes)[me] == p);
    assert(vp[visiting.len() as int] == p);
    assert(!f.contains(p));
    assert forall|x: Seq<char>| g.contains(x) <==> (node_paths(nodes).contains(x) && !visiting.contains(x)) by {
        if x != p {
            if g.contains(x) {
                let k = choose|k: int| 0 <= k < g.len() && g[k] == x;
                assert(f[k] == x);
            }
            if f.contains(x) {
                let k = choose|k: int| 0 <= k < f.len() && f[k] == x;
                assert(g[k] == x);
            }
            if vp.contains(x) {
                let k = choose|k: int| 0 <= k < vp.len() && vp[k] == x;
                assert(visiting[k] == x);
            }
            if visiting.contains(x) {
                let k = choose|k: int| 0 <= k < visiting.len() && visiting[k] == x;
                assert(vp[k] == x);
            }
        } else {
            assert(g[f.len() as int] == x);
        }
    }
    assert(g.no_duplicates()) by {
        assert forall|a: int, b: int| 0 <= a < g.len() && 0 <= b < g.len() && a != b implies g[a] != g[b] by {
            if a < f.len() && b < f.len() {
                assert(f[a] != f[b]);
            } else if a < f.len() {
                assert(f.contains(f[a]));
            } else {
                assert(f.contains(f[b]));
            }
        }
    }
    assert forall|i: int, j: int|
        0 <= i < nodes.len() && 0 <= j < nodes[i].includes@.len() && g.contains(nodes[i].path@) implies finished_before(
            g,
            #[trigger] child_path(cwd, nodes, i, j),
            nodes[i].path@,
        ) by {
        if nodes[i].path@ == p {
            assert(node_paths(nodes)[i] == node_paths(nodes)[me]);
            assert(i == me);
            assert(f.contains(child_path(cwd, nodes, me, j)));
            assert(g.take(f.len() as int) =~= f);
            assert(g[f.len() as int] == p);
        } else {
            let k0 = choose|k0: int| 0 <= k0 < g.len() && g[k0] == nodes[i].path@;
            assert(f[k0] == nodes[i].path@);
            assert(f.contains(nodes[i].path@));
            assert(finished_before(f, child_path(cwd, nodes, i, j), nodes[i].path@));
            let k = choose|k: int| 0 <= k < f.len() && #[trigger] f[k] == nodes[i].path@ && f.take(k).contains(
                child_path(cwd, nodes, i, j));
            assert(g.take(k) =~= f.take(k));
            assert(g[k] == f[k]);
        }
    }
}

/// Every node came from the loader and declares only non-empty paths.
pub open spec fn nodes_clean<T, F: Fn(&str) -> Result<ConfigSource<T>, String>>(load: F, nodes: Seq<ConfigNode<T>>) -> bool {
    &&& forall|i: int| 0 <= i < nodes.len() ==> node_sourced(load, #[trigger] nodes[i])
    &&& forall|i: int, j: int|
        0 <= i < nodes.len() && 0 <= j < nodes[i].includes@.len() ==> (#[trigger] nodes[i].includes@[j])@.len() > 0
}

/// How a traversal fails at `path` with the files of `stack` open: with the
/// cycle from the place of `path` on the stack when it is there; otherwise
/// with the loader's failure for `path`, or with the first empty path of
/// the source the loader returned for it.
pub open spec fn fails_at<T, F: Fn(&str) -> Result<ConfigSource<T>, String>>(
    e: ConfigTreeError,
    load: F,
    stack: Seq<Seq<char>>,
    path: Seq<char>,
) -> bool {
    match e {
        ConfigTreeError::IncludeCycle { chain } => exists|pos: int|
            0 <= pos < stack.len() && #[trigger] stack[pos] == path && chain.deep_view() == stack.skip(pos).push(path),
        ConfigTreeError::Load { path: lp, source } => !stack.contains(path) && lp@ == path && exists|p: &str|
            #![trigger call_ensures(load, (p,), Err::<ConfigSource<T>, String>(source))]
            p@ == path && call_ensures(load, (p,), Err::<ConfigSource<T>, String>(source)),
        ConfigTreeError::EmptyIncludePath { path: ep, index } => !stack.contains(path) && ep@ == path && exists|
            p: &str,
            s: ConfigSource<T>,
        |
            #![trigger call_ensures(load, (p,), Ok::<ConfigSource<T>, String>(s))]
            p@ == path && call_ensures(load, (p,), Ok::<ConfigSource<T>, String>(s)) && first_empty(
                s.spec_includes(),
                index as int,
            ),
        ConfigTreeError::CurrentDir { .. } => false,
    }
}

/// `nodes[start..]` is what a depth-first load of `path` adds, with
/// `nodes[0..start)` loaded and the files of `stack` open, before it fails
/// with `e`: nothing when `path` is on the stack (a cycle) or when loading
/// `path` fails; otherwise the node of `path`, what loading each of its
/// first `k` visited paths adds in full, and what loading the next visited
/// path adds before failing.
pub open spec fn dfs_fail<T, F: Fn(&str) -> Result<ConfigSource<T>, String>>(
    cwd: Seq<char>,
    reverse: bool,
    load: F,
    nodes: Seq<ConfigNode<T>>,
    start: int,
    stack: Seq<Seq<char>>,
    path: Seq<char>,
    e: ConfigTreeError,
) -> bool
    decreases nodes.len() - start,
{
    if !(0 <= start <= nodes.len()) {
        false
    } else if stack.contains(path) {
        nodes.len() == start && e is IncludeCycle && fails_at(e, load, stack, path)
    } else if node_paths(nodes.take(start)).contains(path) {
        false
    } else if nodes.len() == start {
        !(e is IncludeCycle) && fails_at(e, load, stack, path)
    } else {
        &&& nodes[start].path@ == path
        &&& exists|k: int, mid: int|
            #![trigger boundary(mid), visited_child(cwd, reverse, nodes[start], k)]
            0 <= k < nodes[start].includes@.len() && start + 1 <= mid <= nodes.len() && dfs_children(
                cwd,
                reverse,
                nodes,
                start,
                start + 1,
                mid,
                k,
            ) && dfs_fail(cwd, reverse, load, nodes, mid, stack.push(path), visited_child(cwd, reverse, nodes[start], k), e)
    }
}

/// A failed load from `root_path` fails as a depth-first load does: some
/// list of cleanly loaded nodes is what it adds before failing with `e`.
pub open spec fn tree_fails<T, F: Fn(&str) -> Result<ConfigSource<T>, String>>(
    e: ConfigTreeError,
    load: F,
    cwd: Seq<char>,
    reverse: bool,
    root_path: Seq<char>,
) -> bool {
    exists|ns: Seq<ConfigNode<T>>|
        #[trigger] nodes_clean(load, ns) && dfs_fail(cwd, reverse, load, ns, 0, Seq::empty(), spec_absolutize(cwd, root_path), e)
}

/// Links the traversal state to the nodes collected so far.
spec fn traversal_inv<T, F: Fn(&str) -> Result<ConfigSource<T>, String>>(
    cwd: Seq<char>,
    state: TraversalState,
    nodes: Seq<ConfigNode<T>>,
    load: F,
) -> bool {
    &&& tree_wf(cwd, nodes, load)
    &&& state.loaded.deep_view() == node_paths(nodes)
    &&& state.visiting.deep_view().no_duplicates()
    &&& forall|k: int|
        0 <= k < state.visiting@.len() ==> node_paths(nodes).contains(
            #[trigger] state.visiting.deep_view()[k],
        )
    &&& forall|i: int|
        0 <= i < nodes.len() && !state.visiting.deep_view().contains(#[trigger] nodes[i].path@)
            ==> node_closed(cwd, nodes, i)
    &&& finish_inv(cwd, state.finished@, state.visiting.deep_view(), nodes)
}

proof fn lemma_node_paths_push<T>(nodes: Seq<ConfigNode<T>>, n: ConfigNode<T>)
    ensures
        node_paths(nodes.push(n)) == node_paths(nodes).push(n.path@),
{
    assert(node_paths(nodes.push(n)) =~= node_paths(nodes).push(n.path@));
}

proof fn lemma_prefix_paths<T>(a: Seq<ConfigNode<T>>, b: Seq<ConfigNode<T>>)
    requires
        a.len() <= b.len(),
        b.subrange(0, a.len() as int) == a,
    ensures
        forall|x: Seq<char>| node_paths(a).contains(x) ==> #[trigger] node_paths(b).contains(x),
        node_paths(b).subrange(0, a.len() as int) == node_paths(a),
{
    assert(node_paths(b).subrange(0, a.len() as int) =~= node_paths(a));
    assert forall|x: Seq<char>| node_paths(a).contains(x) implies #[trigger] node_paths(b).contains(x) by {
        let k = choose|k: int| 0 <= k < node_paths(a).len() && node_paths(a)[k] == x;
        assert(node_paths(b)[k] == x);
    }
}

impl ConfigTreeOptions {
    /// Recursively loads one source path and the paths it declares.
    fn collect<T, F>(
        &self,
        cwd: &str,
        path: &str,
        load: &F,
        state: &mut TraversalState,
        nodes: &mut Vec<ConfigNode<T>>,
        Ghost(root): Ghost<Seq<char>>,
    ) -> (r: Result<(), ConfigTreeError>) where F: Fn(&str) -> Result<ConfigSource<T>, String>
        requires
            forall|p: &str| call_requires(*load, (p,)),
            traversal_inv(cwd@, *old(state), old(nodes)@, *load),
            old(state).visiting@.len() == 0 ==> spec_absolutize(cwd@, path@) == root,
            old(state).visiting@.len() > 0 ==> simple_walk_from(
                load_reads::<T, F>(*load),
                cwd@,
                root,
                old(state).visiting.deep_view(),
            ) && declares(
                load_reads::<T, F>(*load),
                cwd@,
                old(state).visiting.deep_view().last(),
                spec_absolutize(cwd@, path@),
            ),
            old(state).visiting@.len() == 0 ==> old(nodes)@.len() == 0,
            old(state).visiting@.len() > 0 ==> exists|k: int|
                0 <= k < old(nodes)@.len() && old(nodes)@[k].path@
                    == old(state).visiting.deep_view().last() && #[trigger] child_of(
                    cwd@,
                    old(nodes)@[k],
                    spec_absolutize(cwd@, path@),
                ),
        ensures
            r is Ok ==> {
                &&& traversal_inv(cwd@, *final(state), final(nodes)@, *load)
                &&& final(state).visiting.deep_view() == old(state).visiting.deep_view()
                &&& !old(state).visiting.deep_view().contains(spec_absolutize(cwd@, path@))
                &&& final(nodes)@.len() >= old(nodes)@.len()
                &&& final(nodes)@.subrange(0, old(nodes)@.len() as int) == old(nodes)@
                &&& node_paths(final(nodes)@).contains(spec_absolutize(cwd@, path@))
                &&& old(nodes)@.len() == 0 ==> final(nodes)@.len() > 0 && final(nodes)@[0].path@
                    == spec_absolutize(cwd@, path@)
                &&& dfs_segment(
                    cwd@,
                    reverse_order(self.order()),
                    final(nodes)@,
                    old(nodes)@.len() as int,
                    final(nodes)@.len() as int,
                    spec_absolutize(cwd@, path@),
                )
            },
            r matches Err(e) ==> tree_error_sound(e, *load, cwd@, root),
            r matches Err(e) ==> {
                &&& final(nodes)@.len() >= old(nodes)@.len()
                &&& final(nodes)@.subrange(0, old(nodes)@.len() as int) == old(nodes)@
                &&& nodes_clean(*load, final(nodes)@)
                &&& dfs_fail(
                    cwd@,
                    reverse_order(self.order()),
                    *load,
                    final(nodes)@,
                    old(nodes)@.len() as int,
                    old(state).visiting.deep_view(),
                    spec_absolutize(cwd@, path@),
                    e,
                )
            },
            old(state).visiting@.len() == 0 && load_fails::<T, F>(*load, root) ==> (r matches Err(e)
                && e is Load && e->Load_path@ == root),
        decreases usize::MAX - old(nodes)@.len(),
    {
        let ghost old_nodes = nodes@;
        let ghost old_visiting = state.visiting.deep_view();
        let abs_path = absolutize_lexical_from(cwd, path);
        match state.enter(&abs_path) {
            Err(e) => {
                proof {
                    let pos = choose|pos: int|
                        0 <= pos < old(state).visiting@.len() && old(state).visiting@[pos]@ == abs_path@
                            && (e matches ConfigTreeError::IncludeCycle { chain }
                            && chain.deep_view() == old(state).visiting.deep_view().skip(pos).push(abs_path@));
                    assert(old_visiting[pos] == abs_path@);
                    assert(closes_cycle(load_reads::<T, F>(*load), cwd@, root, old_visiting, pos));
                    lemma_cycle_found(load_reads::<T, F>(*load), cwd@, root, old_visiting, pos);
                    assert(old_visiting.contains(abs_path@));
                    assert(fails_at(e, *load, old_visiting, abs_path@));
                    assert(nodes@.subrange(0, old_nodes.len() as int) =~= old_nodes);
                }
                return Err(e);
            },
            Ok(false) => {
                proof {
                    if old_visiting.len() == 0 {
                        assert(node_paths(old_nodes) =~= Seq::<Seq<char>>::empty());
                    }
                    assert(nodes@.subrange(0, old_nodes.len() as int) =~= old_nodes);
                    lemma_prefix_paths(old_nodes, nodes@);
                    assert(nodes@.take(nodes@.len() as int) =~= nodes@);
                }
                return Ok(());
            },
            Ok(true) => {},
        }
        let ghost reads = load_reads::<T, F>(*load);
        let ghost walk = old_visiting.push(abs_path@);
        proof {
            if old_visiting.len() == 0 {
                lemma_walk_root(reads, cwd@, root);
                assert(walk =~= seq![root]);
            } else {
                lemma_walk_push(reads, cwd@, root, old_visiting, abs_path@);
            }
            assert(simple_walk_from(reads, cwd@, root, walk));
            assert(reachable(reads, cwd@, root, abs_path@));
        }
        let p = abs_path.as_str();
        let loaded = load(p);
        let ghost gl = loaded;
        let node = match node_from_load(p, loaded) {
            Ok(n) => n,
            Err(e) => {
                proof {
                    assert(call_ensures(*load, (p,), gl));
                    if gl is Ok {
                        assert(call_ensures(*load, (p,), Ok::<ConfigSource<T>, String>(gl->Ok_0)));
                    } else {
                        assert(call_ensures(*load, (p,), Err::<ConfigSource<T>, String>(gl->Err_0)));
                    }
                    assert(tree_error_sound(e, *load, cwd@, root));
                    assert(nodes@.take(old_nodes.len() as int) =~= old_nodes);
                    assert(nodes@.subrange(0, old_nodes.len() as int) =~= old_nodes);
                    assert(!node_paths(old_nodes).contains(abs_path@));
                    assert(fails_at(e, *load, old_visiting, abs_path@));
                }
                return Err(e);
            },
        };
        let includes = clone_strings(&node.includes);
        let ghost src = gl->Ok_0;
        proof {
            assert(call_ensures(*load, (p,), Ok::<ConfigSource<T>, String>(src)));
            assert(includes.deep_view() == src.spec_includes());
            assert(reads(abs_path@, includes.deep_view()));
            if old_visiting.len() == 0 && load_fails::<T, F>(*load, root) {
                assert(call_ensures(*load, (p,), gl));
            }
        }
        let me = nodes.len();
        let ghost gnode = node;
        nodes.push(node);
        proof {
            lemma_node_paths_push(old_nodes, gnode);
            assert(nodes@ == old_nodes.push(gnode));
            assert(node_sourced(*load, gnode));
            assert forall|i: int| 0 <= i < nodes@.len() implies node_sourced(*load, #[trigger] nodes@[i]) by {
                if i < me as int {
                    assert(nodes@[i] == old_nodes[i]);
                }
            }
            assert forall|i: int, j: int|
                0 <= i < nodes@.len() && 0 <= j < nodes@[i].includes@.len() implies (#[trigger] nodes@[i].includes@[j])@.len() > 0 by {
                if i < me as int {
                    assert(nodes@[i] == old_nodes[i]);
                    assert(tree_wf(cwd@, old_nodes, *load));
                    assert(old_nodes[i].includes@[j]@.len() > 0);
                } else {
                    assert(nodes@[i] == gnode);
                    assert(gnode.includes.deep_view().len() == gnode.includes@.len());
                    assert(includes.deep_view().len() == includes@.len());
                    assert(gnode.includes.deep_view()[j] == includes.deep_view()[j]);
                    assert(src.spec_includes()[j].len() > 0);
                    assert(includes@[j]@ == includes.deep_view()[j]);
                    assert(gnode.includes@[j]@ == gnode.includes.deep_view()[j]);
                    assert(nodes@[i].includes@[j]@.len() > 0);
                }
            }
            if old_nodes.len() > 0 {
                assert(old_visiting.len() > 0);
                let k = choose|k: int|
                    0 <= k < old(nodes)@.len() && old(nodes)@[k].path@ == old(state).visiting.deep_view().last() && #[trigger] child_of(
                        cwd@, old(nodes)@[k], spec_absolutize(cwd@, path@));
                lemma_parents_first_push(cwd@, old_nodes, gnode, k);
            } else {
                lemma_parents_first_push(cwd@, old_nodes, gnode, 0);
            }
            assert forall|i: int|
                0 <= i < nodes@.len() && !state.visiting.deep_view().contains(#[trigger] nodes@[i].path@)
                implies node_closed(cwd@, nodes@, i) by {
                if i < me as int {
                    assert(nodes@[i] == old_nodes[i]);
                    if old_visiting.contains(nodes@[i].path@) {
                        let k = choose|k: int| 0 <= k < old_visiting.len() && old_visiting[k] == nodes@[i].path@;
                        assert(state.visiting.deep_view()[k] == nodes@[i].path@);
                    }
                    assert(node_closed(cwd@, old_nodes, i));
                    assert forall|j: int| 0 <= j < nodes@[i].includes@.len() implies node_paths(nodes@).contains(
                        spec_absolutize(cwd@, spec_resolve(nodes@[i].path@, #[trigger] nodes@[i].includes@[j]@))) by {
                        let x = spec_absolutize(cwd@, spec_resolve(old_nodes[i].path@, old_nodes[i].includes@[j]@));
                        assert(node_paths(old_nodes).contains(x));
                        let k = choose|k: int| 0 <= k < node_paths(old_nodes).len() && node_paths(old_nodes)[k] == x;
                        assert(node_paths(nodes@)[k] == x);
                    }
                } else {
                    assert(state.visiting.deep_view()[state.visiting.deep_view().len() - 1] == abs_path@);
                }
            }
            assert forall|k: int| 0 <= k < state.visiting@.len() implies node_paths(nodes@).contains(
                #[trigger] state.visiting.deep_view()[k]) by {
                if k < old_visiting.len() {
                    assert(state.visiting.deep_view()[k] == old_visiting[k]);
                    let x = old_visiting[k];
                    assert(node_paths(old_nodes).contains(x));
                    let m = choose|m: int| 0 <= m < node_paths(old_nodes).len() && node_paths(old_nodes)[m] == x;
                    assert(node_paths(nodes@)[m] == x);
                } else {
                    assert(node_paths(nodes@)[me as int] == abs_path@);
                }
            }
            assert(node_paths(nodes@) =~= node_paths(old_nodes).push(abs_path@));
            assert(node_paths(nodes@).no_duplicates());
            assert(state.loaded.deep_view() == node_paths(nodes@));
            assert(state.visiting.deep_view().no_duplicates());
            assert(forall|i: int| 0 <= i < nodes@.len() ==> node_sourced(*load, #[trigger] nodes@[i]));
            assert(forall|i: int, j: int|
                0 <= i < nodes@.len() && 0 <= j < nodes@[i].includes@.len() ==> (#[trigger] nodes@[i].includes@[j])@.len() > 0);
            assert(tree_wf(cwd@, nodes@, *load));
            lemma_finish_enter(cwd@, state.finished@, old_visiting, old_nodes, gnode);
            assert(traversal_inv(cwd@, *state, nodes@, *load));
        }
        let n = includes.len();
        let reverse = match self.include_order {
            IncludeOrder::Reverse => true,
            IncludeOrder::Declared => false,
        };
        let mut t: usize = 0;
        while t < n
            invariant
                n == includes@.len(),
                t <= n,
                forall|p: &str| call_requires(*load, (p,)),
                traversal_inv(cwd@, *state, nodes@, *load),
                state.visiting.deep_view() == old_visiting.push(abs_path@),
                me == old_nodes.len(),
                old_nodes == old(nodes)@,
                nodes@.len() > me,
                nodes@.subrange(0, me as int) == old_nodes,
                nodes@[me as int] == gnode,
                gnode.path@ == abs_path@,
                gnode.includes.deep_view() == includes.deep_view(),
                reverse == reverse_order(self.order()),
                !node_paths(old_nodes).contains(abs_path@),
                abs_path@ == spec_absolutize(cwd@, path@),
                reads == load_reads::<T, F>(*load),
                old_visiting == old(state).visiting.deep_view(),
                !old_visiting.contains(abs_path@),
                walk == old_visiting.push(abs_path@),
                simple_walk_from(reads, cwd@, root, walk),
                reads(abs_path@, includes.deep_view()),
                dfs_children(cwd@, reverse, nodes@, me as int, me + 1, nodes@.len() as int, t as int),
                forall|u: int|
                    #![trigger visit_index(reverse, n as int, u)]
                    0 <= u < t ==> node_paths(nodes@).contains(
                        spec_absolutize(
                            cwd@,
                            spec_resolve(
                                abs_path@,
                                includes@[visit_index(reverse, n as int, u)]@,
                            ),
                        ),
                    ) && !state.visiting.deep_view().contains(
                        spec_absolutize(
                            cwd@,
                            spec_resolve(
                                abs_path@,
                                includes@[visit_index(reverse, n as int, u)]@,
                            ),
                        ),
                    ),
            decreases n - t,
        {
            let idx = if reverse { n - 1 - t } else { t };
            let child = resolve_include_path(abs_path.as_str(), includes[idx].as_str());
            let ghost before = nodes@;
            let cur_len = nodes.len();
            proof {
                assert(state.visiting.deep_view().len() == state.visiting@.len());
                assert(cur_len as int == nodes@.len());
                assert(0 <= usize::MAX - nodes@.len());
                assert(usize::MAX - nodes@.len() < usize::MAX - old(nodes)@.len());
                assert(gnode.includes.deep_view().len() == gnode.includes@.len());
                assert(includes.deep_view().len() == includes@.len());
                assert(gnode.includes@[idx as int]@ == includes@[idx as int]@) by {
                    assert(gnode.includes.deep_view()[idx as int] == includes.deep_view()[idx as int]);
                }
                assert(child_of(cwd@, nodes@[me as int], spec_absolutize(cwd@, child@)));
                assert(includes.deep_view()[idx as int] == includes@[idx as int]@);
                assert(declares(reads, cwd@, abs_path@, spec_absolutize(cwd@, child@)));
                assert(state.visiting.deep_view().last() == abs_path@);
            }
            proof {
                assert(visited_child(cwd@, reverse, nodes@[me as int], t as int) == spec_absolutize(cwd@, child@));
            }
            match self.collect(cwd, child.as_str(), load, state, nodes, Ghost(root)) {
                Err(e) => {
                    proof {
                        let ns = nodes@;
                        let mid = before.len() as int;
                        assert(ns.take(mid) =~= before.take(mid));
                        lemma_children_extend(cwd@, reverse, before, ns, me as int, me + 1, mid, t as int);
                        assert(ns[me as int] == before[me as int]);
                        assert(ns.take(me as int) =~= old_nodes);
                        assert(ns.subrange(0, old_nodes.len() as int) =~= old_nodes);
                        assert(boundary(mid));
                        assert(gnode.includes.deep_view().len() == gnode.includes@.len());
                        assert(includes.deep_view().len() == includes@.len());
                        assert(ns[me as int].includes@.len() == n);
                        assert(dfs_fail(cwd@, reverse, *load, ns, mid, old_visiting.push(abs_path@),
                            visited_child(cwd@, reverse, ns[me as int], t as int), e));
                        assert(dfs_fail(cwd@, reverse, *load, ns, me as int, old_visiting, abs_path@, e));
                    }
                    return Err(e);
                },
                Ok(()) => {},
            }
            proof {
                lemma_prefix_paths(before, nodes@);
                assert(nodes@.subrange(0, me as int) =~= before.subrange(0, me as int));
                assert(nodes@[me as int] == before[me as int]);
                assert(nodes@.take(before.len() as int) =~= before.take(before.len() as int));
                lemma_children_extend(cwd@, reverse, before, nodes@, me as int, me + 1, before.len() as int, t as int);
                assert(visited_child(cwd@, reverse, nodes@[me as int], t as int) == spec_absolutize(cwd@, child@));
                assert(boundary(before.len() as int));
                assert(dfs_children(cwd@, reverse, nodes@, me as int, me + 1, nodes@.len() as int, t + 1));
            }
            t = t + 1;
        }
        proof {
            assert(node_closed(cwd@, nodes@, me as int)) by {
                assert forall|j: int| 0 <= j < nodes@[me as int].includes@.len() implies node_paths(nodes@).contains(
                    spec_absolutize(cwd@, spec_resolve(nodes@[me as int].path@, #[trigger] nodes@[me as int].includes@[j]@))) by {
                    assert(nodes@[me as int] == gnode);
                    assert(gnode.includes.deep_view().len() == gnode.includes@.len());
                    assert(includes.deep_view().len() == includes@.len());
                    assert(j < n);
                    let u = if reverse { n - 1 - j } else { j };
                    assert(visit_index(reverse, n as int, u) == j);
                    assert(gnode.includes@[j]@ == includes@[j]@) by {
                        assert(gnode.includes.deep_view()[j] == includes.deep_view()[j]);
                    }
                    assert(t == n);
                    assert(0 <= u < t);
                }
            }
        }
        let ghost f_before = state.finished@;
        proof {
            assert forall|j: int| 0 <= j < nodes@[me as int].includes@.len() implies f_before.contains(
                #[trigger] child_path(cwd@, nodes@, me as int, j)) by {
                assert(nodes@[me as int] == gnode);
                assert(gnode.includes.deep_view().len() == gnode.includes@.len());
                assert(includes.deep_view().len() == includes@.len());
                assert(j < n);
                let u = if reverse { n - 1 - j } else { j };
                assert(visit_index(reverse, n as int, u) == j);
                assert(gnode.includes@[j]@ == includes@[j]@) by {
                    assert(gnode.includes.deep_view()[j] == includes.deep_view()[j]);
                }
                assert(0 <= u < t);
                let c = child_path(cwd@, nodes@, me as int, j);
                assert(node_paths(nodes@).contains(c) && !state.visiting.deep_view().contains(c));
            }
            assert(nodes@[me as int].path@ == abs_path@);
            assert(node_paths(nodes@).no_duplicates());
        }
        state.leave();
        proof {
            lemma_finish_leave(cwd@, f_before, old_visiting, nodes@, me as int);
            assert(state.visiting.deep_view() =~= old_visiting);
            assert forall|i: int|
                0 <= i < nodes@.len() && !state.visiting.deep_view().contains(#[trigger] nodes@[i].path@)
                implies node_closed(cwd@, nodes@, i) by {
                if i != me as int {
                    if old_visiting.push(abs_path@).contains(nodes@[i].path@) {
                        let k = choose|k: int| 0 <= k < old_visiting.push(abs_path@).len() && old_visiting.push(abs_path@)[k] == nodes@[i].path@;
                        if k < old_visiting.len() {
                            assert(old_visiting[k] == nodes@[i].path@);
                        } else {
                            assert(node_paths(nodes@)[i] == node_paths(nodes@)[me as int]);
                        }
                    }
                }
            }
            assert forall|k: int| 0 <= k < state.visiting@.len() implies node_paths(nodes@).contains(
                #[trigger] state.visiting.deep_view()[k]) by {
                assert(old_visiting.push(abs_path@)[k] == old_visiting[k]);
            }
            assert(node_paths(nodes@)[me as int] == abs_path@);
            lemma_prefix_paths(old_nodes, nodes@);
            assert(nodes@.take(me as int) =~= old_nodes);
            assert(gnode.includes.deep_view().len() == gnode.includes@.len());
            assert(includes.deep_view().len() == includes@.len());
            assert(nodes@[me as int].includes@.len() == n);
            assert(dfs_segment(cwd@, reverse, nodes@, me as int, nodes@.len() as int, abs_path@));
        }
        Ok(())
    }
}


/// What a successful load returns: a well-formed tree whose first node is the
/// root path made absolute, in which every declared path of every node
/// resolves to a loaded node.
pub open spec fn tree_loaded<T, F: Fn(&str) -> Result<ConfigSource<T>, String>>(
    cwd: Seq<char>,
    root: Seq<char>,
    nodes: Seq<ConfigNode<T>>,
    load: F,
) -> bool {
    &&& tree_wf(cwd, nodes, load)
    &&& nodes.len() >= 1
    &&& nodes[0].path@ == spec_absolutize(cwd, root)
    &&& forall|i: int| 0 <= i < nodes.len() ==> #[trigger] node_closed(cwd, nodes, i)
}

/// The nodes are those of a depth-first load from the root: the root's node,
/// then what loading each of its declared paths adds, in visit order, a path
/// loaded before adding nothing.
pub open spec fn tree_order<T>(cwd: Seq<char>, reverse: bool, root: Seq<char>, nodes: Seq<ConfigNode<T>>) -> bool {
    dfs_segment(cwd, reverse, nodes, 0, nodes.len() as int, spec_absolutize(cwd, root))
}

/// The absolute paths a node's declared paths lead to, in visit order.
pub open spec fn visit_seq<T>(cwd: Seq<char>, reverse: bool, node: ConfigNode<T>) -> Seq<Seq<char>> {
    Seq::new(node.includes@.len(), |u: int| visited_child(cwd, reverse, node, u))
}

/// Nodes of `a` and `b` with one path lead to the same paths in the same
/// visit order.
pub open spec fn visits_agree<T>(
    cwd: Seq<char>,
    ra: bool,
    a: Seq<ConfigNode<T>>,
    rb: bool,
    b: Seq<ConfigNode<T>>,
) -> bool {
    forall|i: int, k: int|
        #![trigger a[i], b[k]]
        0 <= i < a.len() && 0 <= k < b.len() && a[i].path@ == b[k].path@ ==> visit_seq(cwd, ra, a[i])
            == visit_seq(cwd, rb, b[k])
}

proof fn lemma_segments_agree<T>(
    cwd: Seq<char>,
    ra: bool,
    a: Seq<ConfigNode<T>>,
    rb: bool,
    b: Seq<ConfigNode<T>>,
    start: int,
    ea: int,
    eb: int,
    path: Seq<char>,
)
    requires
        visits_agree(cwd, ra, a, rb, b),
        dfs_segment(cwd, ra, a, start, ea, path),
        dfs_segment(cwd, rb, b, start, eb, path),
        node_paths(a.take(start)) == node_paths(b.take(start)),
    ensures
        ea == eb,
        node_paths(a.take(ea)) == node_paths(b.take(eb)),
    decreases ea - start, 0int, 0int,
{
    if !node_paths(a.take(start)).contains(path) {
        let n = a[start].includes@.len() as int;
        assert(a[start].path@ == b[start].path@);
        assert(visit_seq(cwd, ra, a[start]) == visit_seq(cwd, rb, b[start]));
        assert(visit_seq(cwd, ra, a[start]).len() == n);
        assert(b[start].includes@.len() == n);
        assert(node_paths(a.take(start + 1)) =~= node_paths(a.take(start)).push(path));
        assert(node_paths(b.take(start + 1)) =~= node_paths(b.take(start)).push(path));
        lemma_children_agree(cwd, ra, a, rb, b, start, start + 1, ea, eb, n);
    }
}

proof fn lemma_children_agree<T>(
    cwd: Seq<char>,
    ra: bool,
    a: Seq<ConfigNode<T>>,
    rb: bool,
    b: Seq<ConfigNode<T>>,
    parent: int,
    lo: int,
    ha: int,
    hb: int,
    k: int,
)
    requires
        visits_agree(cwd, ra, a, rb, b),
        dfs_children(cwd, ra, a, parent, lo, ha, k),
        dfs_children(cwd, rb, b, parent, lo, hb, k),
        0 <= parent < a.len(),
        0 <= parent < b.len(),
        a[parent].path@ == b[parent].path@,
        node_paths(a.take(lo)) == node_paths(b.take(lo)),
    ensures
        ha == hb,
        node_paths(a.take(ha)) == node_paths(b.take(hb)),
    decreases ha - lo, 1int, k,
{
    if k > 0 {
        let ma = choose|mid: int|
            #[trigger] boundary(mid) && lo <= mid <= ha && dfs_children(cwd, ra, a, parent, lo, mid, k - 1)
                && dfs_segment(cwd, ra, a, mid, ha, visited_child(cwd, ra, a[parent], k - 1));
        let mb = choose|mid: int|
            #[trigger] boundary(mid) && lo <= mid <= hb && dfs_children(cwd, rb, b, parent, lo, mid, k - 1)
                && dfs_segment(cwd, rb, b, mid, hb, visited_child(cwd, rb, b[parent], k - 1));
        lemma_children_agree(cwd, ra, a, rb, b, parent, lo, ma, mb, k - 1);
        assert(visit_seq(cwd, ra, a[parent]) == visit_seq(cwd, rb, b[parent]));
        assert(visit_seq(cwd, ra, a[parent])[k - 1] == visited_child(cwd, ra, a[parent], k - 1));
        assert(visit_seq(cwd, rb, b[parent])[k - 1] == visited_child(cwd, rb, b[parent], k - 1));
        lemma_segments_agree(cwd, ra, a, rb, b, ma, ha, hb, visited_child(cwd, ra, a[parent], k - 1));
    }
}

/// A depth-first load is fixed by where each file's declared paths lead, in
/// visit order: two loads from one root whose files with the same path lead
/// to the same paths in the same visit order load the same paths, in the
/// same order.
pub proof fn lemma_dfs_order_determined<T>(
    cwd: Seq<char>,
    root: Seq<char>,
    ra: bool,
    a: Seq<ConfigNode<T>>,
    rb: bool,
    b: Seq<ConfigNode<T>>,
)
    requires
        tree_order(cwd, ra, root, a),
        tree_order(cwd, rb, root, b),
        visits_agree(cwd, ra, a, rb, b),
    ensures
        node_paths(a) == node_paths(b),
{
    assert(node_paths(a.take(0)) =~= node_paths(b.take(0)));
    lemma_segments_agree(cwd, ra, a, rb, b, 0, a.len() as int, b.len() as int, spec_absolutize(cwd, root));
    assert(a.take(a.len() as int) =~= a);
    assert(b.take(b.len() as int) =~= b);
}

/// Loading in reverse sibling order loads the paths, in the same order, that
/// loading in declared order loads when every file declares its paths in
/// reverse.
pub proof fn lemma_reverse_order_is_reversed_paths<T>(
    cwd: Seq<char>,
    root: Seq<char>,
    a: Seq<ConfigNode<T>>,
    b: Seq<ConfigNode<T>>,
)
    requires
        tree_order(cwd, true, root, a),
        tree_order(cwd, false, root, b),
        forall|i: int, k: int|
            #![trigger a[i], b[k]]
            0 <= i < a.len() && 0 <= k < b.len() && a[i].path@ == b[k].path@ ==> b[k].includes.deep_view()
                == a[i].includes.deep_view().reverse(),
    ensures
        node_paths(a) == node_paths(b),
{
    assert forall|i: int, k: int|
        #![trigger a[i], b[k]]
        0 <= i < a.len() && 0 <= k < b.len() && a[i].path@ == b[k].path@ implies visit_seq(cwd, true, a[i])
            == visit_seq(cwd, false, b[k]) by {
        let na = a[i];
        let nb = b[k];
        let n = na.includes@.len() as int;
        assert(na.includes.deep_view().len() == n);
        assert(nb.includes.deep_view().len() == nb.includes@.len());
        assert forall|u: int| 0 <= u < n implies #[trigger] visited_child(cwd, true, na, u) == visited_child(
            cwd, false, nb, u) by {
            assert(nb.includes.deep_view()[u] == na.includes.deep_view().reverse()[u]);
            assert(na.includes.deep_view()[n - 1 - u] == na.includes@[n - 1 - u]@);
            assert(nb.includes.deep_view()[u] == nb.includes@[u]@);
        }
        assert(visit_seq(cwd, true, na) =~= visit_seq(cwd, false, nb));
    }
    lemma_dfs_order_determined(cwd, root, true, a, false, b);
}

/// `r2` is `r1` with its declared paths reversed: the same failure, or a
/// source with the same value whose paths come in reverse order.
pub open spec fn reversed_result<T>(r1: Result<ConfigSource<T>, String>, r2: Result<ConfigSource<T>, String>) -> bool {
    match r1 {
        Err(m) => r2 == Err::<ConfigSource<T>, String>(m),
        Ok(s1) => r2 is Ok && r2->Ok_0.spec_value() == s1.spec_value() && r2->Ok_0.spec_includes()
            == s1.spec_includes().reverse(),
    }
}

/// For every path, loader `l2` gives what `l1` gives with the declared
/// paths reversed.
pub open spec fn reversed_loaders<
    T,
    F: Fn(&str) -> Result<ConfigSource<T>, String>,
    G: Fn(&str) -> Result<ConfigSource<T>, String>,
>(l1: F, l2: G) -> bool {
    &&& forall|p: &str, r2: Result<ConfigSource<T>, String>|
        #[trigger] call_ensures(l2, (p,), r2) ==> exists|r1: Result<ConfigSource<T>, String>|
            #[trigger] call_ensures(l1, (p,), r1) && reversed_result(r1, r2)
    &&& forall|p: &str, r1: Result<ConfigSource<T>, String>|
        #[trigger] call_ensures(l1, (p,), r1) ==> exists|r2: Result<ConfigSource<T>, String>|
            #[trigger] call_ensures(l2, (p,), r2) && reversed_result(r1, r2)
}

/// Reversing a list of paths keeps each path, at the mirrored position.
proof fn lemma_reverse_index(incs: Seq<Seq<char>>, j: int)
    requires
        0 <= j < incs.len(),
    ensures
        incs.reverse().len() == incs.len(),
        incs.reverse()[incs.len() - 1 - j] == incs[j],
        incs.reverse().reverse() == incs,
{
    assert(incs.reverse().reverse() =~= incs);
}

/// A tree loads fully with a loader exactly when it does with a loader
/// that gives the same results with the declared paths reversed: the files
/// a file leads to do not depend on the order it declares them in.
#[verifier::rlimit(60)]
pub proof fn lemma_reversed_loaders_load_alike<
    T,
    F: Fn(&str) -> Result<ConfigSource<T>, String>,
    G: Fn(&str) -> Result<ConfigSource<T>, String>,
>(l1: F, l2: G, cwd: Seq<char>, root: Seq<char>)
    requires
        reversed_loaders::<T, F, G>(l1, l2),
    ensures
        tree_loads(l1, cwd, root) == tree_loads(l2, cwd, root),
{
    let r1 = load_reads::<T, F>(l1);
    let r2 = load_reads::<T, G>(l2);
    assert forall|a: Seq<char>, b: Seq<char>| #[trigger] declares(r1, cwd, a, b) implies declares(r2, cwd, a, b) by {
        let (incs, j) = choose|incs: Seq<Seq<char>>, j: int|
            #![trigger r1(a, incs), incs[j]]
            r1(a, incs) && 0 <= j < incs.len() && b == spec_absolutize(cwd, spec_resolve(a, incs[j]));
        let (p, s1) = choose|p: &str, s1: ConfigSource<T>|
            p@ == a && call_ensures(l1, (p,), Ok::<ConfigSource<T>, String>(s1)) && s1.spec_includes() == incs;
        assert(call_ensures(l1, (p,), Ok::<ConfigSource<T>, String>(s1)));
        let o2 = choose|o2: Result<ConfigSource<T>, String>|
            #[trigger] call_ensures(l2, (p,), o2) && reversed_result(Ok::<ConfigSource<T>, String>(s1), o2);
        let s2 = o2->Ok_0;
        assert(call_ensures(l2, (p,), Ok::<ConfigSource<T>, String>(s2)));
        lemma_reverse_index(incs, j);
        assert(r2(a, incs.reverse()));
        assert(incs.reverse()[incs.len() - 1 - j] == incs[j]);
    }
    assert forall|a: Seq<char>, b: Seq<char>| #[trigger] declares(r2, cwd, a, b) implies declares(r1, cwd, a, b) by {
        let (incs, j) = choose|incs: Seq<Seq<char>>, j: int|
            #![trigger r2(a, incs), incs[j]]
            r2(a, incs) && 0 <= j < incs.len() && b == spec_absolutize(cwd, spec_resolve(a, incs[j]));
        let (p, s2) = choose|p: &str, s2: ConfigSource<T>|
            p@ == a && call_ensures(l2, (p,), Ok::<ConfigSource<T>, String>(s2)) && s2.spec_includes() == incs;
        assert(call_ensures(l2, (p,), Ok::<ConfigSource<T>, String>(s2)));
        let o1 = choose|o1: Result<ConfigSource<T>, String>|
            #[trigger] call_ensures(l1, (p,), o1) && reversed_result(o1, Ok::<ConfigSource<T>, String>(s2));
        let s1 = o1->Ok_0;
        assert(o1 is Ok);
        assert(call_ensures(l1, (p,), Ok::<ConfigSource<T>, String>(s1)));
        lemma_reverse_index(s1.spec_includes(), incs.len() - 1 - j);
        assert(s1.spec_includes() == incs.reverse()) by {
            lemma_reverse_index(incs, j);
        }
        assert(r1(a, incs.reverse()));
        lemma_reverse_index(incs, j);
    }
    lemma_declares_mono(r1, r2, cwd, root);
    lemma_declares_mono(r2, r1, cwd, root);
    assert forall|q: Seq<char>| loads_cleanly::<T, F>(l1, q) <==> loads_cleanly::<T, G>(l2, q) by {
        if loads_cleanly::<T, F>(l1, q) {
            assert forall|p: &str, res: Result<ConfigSource<T>, String>|
                #[trigger] call_ensures(l2, (p,), res) && p@ == q implies res is Ok && no_empty_path(
                    res->Ok_0.spec_includes()) by {
                let o1 = choose|o1: Result<ConfigSource<T>, String>|
                    #[trigger] call_ensures(l1, (p,), o1) && reversed_result(o1, res);
                assert(o1 is Ok && no_empty_path(o1->Ok_0.spec_includes()));
                let incs = o1->Ok_0.spec_includes();
                assert forall|i: int| 0 <= i < res->Ok_0.spec_includes().len() implies (
                #[trigger] res->Ok_0.spec_includes()[i]).len() > 0 by {
                    lemma_reverse_index(incs, incs.len() - 1 - i);
                }
            }
        }
        if loads_cleanly::<T, G>(l2, q) {
            assert forall|p: &str, res: Result<ConfigSource<T>, String>|
                #[trigger] call_ensures(l1, (p,), res) && p@ == q implies res is Ok && no_empty_path(
                    res->Ok_0.spec_includes()) by {
                let o2 = choose|o2: Result<ConfigSource<T>, String>|
                    #[trigger] call_ensures(l2, (p,), o2) && reversed_result(res, o2);
                assert(o2 is Ok && no_empty_path(o2->Ok_0.spec_includes()));
                assert(res is Ok);
                let incs = res->Ok_0.spec_includes();
                assert forall|i: int| 0 <= i < incs.len() implies (#[trigger] incs[i]).len() > 0 by {
                    lemma_reverse_index(incs, i);
                    assert(o2->Ok_0.spec_includes()[incs.len() - 1 - i] == incs[i]);
                }
            }
        }
    }
    if tree_loads(l1, cwd, root) {
        assert forall|q: Seq<char>| #[trigger] reachable(r2, cwd, root, q) implies loads_cleanly::<T, G>(l2, q) by {
            assert(reachable(r1, cwd, root, q));
        }
    }
    if tree_loads(l2, cwd, root) {
        assert forall|q: Seq<char>| #[trigger] reachable(r1, cwd, root, q) implies loads_cleanly::<T, F>(l1, q) by {
            assert(reachable(r2, cwd, root, q));
        }
    }
}

/// A tree loaded in reverse sibling order with a loader that gives one
/// result per path, and the tree loaded in declared order with a loader
/// that gives the same results with the declared paths reversed, hold the
/// same paths and the same values, in the same order.
pub proof fn lemma_reversed_loaders_trees_alike<
    T,
    F: Fn(&str) -> Result<ConfigSource<T>, String>,
    G: Fn(&str) -> Result<ConfigSource<T>, String>,
>(l1: F, l2: G, cwd: Seq<char>, root_path: Seq<char>, a: Seq<ConfigNode<T>>, b: Seq<ConfigNode<T>>)
    requires
        deterministic_loader(l1),
        reversed_loaders::<T, F, G>(l1, l2),
        tree_loaded(cwd, root_path, a, l1),
        tree_order(cwd, true, root_path, a),
        tree_loaded(cwd, root_path, b, l2),
        tree_order(cwd, false, root_path, b),
    ensures
        node_paths(a) == node_paths(b),
        node_values(a) == node_values(b),
{
    assert forall|i: int, k: int|
        #![trigger a[i], b[k]]
        0 <= i < a.len() && 0 <= k < b.len() && a[i].path@ == b[k].path@ implies b[k].includes.deep_view()
            == a[i].includes.deep_view().reverse() && b[k].value == a[i].value by {
        assert(node_sourced(l1, a[i]));
        assert(node_sourced(l2, b[k]));
        let (p1, s1) = choose|p1: &str, s1: ConfigSource<T>|
            #![trigger call_ensures(l1, (p1,), Ok::<ConfigSource<T>, String>(s1))]
            p1@ == a[i].path@ && call_ensures(l1, (p1,), Ok::<ConfigSource<T>, String>(s1))
                && s1.spec_value() == a[i].value && s1.spec_includes() == a[i].includes.deep_view();
        let (p2, s2) = choose|p2: &str, s2: ConfigSource<T>|
            #![trigger call_ensures(l2, (p2,), Ok::<ConfigSource<T>, String>(s2))]
            p2@ == b[k].path@ && call_ensures(l2, (p2,), Ok::<ConfigSource<T>, String>(s2))
                && s2.spec_value() == b[k].value && s2.spec_includes() == b[k].includes.deep_view();
        let o1 = choose|o1: Result<ConfigSource<T>, String>|
            #[trigger] call_ensures(l1, (p2,), o1) && reversed_result(o1, Ok::<ConfigSource<T>, String>(s2));
        assert(call_ensures(l1, (p1,), Ok::<ConfigSource<T>, String>(s1)));
        assert(o1 == Ok::<ConfigSource<T>, String>(s1));
    }
    lemma_reverse_order_is_reversed_paths(cwd, root_path, a, b);
    assert(node_paths(a).len() == node_paths(b).len());
    assert forall|i: int| 0 <= i < a.len() implies a[i].value == b[i].value by {
        assert(node_paths(a)[i] == node_paths(b)[i]);
    }
    assert(node_values(a) =~= node_values(b));
}

impl ConfigTreeOptions {
    /// Loads a config tree from `root_path`, making relative paths absolute
    /// against `current_dir`.
    ///
    /// The loader returns both the source value and the paths declared by
    /// that source. Relative declared paths are resolved from the source path.
    ///
    /// The load succeeds whenever every file reachable from the root loads
    /// with non-empty declared paths and no cycle of declared paths is
    /// reachable; with a loader that gives one result per path, exactly then.
    /// A failure names a reachable file the loader failed on, the first empty
    /// declared path of a reachable file, or the cycle met, from the repeated
    /// file along the walk from the root and back to it; and it is the first
    /// failure that the depth-first load meets, after loading in full every
    /// path visited before it.
    pub fn load_from<T, F>(&self, current_dir: &str, root_path: &str, load: F) -> (r: Result<
        ConfigTree<T>,
        ConfigTreeError,
    >) where F: Fn(&str) -> Result<ConfigSource<T>, String>
        requires
            forall|p: &str| call_requires(load, (p,)),
        ensures
            r matches Ok(tree) ==> tree_loaded(current_dir@, root_path@, tree.nodes@, load) && tree_order(
                current_dir@,
                reverse_order(self.order()),
                root_path@,
                tree.nodes@,
            ),
            r matches Err(e) ==> tree_error_sound(e, load, current_dir@, spec_absolutize(current_dir@, root_path@))
                && tree_fails(e, load, current_dir@, reverse_order(self.order()), root_path@),
            tree_loads(load, current_dir@, spec_absolutize(current_dir@, root_path@)) ==> r is Ok,
            deterministic_loader(load) ==> (r is Ok <==> tree_loads(
                load,
                current_dir@,
                spec_absolutize(current_dir@, root_path@),
            )),
            load_fails::<T, F>(load, spec_absolutize(current_dir@, root_path@)) ==> (r matches Err(e) && e is Load
                && e->Load_path@ == spec_absolutize(current_dir@, root_path@)),
    {
        let ghost root = spec_absolutize(current_dir@, root_path@);
        let ghost empty_stack = Seq::<Seq<char>>::empty();
        let mut state = TraversalState::new();
        let mut nodes: Vec<ConfigNode<T>> = Vec::new();
        proof {
            assert(node_paths(nodes@) =~= Seq::<Seq<char>>::empty());
            assert(state.loaded.deep_view() =~= node_paths(nodes@));
            assert(state.visiting.deep_view() =~= Seq::<Seq<char>>::empty());
            assert(state.visiting.deep_view() == empty_stack);
        }
        match self.collect(current_dir, root_path, &load, &mut state, &mut nodes, Ghost(root)) {
            Err(e) => {
                proof {
                    lemma_error_refutes_load(e, load, current_dir@, root);
                    assert(nodes_clean(load, nodes@));
                }
                Err(e)
            },
            Ok(()) => {
                proof {
                    assert(state.visiting.deep_view().len() == 0);
                    assert forall|i: int| 0 <= i < nodes@.len() implies #[trigger] node_closed(current_dir@, nodes@, i) by {
                        assert(!state.visiting.deep_view().contains(nodes@[i].path@));
                    }
                    if deterministic_loader(load) {
                        let f = state.finished@;
                        assert forall|x: Seq<char>| #[trigger] f.contains(x) <==> node_paths(nodes@).contains(x) by {
                            assert(!state.visiting.deep_view().contains(x));
                        }
                        lemma_complete_tree_loads(load, current_dir@, root, nodes@, f);
                    }
                }
                Ok(ConfigTree { nodes })
            },
        }
    }

    /// Loads a config tree from `root_path` with a custom source loader.
    ///
    /// Relative paths are made absolute against the process's current
    /// directory.
    pub fn load<T, F>(&self, root_path: &str, load: F) -> (r: Result<ConfigTree<T>, ConfigTreeError>) where
        F: Fn(&str) -> Result<ConfigSource<T>, String>
        requires
            forall|p: &str| call_requires(load, (p,)),
        ensures
            r matches Ok(tree) ==> exists|cwd: Seq<char>|
                is_abs(cwd) && tree_loaded(cwd, root_path@, tree.nodes@, load) && tree_order(
                    cwd,
                    reverse_order(self.order()),
                    root_path@,
                    tree.nodes@,
                ),
            r matches Err(e) ==> (e is CurrentDir && !is_abs(root_path@)) || exists|cwd: Seq<char>|
                is_abs(cwd) && tree_error_sound(e, load, cwd, spec_absolutize(cwd, root_path@)) && tree_fails(
                    e,
                    load,
                    cwd,
                    reverse_order(self.order()),
                    root_path@,
                ),
            (forall|cwd: Seq<char>| is_abs(cwd) ==> #[trigger] tree_loads(load, cwd, spec_absolutize(cwd, root_path@)))
                ==> (r is Ok || (r->Err_0 is CurrentDir && !is_abs(root_path@))),
            deterministic_loader(load) && r is Ok ==> exists|cwd: Seq<char>|
                is_abs(cwd) && tree_loads(load, cwd, spec_absolutize(cwd, root_path@)),
            (forall|cwd: Seq<char>|
                is_abs(cwd) ==> #[trigger] load_fails::<T, F>(load, spec_absolutize(cwd, root_path@))) ==> (r matches Err(
                e) && ((e is CurrentDir && !is_abs(root_path@)) || (e is Load && exists|cwd: Seq<char>|
                is_abs(cwd) && e->Load_path@ == spec_absolutize(cwd, root_path@)))),
    {
        let cwd = match current_dir() {
            Ok(c) => c,
            Err(e) => {
                if path_is_absolute(root_path) {
                    let root = String::from_str("/");
                    proof {
                        reveal_strlit("/");
                    }
                    root
                } else {
                    return Err(e);
                }
            },
        };
        let ghost g = cwd@;
        proof {
            reveal_strlit("/");
        }
        assert(is_abs(g));
        let r = self.load_from(cwd.as_str(), root_path, load);
        assert(r matches Ok(tree) ==> is_abs(g) && tree_loaded(g, root_path@, tree.nodes@, load) && tree_order(
            g,
            reverse_order(self.order()),
            root_path@,
            tree.nodes@,
        ));
        assert(r matches Err(e) ==> is_abs(g) && tree_error_sound(e, load, g, spec_absolutize(g, root_path@))
            && tree_fails(e, load, g, reverse_order(self.order()), root_path@));
        proof {
            if forall|cwd: Seq<char>| is_abs(cwd) ==> #[trigger] tree_loads(load, cwd, spec_absolutize(cwd, root_path@)) {
                assert(tree_loads(load, g, spec_absolutize(g, root_path@)));
            }
            if forall|cwd: Seq<char>| is_abs(cwd) ==> #[trigger] load_fails::<T, F>(load, spec_absolutize(cwd, root_path@)) {
                assert(load_fails::<T, F>(load, spec_absolutize(g, root_path@)));
            }
            if deterministic_loader(load) && r is Ok {
                assert(tree_loads(load, g, spec_absolutize(g, root_path@)));
            }
        }
        r
    }
}

/// Loads a config tree with default traversal options.
pub fn load_config_tree<T, F>(root_path: &str, load: F) -> (r: Result<ConfigTree<T>, ConfigTreeError>) where
    F: Fn(&str) -> Result<ConfigSource<T>, String>
    requires
        forall|p: &str| call_requires(load, (p,)),
    ensures
        r matches Ok(tree) ==> exists|cwd: Seq<char>|
            is_abs(cwd) && tree_loaded(cwd, root_path@, tree.nodes@, load) && tree_order(cwd, false, root_path@, tree.nodes@),
        r matches Err(e) ==> (e is CurrentDir && !is_abs(root_path@)) || exists|cwd: Seq<char>|
            is_abs(cwd) && tree_error_sound(e, load, cwd, spec_absolutize(cwd, root_path@)) && tree_fails(
                e,
                load,
                cwd,
                false,
                root_path@,
            ),
        (forall|cwd: Seq<char>| is_abs(cwd) ==> #[trigger] tree_loads(load, cwd, spec_absolutize(cwd, root_path@)))
            ==> (r is Ok || (r->Err_0 is CurrentDir && !is_abs(root_path@))),
        deterministic_loader(load) && r is Ok ==> exists|cwd: Seq<char>|
            is_abs(cwd) && tree_loads(load, cwd, spec_absolutize(cwd, root_path@)),
        (forall|cwd: Seq<char>|
            is_abs(cwd) ==> #[trigger] load_fails::<T, F>(load, spec_absolutize(cwd, root_path@))) ==> (r matches Err(e)
            && ((e is CurrentDir && !is_abs(root_path@)) || (e is Load && exists|cwd: Seq<char>|
            is_abs(cwd) && e->Load_path@ == spec_absolutize(cwd, root_path@)))),
{
    ConfigTreeOptions::default().load(root_path, load)
}

/// The loaded values of a node list, in order.
pub open spec fn node_values<T>(nodes: Seq<ConfigNode<T>>) -> Seq<T> {
    Seq::new(nodes.len(), |i: int| nodes[i].value)
}

impl<T> ConfigTree<T> {
    /// Returns the loaded nodes in traversal order.
    pub fn nodes(&self) -> (r: &[ConfigNode<T>])
        ensures
            r@ == self.nodes@,
    {
        self.nodes.as_slice()
    }

    /// Decomposes the tree into its nodes, preserving traversal order.
    pub fn into_nodes(self) -> (r: Vec<ConfigNode<T>>)
        ensures
            r@ == self.nodes@,
    {
        self.nodes
    }

    /// Decomposes the tree into loaded values, discarding paths.
    pub fn into_values(self) -> (r: Vec<T>)
        ensures
            r@ == node_values(self.nodes@),
    {
        let mut nodes = self.nodes;
        let ghost all = nodes@;
        let mut values: Vec<T> = Vec::new();
        let mut taken: usize = 0;
        let total = nodes.len();
        while nodes.len() > 0
            invariant
                total == all.len(),
                taken <= all.len(),
                nodes@ == all.skip(taken as int),
                values@ == node_values(all).take(taken as int),
            decreases nodes@.len(),
        {
            let node = nodes.remove(0);
            values.push(node.value);
            proof {
                assert(nodes@ =~= all.skip(taken + 1));
                assert(values@ =~= node_values(all).take(taken + 1));
            }
            taken = taken + 1;
        }
        proof {
            assert(taken == all.len());
            assert(node_values(all).take(taken as int) =~= node_values(all));
        }
        values
    }
}

impl<T> ConfigNode<T> {
    /// Returns the normalized absolute source path.
    pub fn path(&self) -> (r: &str)
        ensures
            r@ == self.path@,
    {
        self.path.as_str()
    }

    /// Returns the loaded source value.
    pub fn value(&self) -> (r: &T)
        ensures
            *r == self.value,
    {
        &self.value
    }

    /// Returns the paths declared by this source, as written.
    pub fn includes(&self) -> (r: &[String])
        ensures
            r@ == self.includes@,
    {
        self.includes.as_slice()
    }

    /// Decomposes the node into its loaded value.
    pub fn into_value(self) -> (r: T)
        ensures
            r == self.value,
    {
        self.value
    }
}

} // verus!
