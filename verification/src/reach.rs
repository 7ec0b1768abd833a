//! Which files a tree of declared paths reaches, and which cycles it holds.
//!
//! A relation `reads(p, incs)` says that reading the file `p` may give the
//! declared paths `incs`. A declared path leads to the file it names once
//! resolved from the declaring file and made absolute. Walks, reachability
//! and cycles are stated over that relation, so that loaders, readers and
//! planned readers share one vocabulary.

use vstd::prelude::*;
use crate::path::{spec_absolutize, spec_resolve};

verus! {

/// Reading `a` may declare a path that leads to `b`.
pub open spec fn declares(
    reads: spec_fn(Seq<char>, Seq<Seq<char>>) -> bool,
    cwd: Seq<char>,
    a: Seq<char>,
    b: Seq<char>,
) -> bool {
    exists|incs: Seq<Seq<char>>, j: int|
        #![trigger reads(a, incs), incs[j]]
        reads(a, incs) && 0 <= j < incs.len() && b == spec_absolutize(cwd, spec_resolve(a, incs[j]))
}

/// Step `i` of `w` follows a declared path.
pub open spec fn walk_step(
    reads: spec_fn(Seq<char>, Seq<Seq<char>>) -> bool,
    cwd: Seq<char>,
    w: Seq<Seq<char>>,
    i: int,
) -> bool {
    declares(reads, cwd, w[i], w[i + 1])
}

/// Each file of `w` declares a path leading to the next one.
pub open spec fn is_walk(reads: spec_fn(Seq<char>, Seq<Seq<char>>) -> bool, cwd: Seq<char>, w: Seq<Seq<char>>) -> bool {
    forall|i: int| 0 <= i < w.len() - 1 ==> #[trigger] walk_step(reads, cwd, w, i)
}

/// `w` follows declared paths from `root` and visits no file twice.
pub open spec fn simple_walk_from(
    reads: spec_fn(Seq<char>, Seq<Seq<char>>) -> bool,
    cwd: Seq<char>,
    root: Seq<char>,
    w: Seq<Seq<char>>,
) -> bool {
    &&& w.len() >= 1
    &&& w[0] == root
    &&& is_walk(reads, cwd, w)
    &&& w.no_duplicates()
}

/// Following declared paths from `root` leads to `q`.
pub open spec fn reachable(
    reads: spec_fn(Seq<char>, Seq<Seq<char>>) -> bool,
    cwd: Seq<char>,
    root: Seq<char>,
    q: Seq<char>,
) -> bool {
    exists|w: Seq<Seq<char>>| #[trigger] simple_walk_from(reads, cwd, root, w) && w.last() == q
}

/// `stack` follows declared paths from `root` without repetition, and its
/// last file declares a path leading back to `stack[pos]`.
pub open spec fn closes_cycle(
    reads: spec_fn(Seq<char>, Seq<Seq<char>>) -> bool,
    cwd: Seq<char>,
    root: Seq<char>,
    stack: Seq<Seq<char>>,
    pos: int,
) -> bool {
    &&& simple_walk_from(reads, cwd, root, stack)
    &&& 0 <= pos < stack.len()
    &&& declares(reads, cwd, stack.last(), stack[pos])
}

/// `chain` is a cycle of declared paths as a depth-first walk from `root`
/// meets it: the files from the repeated one to the end of the walk, then
/// the repeated file again.
pub open spec fn is_include_cycle(
    reads: spec_fn(Seq<char>, Seq<Seq<char>>) -> bool,
    cwd: Seq<char>,
    root: Seq<char>,
    chain: Seq<Seq<char>>,
) -> bool {
    exists|stack: Seq<Seq<char>>, pos: int|
        #[trigger] closes_cycle(reads, cwd, root, stack, pos) && chain == stack.skip(pos).push(stack[pos])
}

/// Some cycle of declared paths is reachable from `root`.
pub open spec fn has_include_cycle(
    reads: spec_fn(Seq<char>, Seq<Seq<char>>) -> bool,
    cwd: Seq<char>,
    root: Seq<char>,
) -> bool {
    exists|stack: Seq<Seq<char>>, pos: int| #[trigger] closes_cycle(reads, cwd, root, stack, pos)
}

/// The walk from `root` to `root` alone.
pub proof fn lemma_walk_root(reads: spec_fn(Seq<char>, Seq<Seq<char>>) -> bool, cwd: Seq<char>, root: Seq<char>)
    ensures
        simple_walk_from(reads, cwd, root, seq![root]),
        reachable(reads, cwd, root, root),
{
    let w = seq![root];
    assert(w.no_duplicates());
    assert(simple_walk_from(reads, cwd, root, w));
}

/// A walk extends by a file that its last file leads to and that it does
/// not visit yet.
pub proof fn lemma_walk_push(
    reads: spec_fn(Seq<char>, Seq<Seq<char>>) -> bool,
    cwd: Seq<char>,
    root: Seq<char>,
    w: Seq<Seq<char>>,
    x: Seq<char>,
)
    requires
        simple_walk_from(reads, cwd, root, w),
        declares(reads, cwd, w.last(), x),
        !w.contains(x),
    ensures
        simple_walk_from(reads, cwd, root, w.push(x)),
        reachable(reads, cwd, root, x),
{
    let v = w.push(x);
    assert forall|i: int| 0 <= i < v.len() - 1 implies #[trigger] walk_step(reads, cwd, v, i) by {
        if i < w.len() - 1 {
            assert(walk_step(reads, cwd, w, i));
            assert(v[i] == w[i] && v[i + 1] == w[i + 1]);
        } else {
            assert(v[i] == w.last() && v[i + 1] == x);
        }
    }
    assert forall|i: int, j: int| 0 <= i < v.len() && 0 <= j < v.len() && i != j implies v[i] != v[j] by {
        if i < w.len() && j < w.len() {
        } else if i < w.len() {
            assert(w.contains(w[i]));
        } else {
            assert(w.contains(w[j]));
        }
    }
    assert(simple_walk_from(reads, cwd, root, v));
    assert(v.last() == x);
}

/// A stack closing a cycle yields the cycle it closes.
pub proof fn lemma_cycle_found(
    reads: spec_fn(Seq<char>, Seq<Seq<char>>) -> bool,
    cwd: Seq<char>,
    root: Seq<char>,
    stack: Seq<Seq<char>>,
    pos: int,
)
    requires
        closes_cycle(reads, cwd, root, stack, pos),
    ensures
        is_include_cycle(reads, cwd, root, stack.skip(pos).push(stack[pos])),
        has_include_cycle(reads, cwd, root),
{
}

/// Walks, reachability and cycles carry over to a relation under which
/// every file leads to at least the files it leads to under the first.
pub proof fn lemma_declares_mono(
    r1: spec_fn(Seq<char>, Seq<Seq<char>>) -> bool,
    r2: spec_fn(Seq<char>, Seq<Seq<char>>) -> bool,
    cwd: Seq<char>,
    root: Seq<char>,
)
    requires
        forall|a: Seq<char>, b: Seq<char>| #[trigger] declares(r1, cwd, a, b) ==> declares(r2, cwd, a, b),
    ensures
        forall|w: Seq<Seq<char>>| #[trigger] simple_walk_from(r1, cwd, root, w) ==> simple_walk_from(r2, cwd, root, w),
        forall|q: Seq<char>| #[trigger] reachable(r1, cwd, root, q) ==> reachable(r2, cwd, root, q),
        forall|c: Seq<Seq<char>>| #[trigger] is_include_cycle(r1, cwd, root, c) ==> is_include_cycle(r2, cwd, root, c),
        has_include_cycle(r1, cwd, root) ==> has_include_cycle(r2, cwd, root),
{
    assert forall|w: Seq<Seq<char>>| #[trigger] simple_walk_from(r1, cwd, root, w) implies simple_walk_from(r2, cwd, root, w) by {
        assert forall|i: int| 0 <= i < w.len() - 1 implies #[trigger] walk_step(r2, cwd, w, i) by {
            assert(walk_step(r1, cwd, w, i));
        }
    }
    assert forall|q: Seq<char>| #[trigger] reachable(r1, cwd, root, q) implies reachable(r2, cwd, root, q) by {
        let w = choose|w: Seq<Seq<char>>| #[trigger] simple_walk_from(r1, cwd, root, w) && w.last() == q;
        assert(simple_walk_from(r2, cwd, root, w));
    }
    assert forall|c: Seq<Seq<char>>| #[trigger] is_include_cycle(r1, cwd, root, c) implies is_include_cycle(r2, cwd, root, c) by {
        let (stack, pos) = choose|stack: Seq<Seq<char>>, pos: int|
            #[trigger] closes_cycle(r1, cwd, root, stack, pos) && c == stack.skip(pos).push(stack[pos]);
        assert(simple_walk_from(r2, cwd, root, stack));
        assert(declares(r1, cwd, stack.last(), stack[pos]));
        assert(closes_cycle(r2, cwd, root, stack, pos));
    }
    if has_include_cycle(r1, cwd, root) {
        let (stack, pos) = choose|stack: Seq<Seq<char>>, pos: int| #[trigger] closes_cycle(r1, cwd, root, stack, pos);
        assert(simple_walk_from(r2, cwd, root, stack));
        assert(declares(r1, cwd, stack.last(), stack[pos]));
        assert(closes_cycle(r2, cwd, root, stack, pos));
    }
}

/// Walks, reachability and cycles carry over to a relation that admits at
/// least the same readings.
pub proof fn lemma_reads_mono(
    r1: spec_fn(Seq<char>, Seq<Seq<char>>) -> bool,
    r2: spec_fn(Seq<char>, Seq<Seq<char>>) -> bool,
    cwd: Seq<char>,
    root: Seq<char>,
)
    requires
        forall|p: Seq<char>, incs: Seq<Seq<char>>| #[trigger] r1(p, incs) ==> r2(p, incs),
    ensures
        forall|a: Seq<char>, b: Seq<char>| #[trigger] declares(r1, cwd, a, b) ==> declares(r2, cwd, a, b),
        forall|w: Seq<Seq<char>>| #[trigger] simple_walk_from(r1, cwd, root, w) ==> simple_walk_from(r2, cwd, root, w),
        forall|q: Seq<char>| #[trigger] reachable(r1, cwd, root, q) ==> reachable(r2, cwd, root, q),
        forall|c: Seq<Seq<char>>| #[trigger] is_include_cycle(r1, cwd, root, c) ==> is_include_cycle(r2, cwd, root, c),
        has_include_cycle(r1, cwd, root) ==> has_include_cycle(r2, cwd, root),
{
    assert forall|a: Seq<char>, b: Seq<char>| #[trigger] declares(r1, cwd, a, b) implies declares(r2, cwd, a, b) by {
        let (incs, j) = choose|incs: Seq<Seq<char>>, j: int|
            #![trigger r1(a, incs), incs[j]]
            r1(a, incs) && 0 <= j < incs.len() && b == spec_absolutize(cwd, spec_resolve(a, incs[j]));
        assert(r2(a, incs));
    }
    lemma_declares_mono(r1, r2, cwd, root);
}

} // verus!
