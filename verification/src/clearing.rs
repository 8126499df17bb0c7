//! What holds while the edges are taken out of the graph for one search,
//! step by step, and that the graph is then the one with the edges suppressed.

use crate::deviate::{blocked, continues, suppressed, unblocked};
use crate::graph::{adjacent, fits, well_formed};
use crate::keep::lemma_keep_same;
use crate::suppress::{
    can_mend, hides, lemma_records_isolation, lemma_records_nothing, lemma_records_removal,
    lemma_sift_nothing, lemma_sift_twice, lemma_unwind_push, mend, mendable, records, shown,
    sift, spokes, unwind, Cut,
};
use vstd::prelude::*;

verus! {

/// What holds while the edges are taken out for the search from the last
/// vertex of `root`: the log records what was taken out of `base`, every
/// logged edge is one to suppress, and of the first `seen` paths and the first
/// `cleared` vertices of the root all such edges are out of the graph `g`.
#[verifier::opaque]
pub open spec fn suppressing(
    base: Seq<Seq<usize>>,
    paths: Seq<Seq<usize>>,
    root: Seq<usize>,
    log: Seq<Cut>,
    g: Seq<Seq<usize>>,
    seen: int,
    cleared: int,
) -> bool {
    &&& well_formed(base)
    &&& fits(base)
    &&& well_formed(g)
    &&& root.len() >= 1
    &&& records(log, base, g)
    &&& g == sift(base, log)
    &&& mendable(g, log)
    &&& unwind(g, log) == base
    &&& forall|x: int| 0 <= x < log.len() ==> blocked(paths, root, (#[trigger] log[x]).u, log[x].v)
    &&& forall|i: int|
        0 <= i < seen && i < paths.len() && continues(#[trigger] paths[i], root) ==> !adjacent(
            g,
            paths[i][root.len() - 1],
            paths[i][root.len() as int],
        )
    &&& forall|x: int, w: usize|
        0 <= x < cleared && x < root.len() - 1 ==> !#[trigger] adjacent(g, root[x], w)
}

/// Nothing is taken out yet.
pub proof fn lemma_suppressing_begins(
    base: Seq<Seq<usize>>,
    paths: Seq<Seq<usize>>,
    root: Seq<usize>,
)
    requires
        well_formed(base),
        fits(base),
        root.len() >= 1,
    ensures
        suppressing(base, paths, root, Seq::<Cut>::empty(), base, 0, 0),
{
    reveal(suppressing);
    lemma_records_nothing(base);
    lemma_sift_nothing(base);
}

/// The next path has no edge to take out.
pub proof fn lemma_suppressing_passes(
    base: Seq<Seq<usize>>,
    paths: Seq<Seq<usize>>,
    root: Seq<usize>,
    log: Seq<Cut>,
    g: Seq<Seq<usize>>,
    seen: int,
)
    requires
        suppressing(base, paths, root, log, g, seen, 0),
        0 <= seen < paths.len(),
        continues(paths[seen], root) ==> !adjacent(
            g,
            paths[seen][root.len() - 1],
            paths[seen][root.len() as int],
        ),
    ensures
        suppressing(base, paths, root, log, g, seen + 1, 0),
{
    reveal(suppressing);
}

/// The edge by which the next path goes on after the root is taken out.
pub proof fn lemma_suppressing_removes(
    base: Seq<Seq<usize>>,
    paths: Seq<Seq<usize>>,
    root: Seq<usize>,
    log: Seq<Cut>,
    g: Seq<Seq<usize>>,
    next: Seq<Seq<usize>>,
    seen: int,
    cut: Cut,
)
    requires
        suppressing(base, paths, root, log, g, seen, 0),
        0 <= seen < paths.len(),
        continues(paths[seen], root),
        cut.u == paths[seen][root.len() - 1],
        cut.v == paths[seen][root.len() as int],
        adjacent(g, cut.u, cut.v),
        well_formed(next),
        next == sift(g, seq![cut]),
        next.len() == g.len(),
        forall|a: usize, b: usize| #[trigger]
            adjacent(next, a, b) <==> adjacent(g, a, b) && !(a == cut.u && b == cut.v) && !(a
                == cut.v && b == cut.u),
        can_mend(next, cut),
        mend(next, cut) == g,
    ensures
        suppressing(base, paths, root, log.push(cut), next, seen + 1, 0),
{
    reveal(suppressing);
    let log2 = log.push(cut);
    lemma_records_removal(log, base, g, next, cut);
    lemma_unwind_push(g, next, log, cut);
    lemma_sift_twice(base, log, seq![cut]);
    assert(log + seq![cut] =~= log2);
    assert(blocked(paths, root, cut.u, cut.v));
    assert forall|x: int| 0 <= x < log2.len() implies blocked(
        paths,
        root,
        (#[trigger] log2[x]).u,
        log2[x].v,
    ) by {
        if x < log.len() {
            assert(log2[x] == log[x]);
        }
    }
}

/// The vertex of the root at index `cleared` is no vertex of the graph.
pub proof fn lemma_suppressing_skips(
    base: Seq<Seq<usize>>,
    paths: Seq<Seq<usize>>,
    root: Seq<usize>,
    log: Seq<Cut>,
    g: Seq<Seq<usize>>,
    seen: int,
    cleared: int,
)
    requires
        suppressing(base, paths, root, log, g, seen, cleared),
        0 <= cleared < root.len() - 1,
        root[cleared] >= g.len(),
    ensures
        suppressing(base, paths, root, log, g, seen, cleared + 1),
{
    reveal(suppressing);
}

/// The edges of the vertex of the root at index `cleared` are taken out.
pub proof fn lemma_suppressing_isolates(
    base: Seq<Seq<usize>>,
    paths: Seq<Seq<usize>>,
    root: Seq<usize>,
    log: Seq<Cut>,
    g: Seq<Seq<usize>>,
    next: Seq<Seq<usize>>,
    seen: int,
    cleared: int,
)
    requires
        suppressing(base, paths, root, log, g, seen, cleared),
        0 <= cleared < root.len() - 1,
        root[cleared] < g.len(),
        well_formed(next),
        next.len() == g.len(),
        next == sift(g, spokes(g, root[cleared])),
        forall|a: usize, b: usize| #[trigger]
            adjacent(next, a, b) <==> adjacent(g, a, b) && a != root[cleared] && b
                != root[cleared],
        unwind(next, log + spokes(g, root[cleared])) == unwind(g, log),
        mendable(g, log) ==> mendable(next, log + spokes(g, root[cleared])),
    ensures
        suppressing(base, paths, root, log + spokes(g, root[cleared]), next, seen, cleared + 1),
{
    reveal(suppressing);
    let node = root[cleared];
    let log2 = log + spokes(g, node);
    lemma_records_isolation(log, base, g, next, node);
    lemma_sift_twice(base, log, spokes(g, node));
    assert forall|x: int| 0 <= x < log2.len() implies blocked(
        paths,
        root,
        (#[trigger] log2[x]).u,
        log2[x].v,
    ) by {
        if x < log.len() {
            assert(log2[x] == log[x]);
        } else {
            assert(log2[x].u == node);
        }
    }
}

/// Once all paths are seen and the root is cleared up to its last vertex,
/// the graph is the one with the edges suppressed.
#[verifier::rlimit(50)]
pub proof fn lemma_suppressing_ends(
    base: Seq<Seq<usize>>,
    paths: Seq<Seq<usize>>,
    root: Seq<usize>,
    log: Seq<Cut>,
    g: Seq<Seq<usize>>,
)
    requires
        suppressing(base, paths, root, log, g, paths.len() as int, root.len() - 1),
    ensures
        g == suppressed(base, paths, root),
        well_formed(g),
        records(log, base, g),
        mendable(g, log),
        unwind(g, log) == base,
{
    reveal(suppressing);
    assert forall|u: usize, v: usize| adjacent(base, u, v) implies (hides(log, u, v) <==> blocked(
        paths,
        root,
        u,
        v,
    )) by {
        if hides(log, u, v) {
            let x = choose|x: int|
                0 <= x < log.len() && (((#[trigger] log[x]).u == u && log[x].v == v) || (log[x].u
                    == v && log[x].v == u));
            assert(blocked(paths, root, log[x].u, log[x].v));
        }
        if adjacent(g, u, v) && blocked(paths, root, u, v) {
            assert(adjacent(g, v, u));
            if exists|r: int| 0 <= r < root.len() - 1 && (#[trigger] root[r] == u || root[r] == v) {
                let r = choose|r: int| 0 <= r < root.len() - 1 && (#[trigger] root[r] == u
                    || root[r] == v);
                assert(!adjacent(g, root[r], u));
                assert(!adjacent(g, root[r], v));
            } else {
                let x = choose|x: int|
                    0 <= x < paths.len() && continues(#[trigger] paths[x], root) && {
                        let a = paths[x][root.len() - 1];
                        let b = paths[x][root.len() as int];
                        (a == u && b == v) || (a == v && b == u)
                    };
                assert(!adjacent(g, paths[x][root.len() - 1], paths[x][root.len() as int]));
            }
        }
    }
    assert forall|x: int| 0 <= x < base.len() implies #[trigger] g[x] == suppressed(
        base,
        paths,
        root,
    )[x] by {
        let me = x as usize;
        assert forall|w: usize| #[trigger] base[x].contains(w) implies shown(log, me)(w)
            == unblocked(paths, root, me)(w) by {
            assert(adjacent(base, me, w));
        }
        lemma_keep_same(base[x], shown(log, me), unblocked(paths, root, me));
    }
    assert(g =~= suppressed(base, paths, root));
}

} // verus!
