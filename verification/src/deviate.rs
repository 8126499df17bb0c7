//! The deviation generator: the candidates that leave the most recently
//! confirmed path at one of its vertices.
//!
//! For the vertex at index `j` of that path (the spur vertex), the path up to
//! it is the root. Edges are suppressed so that a search from the spur vertex
//! neither comes back to the root nor sets out along a confirmed path with
//! the same root; the root followed by a shortest way to the end in what is
//! left of the graph is the candidate. The suppressed edges are put back
//! before anything else looks at the graph.

use crate::clearing::{
    lemma_suppressing_begins, lemma_suppressing_ends, lemma_suppressing_isolates,
    lemma_suppressing_passes, lemma_suppressing_removes, lemma_suppressing_skips, suppressing,
};
use crate::exist::lemma_first_shortest_path_exists;
use crate::graph::{adjacent, fits, well_formed, Graph};
use crate::keep::{keep, lemma_keep_contains};
use crate::path::bfs;
use crate::pool::{views, CandidatePool};
use crate::route::{
    connected, first_shortest_path, is_first_shortest_path, joins,
    lemma_first_shortest_path_is_unique,
};
use crate::suppress::{cut_of, mendable, records, unwind, Suppression};
use vstd::multiset::Multiset;
use vstd::prelude::*;

verus! {

/// `path` begins with `root` and goes on after it.
pub open spec fn continues(path: Seq<usize>, root: Seq<usize>) -> bool {
    path.len() > root.len() && path.subrange(0, root.len() as int) == root
}

/// The edge between `u` and `v` is suppressed for the search from the last
/// vertex of `root`: it touches an earlier vertex of `root`, or it is the edge
/// by which one of `paths` goes on after `root`.
pub open spec fn blocked(paths: Seq<Seq<usize>>, root: Seq<usize>, u: usize, v: usize) -> bool {
    ||| exists|i: int| 0 <= i < root.len() - 1 && (#[trigger] root[i] == u || root[i] == v)
    ||| exists|k: int|
        0 <= k < paths.len() && continues(#[trigger] paths[k], root) && {
            let a = paths[k][root.len() - 1];
            let b = paths[k][root.len() as int];
            (a == u && b == v) || (a == v && b == u)
        }
}

/// `g` is a graph on the vertices of `base` with the edges of `base` that are
/// not suppressed for the search from the last vertex of `root`.
pub open spec fn is_suppressed(
    base: Seq<Seq<usize>>,
    paths: Seq<Seq<usize>>,
    root: Seq<usize>,
    g: Seq<Seq<usize>>,
) -> bool {
    &&& well_formed(g)
    &&& fits(g)
    &&& g.len() == base.len()
    &&& forall|u: usize, v: usize|
        #![trigger adjacent(g, u, v)]
        #![trigger adjacent(base, u, v)]
        adjacent(g, u, v) <==> adjacent(base, u, v) && !blocked(paths, root, u, v)
}

/// The test that the edge between `x` and a vertex is not suppressed.
pub open spec fn unblocked(paths: Seq<Seq<usize>>, root: Seq<usize>, x: usize) -> spec_fn(
    usize,
) -> bool {
    |w: usize| !blocked(paths, root, x, w)
}

/// The graph for the search from the last vertex of `root`: the neighbour
/// lists of `base` without the suppressed edges, each list in its order.
pub open spec fn suppressed(
    base: Seq<Seq<usize>>,
    paths: Seq<Seq<usize>>,
    root: Seq<usize>,
) -> Seq<Seq<usize>> {
    Seq::new(base.len(), |x: int| keep(base[x], unblocked(paths, root, x as usize)))
}

/// What the search from the last vertex of `root` gives: a candidate that
/// begins with `root` and goes on to `end` by the first shortest path of the
/// graph with its edges suppressed, or nothing where that graph has no such path.
pub open spec fn is_outcome(
    base: Seq<Seq<usize>>,
    paths: Seq<Seq<usize>>,
    root: Seq<usize>,
    end: usize,
    outcome: Option<Seq<usize>>,
) -> bool {
    let g = suppressed(base, paths, root);
    let spur = root[root.len() - 1];
    match outcome {
        Some(c) => {
            &&& spur != end
            &&& c.len() >= root.len()
            &&& c.subrange(0, root.len() as int) == root
            &&& is_first_shortest_path(g, c.subrange(root.len() - 1, c.len() as int), spur, end)
        },
        None => spur == end || !connected(g, spur, end),
    }
}

/// The graph with its edges suppressed is a graph on the same vertices, with
/// the edges of `base` that are not suppressed.
#[verifier::rlimit(50)]
pub proof fn lemma_suppressed(base: Seq<Seq<usize>>, paths: Seq<Seq<usize>>, root: Seq<usize>)
    requires
        well_formed(base),
        fits(base),
    ensures
        is_suppressed(base, paths, root, suppressed(base, paths, root)),
{
    let g = suppressed(base, paths, root);
    assert forall|x: int| 0 <= x < base.len() implies (#[trigger] g[x]).len() <= usize::MAX
        && g[x].no_duplicates() by {
        lemma_keep_contains(base[x], unblocked(paths, root, x as usize));
        assert(base[x].no_duplicates());
    }
    assert forall|u: usize, v: usize|
        #![trigger adjacent(g, u, v)]
        #![trigger adjacent(base, u, v)]
        adjacent(g, u, v) <==> adjacent(base, u, v) && !blocked(paths, root, u, v) by {
        if u < base.len() {
            lemma_keep_contains(base[u as int], unblocked(paths, root, u));
            assert(g[u as int].contains(v) <==> base[u as int].contains(v) && unblocked(
                paths,
                root,
                u,
            )(v));
        }
    }
    assert forall|u: usize, v: usize| #[trigger] adjacent(g, u, v) implies v < g.len() && u != v
        && adjacent(g, v, u) by {
        assert(adjacent(base, u, v));
        assert(adjacent(base, v, u));
        assert(blocked(paths, root, v, u) ==> blocked(paths, root, u, v));
    }
}

/// `news` holds what the searches from the vertices of the last of `paths`
/// give, but for its last vertex, in the order of these vertices.
pub open spec fn is_expansion(
    base: Seq<Seq<usize>>,
    paths: Seq<Seq<usize>>,
    end: usize,
    news: Seq<Option<Seq<usize>>>,
) -> bool {
    let last = paths[paths.len() - 1];
    &&& news.len() + 1 == last.len() || (news.len() == 0 && last.len() == 0)
    &&& forall|j: int|
        0 <= j < news.len() ==> is_outcome(base, paths, last.subrange(0, j + 1), end, #[trigger] news[j])
}

/// What the search from the last vertex of `root` gives.
pub open spec fn outcome(
    base: Seq<Seq<usize>>,
    paths: Seq<Seq<usize>>,
    root: Seq<usize>,
    end: usize,
) -> Option<Seq<usize>> {
    let g = suppressed(base, paths, root);
    let spur = root[root.len() - 1];
    if spur != end && connected(g, spur, end) {
        Some(root.drop_last() + first_shortest_path(g, spur, end))
    } else {
        None
    }
}

/// What the expansion of the last of `paths` gives: the outcome of the search
/// from each of its vertices but the last, in their order.
pub open spec fn expansion(base: Seq<Seq<usize>>, paths: Seq<Seq<usize>>, end: usize) -> Seq<
    Option<Seq<usize>>,
> {
    let last = paths[paths.len() - 1];
    if last.len() == 0 {
        Seq::empty()
    } else {
        Seq::new(
            (last.len() - 1) as nat,
            |j: int| outcome(base, paths, last.subrange(0, j + 1), end),
        )
    }
}

/// The outcome is one.
pub proof fn lemma_outcome(
    base: Seq<Seq<usize>>,
    paths: Seq<Seq<usize>>,
    root: Seq<usize>,
    end: usize,
)
    requires
        root.len() >= 1,
    ensures
        is_outcome(base, paths, root, end, outcome(base, paths, root, end)),
{
    let g = suppressed(base, paths, root);
    let spur = root[root.len() - 1];
    if spur != end && connected(g, spur, end) {
        lemma_first_shortest_path_exists(g, spur, end);
        let tail = first_shortest_path(g, spur, end);
        let c = root.drop_last() + tail;
        assert(is_first_shortest_path(g, tail, spur, end));
        assert(tail[0] == spur);
        assert(c.subrange(0, root.len() as int) =~= root);
        assert(c.subrange(root.len() - 1, c.len() as int) =~= tail);
    }
}

/// The expansion is one.
pub proof fn lemma_expansion(base: Seq<Seq<usize>>, paths: Seq<Seq<usize>>, end: usize)
    requires
        paths.len() >= 1,
    ensures
        is_expansion(base, paths, end, expansion(base, paths, end)),
{
    let last = paths[paths.len() - 1];
    let news = expansion(base, paths, end);
    assert forall|j: int| 0 <= j < news.len() implies is_outcome(
        base,
        paths,
        last.subrange(0, j + 1),
        end,
        #[trigger] news[j],
    ) by {
        lemma_outcome(base, paths, last.subrange(0, j + 1), end);
    }
}

/// The view of what a search returned.
pub open spec fn outcome_of(found: Option<Vec<usize>>) -> Option<Seq<usize>> {
    match found {
        Some(c) => Some(c@),
        None => None,
    }
}

/// The candidates among the outcomes of a run of searches.
pub open spec fn gather(news: Seq<Option<Seq<usize>>>) -> Multiset<Seq<usize>>
    decreases news.len(),
{
    if news.len() == 0 {
        Multiset::empty()
    } else {
        match news.last() {
            Some(c) => gather(news.drop_last()).insert(c),
            None => gather(news.drop_last()),
        }
    }
}

/// Every gathered candidate is the outcome of one of the searches.
pub proof fn lemma_gather_contains(news: Seq<Option<Seq<usize>>>, c: Seq<usize>)
    requires
        gather(news).contains(c),
    ensures
        exists|j: int| 0 <= j < news.len() && #[trigger] news[j] == Some(c),
    decreases news.len(),
{
    broadcast use vstd::multiset::group_multiset_axioms;

    if news.len() > 0 {
        if news.last() == Some(c) {
            assert(news[news.len() - 1] == Some(c));
        } else {
            lemma_gather_contains(news.drop_last(), c);
            let j = choose|j: int| 0 <= j < news.drop_last().len() && #[trigger] news.drop_last()[j]
                == Some(c);
            assert(news[j] == Some(c));
        }
    }
}

/// The outcome of each search that found a way is gathered.
pub proof fn lemma_gather_holds(news: Seq<Option<Seq<usize>>>, j: int, c: Seq<usize>)
    requires
        0 <= j < news.len(),
        news[j] == Some(c),
    ensures
        gather(news).contains(c),
    decreases news.len(),
{
    broadcast use vstd::multiset::group_multiset_axioms;

    if j < news.len() - 1 {
        assert(news.drop_last()[j] == news[j]);
        lemma_gather_holds(news.drop_last(), j, c);
    }
}

/// The search from the last vertex of a root has one outcome.
#[verifier::rlimit(40)]
pub proof fn lemma_outcome_is_unique(
    base: Seq<Seq<usize>>,
    paths: Seq<Seq<usize>>,
    root: Seq<usize>,
    end: usize,
    one: Option<Seq<usize>>,
    other: Option<Seq<usize>>,
)
    requires
        well_formed(base),
        fits(base),
        root.len() >= 1,
        is_outcome(base, paths, root, end, one),
        is_outcome(base, paths, root, end, other),
    ensures
        one == other,
{
    let g = suppressed(base, paths, root);
    let spur = root[root.len() - 1];
    lemma_suppressed(base, paths, root);
    match (one, other) {
        (Some(c), Some(d)) => {
            let tail_c = c.subrange(root.len() - 1, c.len() as int);
            let tail_d = d.subrange(root.len() - 1, d.len() as int);
            lemma_first_shortest_path_is_unique(g, tail_c, tail_d, spur, end);
            assert(c.len() == d.len());
            assert forall|i: int| 0 <= i < c.len() implies c[i] == d[i] by {
                if i < root.len() {
                    assert(c.subrange(0, root.len() as int)[i] == d.subrange(
                        0,
                        root.len() as int,
                    )[i]);
                } else {
                    assert(tail_c[i - (root.len() - 1)] == tail_d[i - (root.len() - 1)]);
                }
            }
            assert(c =~= d);
        },
        (Some(c), None) => {
            assert(joins(g, c.subrange(root.len() - 1, c.len() as int), spur, end));
        },
        (None, Some(d)) => {
            assert(joins(g, d.subrange(root.len() - 1, d.len() as int), spur, end));
        },
        (None, None) => {},
    }
}

/// The last confirmed path has one expansion.
pub proof fn lemma_expansion_is_unique(
    base: Seq<Seq<usize>>,
    paths: Seq<Seq<usize>>,
    end: usize,
    news: Seq<Option<Seq<usize>>>,
)
    requires
        well_formed(base),
        fits(base),
        paths.len() >= 1,
        is_expansion(base, paths, end, news),
    ensures
        expansion(base, paths, end) == news,
{
    let last = paths[paths.len() - 1];
    let chosen = expansion(base, paths, end);
    lemma_expansion(base, paths, end);
    assert(chosen.len() == news.len());
    assert forall|j: int| 0 <= j < news.len() implies chosen[j] == news[j] by {
        lemma_outcome_is_unique(base, paths, last.subrange(0, j + 1), end, chosen[j], news[j]);
    }
    assert(chosen =~= news);
}

/// Whether `a` and `b` have the same first `count` elements.
fn same_start(a: &Vec<usize>, b: &Vec<usize>, count: usize) -> (same: bool)
    requires
        count <= a@.len(),
        count <= b@.len(),
    ensures
        same == (a@.subrange(0, count as int) == b@.subrange(0, count as int)),
{
    let mut i: usize = 0;
    while i < count
        invariant
            i <= count,
            count <= a@.len(),
            count <= b@.len(),
            forall|x: int| 0 <= x < i ==> a@[x] == b@[x],
        decreases count - i,
    {
        if a[i] != b[i] {
            assert(a@.subrange(0, count as int)[i as int] != b@.subrange(0, count as int)[i as int]);
            return false;
        }
        i += 1;
    }
    assert(a@.subrange(0, count as int) =~= b@.subrange(0, count as int));
    true
}

/// Takes out of the graph the edges that are suppressed for the search from
/// the vertex at index `j` of the last of `paths`, and returns the log of
/// them, from which the graph can be restored.
pub fn suppress(graph: &mut Graph, paths: &Vec<Vec<usize>>, j: usize) -> (log: Suppression)
    requires
        old(graph).wf(),
        paths@.len() >= 1,
        j < paths@[paths@.len() - 1]@.len(),
    ensures
        final(graph).wf(),
        final(graph)@ == suppressed(
            old(graph)@,
            views(paths@),
            paths@[paths@.len() - 1]@.subrange(0, j + 1),
        ),
        records(log@, old(graph)@, final(graph)@),
        mendable(final(graph)@, log@),
        unwind(final(graph)@, log@) == old(graph)@,
{
    let ghost base = graph@;
    let ghost confirmed = views(paths@);
    let last = &paths[paths.len() - 1];
    let ghost root = last@.subrange(0, j + 1);
    let mut log = Suppression::new();
    proof {
        graph.lemma_fits();
        lemma_suppressing_begins(base, confirmed, root);
    }
    assert(j < last.len());
    let next: usize = j + 1;
    let mut k: usize = 0;
    while k < paths.len()
        invariant
            graph.wf(),
            confirmed == views(paths@),
            last@ == paths@[paths@.len() - 1]@,
            j < last@.len(),
            root == last@.subrange(0, j + 1),
            next == j + 1,
            k <= paths@.len(),
            suppressing(base, confirmed, root, log@, graph@, k as int, 0),
        decreases paths@.len() - k,
    {
        let path = &paths[k];
        let ghost before = graph@;
        let ghost log_before = log@;
        assert(path@ == confirmed[k as int]);
        if path.len() > next && same_start(path, last, next) && graph.has_edge(path[j], path[next]) {
            log.remove(graph, path[j], path[next]);
            proof {
                lemma_suppressing_removes(
                    base,
                    confirmed,
                    root,
                    log_before,
                    before,
                    graph@,
                    k as int,
                    cut_of(before, path@[j as int], path@[next as int]),
                );
            }
        } else {
            proof {
                lemma_suppressing_passes(base, confirmed, root, log_before, before, k as int);
            }
        }
        k += 1;
    }
    let mut i: usize = 0;
    while i < j
        invariant
            graph.wf(),
            confirmed == views(paths@),
            j < last@.len(),
            root == last@.subrange(0, j + 1),
            i <= j,
            suppressing(base, confirmed, root, log@, graph@, confirmed.len() as int, i as int),
        decreases j - i,
    {
        let node = last[i];
        let ghost before = graph@;
        let ghost log_before = log@;
        assert(root[i as int] == node);
        if node < graph.size() {
            log.isolate(graph, node);
            proof {
                lemma_suppressing_isolates(
                    base,
                    confirmed,
                    root,
                    log_before,
                    before,
                    graph@,
                    confirmed.len() as int,
                    i as int,
                );
            }
        } else {
            proof {
                lemma_suppressing_skips(
                    base,
                    confirmed,
                    root,
                    log_before,
                    before,
                    confirmed.len() as int,
                    i as int,
                );
            }
        }
        i += 1;
    }
    proof {
        lemma_suppressing_ends(base, confirmed, root, log@, graph@);
    }
    log
}

/// The vertices of `last` before index `j`, followed by `tail`.
fn splice(last: &Vec<usize>, j: usize, tail: &Vec<usize>) -> (total: Vec<usize>)
    requires
        j < last@.len(),
    ensures
        total@ == last@.subrange(0, j as int) + tail@,
{
    let mut total: Vec<usize> = Vec::new();
    let mut x: usize = 0;
    while x < j
        invariant
            x <= j,
            j < last@.len(),
            total@ == last@.subrange(0, x as int),
        decreases j - x,
    {
        total.push(last[x]);
        proof {
            assert(total@ =~= last@.subrange(0, x + 1));
        }
        x += 1;
    }
    let mut y: usize = 0;
    while y < tail.len()
        invariant
            y <= tail@.len(),
            j < last@.len(),
            total@ == last@.subrange(0, j as int) + tail@.subrange(0, y as int),
        decreases tail@.len() - y,
    {
        total.push(tail[y]);
        proof {
            assert(total@ =~= last@.subrange(0, j as int) + tail@.subrange(0, y + 1));
        }
        y += 1;
    }
    proof {
        assert(tail@.subrange(0, tail@.len() as int) =~= tail@);
    }
    total
}

/// The candidate that leaves the last of `paths` at index `j`, if there is one.
///
/// The graph is the same after the call as before it.
pub fn deviation(graph: &mut Graph, paths: &Vec<Vec<usize>>, j: usize, end: usize) -> (found:
    Option<Vec<usize>>)
    requires
        old(graph).wf(),
        paths@.len() >= 1,
        j < paths@[paths@.len() - 1]@.len(),
    ensures
        final(graph)@ == old(graph)@,
        is_outcome(
            old(graph)@,
            views(paths@),
            paths@[paths@.len() - 1]@.subrange(0, j + 1),
            end,
            outcome_of(found),
        ),
        outcome_of(found) == outcome(
            old(graph)@,
            views(paths@),
            paths@[paths@.len() - 1]@.subrange(0, j + 1),
            end,
        ),
{
    let last = &paths[paths.len() - 1];
    let ghost root = last@.subrange(0, j + 1);
    proof {
        graph.lemma_fits();
    }
    let log = suppress(graph, paths, j);
    let found = match bfs(graph, last[j], end) {
        Some(tail) => {
            let total = splice(last, j, &tail);
            proof {
                assert(tail@[0] == last@[j as int]);
                assert(total@.subrange(0, root.len() as int) =~= root);
                assert(total@.subrange(root.len() - 1, total@.len() as int) =~= tail@);
            }
            Some(total)
        },
        None => None,
    };
    proof {
        assert(root[root.len() - 1] == last@[j as int]);
        lemma_outcome(old(graph)@, views(paths@), root, end);
        lemma_outcome_is_unique(
            old(graph)@,
            views(paths@),
            root,
            end,
            outcome_of(found),
            outcome(old(graph)@, views(paths@), root, end),
        );
    }
    log.restore(graph);
    found
}

/// Puts into the pool the candidates that leave the last of `paths`, one for
/// each of its vertices but the last from which the search finds a way.
///
/// The graph is the same after the call as before it.
pub fn deviations(
    graph: &mut Graph,
    paths: &Vec<Vec<usize>>,
    end: usize,
    candidates: &mut CandidatePool,
)
    requires
        old(graph).wf(),
        paths@.len() >= 1,
    ensures
        final(graph)@ == old(graph)@,
        is_expansion(
            old(graph)@,
            views(paths@),
            end,
            expansion(old(graph)@, views(paths@), end),
        ),
        final(candidates)@ == old(candidates)@.add(
            gather(expansion(old(graph)@, views(paths@), end)),
        ),
{
    let ghost base = graph@;
    let ghost mut news: Seq<Option<Seq<usize>>> = Seq::empty();
    let count = paths[paths.len() - 1].len();
    let mut j: usize = 0;
    proof {
        assert(old(candidates)@.add(gather(news)) =~= old(candidates)@);
    }
    while j + 1 < count
        invariant
            graph.wf(),
            graph@ == base,
            base == old(graph)@,
            paths@.len() >= 1,
            count == paths@[paths@.len() - 1]@.len(),
            j + 1 <= count || (j == 0 && count == 0),
            news.len() == j,
            forall|x: int|
                0 <= x < news.len() ==> is_outcome(
                    base,
                    views(paths@),
                    paths@[paths@.len() - 1]@.subrange(0, x + 1),
                    end,
                    #[trigger] news[x],
                ),
            candidates@ == old(candidates)@.add(gather(news)),
        decreases count - j,
    {
        let ghost gathered = news;
        let found = deviation(graph, paths, j, end);
        proof {
            news = news.push(outcome_of(found));
            assert(news.drop_last() =~= gathered);
            assert forall|x: int| 0 <= x < news.len() implies is_outcome(
                base,
                views(paths@),
                paths@[paths@.len() - 1]@.subrange(0, x + 1),
                end,
                #[trigger] news[x],
            ) by {
                if x < j {
                    assert(news[x] == gathered[x]);
                }
            }
        }
        match found {
            Some(total) => {
                candidates.push(total);
                proof {
                    assert(candidates@ =~= old(candidates)@.add(gather(news)));
                }
            },
            None => {},
        }
        j += 1;
    }
    proof {
        assert(views(paths@)[paths@.len() - 1] == paths@[paths@.len() - 1]@);
        assert(is_expansion(base, views(paths@), end, news));
        graph.lemma_fits();
        lemma_expansion_is_unique(base, views(paths@), end, news);
    }
}

} // verus!
