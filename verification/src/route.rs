//! The vocabulary of the contracts: walks, simple paths and shortest paths
//! over the neighbour lists of a graph. The length of a path is the number of
//! its vertices.

use crate::graph::{adjacent, fits, lemma_position, position};
use crate::lex::{lemma_lex_antisymmetric, lex_le};
use vstd::prelude::*;

verus! {

/// `p` is a non-empty sequence of vertices, each joined to the next by an edge.
pub open spec fn is_walk(adj: Seq<Seq<usize>>, p: Seq<usize>) -> bool {
    &&& p.len() >= 1
    &&& forall|i: int| 0 <= i < p.len() ==> #[trigger] p[i] < adj.len()
    &&& forall|i: int| 0 <= i < p.len() - 1 ==> adjacent(adj, #[trigger] p[i], p[i + 1])
}

/// `p` is a walk that begins at `start` and ends at `end`.
pub open spec fn joins(adj: Seq<Seq<usize>>, p: Seq<usize>, start: usize, end: usize) -> bool {
    &&& is_walk(adj, p)
    &&& p[0] == start
    &&& p[p.len() - 1] == end
}

/// `p` is a walk from `start` to `end` that visits no vertex twice.
pub open spec fn is_simple_path(
    adj: Seq<Seq<usize>>,
    p: Seq<usize>,
    start: usize,
    end: usize,
) -> bool {
    &&& joins(adj, p, start, end)
    &&& p.no_duplicates()
}

/// Some walk leads from `start` to `end`.
pub open spec fn connected(adj: Seq<Seq<usize>>, start: usize, end: usize) -> bool {
    exists|p: Seq<usize>| joins(adj, p, start, end)
}

/// `p` is a simple path from `start` to `end`, and no walk between the two has
/// fewer vertices.
pub open spec fn is_shortest_path(
    adj: Seq<Seq<usize>>,
    p: Seq<usize>,
    start: usize,
    end: usize,
) -> bool {
    &&& is_simple_path(adj, p, start, end)
    &&& forall|q: Seq<usize>| joins(adj, q, start, end) ==> p.len() <= q.len()
}

/// The first shortest path from `start` to `end`, where the two are connected.
pub open spec fn first_shortest_path(adj: Seq<Seq<usize>>, start: usize, end: usize) -> Seq<
    usize,
> {
    choose|p: Seq<usize>| is_first_shortest_path(adj, p, start, end)
}

/// The places of the steps of `p` in the neighbour lists: for each vertex of
/// `p` but the last, the position of the next one in its list.
pub open spec fn ranks(adj: Seq<Seq<usize>>, p: Seq<usize>) -> Seq<usize> {
    Seq::new((p.len() - 1) as nat, |i: int| position(adj[p[i] as int], p[i + 1]) as usize)
}

/// `p` is the first of the shortest paths from `start` to `end`: of all walks
/// between the two with as few vertices, it takes the earliest neighbour at
/// the first vertex at which they part.
pub open spec fn is_first_shortest_path(
    adj: Seq<Seq<usize>>,
    p: Seq<usize>,
    start: usize,
    end: usize,
) -> bool {
    &&& is_shortest_path(adj, p, start, end)
    &&& forall|q: Seq<usize>|
        joins(adj, q, start, end) && q.len() == p.len() ==> lex_le(ranks(adj, p), ranks(adj, q))
}

/// Two walks from one vertex whose steps have the same places are the same walk.
pub proof fn lemma_ranks_tell_walks_apart(
    adj: Seq<Seq<usize>>,
    p: Seq<usize>,
    q: Seq<usize>,
    i: int,
)
    requires
        fits(adj),
        is_walk(adj, p),
        is_walk(adj, q),
        p.len() == q.len(),
        p[0] == q[0],
        ranks(adj, p) == ranks(adj, q),
        0 <= i < p.len(),
    ensures
        p[i] == q[i],
    decreases i,
{
    if i > 0 {
        lemma_ranks_tell_walks_apart(adj, p, q, i - 1);
        let u = p[i - 1];
        assert(u < adj.len());
        assert(adjacent(adj, u, p[i]));
        assert(adjacent(adj, q[i - 1], q[i]));
        let list = adj[u as int];
        lemma_position(list, p[i]);
        lemma_position(list, q[i]);
        let a = position(list, p[i]);
        let b = position(list, q[i]);
        assert(list.contains(p[i]) && list.contains(q[i]));
        assert(list.len() <= usize::MAX);
        assert(ranks(adj, p)[i - 1] == a as usize);
        assert(ranks(adj, q)[i - 1] == b as usize);
        assert(a == b);
        assert(list[a] == p[i]);
    }
}

/// There is at most one first shortest path between two vertices.
pub proof fn lemma_first_shortest_path_is_unique(
    adj: Seq<Seq<usize>>,
    p: Seq<usize>,
    q: Seq<usize>,
    start: usize,
    end: usize,
)
    requires
        fits(adj),
        is_first_shortest_path(adj, p, start, end),
        is_first_shortest_path(adj, q, start, end),
    ensures
        p == q,
{
    assert(p.len() == q.len());
    lemma_lex_antisymmetric(ranks(adj, p), ranks(adj, q));
    assert forall|i: int| 0 <= i < p.len() implies p[i] == q[i] by {
        lemma_ranks_tell_walks_apart(adj, p, q, i);
    }
    assert(p =~= q);
}

/// A walk with a vertex in it twice can be cut short: a walk with fewer
/// vertices joins the same two vertices.
pub proof fn lemma_repeating_walk_shortens(
    adj: Seq<Seq<usize>>,
    q: Seq<usize>,
    start: usize,
    end: usize,
)
    requires
        joins(adj, q, start, end),
        !q.no_duplicates(),
    ensures
        exists|p: Seq<usize>| joins(adj, p, start, end) && p.len() < q.len(),
{
    let (a, b) = choose|a: int, b: int|
        0 <= a < q.len() && 0 <= b < q.len() && a != b && q[a] == q[b];
    let lo = if a < b { a } else { b };
    let hi = if a < b { b } else { a };
    let cut = q.subrange(0, lo) + q.subrange(hi, q.len() as int);
    assert forall|i: int| 0 <= i < cut.len() implies #[trigger] cut[i] < adj.len() by {
        if i < lo {
            assert(cut[i] == q[i]);
        } else {
            assert(cut[i] == q[i - lo + hi]);
        }
    }
    assert forall|i: int| 0 <= i < cut.len() - 1 implies adjacent(adj, #[trigger] cut[i], cut[i + 1]) by {
        if i + 1 < lo {
            assert(cut[i] == q[i] && cut[i + 1] == q[i + 1]);
            assert(adjacent(adj, q[i], q[i + 1]));
        } else if i + 1 == lo {
            assert(cut[i] == q[i] && cut[i + 1] == q[hi]);
            assert(adjacent(adj, q[i], q[i + 1]));
        } else {
            let x = i - lo + hi;
            assert(cut[i] == q[x] && cut[i + 1] == q[x + 1]);
            assert(adjacent(adj, q[x], q[x + 1]));
        }
    }
    assert(cut[0] == q[0]);
    assert(cut[cut.len() - 1] == q[q.len() - 1]);
    assert(joins(adj, cut, start, end));
}

/// Where a walk joins two vertices, a simple path with no more vertices does.
pub proof fn lemma_walk_holds_simple_path(
    adj: Seq<Seq<usize>>,
    q: Seq<usize>,
    start: usize,
    end: usize,
)
    requires
        joins(adj, q, start, end),
    ensures
        exists|p: Seq<usize>| is_simple_path(adj, p, start, end) && p.len() <= q.len(),
    decreases q.len(),
{
    if q.no_duplicates() {
        assert(is_simple_path(adj, q, start, end));
    } else {
        lemma_repeating_walk_shortens(adj, q, start, end);
        let p = choose|p: Seq<usize>| joins(adj, p, start, end) && p.len() < q.len();
        lemma_walk_holds_simple_path(adj, p, start, end);
    }
}

/// `d` is the number of vertices of a shortest walk from `start` to `end`.
pub open spec fn is_distance(adj: Seq<Seq<usize>>, start: usize, end: usize, d: nat) -> bool {
    &&& exists|p: Seq<usize>| joins(adj, p, start, end) && p.len() == d
    &&& forall|q: Seq<usize>| joins(adj, q, start, end) ==> d <= q.len()
}

} // verus!
