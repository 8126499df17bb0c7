//! Suppression of edges for the duration of one search: every edge that is
//! taken out of the graph is written to a log, with the places that its ends
//! had in each other's neighbour list. Putting the logged edges back, the
//! last one first, gives the graph as it was, list by list.

use crate::graph::{adjacent, lemma_position, position, well_formed, Graph};
use crate::keep::{keep, lemma_keep_all, lemma_keep_twice, lemma_keep_without};
use vstd::prelude::*;

verus! {

/// An edge that was taken out of the graph: its ends `u` and `v`, the place
/// that `v` had in the neighbour list of `u`, and the place that `u` had in
/// that of `v`.
#[derive(Clone, Copy)]
pub struct Cut {
    pub u: usize,
    pub v: usize,
    pub at_u: usize,
    pub at_v: usize,
}

/// The log holds the edge between `u` and `v`, in either direction.
pub open spec fn hides(log: Seq<Cut>, u: usize, v: usize) -> bool {
    exists|k: int|
        0 <= k < log.len() && (((#[trigger] log[k]).u == u && log[k].v == v) || (log[k].u == v
            && log[k].v == u))
}

/// `current` has the vertices of `base` and those of its edges that are not in `log`.
pub open spec fn records(log: Seq<Cut>, base: Seq<Seq<usize>>, current: Seq<Seq<usize>>) -> bool {
    &&& current.len() == base.len()
    &&& forall|u: usize, v: usize|
        #![trigger adjacent(current, u, v)]
        #![trigger adjacent(base, u, v)]
        adjacent(current, u, v) <==> adjacent(base, u, v) && !hides(log, u, v)
}

/// The test that the log does not hold the edge between `x` and a vertex.
pub open spec fn shown(log: Seq<Cut>, x: usize) -> spec_fn(usize) -> bool {
    |w: usize| !hides(log, x, w)
}

/// The neighbour lists without the edges in `log`, each list in its order.
pub open spec fn sift(adj: Seq<Seq<usize>>, log: Seq<Cut>) -> Seq<Seq<usize>> {
    Seq::new(adj.len(), |x: int| keep(adj[x], shown(log, x as usize)))
}

/// The neighbour lists with the edge of `cut` put back in its places.
pub open spec fn mend(adj: Seq<Seq<usize>>, cut: Cut) -> Seq<Seq<usize>> {
    adj.update(cut.u as int, adj[cut.u as int].insert(cut.at_u as int, cut.v)).update(
        cut.v as int,
        adj[cut.v as int].insert(cut.at_v as int, cut.u),
    )
}

/// The edge of `cut` can be put back: it joins two distinct vertices that are
/// not joined, at places that their lists have.
pub open spec fn can_mend(adj: Seq<Seq<usize>>, cut: Cut) -> bool {
    &&& cut.u < adj.len()
    &&& cut.v < adj.len()
    &&& cut.u != cut.v
    &&& !adjacent(adj, cut.u, cut.v)
    &&& cut.at_u <= adj[cut.u as int].len()
    &&& cut.at_v <= adj[cut.v as int].len()
}

/// The neighbour lists with every edge of `log` put back, the last one first.
pub open spec fn unwind(adj: Seq<Seq<usize>>, log: Seq<Cut>) -> Seq<Seq<usize>>
    decreases log.len(),
{
    if log.len() == 0 {
        adj
    } else {
        unwind(mend(adj, log.last()), log.drop_last())
    }
}

/// Every edge of `log` can be put back in its turn, the last one first.
pub open spec fn mendable(adj: Seq<Seq<usize>>, log: Seq<Cut>) -> bool
    decreases log.len(),
{
    log.len() == 0 || (can_mend(adj, log.last()) && mendable(
        mend(adj, log.last()),
        log.drop_last(),
    ))
}

/// The cut that taking the edge between `u` and `v` out of `adj` leaves.
pub open spec fn cut_of(adj: Seq<Seq<usize>>, u: usize, v: usize) -> Cut {
    Cut {
        u,
        v,
        at_u: position(adj[u as int], v) as usize,
        at_v: position(adj[v as int], u) as usize,
    }
}

/// The cuts that taking all edges of `node` out of `adj` leaves, in the order
/// of its neighbour list.
pub open spec fn spokes(adj: Seq<Seq<usize>>, node: usize) -> Seq<Cut> {
    Seq::new(
        adj[node as int].len(),
        |t: int|
            Cut {
                u: node,
                v: adj[node as int][t],
                at_u: 0,
                at_v: position(adj[adj[node as int][t] as int], node) as usize,
            },
    )
}

/// An empty log takes nothing away.
pub proof fn lemma_sift_nothing(adj: Seq<Seq<usize>>)
    ensures
        sift(adj, Seq::<Cut>::empty()) == adj,
{
    let log = Seq::<Cut>::empty();
    assert forall|x: int| 0 <= x < adj.len() implies #[trigger] sift(adj, log)[x] == adj[x] by {
        lemma_keep_all(adj[x], shown(log, x as usize));
    }
    assert(sift(adj, log) =~= adj);
}

/// A log of two parts hides what either part hides.
pub proof fn lemma_hides_either(first: Seq<Cut>, second: Seq<Cut>, u: usize, v: usize)
    ensures
        hides(first + second, u, v) <==> hides(first, u, v) || hides(second, u, v),
{
    let log = first + second;
    if hides(first, u, v) {
        let k = choose|k: int|
            0 <= k < first.len() && (((#[trigger] first[k]).u == u && first[k].v == v) || (
            first[k].u == v && first[k].v == u));
        assert(log[k] == first[k]);
    }
    if hides(second, u, v) {
        let k = choose|k: int|
            0 <= k < second.len() && (((#[trigger] second[k]).u == u && second[k].v == v) || (
            second[k].u == v && second[k].v == u));
        assert(log[first.len() + k] == second[k]);
    }
    if hides(log, u, v) {
        let k = choose|k: int|
            0 <= k < log.len() && (((#[trigger] log[k]).u == u && log[k].v == v) || (log[k].u == v
                && log[k].v == u));
        if k < first.len() {
            assert(log[k] == first[k]);
        } else {
            assert(log[k] == second[k - first.len()]);
        }
    }
}

/// Taking the edges of one log away and then those of another is taking
/// away those of both.
pub proof fn lemma_sift_twice(adj: Seq<Seq<usize>>, first: Seq<Cut>, second: Seq<Cut>)
    ensures
        sift(sift(adj, first), second) == sift(adj, first + second),
{
    let log = first + second;
    assert forall|x: int| 0 <= x < adj.len() implies #[trigger] sift(sift(adj, first), second)[x]
        == sift(adj, log)[x] by {
        let me = x as usize;
        assert forall|w: usize| #[trigger] adj[x].contains(w) implies shown(log, me)(w) == (shown(
            first,
            me,
        )(w) && shown(second, me)(w)) by {
            lemma_hides_either(first, second, me, w);
        }
        lemma_keep_twice(adj[x], shown(first, me), shown(second, me), shown(log, me));
    }
    assert(sift(sift(adj, first), second) =~= sift(adj, log));
}

/// Taking one edge out of the lists is taking away what a log of its cut hides.
#[verifier::rlimit(50)]
pub proof fn lemma_sift_removal(adj: Seq<Seq<usize>>, cut: Cut)
    requires
        well_formed(adj),
        adj.len() <= usize::MAX,
        adjacent(adj, cut.u, cut.v),
    ensures
        adj.update(
            cut.u as int,
            adj[cut.u as int].remove(position(adj[cut.u as int], cut.v)),
        ).update(cut.v as int, adj[cut.v as int].remove(position(adj[cut.v as int], cut.u)))
            == sift(adj, seq![cut]),
{
    let u = cut.u;
    let v = cut.v;
    let log = seq![cut];
    let next = adj.update(u as int, adj[u as int].remove(position(adj[u as int], v))).update(
        v as int,
        adj[v as int].remove(position(adj[v as int], u)),
    );
    assert(adjacent(adj, v, u));
    assert(log[0] == cut);
    assert forall|a: usize, b: usize| hides(log, a, b) <==> (a == u && b == v) || (a == v && b
        == u) by {
        if hides(log, a, b) {
            let k = choose|k: int|
                0 <= k < log.len() && (((#[trigger] log[k]).u == a && log[k].v == b) || (log[k].u
                    == b && log[k].v == a));
            assert(log[k] == cut);
        }
    }
    assert forall|x: int| 0 <= x < adj.len() implies #[trigger] next[x] == sift(adj, log)[x] by {
        let me = x as usize;
        assert(adj[x].no_duplicates());
        if me == u {
            lemma_keep_without(adj[x], v, shown(log, me));
        } else if me == v {
            lemma_keep_without(adj[x], u, shown(log, me));
        } else {
            lemma_keep_all(adj[x], shown(log, me));
        }
    }
    assert(next =~= sift(adj, log));
}

/// Putting an edge back where it was taken out gives the lists as they were.
pub proof fn lemma_mend_restores(adj: Seq<Seq<usize>>, u: usize, v: usize)
    requires
        well_formed(adj),
        adjacent(adj, u, v),
        position(adj[u as int], v) <= usize::MAX,
        position(adj[v as int], u) <= usize::MAX,
    ensures
        ({
            let next = adj.update(
                u as int,
                adj[u as int].remove(position(adj[u as int], v)),
            ).update(v as int, adj[v as int].remove(position(adj[v as int], u)));
            &&& can_mend(next, cut_of(adj, u, v))
            &&& mend(next, cut_of(adj, u, v)) == adj
        }),
{
    let at_u = position(adj[u as int], v);
    let at_v = position(adj[v as int], u);
    let next = adj.update(u as int, adj[u as int].remove(at_u)).update(
        v as int,
        adj[v as int].remove(at_v),
    );
    let cut = cut_of(adj, u, v);
    assert(adjacent(adj, v, u));
    lemma_position(adj[u as int], v);
    lemma_position(adj[v as int], u);
    crate::graph::lemma_adjacent_after_remove(adj, u, v);
    assert(!adjacent(next, u, v));
    let back = mend(next, cut);
    assert(back[u as int] =~= adj[u as int]);
    assert(back[v as int] =~= adj[v as int]);
    assert(back =~= adj);
}

/// A cut that is logged last is put back first.
pub proof fn lemma_unwind_push(
    before: Seq<Seq<usize>>,
    after: Seq<Seq<usize>>,
    log: Seq<Cut>,
    cut: Cut,
)
    requires
        can_mend(after, cut),
        mend(after, cut) == before,
    ensures
        unwind(after, log.push(cut)) == unwind(before, log),
        mendable(before, log) ==> mendable(after, log.push(cut)),
{
    assert(log.push(cut).drop_last() =~= log);
    assert(log.push(cut).last() == cut);
}

/// An empty log records the graph itself.
pub proof fn lemma_records_nothing(base: Seq<Seq<usize>>)
    ensures
        records(Seq::<Cut>::empty(), base, base),
        mendable(base, Seq::<Cut>::empty()),
        unwind(base, Seq::<Cut>::empty()) == base,
{
}

/// Taking an edge of `current` out and logging it keeps the record.
pub proof fn lemma_records_removal(
    log: Seq<Cut>,
    base: Seq<Seq<usize>>,
    current: Seq<Seq<usize>>,
    next: Seq<Seq<usize>>,
    cut: Cut,
)
    requires
        records(log, base, current),
        well_formed(current),
        adjacent(current, cut.u, cut.v),
        next.len() == current.len(),
        forall|a: usize, b: usize| #[trigger]
            adjacent(next, a, b) <==> adjacent(current, a, b) && !(a == cut.u && b == cut.v) && !(a
                == cut.v && b == cut.u),
    ensures
        records(log.push(cut), base, next),
{
    let log2 = log.push(cut);
    assert(adjacent(current, cut.v, cut.u));
    assert(log2[log.len() as int] == cut);
    assert forall|a: usize, b: usize| hides(log2, a, b) <==> hides(log, a, b) || (a == cut.u && b
        == cut.v) || (a == cut.v && b == cut.u) by {
        if hides(log, a, b) {
            let k = choose|k: int|
                0 <= k < log.len() && (((#[trigger] log[k]).u == a && log[k].v == b) || (log[k].u
                    == b && log[k].v == a));
            assert(log2[k] == log[k]);
        }
        if hides(log2, a, b) {
            let k = choose|k: int|
                0 <= k < log2.len() && (((#[trigger] log2[k]).u == a && log2[k].v == b) || (
                log2[k].u == b && log2[k].v == a));
            if k < log.len() {
                assert(log2[k] == log[k]);
            }
        }
    }
}

/// Taking all edges of `node` out and logging them keeps the record.
#[verifier::rlimit(50)]
pub proof fn lemma_records_isolation(
    log: Seq<Cut>,
    base: Seq<Seq<usize>>,
    current: Seq<Seq<usize>>,
    next: Seq<Seq<usize>>,
    node: usize,
)
    requires
        records(log, base, current),
        well_formed(current),
        node < current.len(),
        next.len() == current.len(),
        forall|a: usize, b: usize| #[trigger]
            adjacent(next, a, b) <==> adjacent(current, a, b) && a != node && b != node,
    ensures
        records(log + spokes(current, node), base, next),
{
    let list = current[node as int];
    let added = spokes(current, node);
    let log2 = log + added;
    assert forall|k: int| 0 <= k < log2.len() implies (if k < log.len() {
        #[trigger] log2[k] == log[k]
    } else {
        log2[k].u == node && log2[k].v == list[k - log.len()]
    }) by {}
    assert forall|a: usize, b: usize| hides(log2, a, b) <==> hides(log, a, b) || (a == node
        && list.contains(b)) || (b == node && list.contains(a)) by {
        if hides(log, a, b) {
            let k = choose|k: int|
                0 <= k < log.len() && (((#[trigger] log[k]).u == a && log[k].v == b) || (log[k].u
                    == b && log[k].v == a));
            assert(log2[k] == log[k]);
        }
        if a == node && list.contains(b) {
            let t = choose|t: int| 0 <= t < list.len() && list[t] == b;
            assert(log2[log.len() + t].u == a && log2[log.len() + t].v == b);
        }
        if b == node && list.contains(a) {
            let t = choose|t: int| 0 <= t < list.len() && list[t] == a;
            assert(log2[log.len() + t].u == b && log2[log.len() + t].v == a);
        }
        if hides(log2, a, b) {
            let k = choose|k: int|
                0 <= k < log2.len() && (((#[trigger] log2[k]).u == a && log2[k].v == b) || (
                log2[k].u == b && log2[k].v == a));
            if k < log.len() {
                assert(log2[k] == log[k]);
            } else {
                assert(list.contains(list[k - log.len()]));
            }
        }
    }
    assert forall|a: usize, b: usize|
        #![trigger adjacent(next, a, b)]
        #![trigger adjacent(base, a, b)]
        adjacent(next, a, b) <==> adjacent(base, a, b) && !hides(log2, a, b) by {
        if adjacent(base, a, b) && !hides(log, a, b) {
            assert(adjacent(current, a, b));
            if b == node {
                assert(adjacent(current, b, a));
            }
        }
    }
}

/// The log of the edges that are taken out of a graph for a while.
pub struct Suppression {
    removed: Vec<Cut>,
}

impl View for Suppression {
    type V = Seq<Cut>;

    /// The cuts, in the order in which the edges left the graph.
    closed spec fn view(&self) -> Seq<Cut> {
        self.removed@
    }
}

impl Suppression {
    /// A log that holds no edge.
    pub fn new() -> (log: Suppression)
        ensures
            log@ == Seq::<Cut>::empty(),
    {
        Suppression { removed: Vec::new() }
    }

    /// Takes the edge between `u` and `v` out of the graph and logs it.
    pub fn remove(&mut self, graph: &mut Graph, u: usize, v: usize)
        requires
            old(graph).wf(),
            adjacent(old(graph)@, u, v),
        ensures
            final(graph).wf(),
            final(graph)@ == old(graph)@.update(
                u as int,
                old(graph)@[u as int].remove(position(old(graph)@[u as int], v)),
            ).update(v as int, old(graph)@[v as int].remove(position(old(graph)@[v as int], u))),
            forall|a: usize, b: usize| #[trigger]
                adjacent(final(graph)@, a, b) <==> adjacent(old(graph)@, a, b) && !(a == u && b
                    == v) && !(a == v && b == u),
            final(graph)@ == sift(old(graph)@, seq![cut_of(old(graph)@, u, v)]),
            final(self)@ == old(self)@.push(cut_of(old(graph)@, u, v)),
            can_mend(final(graph)@, cut_of(old(graph)@, u, v)),
            mend(final(graph)@, cut_of(old(graph)@, u, v)) == old(graph)@,
    {
        let n = graph.size();
        assert(adjacent(graph@, v, u));
        let at_u = graph.locate(u, v);
        let at_v = graph.locate(v, u);
        proof {
            lemma_mend_restores(graph@, u, v);
            lemma_sift_removal(graph@, cut_of(graph@, u, v));
        }
        graph.remove_edge(u, v);
        self.removed.push(Cut { u, v, at_u, at_v });
    }

    /// Takes every edge of `node` out of the graph and logs it, in the order
    /// of the neighbour list of `node`.
    #[verifier::rlimit(50)]
    pub fn isolate(&mut self, graph: &mut Graph, node: usize)
        requires
            old(graph).wf(),
            node < old(graph)@.len(),
        ensures
            final(graph).wf(),
            final(graph)@.len() == old(graph)@.len(),
            forall|a: usize, b: usize| #[trigger]
                adjacent(final(graph)@, a, b) <==> adjacent(old(graph)@, a, b) && a != node && b
                    != node,
            final(graph)@ == sift(old(graph)@, spokes(old(graph)@, node)),
            final(self)@ == old(self)@ + spokes(old(graph)@, node),
            unwind(final(graph)@, final(self)@) == unwind(old(graph)@, old(self)@),
            mendable(old(graph)@, old(self)@) ==> mendable(final(graph)@, final(self)@),
    {
        let snapshot = graph.neighbors(node).clone();
        let ghost start = old(graph)@;
        let ghost list = start[node as int];
        assert(snapshot@ =~= list);
        let mut t: usize = 0;
        proof {
            assert(self@ =~= old(self)@ + spokes(start, node).subrange(0, 0));
            assert(list.subrange(0, list.len() as int) =~= list);
            assert(spokes(start, node).subrange(0, 0) =~= Seq::<Cut>::empty());
            lemma_sift_nothing(start);
        }
        while t < snapshot.len()
            invariant
                graph.wf(),
                graph@.len() == start.len(),
                node < graph@.len(),
                snapshot@ == list,
                start == old(graph)@,
                list == start[node as int],
                well_formed(start),
                t <= list.len(),
                graph@[node as int] == list.subrange(t as int, list.len() as int),
                forall|x: usize|
                    x < start.len() && x != node && !list.subrange(0, t as int).contains(x)
                        ==> #[trigger] graph@[x as int] == start[x as int],
                forall|a: usize, b: usize| #[trigger]
                    adjacent(graph@, a, b) <==> adjacent(start, a, b) && !(a == node
                        && list.subrange(0, t as int).contains(b)) && !(b == node && list.subrange(
                        0,
                        t as int,
                    ).contains(a)),
                self@ == old(self)@ + spokes(start, node).subrange(0, t as int),
                graph@ == sift(start, spokes(start, node).subrange(0, t as int)),
                unwind(graph@, self@) == unwind(start, old(self)@),
                mendable(start, old(self)@) ==> mendable(graph@, self@),
            decreases list.len() - t,
        {
            let neighbor = snapshot[t];
            let ghost before = graph@;
            let ghost log_before = self@;
            let ghost done = list.subrange(0, t as int);
            proof {
                assert(before[node as int][0] == neighbor);
                assert(adjacent(before, node, neighbor));
                assert(neighbor != node);
                assert(list.no_duplicates());
                assert(!done.contains(neighbor)) by {
                    if done.contains(neighbor) {
                        let k = choose|k: int| 0 <= k < done.len() && done[k] == neighbor;
                        assert(list[k] == list[t as int]);
                    }
                }
                assert(before[neighbor as int] == start[neighbor as int]);
                assert(position(before[node as int], neighbor) == 0);
            }
            self.remove(graph, node, neighbor);
            proof {
                let cut = cut_of(before, node, neighbor);
                lemma_unwind_push(before, graph@, log_before, cut);
                let done2 = list.subrange(0, t + 1);
                assert(done2 =~= done.push(neighbor));
                assert(done2[t as int] == neighbor);
                assert forall|x: usize| done2.contains(x) <==> done.contains(x) || x == neighbor by {
                    if done.contains(x) {
                        let k = choose|k: int| 0 <= k < done.len() && done[k] == x;
                        assert(done2[k] == x);
                    }
                    if done2.contains(x) {
                        let k = choose|k: int| 0 <= k < done2.len() && done2[k] == x;
                        if k < t {
                            assert(done[k] == x);
                        }
                    }
                }
                assert(spokes(start, node)[t as int] == cut);
                assert(spokes(start, node).subrange(0, t + 1) =~= spokes(start, node).subrange(
                    0,
                    t as int,
                ).push(cut));
                assert(self@ =~= old(self)@ + spokes(start, node).subrange(0, t + 1));
                assert(graph@[node as int] =~= list.subrange(t + 1, list.len() as int));
                lemma_sift_twice(start, spokes(start, node).subrange(0, t as int), seq![cut]);
                assert(spokes(start, node).subrange(0, t as int) + seq![cut] =~= spokes(
                    start,
                    node,
                ).subrange(0, t + 1));
            }
            t += 1;
        }
        proof {
            assert(list.subrange(0, list.len() as int) =~= list);
            assert(spokes(start, node).subrange(0, list.len() as int) =~= spokes(start, node));
            assert forall|a: usize, b: usize| #[trigger]
                adjacent(graph@, a, b) <==> adjacent(start, a, b) && a != node && b != node by {
                if adjacent(start, a, b) && b == node {
                    assert(adjacent(start, b, a));
                }
            }
        }
    }

    /// Puts every logged edge back into the graph at the places that it had,
    /// the last one first.
    pub fn restore(&self, graph: &mut Graph)
        requires
            old(graph).wf(),
            mendable(old(graph)@, self@),
        ensures
            final(graph).wf(),
            final(graph)@ == unwind(old(graph)@, self@),
    {
        let mut k: usize = self.removed.len();
        proof {
            assert(self@.subrange(0, k as int) =~= self@);
        }
        while k > 0
            invariant
                graph.wf(),
                k <= self@.len(),
                mendable(graph@, self@.subrange(0, k as int)),
                unwind(graph@, self@.subrange(0, k as int)) == unwind(old(graph)@, self@),
            decreases k,
        {
            let ghost pending = self@.subrange(0, k as int);
            let cut = self.removed[k - 1];
            proof {
                assert(pending.last() == cut);
                assert(pending.drop_last() =~= self@.subrange(0, k - 1));
            }
            graph.insert_edge(cut.u, cut.v, cut.at_u, cut.at_v);
            k -= 1;
        }
    }
}

} // verus!
