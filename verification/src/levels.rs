//! The state of a breadth-first search and what holds of it between steps.
//!
//! A search from `start` keeps, for each vertex, the vertex from which it was
//! first reached (`usize::MAX` where there is none) and a queue of reached
//! vertices whose neighbours are still to be looked at. The proofs add the
//! level of each reached vertex: the number of vertices on its way from
//! `start` along those links.

use crate::graph::{adjacent, well_formed};
use crate::route::is_walk;
use vstd::prelude::*;

verus! {

/// The search has reached `v`.
pub open spec fn reached(pred: Seq<usize>, start: usize, v: usize) -> bool {
    v < pred.len() && (v == start || pred[v as int] != usize::MAX)
}

/// The links form a tree rooted at `start`: every reached vertex but `start`
/// hangs from a reached neighbour one level up.
pub open spec fn is_tree(
    adj: Seq<Seq<usize>>,
    start: usize,
    pred: Seq<usize>,
    level: Seq<nat>,
) -> bool {
    &&& pred.len() == adj.len()
    &&& level.len() == adj.len()
    &&& adj.len() <= usize::MAX
    &&& start < adj.len()
    &&& pred[start as int] == usize::MAX
    &&& level[start as int] == 1
    &&& forall|v: usize| #[trigger]
        reached(pred, start, v) && v != start ==> {
            &&& reached(pred, start, pred[v as int])
            &&& adjacent(adj, pred[v as int], v)
            &&& level[v as int] == level[pred[v as int] as int] + 1
        }
}

/// `v` waits in the queue, or is the vertex whose neighbours are being looked at.
pub open spec fn is_open(queue: Seq<usize>, current: Option<usize>, v: usize) -> bool {
    queue.contains(v) || current == Some(v)
}

/// What holds between the steps of a search whose open vertices lie on the
/// levels `floor` and `floor + 1`.
pub open spec fn search_inv(
    adj: Seq<Seq<usize>>,
    start: usize,
    pred: Seq<usize>,
    level: Seq<nat>,
    queue: Seq<usize>,
    current: Option<usize>,
    floor: nat,
) -> bool {
    &&& well_formed(adj)
    &&& is_tree(adj, start, pred, level)
    &&& forall|i: int|
        0 <= i < queue.len() ==> reached(pred, start, #[trigger] queue[i]) && floor
            <= level[queue[i] as int] <= floor + 1
    &&& forall|i: int, j: int|
        0 <= i <= j < queue.len() ==> level[#[trigger] queue[i] as int]
            <= level[#[trigger] queue[j] as int]
    &&& (current matches Some(c) ==> reached(pred, start, c) && level[c as int] == floor)
    &&& forall|v: usize| #[trigger]
        reached(pred, start, v) && !is_open(queue, current, v) ==> level[v as int] <= floor
    &&& forall|v: usize, w: usize|
        reached(pred, start, v) && !is_open(queue, current, v) && #[trigger] adjacent(adj, v, w)
            ==> reached(pred, start, w)
    &&& forall|u: usize, v: usize|
        reached(pred, start, u) && reached(pred, start, v) && #[trigger] adjacent(adj, u, v)
            ==> level[v as int] <= level[u as int] + 1
}

/// A search that has reached nothing but `start`, which waits in the queue.
pub proof fn lemma_search_begins(adj: Seq<Seq<usize>>, start: usize, pred: Seq<usize>)
    requires
        well_formed(adj),
        start < adj.len(),
        adj.len() <= usize::MAX,
        pred.len() == adj.len(),
        forall|v: int| 0 <= v < pred.len() ==> pred[v] == usize::MAX,
    ensures
        search_inv(adj, start, pred, Seq::new(adj.len(), |v: int| 1nat), seq![start], None, 1),
{
    let queue = seq![start];
    assert(queue[0] == start);
    assert(queue.contains(start));
}

/// Taking the first vertex out of the queue raises the floor to its level.
pub proof fn lemma_search_takes(
    adj: Seq<Seq<usize>>,
    start: usize,
    pred: Seq<usize>,
    level: Seq<nat>,
    queue: Seq<usize>,
    floor: nat,
)
    requires
        search_inv(adj, start, pred, level, queue, None, floor),
        queue.len() > 0,
    ensures
        search_inv(
            adj,
            start,
            pred,
            level,
            queue.subrange(1, queue.len() as int),
            Some(queue[0]),
            level[queue[0] as int],
        ),
{
    let rest = queue.subrange(1, queue.len() as int);
    let current = Some(queue[0]);
    let raised = level[queue[0] as int];
    assert forall|i: int| 0 <= i < rest.len() implies reached(pred, start, #[trigger] rest[i])
        && raised <= level[rest[i] as int] <= raised + 1 by {
        assert(rest[i] == queue[i + 1]);
    }
    assert forall|i: int, j: int| 0 <= i <= j < rest.len() implies level[#[trigger] rest[i] as int]
        <= level[#[trigger] rest[j] as int] by {
        assert(rest[i] == queue[i + 1]);
        assert(rest[j] == queue[j + 1]);
    }
    assert forall|v: usize| reached(pred, start, v) && !is_open(rest, current, v) implies !is_open(
        queue,
        None,
        v,
    ) by {
        if queue.contains(v) {
            let k = choose|k: int| 0 <= k < queue.len() && queue[k] == v;
            if k > 0 {
                assert(rest[k - 1] == v);
            }
        }
    }
}

/// A neighbour `w` of the current vertex that was not reached before is linked
/// to it and joins the queue one level above the floor.
#[verifier::rlimit(50)]
pub proof fn lemma_search_reaches(
    adj: Seq<Seq<usize>>,
    start: usize,
    pred: Seq<usize>,
    level: Seq<nat>,
    queue: Seq<usize>,
    current: usize,
    floor: nat,
    w: usize,
)
    requires
        search_inv(adj, start, pred, level, queue, Some(current), floor),
        adjacent(adj, current, w),
        !reached(pred, start, w),
    ensures
        search_inv(
            adj,
            start,
            pred.update(w as int, current),
            level.update(w as int, floor + 1),
            queue.push(w),
            Some(current),
            floor,
        ),
{
    let pred2 = pred.update(w as int, current);
    let level2 = level.update(w as int, floor + 1);
    let queue2 = queue.push(w);
    let open = Some(current);
    assert(w < adj.len() && w != current);
    assert(current < adj.len());
    assert forall|v: usize| reached(pred2, start, v) <==> reached(pred, start, v) || v == w by {}
    assert forall|v: usize| #[trigger] reached(pred2, start, v) && v != start implies {
        &&& reached(pred2, start, pred2[v as int])
        &&& adjacent(adj, pred2[v as int], v)
        &&& level2[v as int] == level2[pred2[v as int] as int] + 1
    } by {
        if v != w {
            assert(reached(pred, start, v));
            assert(reached(pred, start, pred[v as int]));
        }
    }
    assert(is_tree(adj, start, pred2, level2));
    assert forall|i: int| 0 <= i < queue2.len() implies reached(pred2, start, #[trigger] queue2[i])
        && floor <= level2[queue2[i] as int] <= floor + 1 by {
        if i < queue.len() {
            assert(queue2[i] == queue[i]);
        }
    }
    assert forall|i: int, j: int| 0 <= i <= j < queue2.len() implies level2[#[trigger] queue2[i] as int]
        <= level2[#[trigger] queue2[j] as int] by {
        if i < queue.len() {
            assert(queue2[i] == queue[i]);
        }
        if j < queue.len() {
            assert(queue2[j] == queue[j]);
        }
    }
    assert(queue2[queue.len() as int] == w);
    assert(queue2.contains(w));
    assert forall|v: usize| #[trigger] is_open(queue, open, v) implies is_open(queue2, open, v) by {
        if queue.contains(v) {
            let k = choose|k: int| 0 <= k < queue.len() && queue[k] == v;
            assert(queue2[k] == v);
        }
    }
    assert forall|v: usize| !#[trigger] is_open(queue2, open, v) implies !is_open(queue, open, v) by {
        if queue.contains(v) {
            let k = choose|k: int| 0 <= k < queue.len() && queue[k] == v;
            assert(queue2[k] == v);
        }
    }
    assert forall|v: usize| #[trigger]
        reached(pred2, start, v) && !is_open(queue2, open, v) implies level2[v as int] <= floor by {
        assert(!is_open(queue, open, v));
        assert(reached(pred, start, v));
    }
    assert forall|v: usize, x: usize|
        reached(pred2, start, v) && !is_open(queue2, open, v) && #[trigger] adjacent(
            adj,
            v,
            x,
        ) implies reached(pred2, start, x) by {
        assert(!is_open(queue, open, v));
        assert(reached(pred, start, v));
    }
    assert forall|u: usize, v: usize|
        reached(pred2, start, u) && reached(pred2, start, v) && #[trigger] adjacent(
            adj,
            u,
            v,
        ) implies level2[v as int] <= level2[u as int] + 1 by {
        if v == w && u != w {
            // `u` was reached and has a neighbour that was not: it is open.
            assert(reached(pred, start, u));
            assert(is_open(queue, open, u));
            lemma_open_level(adj, start, pred, level, queue, open, floor, u);
        } else if u == w && v != w {
            assert(reached(pred, start, v));
            if is_open(queue, open, v) {
                lemma_open_level(adj, start, pred, level, queue, open, floor, v);
            }
        }
    }
}

/// An open vertex lies on the floor or one level above it.
pub proof fn lemma_open_level(
    adj: Seq<Seq<usize>>,
    start: usize,
    pred: Seq<usize>,
    level: Seq<nat>,
    queue: Seq<usize>,
    current: Option<usize>,
    floor: nat,
    v: usize,
)
    requires
        search_inv(adj, start, pred, level, queue, current, floor),
        is_open(queue, current, v),
    ensures
        floor <= level[v as int] <= floor + 1,
        reached(pred, start, v),
{
    if queue.contains(v) {
        let k = choose|k: int| 0 <= k < queue.len() && queue[k] == v;
        assert(reached(pred, start, queue[k]));
    }
}

/// Once all neighbours of the current vertex are reached, it is done with.
pub proof fn lemma_search_settles(
    adj: Seq<Seq<usize>>,
    start: usize,
    pred: Seq<usize>,
    level: Seq<nat>,
    queue: Seq<usize>,
    current: usize,
    floor: nat,
)
    requires
        search_inv(adj, start, pred, level, queue, Some(current), floor),
        forall|w: usize| #[trigger] adjacent(adj, current, w) ==> reached(pred, start, w),
    ensures
        search_inv(adj, start, pred, level, queue, None, floor),
{
    assert forall|v: usize| #[trigger]
        reached(pred, start, v) && !is_open(queue, None, v) implies level[v as int] <= floor by {
        if v != current {
            assert(!is_open(queue, Some(current), v));
        }
    }
    assert forall|v: usize, w: usize|
        reached(pred, start, v) && !is_open(queue, None, v) && #[trigger] adjacent(
            adj,
            v,
            w,
        ) implies reached(pred, start, w) by {
        if v != current {
            assert(!is_open(queue, Some(current), v));
        }
    }
}

/// Along a walk from `start`, the vertex at index `i` is reached on a level of
/// at most `i + 1`, unless `i` is at least the floor.
pub proof fn lemma_level_bounds_walk(
    adj: Seq<Seq<usize>>,
    start: usize,
    pred: Seq<usize>,
    level: Seq<nat>,
    queue: Seq<usize>,
    current: Option<usize>,
    floor: nat,
    q: Seq<usize>,
    i: int,
)
    requires
        search_inv(adj, start, pred, level, queue, current, floor),
        is_walk(adj, q),
        q[0] == start,
        0 <= i < q.len(),
    ensures
        floor <= i || (reached(pred, start, q[i]) && level[q[i] as int] <= i + 1),
    decreases i,
{
    if i > 0 {
        lemma_level_bounds_walk(adj, start, pred, level, queue, current, floor, q, i - 1);
        let u = q[i - 1];
        let v = q[i];
        assert(adjacent(adj, u, v));
        if floor > i - 1 && !reached(pred, start, v) {
            assert(is_open(queue, current, u));
            lemma_open_level(adj, start, pred, level, queue, current, floor, u);
        }
    }
}

/// When no vertex is open, every vertex of a walk from `start` is reached.
pub proof fn lemma_settled_search_is_closed(
    adj: Seq<Seq<usize>>,
    start: usize,
    pred: Seq<usize>,
    level: Seq<nat>,
    floor: nat,
    q: Seq<usize>,
    i: int,
)
    requires
        search_inv(adj, start, pred, level, Seq::<usize>::empty(), None, floor),
        is_walk(adj, q),
        q[0] == start,
        0 <= i < q.len(),
    ensures
        reached(pred, start, q[i]),
    decreases i,
{
    if i > 0 {
        lemma_settled_search_is_closed(adj, start, pred, level, floor, q, i - 1);
        assert(adjacent(adj, q[i - 1], q[i]));
        assert(!is_open(Seq::<usize>::empty(), None, q[i - 1]));
    }
}

} // verus!
