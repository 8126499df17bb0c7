//! Which of the shortest paths a breadth-first search finds: the first one,
//! by the places of its steps in the neighbour lists.
//!
//! The proofs give every reached vertex a code: the places of the steps of
//! its way from `start` along the links. Vertices of one level leave the
//! queue in the order of their codes, and the code of a vertex is the least
//! that any walk from `start` with as many vertices as its level has.

use crate::graph::{adjacent, lemma_position, position};
use crate::levels::{is_open, lemma_level_bounds_walk, lemma_open_level, reached, search_inv};
use crate::lex::{
    agree, lemma_lex_lt_le, lemma_lex_push_after, lemma_lex_push_less, lemma_lex_push_same,
    lex_le, lex_lt,
};
use crate::route::{joins, ranks};
use vstd::prelude::*;

verus! {

/// What holds of the codes between the steps of a search that looks at the
/// neighbour at index `k` of the current vertex next.
#[verifier::opaque]
pub open spec fn order_inv(
    adj: Seq<Seq<usize>>,
    start: usize,
    pred: Seq<usize>,
    level: Seq<nat>,
    code: Seq<Seq<usize>>,
    queue: Seq<usize>,
    current: Option<usize>,
    floor: nat,
    k: int,
) -> bool {
    &&& code.len() == adj.len()
    &&& code[start as int] == Seq::<usize>::empty()
    &&& forall|v: usize| #[trigger]
        reached(pred, start, v) ==> code[v as int].len() + 1 == level[v as int]
    &&& forall|v: usize| #[trigger]
        reached(pred, start, v) && v != start ==> {
            &&& code[v as int] == code[pred[v as int] as int].push(
                position(adj[pred[v as int] as int], v) as usize,
            )
            &&& !queue.contains(pred[v as int])
            &&& (current == Some(pred[v as int]) ==> position(adj[pred[v as int] as int], v) < k)
        }
    &&& forall|v: usize, w: Seq<usize>|
        reached(pred, start, v) && #[trigger] joins(adj, w, start, v) && w.len() == level[v as int]
            ==> lex_le(code[v as int], ranks(adj, w))
    &&& forall|i: int, j: int|
        0 <= i < j < queue.len() && level[queue[i] as int] == level[queue[j] as int] ==> lex_lt(
            code[#[trigger] queue[i] as int],
            code[#[trigger] queue[j] as int],
        )
    &&& forall|i: int|
        0 <= i < queue.len() && level[queue[i] as int] == floor && current is Some ==> lex_lt(
            code[current->0 as int],
            code[#[trigger] queue[i] as int],
        )
    &&& forall|v: usize, i: int|
        #![trigger reached(pred, start, v), queue[i]]
        reached(pred, start, v) && !is_open(queue, current, v) && level[v as int] == floor && 0
            <= i < queue.len() && level[queue[i] as int] == floor ==> lex_lt(
            code[v as int],
            code[queue[i] as int],
        )
    &&& forall|v: usize| #[trigger]
        reached(pred, start, v) && !is_open(queue, current, v) && level[v as int] == floor
            && current is Some ==> lex_lt(code[v as int], code[current->0 as int])
}

/// The places of the steps of a walk, with one more step.
pub proof fn lemma_ranks_push(adj: Seq<Seq<usize>>, w: Seq<usize>)
    requires
        w.len() >= 2,
    ensures
        ranks(adj, w) == ranks(adj, w.drop_last()).push(
            position(adj[w[w.len() - 2] as int], w[w.len() - 1]) as usize,
        ),
{
    assert(ranks(adj, w) =~= ranks(adj, w.drop_last()).push(
        position(adj[w[w.len() - 2] as int], w[w.len() - 1]) as usize,
    ));
}

/// A search that has reached nothing but `start`.
pub proof fn lemma_order_begins(adj: Seq<Seq<usize>>, start: usize, pred: Seq<usize>)
    requires
        start < adj.len(),
        pred.len() == adj.len(),
        forall|v: int| 0 <= v < pred.len() ==> pred[v] == usize::MAX,
    ensures
        order_inv(
            adj,
            start,
            pred,
            Seq::new(adj.len(), |v: int| 1nat),
            Seq::new(adj.len(), |v: int| Seq::<usize>::empty()),
            seq![start],
            None,
            1,
            0,
        ),
{
    reveal(order_inv);
    let level = Seq::new(adj.len(), |v: int| 1nat);
    let code = Seq::new(adj.len(), |v: int| Seq::<usize>::empty());
    let queue = seq![start];
    assert forall|v: usize, w: Seq<usize>|
        reached(pred, start, v) && #[trigger] joins(adj, w, start, v) && w.len()
            == level[v as int] implies lex_le(code[v as int], ranks(adj, w)) by {
        assert(agree(code[v as int], ranks(adj, w), 0));
    }
    assert forall|v: usize| #[trigger] reached(pred, start, v) implies is_open(queue, None, v) by {
        assert(queue[0] == start);
    }
}

/// The order holds on when the first vertex is taken out of the queue.
#[verifier::rlimit(50)]
pub proof fn lemma_order_takes(
    adj: Seq<Seq<usize>>,
    start: usize,
    pred: Seq<usize>,
    level: Seq<nat>,
    code: Seq<Seq<usize>>,
    queue: Seq<usize>,
    floor: nat,
    k: int,
)
    requires
        search_inv(adj, start, pred, level, queue, None, floor),
        order_inv(adj, start, pred, level, code, queue, None, floor, k),
        queue.len() > 0,
    ensures
        order_inv(
            adj,
            start,
            pred,
            level,
            code,
            queue.subrange(1, queue.len() as int),
            Some(queue[0]),
            level[queue[0] as int],
            0,
        ),
{
    reveal(order_inv);
    let rest = queue.subrange(1, queue.len() as int);
    let first = queue[0];
    let current = Some(first);
    let raised = level[first as int];
    assert(queue.contains(first));
    assert forall|i: int| 0 <= i < rest.len() implies #[trigger] rest[i] == queue[i + 1] by {}
    assert forall|x: usize| rest.contains(x) implies queue.contains(x) by {
        let i = choose|i: int| 0 <= i < rest.len() && rest[i] == x;
        assert(queue[i + 1] == x);
    }
    assert forall|v: usize| reached(pred, start, v) && !is_open(rest, current, v) implies !is_open(
        queue,
        None,
        v,
    ) by {
        if queue.contains(v) {
            let i = choose|i: int| 0 <= i < queue.len() && queue[i] == v;
            if i > 0 {
                assert(rest[i - 1] == v);
            }
        }
    }
    assert forall|i: int, j: int|
        0 <= i < j < rest.len() && level[rest[i] as int] == level[rest[j] as int] implies lex_lt(
        code[#[trigger] rest[i] as int],
        code[#[trigger] rest[j] as int],
    ) by {
        assert(rest[i] == queue[i + 1] && rest[j] == queue[j + 1]);
    }
    assert forall|i: int| 0 <= i < rest.len() && level[rest[i] as int] == raised implies lex_lt(
        code[first as int],
        code[#[trigger] rest[i] as int],
    ) by {
        assert(rest[i] == queue[i + 1]);
    }
    assert forall|v: usize, i: int|
        #![trigger reached(pred, start, v), rest[i]]
        reached(pred, start, v) && !is_open(rest, current, v) && level[v as int] == raised && 0
            <= i < rest.len() && level[rest[i] as int] == raised implies lex_lt(
        code[v as int],
        code[rest[i] as int],
    ) by {
        assert(rest[i] == queue[i + 1]);
        assert(!is_open(queue, None, v));
        assert(level[v as int] <= floor);
        assert(floor <= level[queue[0] as int]);
    }
    assert forall|v: usize| #[trigger]
        reached(pred, start, v) && !is_open(rest, current, v) && level[v as int]
            == raised implies lex_lt(code[v as int], code[first as int]) by {
        assert(!is_open(queue, None, v));
        assert(level[v as int] <= floor);
        assert(floor <= level[queue[0] as int]);
    }
}

/// The order holds on when a neighbour that is reached already is passed over.
pub proof fn lemma_order_skips(
    adj: Seq<Seq<usize>>,
    start: usize,
    pred: Seq<usize>,
    level: Seq<nat>,
    code: Seq<Seq<usize>>,
    queue: Seq<usize>,
    current: Option<usize>,
    floor: nat,
    k: int,
)
    requires
        order_inv(adj, start, pred, level, code, queue, current, floor, k),
    ensures
        order_inv(adj, start, pred, level, code, queue, current, floor, k + 1),
{
    reveal(order_inv);
}

/// The order holds on when the neighbour at index `k` of the current vertex
/// is reached for the first time.
#[verifier::rlimit(50)]
pub proof fn lemma_order_reaches(
    adj: Seq<Seq<usize>>,
    start: usize,
    pred: Seq<usize>,
    level: Seq<nat>,
    code: Seq<Seq<usize>>,
    queue: Seq<usize>,
    c: usize,
    floor: nat,
    k: usize,
    v: usize,
)
    requires
        search_inv(adj, start, pred, level, queue, Some(c), floor),
        order_inv(adj, start, pred, level, code, queue, Some(c), floor, k as int),
        k < adj[c as int].len(),
        adj[c as int][k as int] == v,
        !reached(pred, start, v),
    ensures
        order_inv(
            adj,
            start,
            pred.update(v as int, c),
            level.update(v as int, floor + 1),
            code.update(v as int, code[c as int].push(k)),
            queue.push(v),
            Some(c),
            floor,
            k + 1,
        ),
{
    reveal(order_inv);
    let pred2 = pred.update(v as int, c);
    let level2 = level.update(v as int, floor + 1);
    let code2 = code.update(v as int, code[c as int].push(k));
    let queue2 = queue.push(v);
    let current = Some(c);
    assert(adjacent(adj, c, v)) by {
        assert(adj[c as int].contains(v));
    }
    assert(v < adj.len() && v != c && v != start);
    assert(position(adj[c as int], v) == k) by {
        lemma_position(adj[c as int], v);
        assert(adj[c as int].no_duplicates());
    }
    assert(reached(pred, start, c));
    assert(level[c as int] == floor);
    assert(code[c as int].len() + 1 == floor);
    assert forall|x: usize| reached(pred2, start, x) <==> reached(pred, start, x) || x == v by {}
    assert(queue2[queue.len() as int] == v);
    assert forall|x: usize| queue2.contains(x) <==> queue.contains(x) || x == v by {
        if queue.contains(x) {
            let i = choose|i: int| 0 <= i < queue.len() && queue[i] == x;
            assert(queue2[i] == x);
        }
        if queue2.contains(x) {
            let i = choose|i: int| 0 <= i < queue2.len() && queue2[i] == x;
            if i < queue.len() {
                assert(queue[i] == x);
            }
        }
    }
    assert forall|i: int| 0 <= i < queue.len() implies #[trigger] queue2[i] == queue[i] && queue[i]
        != v && reached(pred, start, queue[i]) by {}
    // The current vertex does not wait in the queue.
    assert(!queue.contains(c)) by {
        if queue.contains(c) {
            let i = choose|i: int| 0 <= i < queue.len() && queue[i] == c;
            assert(lex_lt(code[c as int], code[queue[i] as int]));
        }
    }
    assert forall|x: usize| #[trigger] reached(pred2, start, x) && x != start implies {
        &&& code2[x as int] == code2[pred2[x as int] as int].push(
            position(adj[pred2[x as int] as int], x) as usize,
        )
        &&& !queue2.contains(pred2[x as int])
        &&& (current == Some(pred2[x as int]) ==> position(adj[pred2[x as int] as int], x) < k + 1)
    } by {
        if x != v {
            assert(reached(pred, start, x));
            assert(reached(pred, start, pred[x as int]));
        }
    }
    assert forall|x: usize, w: Seq<usize>|
        reached(pred2, start, x) && #[trigger] joins(adj, w, start, x) && w.len()
            == level2[x as int] implies lex_le(code2[x as int], ranks(adj, w)) by {
        if x == v {
            let i = w.len() - 2;
            let u = w[i];
            lemma_level_bounds_walk(adj, start, pred, level, queue, current, floor, w, i);
            assert(adjacent(adj, u, v));
            assert(is_open(queue, current, u));
            lemma_open_level(adj, start, pred, level, queue, current, floor, u);
            let head = w.drop_last();
            assert(joins(adj, head, start, u)) by {
                assert forall|y: int| 0 <= y < head.len() implies #[trigger] head[y] < adj.len() by {
                    assert(head[y] == w[y]);
                }
                assert forall|y: int| 0 <= y < head.len() - 1 implies adjacent(
                    adj,
                    #[trigger] head[y],
                    head[y + 1],
                ) by {
                    assert(head[y] == w[y]);
                    assert(adjacent(adj, w[y], w[y + 1]));
                }
            }
            assert(lex_le(code[u as int], ranks(adj, head)));
            lemma_ranks_push(adj, w);
            let step = position(adj[u as int], v) as usize;
            if u == c {
                lemma_lex_push_same(code[c as int], ranks(adj, head), k);
            } else {
                let iu = choose|iu: int| 0 <= iu < queue.len() && queue[iu] == u;
                assert(lex_lt(code[c as int], code[queue[iu] as int]));
                lemma_lex_lt_le(code[c as int], code[u as int], ranks(adj, head));
                lemma_lex_push_after(code[c as int], ranks(adj, head), k, step);
            }
        } else {
            assert(reached(pred, start, x));
        }
    }
    assert forall|i: int, j: int|
        0 <= i < j < queue2.len() && level2[queue2[i] as int] == level2[queue2[j] as int] implies lex_lt(
        code2[#[trigger] queue2[i] as int],
        code2[#[trigger] queue2[j] as int],
    ) by {
        assert(queue2[i] == queue[i]);
        if j < queue.len() {
            assert(queue2[j] == queue[j]);
        } else {
            let x = queue[i];
            assert(reached(pred, start, x));
            assert(level[x as int] == floor + 1);
            assert(x != start);
            let above = pred[x as int];
            let pos = position(adj[above as int], x);
            assert(reached(pred, start, above));
            assert(level[above as int] == floor);
            assert(code[x as int] == code[above as int].push(pos as usize));
            lemma_position(adj[above as int], x);
            if above == c {
                lemma_lex_push_less(code[c as int], pos as usize, k);
            } else {
                assert(!is_open(queue, current, above));
                assert(lex_lt(code[above as int], code[c as int]));
                lemma_lex_push_after(code[above as int], code[c as int], pos as usize, k);
            }
        }
    }
    assert forall|i: int|
        0 <= i < queue2.len() && level2[queue2[i] as int] == floor implies lex_lt(
        code2[c as int],
        code2[#[trigger] queue2[i] as int],
    ) by {
        if i < queue.len() {
            assert(queue2[i] == queue[i]);
        }
    }
    assert forall|x: usize| !#[trigger] is_open(queue2, current, x) implies !is_open(
        queue,
        current,
        x,
    ) by {}
    assert forall|x: usize, i: int|
        #![trigger reached(pred2, start, x), queue2[i]]
        reached(pred2, start, x) && !is_open(queue2, current, x) && level2[x as int] == floor && 0
            <= i < queue2.len() && level2[queue2[i] as int] == floor implies lex_lt(
        code2[x as int],
        code2[queue2[i] as int],
    ) by {
        assert(!is_open(queue, current, x));
        assert(reached(pred, start, x));
        if i < queue.len() {
            assert(queue2[i] == queue[i]);
        }
    }
    assert forall|x: usize| #[trigger]
        reached(pred2, start, x) && !is_open(queue2, current, x) && level2[x as int]
            == floor implies lex_lt(code2[x as int], code2[c as int]) by {
        assert(!is_open(queue, current, x));
        assert(reached(pred, start, x));
    }
}

/// The order holds on when the current vertex is done with.
pub proof fn lemma_order_settles(
    adj: Seq<Seq<usize>>,
    start: usize,
    pred: Seq<usize>,
    level: Seq<nat>,
    code: Seq<Seq<usize>>,
    queue: Seq<usize>,
    c: usize,
    floor: nat,
    k: int,
)
    requires
        search_inv(adj, start, pred, level, queue, Some(c), floor),
        order_inv(adj, start, pred, level, code, queue, Some(c), floor, k),
    ensures
        order_inv(adj, start, pred, level, code, queue, None, floor, 0),
{
    reveal(order_inv);
    assert forall|v: usize, i: int|
        #![trigger reached(pred, start, v), queue[i]]
        reached(pred, start, v) && !is_open(queue, None, v) && level[v as int] == floor && 0 <= i
            < queue.len() && level[queue[i] as int] == floor implies lex_lt(
        code[v as int],
        code[queue[i] as int],
    ) by {
        if v != c {
            assert(!is_open(queue, Some(c), v));
        }
    }
}

/// The code of a vertex holds the places of the steps of its way from `start` along the links.
pub proof fn lemma_code_is_ranks(
    adj: Seq<Seq<usize>>,
    start: usize,
    pred: Seq<usize>,
    level: Seq<nat>,
    code: Seq<Seq<usize>>,
    queue: Seq<usize>,
    current: Option<usize>,
    floor: nat,
    k: int,
    p: Seq<usize>,
    j: int,
)
    requires
        order_inv(adj, start, pred, level, code, queue, current, floor, k),
        p.len() >= 1,
        p[0] == start,
        forall|i: int| 0 <= i < p.len() ==> reached(pred, start, #[trigger] p[i]),
        forall|i: int|
            0 <= i < p.len() - 1 ==> pred[#[trigger] p[i + 1] as int] == p[i] && p[i + 1] != start,
        0 <= j < p.len(),
    ensures
        code[p[j] as int] == ranks(adj, p.subrange(0, j + 1)),
    decreases j,
{
    reveal(order_inv);
    if j == 0 {
        assert(ranks(adj, p.subrange(0, 1)) =~= Seq::<usize>::empty());
    } else {
        lemma_code_is_ranks(adj, start, pred, level, code, queue, current, floor, k, p, j - 1);
        let upto = p.subrange(0, j + 1);
        assert(reached(pred, start, p[j]));
        assert(pred[p[(j - 1) + 1] as int] == p[j - 1]);
        lemma_ranks_push(adj, upto);
        assert(upto.drop_last() =~= p.subrange(0, j));
    }
}

/// The code of a reached vertex is the least that any walk to it from `start`
/// with as many vertices as its level has.
pub proof fn lemma_code_is_least(
    adj: Seq<Seq<usize>>,
    start: usize,
    pred: Seq<usize>,
    level: Seq<nat>,
    code: Seq<Seq<usize>>,
    queue: Seq<usize>,
    current: Option<usize>,
    floor: nat,
    k: int,
    v: usize,
)
    requires
        order_inv(adj, start, pred, level, code, queue, current, floor, k),
        reached(pred, start, v),
    ensures
        forall|w: Seq<usize>|
            joins(adj, w, start, v) && w.len() == level[v as int] ==> lex_le(
                code[v as int],
                ranks(adj, w),
            ),
{
    reveal(order_inv);
}

} // verus!
