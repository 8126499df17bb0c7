//! The path search: breadth-first search for a shortest path, and on top of it
//! the search for a path with an exact number of vertices.

use crate::answer::{answer_from, exact_search, lemma_answer_round, lemma_search_starts};
use crate::deviate::{deviations, expansion, outcome_of};
use crate::firsts::{
    lemma_code_is_least, lemma_code_is_ranks, lemma_order_begins, lemma_order_reaches,
    lemma_order_settles, lemma_order_skips, lemma_order_takes, order_inv,
};
use crate::graph::{adjacent, fits, well_formed, Graph};
use crate::levels::{
    is_tree, lemma_level_bounds_walk, lemma_search_begins, lemma_search_reaches,
    lemma_search_settles, lemma_search_takes, lemma_settled_search_is_closed, reached, search_inv,
};
use crate::pool::{views, CandidatePool};
use crate::progress::{stale, unconfirmed};
use crate::exist::lemma_first_shortest_path_exists;
use crate::route::{
    connected, first_shortest_path, is_distance, is_first_shortest_path, is_simple_path, joins,
    lemma_first_shortest_path_is_unique,
};
use crate::search::{
    lemma_ready_holds_paths, lemma_search_confirms, lemma_search_exhausted,
    lemma_search_expands, lemma_search_is_past_distance, lemma_search_yields, ready,
};
use std::collections::VecDeque;
use vstd::prelude::*;

verus! {

/// The way from `start` to `end` along the links of a search that has reached `end`.
#[verifier::rlimit(50)]
fn trace_back(
    predecessor: &Vec<usize>,
    start: usize,
    end: usize,
    Ghost(adj): Ghost<Seq<Seq<usize>>>,
    Ghost(level): Ghost<Seq<nat>>,
) -> (path: Vec<usize>)
    requires
        is_tree(adj, start, predecessor@, level),
        reached(predecessor@, start, end),
    ensures
        is_simple_path(adj, path@, start, end),
        path@.len() == level[end as int],
        forall|i: int| 0 <= i < path@.len() ==> reached(predecessor@, start, #[trigger] path@[i]),
        forall|i: int|
            0 <= i < path@.len() - 1 ==> predecessor@[#[trigger] path@[i + 1] as int] == path@[i]
                && path@[i + 1] != start,
{
    let mut reversed: Vec<usize> = Vec::new();
    reversed.push(end);
    let mut current = end;
    while predecessor[current] != usize::MAX
        invariant
            is_tree(adj, start, predecessor@, level),
            reached(predecessor@, start, current),
            reversed@.len() >= 1,
            reversed@[0] == end,
            reversed@[reversed@.len() - 1] == current,
            forall|i: int|
                0 <= i < reversed@.len() ==> reached(predecessor@, start, #[trigger] reversed@[i])
                    && level[reversed@[i] as int] + i == level[end as int],
            forall|i: int|
                0 <= i < reversed@.len() - 1 ==> predecessor@[#[trigger] reversed@[i] as int]
                    == reversed@[i + 1] && reversed@[i] != start,
        decreases level[current as int],
    {
        let ghost before = reversed@;
        let above = predecessor[current];
        reversed.push(above);
        current = above;
        proof {
            assert forall|i: int| 0 <= i < reversed@.len() implies reached(
                predecessor@,
                start,
                #[trigger] reversed@[i],
            ) && level[reversed@[i] as int] + i == level[end as int] by {
                if i < before.len() {
                    assert(reversed@[i] == before[i]);
                }
            }
            assert forall|i: int| 0 <= i < reversed@.len() - 1 implies predecessor@[#[trigger] reversed@[i] as int]
                == reversed@[i + 1] && reversed@[i] != start by {
                assert(reversed@[i] == before[i]);
            }
        }
    }
    assert(current == start);
    let count = reversed.len();
    let mut path: Vec<usize> = Vec::new();
    let mut taken: usize = 0;
    while taken < count
        invariant
            count == reversed@.len(),
            taken <= count,
            path@.len() == taken,
            forall|j: int| 0 <= j < taken ==> #[trigger] path@[j] == reversed@[count - 1 - j],
        decreases count - taken,
    {
        path.push(reversed[count - 1 - taken]);
        taken += 1;
    }
    proof {
        let p = path@;
        let r = reversed@;
        assert forall|i: int| 0 <= i < p.len() implies #[trigger] p[i] < adj.len() by {
            assert(reached(predecessor@, start, r[count - 1 - i]));
        }
        assert forall|i: int| 0 <= i < p.len() - 1 implies adjacent(adj, #[trigger] p[i], p[i + 1]) by {
            let k = count - 2 - i;
            assert(p[i + 1] == r[k]);
            assert(p[i] == r[k + 1]);
            assert(reached(predecessor@, start, r[k]));
            assert(predecessor@[r[k] as int] == r[k + 1]);
        }
        assert forall|i: int, j: int| 0 <= i < p.len() && 0 <= j < p.len() && i != j implies p[i]
            != p[j] by {
            assert(reached(predecessor@, start, r[count - 1 - i]));
            assert(reached(predecessor@, start, r[count - 1 - j]));
        }
        assert(reached(predecessor@, start, r[count - 1]));
        assert forall|i: int| 0 <= i < p.len() implies reached(
            predecessor@,
            start,
            #[trigger] p[i],
        ) by {
            assert(reached(predecessor@, start, r[count - 1 - i]));
        }
        assert forall|i: int| 0 <= i < p.len() - 1 implies predecessor@[#[trigger] p[i + 1] as int]
            == p[i] && p[i + 1] != start by {
            let k = count - 2 - i;
            assert(p[i + 1] == r[k]);
            assert(p[i] == r[k + 1]);
            assert(predecessor@[r[k] as int] == r[k + 1]);
        }
    }
    path
}

/// Breadth-first search for a shortest path from `start` to `end`.
///
/// Returns a simple path with the fewest vertices that any walk between the
/// two has, and `None` where no walk joins them. Of several shortest paths
/// the search returns the first: the vertex that is reached first from an
/// earlier vertex stays with it, so the path takes the earliest neighbour
/// where two shortest paths part. A search from a vertex to itself is no
/// search: where `start == end` the answer is `None`, as it is where either is
/// no vertex of the graph.
#[verifier::rlimit(50)]
pub fn bfs(graph: &Graph, start: usize, end: usize) -> (found: Option<Vec<usize>>)
    requires
        graph.wf(),
    ensures
        found.is_some() <==> start != end && connected(graph@, start, end),
        found matches Some(p) ==> is_first_shortest_path(graph@, p@, start, end) && p@
            == first_shortest_path(graph@, start, end),
{
    let n = graph.size();
    if start == end {
        return None;
    }
    if start >= n || end >= n {
        assert forall|q: Seq<usize>| !joins(graph@, q, start, end) by {
            if joins(graph@, q, start, end) {
                assert(q[0] < graph@.len());
                assert(q[q.len() - 1] < graph@.len());
            }
        }
        return None;
    }
    let mut predecessor: Vec<usize> = Vec::new();
    let ghost mut unseen: Set<usize> = Set::empty();
    let mut filled: usize = 0;
    while filled < n
        invariant
            filled <= n,
            predecessor@.len() == filled,
            forall|j: int| 0 <= j < filled ==> predecessor@[j] == usize::MAX,
            unseen.finite(),
            forall|v: usize| unseen.contains(v) <==> v < filled && v != start,
        decreases n - filled,
    {
        predecessor.push(usize::MAX);
        proof {
            if filled != start {
                unseen = unseen.insert(filled);
            }
        }
        filled += 1;
    }
    let mut queue: VecDeque<usize> = VecDeque::new();
    queue.push_back(start);
    let ghost mut level: Seq<nat> = Seq::new(graph@.len(), |v: int| 1nat);
    let ghost mut code: Seq<Seq<usize>> = Seq::new(graph@.len(), |v: int| Seq::<usize>::empty());
    let ghost mut floor: nat = 1;
    proof {
        lemma_search_begins(graph@, start, predecessor@);
        lemma_order_begins(graph@, start, predecessor@);
        assert(queue@ =~= seq![start]);
    }
    loop
        invariant
            n == graph@.len(),
            start < n,
            end < n,
            start != end,
            search_inv(graph@, start, predecessor@, level, queue@, None, floor),
            order_inv(graph@, start, predecessor@, level, code, queue@, None, floor, 0),
            predecessor@[end as int] == usize::MAX,
            unseen.finite(),
            forall|v: usize| unseen.contains(v) <==> v < n && !reached(predecessor@, start, v),
        decreases unseen.len() + queue@.len(),
    {
        let ghost budget = unseen.len() + queue@.len();
        let ghost waiting = queue@;
        let current = match queue.pop_front() {
            Some(vertex) => vertex,
            None => {
                proof {
                    assert(queue@ =~= Seq::<usize>::empty());
                    assert forall|q: Seq<usize>| !joins(graph@, q, start, end) by {
                        if joins(graph@, q, start, end) {
                            lemma_settled_search_is_closed(
                                graph@,
                                start,
                                predecessor@,
                                level,
                                floor,
                                q,
                                q.len() - 1,
                            );
                        }
                    }
                }
                return None;
            },
        };
        proof {
            lemma_search_takes(graph@, start, predecessor@, level, waiting, floor);
            lemma_order_takes(graph@, start, predecessor@, level, code, waiting, floor, 0);
            floor = level[current as int];
        }
        let neighbors = graph.neighbors(current);
        let mut k: usize = 0;
        while k < neighbors.len()
            invariant
                n == graph@.len(),
                start < n,
                end < n,
                start != end,
                current < n,
                neighbors@ == graph@[current as int],
                k <= neighbors@.len(),
                forall|j: int|
                    0 <= j < k ==> reached(predecessor@, start, #[trigger] neighbors@[j]),
                search_inv(graph@, start, predecessor@, level, queue@, Some(current), floor),
                order_inv(
                    graph@,
                    start,
                    predecessor@,
                    level,
                    code,
                    queue@,
                    Some(current),
                    floor,
                    k as int,
                ),
                predecessor@[end as int] == usize::MAX,
                unseen.finite(),
                forall|v: usize| unseen.contains(v) <==> v < n && !reached(predecessor@, start, v),
                unseen.len() + queue@.len() + 1 == budget,
            decreases neighbors@.len() - k,
        {
            let vertex = neighbors[k];
            assert(adjacent(graph@, current, vertex));
            if predecessor[vertex] == usize::MAX && vertex != start {
                proof {
                    lemma_search_reaches(
                        graph@,
                        start,
                        predecessor@,
                        level,
                        queue@,
                        current,
                        floor,
                        vertex,
                    );
                    lemma_order_reaches(
                        graph@,
                        start,
                        predecessor@,
                        level,
                        code,
                        queue@,
                        current,
                        floor,
                        k,
                        vertex,
                    );
                    assert(unseen.contains(vertex));
                    unseen = unseen.remove(vertex);
                    level = level.update(vertex as int, floor + 1);
                    code = code.update(vertex as int, code[current as int].push(k));
                }
                predecessor.set(vertex, current);
                queue.push_back(vertex);
                if vertex == end {
                    let path = trace_back(&predecessor, start, end, Ghost(graph@), Ghost(level));
                    proof {
                        assert forall|q: Seq<usize>| joins(graph@, q, start, end) implies path@.len()
                            <= q.len() by {
                            lemma_level_bounds_walk(
                                graph@,
                                start,
                                predecessor@,
                                level,
                                queue@,
                                Some(current),
                                floor,
                                q,
                                q.len() - 1,
                            );
                        }
                        assert(joins(graph@, path@, start, end));
                        lemma_code_is_ranks(
                            graph@,
                            start,
                            predecessor@,
                            level,
                            code,
                            queue@,
                            Some(current),
                            floor,
                            k + 1,
                            path@,
                            path@.len() - 1,
                        );
                        assert(path@.subrange(0, path@.len() as int) =~= path@);
                        lemma_code_is_least(
                            graph@,
                            start,
                            predecessor@,
                            level,
                            code,
                            queue@,
                            Some(current),
                            floor,
                            k + 1,
                            end,
                        );
                        graph.lemma_fits();
                        lemma_first_shortest_path_exists(graph@, start, end);
                        lemma_first_shortest_path_is_unique(
                            graph@,
                            path@,
                            first_shortest_path(graph@, start, end),
                            start,
                            end,
                        );
                    }
                    return Some(path);
                }
            } else {
                proof {
                    lemma_order_skips(
                        graph@,
                        start,
                        predecessor@,
                        level,
                        code,
                        queue@,
                        Some(current),
                        floor,
                        k as int,
                    );
                }
            }
            k += 1;
        }
        proof {
            assert forall|w: usize| #[trigger] adjacent(graph@, current, w) implies reached(
                predecessor@,
                start,
                w,
            ) by {
                let j = choose|j: int| 0 <= j < neighbors@.len() && neighbors@[j] == w;
                assert(reached(predecessor@, start, neighbors@[j]));
            }
            lemma_order_settles(
                graph@,
                start,
                predecessor@,
                level,
                code,
                queue@,
                current,
                floor,
                k as int,
            );
            lemma_search_settles(graph@, start, predecessor@, level, queue@, current, floor);
        }
    }
}

/// Search for a simple path from `start` to `end` with exactly `length` vertices.
///
/// The search confirms paths one after the other, the shortest path first.
/// Each confirmed path is expanded into the candidates that leave it at one of
/// its vertices, and the next path to confirm is the greatest candidate in the
/// pool, in the lexicographic order of the vertex sequences. A candidate with
/// `length` vertices is the answer. The search gives up when the pool is empty
/// or when the shortest path or the greatest candidate has more than `length`
/// vertices; so it may give up although a path with `length` vertices exists,
/// but only where a longer simple path exists as well.
///
/// Confirmed paths and candidates are kept as they come: a path may stand in
/// the pool more than once and be confirmed more than once.
///
/// A search from a vertex to itself is answered with `None`. The graph is the
/// same after the call as before it, neighbour list by neighbour list,
/// whatever the answer.
#[verifier::rlimit(50)]
pub fn yen(graph: &mut Graph, start: usize, end: usize, length: usize) -> (found: Option<
    Vec<usize>,
>)
    requires
        old(graph).wf(),
    ensures
        final(graph)@ == old(graph)@,
        final(graph).edges() == old(graph).edges(),
        found matches Some(p) ==> p@.len() == length && start != end && is_simple_path(
            old(graph)@,
            p@,
            start,
            end,
        ),
        (forall|q: Seq<usize>| joins(old(graph)@, q, start, end) ==> length < q.len())
            ==> found is None,
        start != end && is_distance(old(graph)@, start, end, length as nat) ==> found is Some,
        found is None ==> {
            ||| start == end
            ||| forall|q: Seq<usize>| #[trigger]
                is_simple_path(old(graph)@, q, start, end) ==> q.len() < length
            ||| exists|q: Seq<usize>| #[trigger]
                is_simple_path(old(graph)@, q, start, end) && q.len() > length
        },
        outcome_of(found) == exact_search(old(graph)@, start, end, length as nat),
{
    let ghost base = graph@;
    let n = graph.size();
    proof {
        graph.lemma_fits();
    }
    let shortest = match bfs(graph, start, end) {
        Some(path) => path,
        None => {
            return None;
        },
    };
    proof {
        lemma_search_starts(base, shortest@, start, end, length as nat);
    }
    if shortest.len() == length {
        return Some(shortest);
    }
    if shortest.len() > length {
        assert(is_simple_path(base, shortest@, start, end));
        return None;
    }
    let mut paths: Vec<Vec<usize>> = Vec::new();
    let mut candidates = CandidatePool::new();
    let ghost goal = exact_search(base, start, end, length as nat);
    proof {
        crate::search::lemma_search_begins(base, shortest@, start, end, length as nat);
        assert(views(paths@.push(shortest)) =~= seq![shortest@]);
    }
    paths.push(shortest);
    loop
        invariant
            graph.wf(),
            base == old(graph)@,
            graph@ == base,
            n == base.len(),
            paths@.len() >= 1,
            ready(base, views(paths@), candidates@, start, end, length as nat),
            well_formed(base),
            fits(base),
            goal == exact_search(base, start, end, length as nat),
            goal == answer_from(base, views(paths@), candidates@, start, end, length as nat),
        decreases
            unconfirmed(n as nat, length as nat, views(paths@)).len(),
            stale(candidates@, views(paths@)),
    {
        let ghost confirmed = views(paths@);
        let ghost waiting = candidates@;
        deviations(graph, &paths, end, &mut candidates);
        let ghost news = expansion(base, confirmed, end);
        proof {
            lemma_ready_holds_paths(base, confirmed, waiting, start, end, length as nat);
            lemma_search_expands(
                base,
                confirmed,
                waiting,
                news,
                start,
                end,
                length as nat,
            );
            lemma_search_is_past_distance(
                base,
                confirmed,
                candidates@,
                start,
                end,
                length as nat,
            );
        }
        let ghost grown = candidates@;
        match candidates.pop() {
            None => {
                proof {
                    lemma_search_exhausted(base, confirmed, grown, start, end, length as nat);
                    lemma_answer_round(
                        base,
                        confirmed,
                        waiting,
                        news,
                        None,
                        start,
                        end,
                        length as nat,
                    );
                }
                return None;
            },
            Some(path) => {
                proof {
                    lemma_search_yields(base, confirmed, grown, path@, start, end, length as nat);
                    lemma_answer_round(
                        base,
                        confirmed,
                        waiting,
                        news,
                        Some(path@),
                        start,
                        end,
                        length as nat,
                    );
                }
                if path.len() == length {
                    return Some(path);
                }
                if path.len() > length {
                    return None;
                }
                proof {
                    lemma_search_confirms(base, confirmed, grown, path@, start, end, length as nat);
                    assert(views(paths@.push(path)) =~= confirmed.push(path@));
                }
                paths.push(path);
            },
        }
    }
}

} // verus!
