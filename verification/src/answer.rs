//! What the search for a path of exact length answers, round by round.
//!
//! A round expands the last confirmed path and takes the greatest path out of
//! the pool. That path is the answer if it has the length asked for; the
//! search gives up if it is longer or if the pool was empty; else the path is
//! confirmed and another round follows.

use crate::deviate::{expansion, gather, is_expansion, lemma_expansion, lemma_expansion_is_unique};
use crate::exist::lemma_greatest_exists;
use crate::pool::is_greatest;
use crate::graph::fits;
use crate::lex::lemma_lex_antisymmetric;
use crate::progress::{stale, unconfirmed};
use crate::route::{
    connected, first_shortest_path, is_first_shortest_path, lemma_first_shortest_path_is_unique,
};
use crate::search::{holds_paths, lemma_paths_confirm, lemma_paths_expand};
use vstd::multiset::Multiset;
use vstd::prelude::*;

verus! {

/// The greatest path of a pool that is not empty.
pub open spec fn greatest(pool: Multiset<Seq<usize>>) -> Seq<usize> {
    choose|top: Seq<usize>| is_greatest(pool, top)
}

/// A pool has one greatest path.
pub proof fn lemma_greatest_is_unique(pool: Multiset<Seq<usize>>, top: Seq<usize>)
    requires
        is_greatest(pool, top),
    ensures
        greatest(pool) == top,
{
    let chosen = greatest(pool);
    assert(is_greatest(pool, chosen));
    lemma_lex_antisymmetric(chosen, top);
}

/// What the search answers from the state in which `paths` are confirmed
/// and `pool` holds the candidates.
pub open spec fn answer_from(
    base: Seq<Seq<usize>>,
    paths: Seq<Seq<usize>>,
    pool: Multiset<Seq<usize>>,
    start: usize,
    end: usize,
    length: nat,
) -> Option<Seq<usize>>
    decreases unconfirmed(base.len(), length, paths).len(), stale(pool, paths),
    when holds_paths(base, paths, pool, start, end, length)
    via answer_from_decreases
{
    let grown = pool.add(gather(expansion(base, paths, end)));
    if grown.len() == 0 {
        None
    } else {
        let top = greatest(grown);
        if top.len() == length {
            Some(top)
        } else if top.len() > length {
            None
        } else {
            answer_from(base, paths.push(top), grown.remove(top), start, end, length)
        }
    }
}

/// A round that confirms a path makes the measure fall.
#[via_fn]
proof fn answer_from_decreases(
    base: Seq<Seq<usize>>,
    paths: Seq<Seq<usize>>,
    pool: Multiset<Seq<usize>>,
    start: usize,
    end: usize,
    length: nat,
) {
    let news = expansion(base, paths, end);
    let grown = pool.add(gather(news));
    if grown.len() != 0 && greatest(grown).len() < length {
        lemma_expansion(base, paths, end);
        lemma_greatest_exists(grown);
        lemma_paths_expand(base, paths, pool, news, start, end, length);
        lemma_paths_confirm(base, paths, grown, greatest(grown), start, end, length);
    }
}

/// What the search for a path of `length` vertices from `start` to `end`
/// answers: nothing where the two are the same vertex or not connected; else
/// the first shortest path if it has `length` vertices, nothing if it has
/// more, and what the rounds answer that begin with it if it has fewer.
pub open spec fn exact_search(adj: Seq<Seq<usize>>, start: usize, end: usize, length: nat) -> Option<
    Seq<usize>,
> {
    if start == end || !connected(adj, start, end) {
        None
    } else {
        let shortest = first_shortest_path(adj, start, end);
        if shortest.len() == length {
            Some(shortest)
        } else if shortest.len() > length {
            None
        } else {
            answer_from(adj, seq![shortest], Multiset::empty(), start, end, length)
        }
    }
}

/// One round of the search: with `news` from the expansion and `top` out of
/// the pool, the search answers `top` if it has the length asked for,
/// nothing if it is longer or there is none, and else what it answers from
/// the state with `top` confirmed.
pub proof fn lemma_answer_round(
    base: Seq<Seq<usize>>,
    paths: Seq<Seq<usize>>,
    pool: Multiset<Seq<usize>>,
    news: Seq<Option<Seq<usize>>>,
    top: Option<Seq<usize>>,
    start: usize,
    end: usize,
    length: nat,
)
    requires
        holds_paths(base, paths, pool, start, end, length),
        is_expansion(base, paths, end, news),
        match top {
            Some(t) => is_greatest(pool.add(gather(news)), t),
            None => pool.add(gather(news)).len() == 0,
        },
    ensures
        answer_from(base, paths, pool, start, end, length) == match top {
            None => None,
            Some(t) => if t.len() == length {
                Some(t)
            } else if t.len() > length {
                None
            } else {
                answer_from(
                    base,
                    paths.push(t),
                    pool.add(gather(news)).remove(t),
                    start,
                    end,
                    length,
                )
            },
        },
{
    broadcast use vstd::multiset::group_multiset_axioms;

    lemma_expansion_is_unique(base, paths, end, news);
    let grown = pool.add(gather(news));
    match top {
        Some(t) => {
            lemma_greatest_is_unique(grown, t);
            assert(grown.count(t) <= grown.len());
            if t.len() < length {
                lemma_paths_expand(base, paths, pool, news, start, end, length);
                lemma_paths_confirm(base, paths, grown, t, start, end, length);
            }
        },
        None => {},
    }
}

/// The search begins with the first shortest path.
pub proof fn lemma_search_starts(
    adj: Seq<Seq<usize>>,
    shortest: Seq<usize>,
    start: usize,
    end: usize,
    length: nat,
)
    requires
        fits(adj),
        start != end,
        is_first_shortest_path(adj, shortest, start, end),
    ensures
        connected(adj, start, end),
        first_shortest_path(adj, start, end) == shortest,
        exact_search(adj, start, end, length) == if shortest.len() == length {
            Some(shortest)
        } else if shortest.len() > length {
            None
        } else {
            answer_from(adj, seq![shortest], Multiset::empty(), start, end, length)
        },
{
    assert(crate::route::joins(adj, shortest, start, end));
    lemma_first_shortest_path_is_unique(
        adj,
        first_shortest_path(adj, start, end),
        shortest,
        start,
        end,
    );
}

} // verus!
