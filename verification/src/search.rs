//! The state of the search for a path of exact length between two
//! expansions, and the steps that lead from one state to the next.

use crate::cover::{
    covers, covers_expanded, lemma_cover_begins, lemma_cover_confirms, lemma_cover_exhausted,
    lemma_cover_expands,
};
use crate::candidate::lemma_candidate_is_new_path;
use crate::deviate::{gather, is_expansion, lemma_gather_contains};
use crate::graph::{fits, well_formed};
use crate::progress::{
    is_word, lemma_confirmation_progresses, lemma_stale_gather, stale, unconfirmed,
};
use crate::route::{is_distance, is_simple_path, joins};
use vstd::multiset::Multiset;
use vstd::prelude::*;

verus! {

/// The confirmed paths and the candidates in the pool are simple paths from
/// `start` to `end`, the confirmed ones with fewer than `length` vertices.
pub open spec fn holds_paths(
    base: Seq<Seq<usize>>,
    paths: Seq<Seq<usize>>,
    pool: Multiset<Seq<usize>>,
    start: usize,
    end: usize,
    length: nat,
) -> bool {
    &&& well_formed(base)
    &&& fits(base)
    &&& start != end
    &&& paths.len() >= 1
    &&& forall|i: int|
        0 <= i < paths.len() ==> is_simple_path(base, #[trigger] paths[i], start, end)
            && paths[i].len() < length
    &&& forall|c: Seq<usize>| #[trigger] pool.contains(c) ==> is_simple_path(base, c, start, end)
}

/// The state before the last confirmed path is expanded.
#[verifier::opaque]
pub open spec fn ready(
    base: Seq<Seq<usize>>,
    paths: Seq<Seq<usize>>,
    pool: Multiset<Seq<usize>>,
    start: usize,
    end: usize,
    length: nat,
) -> bool {
    &&& holds_paths(base, paths, pool, start, end, length)
    &&& covers(base, paths, pool, start, end)
}

/// The state after the last confirmed path is expanded.
#[verifier::opaque]
pub open spec fn expanded(
    base: Seq<Seq<usize>>,
    paths: Seq<Seq<usize>>,
    pool: Multiset<Seq<usize>>,
    start: usize,
    end: usize,
    length: nat,
) -> bool {
    &&& holds_paths(base, paths, pool, start, end, length)
    &&& covers_expanded(base, paths, pool, start, end)
}

/// The search begins with a shortest path that is shorter than asked for, and an empty pool.
pub proof fn lemma_search_begins(
    base: Seq<Seq<usize>>,
    shortest: Seq<usize>,
    start: usize,
    end: usize,
    length: nat,
)
    requires
        well_formed(base),
        fits(base),
        start != end,
        is_simple_path(base, shortest, start, end),
        shortest.len() < length,
    ensures
        ready(base, seq![shortest], Multiset::empty(), start, end, length),
{
    broadcast use vstd::multiset::group_multiset_axioms;

    reveal(ready);
    lemma_cover_begins(base, shortest, Multiset::empty(), start, end);
}

/// While the search goes on, the distance between the two ends is less than `length`.
pub proof fn lemma_search_is_past_distance(
    base: Seq<Seq<usize>>,
    paths: Seq<Seq<usize>>,
    pool: Multiset<Seq<usize>>,
    start: usize,
    end: usize,
    length: nat,
)
    requires
        ready(base, paths, pool, start, end, length) || expanded(
            base,
            paths,
            pool,
            start,
            end,
            length,
        ),
    ensures
        paths.len() >= 1,
        start != end,
        !is_distance(base, start, end, length),
{
    reveal(ready);
    reveal(expanded);
    assert(joins(base, paths[0], start, end));
}

/// The expansion of the last confirmed path puts simple paths into the pool
/// of which none is confirmed.
pub proof fn lemma_paths_expand(
    base: Seq<Seq<usize>>,
    paths: Seq<Seq<usize>>,
    pool: Multiset<Seq<usize>>,
    news: Seq<Option<Seq<usize>>>,
    start: usize,
    end: usize,
    length: nat,
)
    requires
        holds_paths(base, paths, pool, start, end, length),
        is_expansion(base, paths, end, news),
    ensures
        holds_paths(base, paths, pool.add(gather(news)), start, end, length),
        stale(pool.add(gather(news)), paths) == stale(pool, paths),
{
    broadcast use vstd::multiset::group_multiset_axioms;

    let last = paths[paths.len() - 1];
    let grown = pool.add(gather(news));
    assert forall|j: int| 0 <= j < news.len() implies (#[trigger] news[j] matches Some(c)
        ==> !paths.contains(c) && is_simple_path(base, c, start, end)) by {
        if let Some(c) = news[j] {
            lemma_candidate_is_new_path(base, paths, last, j, start, end, c);
        }
    }
    lemma_stale_gather(pool, paths, news);
    assert forall|c: Seq<usize>| #[trigger] grown.contains(c) implies is_simple_path(
        base,
        c,
        start,
        end,
    ) by {
        if !pool.contains(c) {
            lemma_gather_contains(news, c);
        }
    }
}

/// Confirming a short path out of the pool makes the measure fall.
pub proof fn lemma_paths_confirm(
    base: Seq<Seq<usize>>,
    paths: Seq<Seq<usize>>,
    pool: Multiset<Seq<usize>>,
    x: Seq<usize>,
    start: usize,
    end: usize,
    length: nat,
)
    requires
        holds_paths(base, paths, pool, start, end, length),
        pool.contains(x),
        x.len() < length,
    ensures
        holds_paths(base, paths.push(x), pool.remove(x), start, end, length),
        unconfirmed(base.len(), length, paths.push(x)).len() < unconfirmed(
            base.len(),
            length,
            paths,
        ).len() || (unconfirmed(base.len(), length, paths.push(x)).len() == unconfirmed(
            base.len(),
            length,
            paths,
        ).len() && stale(pool.remove(x), paths.push(x)) < stale(pool, paths)),
{
    broadcast use vstd::multiset::group_multiset_axioms;

    let more = paths.push(x);
    let rest = pool.remove(x);
    assert(is_simple_path(base, x, start, end));
    assert(is_word(x, base.len(), length)) by {
        assert forall|i: int| 0 <= i < x.len() implies x[i] < base.len() by {}
    }
    lemma_confirmation_progresses(base.len(), length, paths, pool, x);
    assert forall|i: int| 0 <= i < more.len() implies is_simple_path(
        base,
        #[trigger] more[i],
        start,
        end,
    ) && more[i].len() < length by {
        if i < paths.len() {
            assert(more[i] == paths[i]);
        }
    }
    assert forall|c: Seq<usize>| #[trigger] rest.contains(c) implies is_simple_path(
        base,
        c,
        start,
        end,
    ) by {
        assert(pool.contains(c));
    }
}

/// A state of the search holds paths.
pub proof fn lemma_ready_holds_paths(
    base: Seq<Seq<usize>>,
    paths: Seq<Seq<usize>>,
    pool: Multiset<Seq<usize>>,
    start: usize,
    end: usize,
    length: nat,
)
    requires
        ready(base, paths, pool, start, end, length),
    ensures
        holds_paths(base, paths, pool, start, end, length),
{
    reveal(ready);
}

/// The expansion of the last confirmed path leads to the expanded state.
pub proof fn lemma_search_expands(
    base: Seq<Seq<usize>>,
    paths: Seq<Seq<usize>>,
    pool: Multiset<Seq<usize>>,
    news: Seq<Option<Seq<usize>>>,
    start: usize,
    end: usize,
    length: nat,
)
    requires
        ready(base, paths, pool, start, end, length),
        is_expansion(base, paths, end, news),
    ensures
        expanded(base, paths, pool.add(gather(news)), start, end, length),
        stale(pool.add(gather(news)), paths) == stale(pool, paths),
{
    reveal(ready);
    reveal(expanded);
    lemma_paths_expand(base, paths, pool, news, start, end, length);
    lemma_cover_expands(base, paths, pool, news, start, end);
}

/// Every path in the pool is a simple path between the two ends.
pub proof fn lemma_search_yields(
    base: Seq<Seq<usize>>,
    paths: Seq<Seq<usize>>,
    pool: Multiset<Seq<usize>>,
    x: Seq<usize>,
    start: usize,
    end: usize,
    length: nat,
)
    requires
        expanded(base, paths, pool, start, end, length),
        pool.contains(x),
    ensures
        is_simple_path(base, x, start, end),
{
    reveal(expanded);
}

/// When the pool is empty after an expansion, every simple path between the
/// two ends is confirmed, and so has fewer than `length` vertices.
pub proof fn lemma_search_exhausted(
    base: Seq<Seq<usize>>,
    paths: Seq<Seq<usize>>,
    pool: Multiset<Seq<usize>>,
    start: usize,
    end: usize,
    length: nat,
)
    requires
        expanded(base, paths, pool, start, end, length),
        pool.len() == 0,
    ensures
        forall|q: Seq<usize>| #[trigger] is_simple_path(base, q, start, end) ==> q.len() < length,
{
    reveal(expanded);
    lemma_cover_exhausted(base, paths, pool, start, end);
    assert forall|q: Seq<usize>| #[trigger] is_simple_path(base, q, start, end) implies q.len()
        < length by {
        let i = choose|i: int| 0 <= i < paths.len() && paths[i] == q;
        assert(paths[i].len() < length);
    }
}

/// Confirming a short path out of the pool leads to the next state, and the measure falls.
pub proof fn lemma_search_confirms(
    base: Seq<Seq<usize>>,
    paths: Seq<Seq<usize>>,
    pool: Multiset<Seq<usize>>,
    x: Seq<usize>,
    start: usize,
    end: usize,
    length: nat,
)
    requires
        expanded(base, paths, pool, start, end, length),
        pool.contains(x),
        x.len() < length,
    ensures
        ready(base, paths.push(x), pool.remove(x), start, end, length),
        unconfirmed(base.len(), length, paths.push(x)).len() < unconfirmed(
            base.len(),
            length,
            paths,
        ).len() || (unconfirmed(base.len(), length, paths.push(x)).len() == unconfirmed(
            base.len(),
            length,
            paths,
        ).len() && stale(pool.remove(x), paths.push(x)) < stale(pool, paths)),
{
    reveal(ready);
    reveal(expanded);
    lemma_paths_confirm(base, paths, pool, x, start, end, length);
    lemma_cover_confirms(base, paths, pool, x, start, end);
}

} // verus!
