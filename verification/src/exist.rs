//! That there is what the search looks for: between two connected vertices a
//! first shortest path, and in a pool that is not empty a greatest path.

use crate::lex::{
    lemma_lex_push_after, lemma_lex_push_less, lemma_lex_reflexive, lemma_lex_total,
    lemma_lex_transitive, lex_le,
};
use crate::pool::is_greatest;
use crate::route::{
    connected, is_distance, is_first_shortest_path, joins, lemma_repeating_walk_shortens, ranks,
};
use vstd::multiset::Multiset;
use vstd::prelude::*;

verus! {

/// Where a walk joins two vertices, some walk between them is shortest.
pub proof fn lemma_least_length_exists(
    adj: Seq<Seq<usize>>,
    start: usize,
    end: usize,
    q: Seq<usize>,
)
    requires
        joins(adj, q, start, end),
    ensures
        exists|d: nat| is_distance(adj, start, end, d),
    decreases q.len(),
{
    if forall|p: Seq<usize>| joins(adj, p, start, end) ==> q.len() <= p.len() {
        assert(is_distance(adj, start, end, q.len()));
    } else {
        let p = choose|p: Seq<usize>| joins(adj, p, start, end) && p.len() < q.len();
        lemma_least_length_exists(adj, start, end, p);
    }
}

/// `w` is a walk of `d` vertices from `start` to `end` whose steps begin with the places `pre`.
pub open spec fn begins_with(
    adj: Seq<Seq<usize>>,
    start: usize,
    end: usize,
    d: nat,
    pre: Seq<usize>,
    w: Seq<usize>,
) -> bool {
    &&& joins(adj, w, start, end)
    &&& w.len() == d
    &&& pre.len() < d
    &&& ranks(adj, w).subrange(0, pre.len() as int) == pre
}

/// Of the walks whose steps begin with `pre`, one takes the least place next.
proof fn lemma_least_next_exists(
    adj: Seq<Seq<usize>>,
    start: usize,
    end: usize,
    d: nat,
    pre: Seq<usize>,
    w: Seq<usize>,
)
    requires
        begins_with(adj, start, end, d, pre, w),
        pre.len() + 1 < d,
    ensures
        exists|v: Seq<usize>|
            begins_with(adj, start, end, d, pre, v) && forall|q: Seq<usize>| #[trigger]
                begins_with(adj, start, end, d, pre, q) ==> ranks(adj, v)[pre.len() as int]
                    <= ranks(adj, q)[pre.len() as int],
    decreases ranks(adj, w)[pre.len() as int],
{
    let here = ranks(adj, w)[pre.len() as int];
    if forall|q: Seq<usize>| #[trigger]
        begins_with(adj, start, end, d, pre, q) ==> here <= ranks(adj, q)[pre.len() as int] {
    } else {
        let q = choose|q: Seq<usize>| #[trigger]
            begins_with(adj, start, end, d, pre, q) && ranks(adj, q)[pre.len() as int] < here;
        lemma_least_next_exists(adj, start, end, d, pre, q);
    }
}

/// `w` is a walk of `d` vertices from `start` to `end` whose first `k` steps
/// take places that come first among such walks.
pub open spec fn is_first_upto(
    adj: Seq<Seq<usize>>,
    start: usize,
    end: usize,
    d: nat,
    k: int,
    w: Seq<usize>,
) -> bool {
    &&& joins(adj, w, start, end)
    &&& w.len() == d
    &&& forall|q: Seq<usize>|
        #![trigger joins(adj, q, start, end)]
        joins(adj, q, start, end) && q.len() == d ==> lex_le(
            ranks(adj, w).subrange(0, k),
            ranks(adj, q).subrange(0, k),
        )
}

/// Among the walks of `d` vertices, one comes first in its first `k` steps.
#[verifier::rlimit(50)]
proof fn lemma_first_upto_exists(
    adj: Seq<Seq<usize>>,
    start: usize,
    end: usize,
    d: nat,
    k: int,
    any: Seq<usize>,
)
    requires
        joins(adj, any, start, end),
        any.len() == d,
        0 <= k <= d - 1,
    ensures
        exists|w: Seq<usize>| is_first_upto(adj, start, end, d, k, w),
    decreases k,
{
    if k == 0 {
        assert forall|q: Seq<usize>|
            #![trigger joins(adj, q, start, end)]
            joins(adj, q, start, end) && q.len() == d implies lex_le(
            ranks(adj, any).subrange(0, 0),
            ranks(adj, q).subrange(0, 0),
        ) by {
            assert(ranks(adj, any).subrange(0, 0) =~= ranks(adj, q).subrange(0, 0));
            lemma_lex_reflexive(ranks(adj, any).subrange(0, 0));
        }
        assert(is_first_upto(adj, start, end, d, k, any));
    } else {
        let below = k - 1;
        lemma_first_upto_exists(adj, start, end, d, below, any);
        let w = choose|w: Seq<usize>| is_first_upto(adj, start, end, d, below, w);
        let pre = ranks(adj, w).subrange(0, k - 1);
        assert(begins_with(adj, start, end, d, pre, w));
        lemma_least_next_exists(adj, start, end, d, pre, w);
        let v = choose|v: Seq<usize>|
            begins_with(adj, start, end, d, pre, v) && forall|q: Seq<usize>| #[trigger]
                begins_with(adj, start, end, d, pre, q) ==> ranks(adj, v)[pre.len() as int]
                    <= ranks(adj, q)[pre.len() as int];
        let mine = ranks(adj, v).subrange(0, k);
        assert(mine =~= pre.push(ranks(adj, v)[k - 1]));
        assert forall|q: Seq<usize>|
            #![trigger joins(adj, q, start, end)]
            joins(adj, q, start, end) && q.len() == d implies lex_le(
            mine,
            ranks(adj, q).subrange(0, k),
        ) by {
            let theirs = ranks(adj, q).subrange(0, k);
            let before = ranks(adj, q).subrange(0, k - 1);
            assert(theirs =~= before.push(ranks(adj, q)[k - 1]));
            assert(lex_le(pre, before));
            if before == pre {
                assert(begins_with(adj, start, end, d, pre, q));
                if ranks(adj, v)[k - 1] < ranks(adj, q)[k - 1] {
                    lemma_lex_push_less(pre, ranks(adj, v)[k - 1], ranks(adj, q)[k - 1]);
                } else {
                    lemma_lex_reflexive(mine);
                }
            } else {
                lemma_lex_push_after(pre, before, ranks(adj, v)[k - 1], ranks(adj, q)[k - 1]);
            }
        }
        assert(is_first_upto(adj, start, end, d, k, v));
    }
}

/// Two connected vertices have a first shortest path between them.
pub proof fn lemma_first_shortest_path_exists(adj: Seq<Seq<usize>>, start: usize, end: usize)
    requires
        connected(adj, start, end),
    ensures
        exists|p: Seq<usize>| is_first_shortest_path(adj, p, start, end),
{
    let q = choose|q: Seq<usize>| joins(adj, q, start, end);
    lemma_least_length_exists(adj, start, end, q);
    let d = choose|d: nat| is_distance(adj, start, end, d);
    let any = choose|p: Seq<usize>| joins(adj, p, start, end) && p.len() == d;
    let steps = d - 1;
    lemma_first_upto_exists(adj, start, end, d, steps, any);
    let w = choose|w: Seq<usize>| is_first_upto(adj, start, end, d, steps, w);
    if !w.no_duplicates() {
        lemma_repeating_walk_shortens(adj, w, start, end);
    }
    assert forall|p: Seq<usize>| joins(adj, p, start, end) && p.len() == w.len() implies lex_le(
        ranks(adj, w),
        ranks(adj, p),
    ) by {
        assert(ranks(adj, w).subrange(0, d - 1) =~= ranks(adj, w));
        assert(ranks(adj, p).subrange(0, d - 1) =~= ranks(adj, p));
    }
    assert(is_first_shortest_path(adj, w, start, end));
}

/// A pool that is not empty has a greatest path.
pub proof fn lemma_greatest_exists(pool: Multiset<Seq<usize>>)
    requires
        pool.len() > 0,
    ensures
        exists|top: Seq<usize>| is_greatest(pool, top),
    decreases pool.len(),
{
    broadcast use vstd::multiset::group_multiset_axioms;

    let x = pool.choose();
    let rest = pool.remove(x);
    assert(pool.contains(x));
    assert(Multiset::singleton(x).subset_of(pool));
    assert(rest.len() == pool.len() - 1);
    assert forall|y: Seq<usize>| pool.contains(y) implies y == x || rest.contains(y) by {}
    lemma_lex_reflexive(x);
    if rest.len() == 0 {
        assert forall|y: Seq<usize>| #[trigger] pool.contains(y) implies lex_le(y, x) by {
            if rest.contains(y) {
                assert(rest.count(y) <= rest.len());
            }
        }
        assert(is_greatest(pool, x));
    } else {
        lemma_greatest_exists(rest);
        let m = choose|m: Seq<usize>| is_greatest(rest, m);
        lemma_lex_total(x, m);
        let top = if lex_le(x, m) { m } else { x };
        assert(pool.contains(top));
        assert forall|y: Seq<usize>| #[trigger] pool.contains(y) implies lex_le(y, top) by {
            if y != x {
                assert(rest.contains(y));
                lemma_lex_transitive(y, m, top);
                if lex_le(x, m) {
                } else {
                    lemma_lex_transitive(y, m, x);
                }
            }
        }
        assert(is_greatest(pool, top));
    }
}

} // verus!
