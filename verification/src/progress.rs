//! Why the search ends: the measure that falls with every path that is
//! confirmed.
//!
//! Only paths with fewer vertices than the requested number are confirmed,
//! and there are finitely many sequences of vertices that short. A path that
//! is confirmed for the first time leaves fewer of them unconfirmed. One that
//! was confirmed before came out of the pool, into which only paths go that
//! are not confirmed yet: the pool then holds one confirmed path less.

use crate::deviate::gather;
use vstd::multiset::Multiset;
use vstd::prelude::*;

verus! {

/// `s` has fewer than `bound` elements, each below `n`.
pub open spec fn is_word(s: Seq<usize>, n: nat, bound: nat) -> bool {
    s.len() < bound && forall|i: int| 0 <= i < s.len() ==> s[i] < n
}

/// The sequences of fewer than `bound` elements, each below `n`.
pub open spec fn words(n: nat, bound: nat) -> Set<Seq<usize>> {
    Set::new(|s: Seq<usize>| is_word(s, n, bound))
}

/// The sequences of `len` elements, each below `n`.
pub open spec fn exact_words(n: nat, len: nat) -> Set<Seq<usize>> {
    Set::new(|s: Seq<usize>| s.len() == len && forall|i: int| 0 <= i < s.len() ==> s[i] < n)
}

/// The sequences of `len + 1` elements, each below `n` and the last below `m`.
pub open spec fn capped_words(n: nat, len: nat, m: nat) -> Set<Seq<usize>> {
    Set::new(
        |s: Seq<usize>|
            s.len() == len + 1 && (forall|i: int| 0 <= i < s.len() ==> s[i] < n) && s[len as int]
                < m,
    )
}

/// There are finitely many sequences of one more element with the last below `m`.
proof fn lemma_capped_words_finite(n: nat, len: nat, m: nat)
    requires
        exact_words(n, len).finite(),
        m <= n <= usize::MAX,
    ensures
        capped_words(n, len, m).finite(),
    decreases m,
{
    if m == 0 {
        assert(capped_words(n, len, m) =~= Set::<Seq<usize>>::empty());
    } else {
        lemma_capped_words_finite(n, len, (m - 1) as nat);
        let top = (m - 1) as usize;
        let f = |s: Seq<usize>| s.push(top);
        exact_words(n, len).lemma_map_finite(f);
        let joined = capped_words(n, len, (m - 1) as nat).union(exact_words(n, len).map(f));
        assert forall|s: Seq<usize>| capped_words(n, len, m).contains(s) implies joined.contains(
            s,
        ) by {
            if s[len as int] == top {
                let head = s.drop_last();
                assert(exact_words(n, len).contains(head));
                assert(f(head) =~= s);
            }
        }
        assert forall|s: Seq<usize>| joined.contains(s) implies capped_words(n, len, m).contains(
            s,
        ) by {
            if exact_words(n, len).map(f).contains(s) {
                let head = choose|head: Seq<usize>|
                    exact_words(n, len).contains(head) && s == f(head);
                assert forall|i: int| 0 <= i < s.len() implies s[i] < n by {
                    if i < len {
                        assert(s[i] == head[i]);
                    }
                }
            }
        }
        assert(capped_words(n, len, m) =~= joined);
    }
}

/// There are finitely many sequences of `len` elements below `n`.
proof fn lemma_exact_words_finite(n: nat, len: nat)
    requires
        n <= usize::MAX,
    ensures
        exact_words(n, len).finite(),
    decreases len,
{
    if len == 0 {
        assert(exact_words(n, len) =~= set![Seq::<usize>::empty()]) by {
            assert forall|s: Seq<usize>| exact_words(n, len).contains(s) implies s
                == Seq::<usize>::empty() by {
                assert(s =~= Seq::<usize>::empty());
            }
        }
    } else {
        lemma_exact_words_finite(n, (len - 1) as nat);
        lemma_capped_words_finite(n, (len - 1) as nat, n);
        assert(exact_words(n, len) =~= capped_words(n, (len - 1) as nat, n));
    }
}

/// There are finitely many sequences of fewer than `bound` elements below `n`.
pub proof fn lemma_words_finite(n: nat, bound: nat)
    requires
        n <= usize::MAX,
    ensures
        words(n, bound).finite(),
    decreases bound,
{
    if bound == 0 {
        assert(words(n, bound) =~= Set::<Seq<usize>>::empty());
    } else {
        lemma_words_finite(n, (bound - 1) as nat);
        lemma_exact_words_finite(n, (bound - 1) as nat);
        assert(words(n, bound) =~= words(n, (bound - 1) as nat).union(
            exact_words(n, (bound - 1) as nat),
        ));
    }
}

/// The short sequences that are not among `paths`.
pub open spec fn unconfirmed(n: nat, bound: nat, paths: Seq<Seq<usize>>) -> Set<Seq<usize>> {
    words(n, bound).difference(paths.to_set())
}

/// The test for membership in `paths`.
pub open spec fn among(paths: Seq<Seq<usize>>) -> spec_fn(Seq<usize>) -> bool {
    |s: Seq<usize>| paths.contains(s)
}

/// The number of paths in the pool that are among `paths`.
pub open spec fn stale(pool: Multiset<Seq<usize>>, paths: Seq<Seq<usize>>) -> nat {
    pool.filter(among(paths)).len()
}

/// A path that is not confirmed adds nothing to the stale paths of the pool.
pub proof fn lemma_stale_insert(pool: Multiset<Seq<usize>>, paths: Seq<Seq<usize>>, c: Seq<usize>)
    requires
        !paths.contains(c),
    ensures
        stale(pool.insert(c), paths) == stale(pool, paths),
{
    broadcast use vstd::multiset::group_multiset_axioms;

    assert(pool.insert(c).filter(among(paths)) =~= pool.filter(among(paths)));
}

/// Candidates of which none is confirmed add nothing to the stale paths of the pool.
pub proof fn lemma_stale_gather(
    pool: Multiset<Seq<usize>>,
    paths: Seq<Seq<usize>>,
    news: Seq<Option<Seq<usize>>>,
)
    requires
        forall|j: int| 0 <= j < news.len() ==> (#[trigger] news[j] matches Some(c) ==> !paths.contains(c)),
    ensures
        stale(pool.add(gather(news)), paths) == stale(pool, paths),
    decreases news.len(),
{
    broadcast use vstd::multiset::group_multiset_axioms;

    if news.len() == 0 {
        assert(pool.add(gather(news)) =~= pool);
    } else {
        let rest = news.drop_last();
        assert forall|j: int| 0 <= j < rest.len() implies (#[trigger] rest[j] matches Some(c)
            ==> !paths.contains(c)) by {
            assert(rest[j] == news[j]);
        }
        lemma_stale_gather(pool, paths, rest);
        match news.last() {
            Some(c) => {
                assert(news[news.len() - 1] == Some(c));
                assert(pool.add(gather(news)) =~= pool.add(gather(rest)).insert(c));
                lemma_stale_insert(pool.add(gather(rest)), paths, c);
            },
            None => {},
        }
    }
}

/// Confirming a short path out of the pool makes the measure fall: fewer
/// short sequences are left unconfirmed, or as many are and the pool holds
/// fewer confirmed paths.
pub proof fn lemma_confirmation_progresses(
    n: nat,
    bound: nat,
    paths: Seq<Seq<usize>>,
    pool: Multiset<Seq<usize>>,
    x: Seq<usize>,
)
    requires
        n <= usize::MAX,
        pool.contains(x),
        is_word(x, n, bound),
    ensures
        unconfirmed(n, bound, paths.push(x)).len() < unconfirmed(n, bound, paths).len() || (
        unconfirmed(n, bound, paths.push(x)).len() == unconfirmed(n, bound, paths).len() && stale(
            pool.remove(x),
            paths.push(x),
        ) < stale(pool, paths)),
{
    broadcast use vstd::multiset::group_multiset_axioms;

    lemma_words_finite(n, bound);
    let more = paths.push(x);
    assert(more[paths.len() as int] == x);
    assert forall|s: Seq<usize>| more.contains(s) <==> paths.contains(s) || s == x by {
        if paths.contains(s) {
            let i = choose|i: int| 0 <= i < paths.len() && paths[i] == s;
            assert(more[i] == s);
        }
        if more.contains(s) {
            let i = choose|i: int| 0 <= i < more.len() && more[i] == s;
            if i < paths.len() {
                assert(paths[i] == s);
            }
        }
    }
    if paths.contains(x) {
        assert(unconfirmed(n, bound, more) =~= unconfirmed(n, bound, paths));
        assert(pool.filter(among(more)) =~= pool.filter(among(paths)));
        let kept = pool.filter(among(paths));
        assert(pool.remove(x).filter(among(more)) =~= kept.remove(x));
        assert(Multiset::singleton(x).subset_of(kept));
    } else {
        assert(unconfirmed(n, bound, paths).contains(x));
        assert(unconfirmed(n, bound, more) =~= unconfirmed(n, bound, paths).remove(x));
    }
}

} // verus!
