//! Why a search that runs dry has seen every path: as long as a simple path
//! between the two ends is not confirmed, the pool holds a path that is not
//! confirmed either, or the next expansion puts one there.

use crate::candidate::{lemma_candidate_is_found, lemma_candidate_is_new_path};
use crate::deviate::{continues, gather, is_expansion, lemma_gather_holds};
use crate::graph::{fits, well_formed};
use crate::lex::agree;
use crate::route::is_simple_path;
use vstd::multiset::Multiset;
use vstd::prelude::*;

verus! {

/// The index of the first element from `k` on in which `a` and `b` differ, or
/// the length of the shorter where there is none.
pub open spec fn common_from(a: Seq<usize>, b: Seq<usize>, k: int) -> int
    decreases a.len() - k,
{
    if 0 <= k < a.len() && k < b.len() && a[k] == b[k] {
        common_from(a, b, k + 1)
    } else {
        k
    }
}

/// Two sequences agree up to the first index in which they differ.
pub proof fn lemma_common_from(a: Seq<usize>, b: Seq<usize>, k: int)
    requires
        agree(a, b, k),
    ensures
        agree(a, b, common_from(a, b, k)),
        k <= common_from(a, b, k),
        common_from(a, b, k) == a.len() || common_from(a, b, k) == b.len() || a[common_from(
            a,
            b,
            k,
        )] != b[common_from(a, b, k)],
    decreases a.len() - k,
{
    if k < a.len() && k < b.len() && a[k] == b[k] {
        assert(agree(a, b, k + 1));
        lemma_common_from(a, b, k + 1);
    }
}

/// Two simple paths to the same end of which one begins with the whole of the other are equal.
pub proof fn lemma_no_path_extends_another(
    base: Seq<Seq<usize>>,
    p: Seq<usize>,
    q: Seq<usize>,
    start: usize,
    end: usize,
)
    requires
        is_simple_path(base, p, start, end),
        is_simple_path(base, q, start, end),
        agree(p, q, p.len() as int),
    ensures
        p == q,
{
    assert(q[p.len() - 1] == q[q.len() - 1]);
    assert(p =~= q);
}

/// `c` has as many leading vertices in common with `q` as any of `paths` has.
pub open spec fn leads(paths: Seq<Seq<usize>>, c: Seq<usize>, q: Seq<usize>) -> bool {
    forall|i: int, k: int| 0 <= i < paths.len() && #[trigger] agree(paths[i], q, k) ==> agree(c, q, k)
}

/// The pool holds a path that is not confirmed and has as much in common with `q` as any confirmed path.
pub open spec fn pending(
    paths: Seq<Seq<usize>>,
    pool: Multiset<Seq<usize>>,
    q: Seq<usize>,
) -> bool {
    exists|c: Seq<usize>| #[trigger] pool.contains(c) && !paths.contains(c) && leads(paths, c, q)
}

/// Once the last of `paths` is expanded: for every simple path that is not
/// confirmed, a path is pending.
pub open spec fn covers_expanded(
    base: Seq<Seq<usize>>,
    paths: Seq<Seq<usize>>,
    pool: Multiset<Seq<usize>>,
    start: usize,
    end: usize,
) -> bool {
    forall|q: Seq<usize>| #[trigger]
        is_simple_path(base, q, start, end) && !paths.contains(q) ==> pending(paths, pool, q)
}

/// Before the last of `paths` is expanded: for every simple path that is not
/// confirmed, a path is pending, or the last of `paths` has the most in common with it.
pub open spec fn covers(
    base: Seq<Seq<usize>>,
    paths: Seq<Seq<usize>>,
    pool: Multiset<Seq<usize>>,
    start: usize,
    end: usize,
) -> bool {
    forall|q: Seq<usize>| #[trigger]
        is_simple_path(base, q, start, end) && !paths.contains(q) ==> pending(paths, pool, q)
            || leads(paths, paths[paths.len() - 1], q)
}

/// With one confirmed path, that path has the most in common with any other.
pub proof fn lemma_cover_begins(
    base: Seq<Seq<usize>>,
    p: Seq<usize>,
    pool: Multiset<Seq<usize>>,
    start: usize,
    end: usize,
)
    ensures
        covers(base, seq![p], pool, start, end),
{
    let paths = seq![p];
    assert forall|q: Seq<usize>| #[trigger] leads(paths, p, q) by {
        assert forall|i: int, k: int| 0 <= i < paths.len() && #[trigger] agree(paths[i], q, k) implies agree(
            p,
            q,
            k,
        ) by {
            assert(paths[i] == p);
        }
    }
    assert(paths[paths.len() - 1] == p);
}

/// Expanding the last confirmed path leaves a path pending for every simple
/// path that is not confirmed.
#[verifier::rlimit(50)]
pub proof fn lemma_cover_expands(
    base: Seq<Seq<usize>>,
    paths: Seq<Seq<usize>>,
    pool: Multiset<Seq<usize>>,
    news: Seq<Option<Seq<usize>>>,
    start: usize,
    end: usize,
)
    requires
        well_formed(base),
        fits(base),
        paths.len() >= 1,
        forall|i: int| 0 <= i < paths.len() ==> is_simple_path(base, #[trigger] paths[i], start, end),
        covers(base, paths, pool, start, end),
        is_expansion(base, paths, end, news),
    ensures
        covers_expanded(base, paths, pool.add(gather(news)), start, end),
{
    broadcast use vstd::multiset::group_multiset_axioms;

    let last = paths[paths.len() - 1];
    let grown = pool.add(gather(news));
    assert forall|q: Seq<usize>| #[trigger]
        is_simple_path(base, q, start, end) && !paths.contains(q) implies pending(
        paths,
        grown,
        q,
    ) by {
        if pending(paths, pool, q) {
            let c = choose|c: Seq<usize>| #[trigger]
                pool.contains(c) && !paths.contains(c) && leads(paths, c, q);
            assert(grown.contains(c));
        } else {
            assert(leads(paths, last, q));
            assert(is_simple_path(base, last, start, end));
            assert(agree(last, q, 0));
            lemma_common_from(last, q, 0);
            let m = common_from(last, q, 0);
            assert(m >= 1);
            assert(q != last);
            if m == last.len() {
                lemma_no_path_extends_another(base, last, q, start, end);
            }
            if m == q.len() {
                assert(agree(q, last, m));
                lemma_no_path_extends_another(base, q, last, start, end);
            }
            let j = m - 1;
            let root = last.subrange(0, j + 1);
            assert forall|k: int|
                0 <= k < paths.len() && continues(#[trigger] paths[k], root) implies paths[k][j + 1]
                    != q[j + 1] by {
                if paths[k][j + 1] == q[j + 1] {
                    assert forall|x: int| 0 <= x < m + 1 implies paths[k][x] == q[x] by {
                        if x < m {
                            assert(paths[k].subrange(0, root.len() as int)[x] == root[x]);
                        }
                    }
                    assert(agree(paths[k], q, m + 1));
                    assert(agree(last, q, m + 1));
                }
            }
            lemma_candidate_is_found(base, paths, last, q, j, start, end, news[j]);
            let c = news[j]->0;
            lemma_gather_holds(news, j, c);
            lemma_candidate_is_new_path(base, paths, last, j, start, end, c);
            assert(!paths.contains(c));
            assert forall|i: int, k: int| 0 <= i < paths.len() && #[trigger] agree(paths[i], q, k) implies agree(
                c,
                q,
                k,
            ) by {
                assert(agree(last, q, k));
                if k > m {
                    assert(last[m] == q[m]);
                }
            }
            assert(grown.contains(c));
        }
    }
}

/// Confirming a path out of the pool keeps the cover.
#[verifier::rlimit(50)]
pub proof fn lemma_cover_confirms(
    base: Seq<Seq<usize>>,
    paths: Seq<Seq<usize>>,
    pool: Multiset<Seq<usize>>,
    x: Seq<usize>,
    start: usize,
    end: usize,
)
    requires
        covers_expanded(base, paths, pool, start, end),
        pool.contains(x),
    ensures
        covers(base, paths.push(x), pool.remove(x), start, end),
{
    broadcast use vstd::multiset::group_multiset_axioms;

    let more = paths.push(x);
    let rest = pool.remove(x);
    assert(more[more.len() - 1] == x);
    assert forall|s: Seq<usize>| more.contains(s) <==> paths.contains(s) || s == x by {
        if paths.contains(s) {
            let i = choose|i: int| 0 <= i < paths.len() && paths[i] == s;
            assert(more[i] == s);
        }
        if more.contains(s) {
            let i = choose|i: int| 0 <= i < more.len() && more[i] == s;
            if i < paths.len() {
                assert(paths[i] == s);
            }
        }
    }
    assert forall|q: Seq<usize>| #[trigger]
        is_simple_path(base, q, start, end) && !more.contains(q) implies pending(more, rest, q)
        || leads(more, more[more.len() - 1], q) by {
        assert(!paths.contains(q));
        let c = choose|c: Seq<usize>| #[trigger]
            pool.contains(c) && !paths.contains(c) && leads(paths, c, q);
        if c != x && (forall|k: int| agree(x, q, k) ==> agree(c, q, k)) {
            assert(rest.contains(c));
            assert forall|i: int, k: int| 0 <= i < more.len() && #[trigger] agree(more[i], q, k) implies agree(
                c,
                q,
                k,
            ) by {
                if i < paths.len() {
                    assert(more[i] == paths[i]);
                }
            }
            assert(leads(more, c, q));
        } else {
            assert forall|i: int, k: int| 0 <= i < more.len() && #[trigger] agree(more[i], q, k) implies agree(
                x,
                q,
                k,
            ) by {
                if i < paths.len() {
                    assert(more[i] == paths[i]);
                    assert(agree(c, q, k));
                    if c != x {
                        let far = choose|far: int| agree(x, q, far) && !agree(c, q, far);
                        if k >= far {
                            assert(agree(c, q, far));
                        }
                    }
                }
            }
        }
    }
}

/// When the pool is empty after an expansion, every simple path is confirmed.
pub proof fn lemma_cover_exhausted(
    base: Seq<Seq<usize>>,
    paths: Seq<Seq<usize>>,
    pool: Multiset<Seq<usize>>,
    start: usize,
    end: usize,
)
    requires
        covers_expanded(base, paths, pool, start, end),
        pool.len() == 0,
    ensures
        forall|q: Seq<usize>| #[trigger] is_simple_path(base, q, start, end) ==> paths.contains(q),
{
    broadcast use vstd::multiset::group_multiset_axioms;

    assert forall|q: Seq<usize>| #[trigger] is_simple_path(base, q, start, end) implies paths.contains(
        q,
    ) by {
        if !paths.contains(q) {
            let c = choose|c: Seq<usize>| #[trigger]
                pool.contains(c) && !paths.contains(c) && leads(paths, c, q);
            assert(pool.count(c) <= pool.len());
        }
    }
}

} // verus!
