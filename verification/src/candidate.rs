//! What holds of the candidates that leave a confirmed path: each is a
//! simple path that is not confirmed yet, and where a simple path is left to
//! find beyond a root, the search from that root finds a candidate.

use crate::deviate::{blocked, continues, is_outcome, is_suppressed, lemma_suppressed, suppressed};
use crate::graph::{adjacent, fits, well_formed};
use crate::lex::agree;
use crate::route::{connected, is_simple_path, joins};
use vstd::prelude::*;

verus! {

/// A candidate is a simple path between the ends of the path that it leaves,
/// has a vertex after its root, and is none of the confirmed paths.
#[verifier::rlimit(50)]
pub proof fn lemma_candidate_is_new_path(
    base: Seq<Seq<usize>>,
    paths: Seq<Seq<usize>>,
    p: Seq<usize>,
    j: int,
    start: usize,
    end: usize,
    c: Seq<usize>,
)
    requires
        well_formed(base),
        fits(base),
        is_simple_path(base, p, start, end),
        0 <= j < p.len() - 1,
        is_outcome(base, paths, p.subrange(0, j + 1), end, Some(c)),
    ensures
        is_simple_path(base, c, start, end),
        c.len() >= j + 2,
        agree(c, p, j + 1),
        forall|k: int| 0 <= k < paths.len() ==> #[trigger] paths[k] != c,
{
    let root = p.subrange(0, j + 1);
    let g = suppressed(base, paths, root);
    lemma_suppressed(base, paths, root);
    let s = c.subrange(j, c.len() as int);
    assert(root[j] == p[j]);
    assert(s[0] == p[j]);
    assert(s[s.len() - 1] == end);
    assert(s.len() >= 2);
    assert forall|i: int| 0 <= i <= j implies c[i] == p[i] by {
        assert(c.subrange(0, root.len() as int)[i] == root[i]);
    }
    assert forall|i: int| j <= i < c.len() implies c[i] == s[i - j] by {}
    assert forall|i: int| 0 <= i < c.len() implies #[trigger] c[i] < base.len() by {
        if i <= j {
            assert(p[i] < base.len());
        } else {
            assert(s[i - j] < g.len());
        }
    }
    assert forall|i: int| 0 <= i < c.len() - 1 implies adjacent(base, #[trigger] c[i], c[i + 1]) by {
        if i < j {
            assert(adjacent(base, p[i], p[i + 1]));
        } else {
            assert(adjacent(g, s[i - j], s[i - j + 1]));
        }
    }
    assert forall|a: int, b: int| 0 <= a < b < c.len() implies c[a] != c[b] by {
        if b <= j {
            assert(p[a] != p[b]);
        } else if a >= j {
            assert(s[a - j] != s[b - j]);
        } else {
            // An edge of `g` ends at `c[b]`, and none touches the root before the spur vertex.
            assert(adjacent(g, s[b - j - 1], s[b - j]));
            assert(root[a] == c[a]);
            if c[a] == c[b] {
                assert(blocked(paths, root, s[b - j - 1], s[b - j]));
            }
        }
    }
    assert forall|k: int| 0 <= k < paths.len() implies #[trigger] paths[k] != c by {
        if paths[k] == c {
            assert(continues(paths[k], root));
            assert(adjacent(g, s[0], s[1]));
            assert(blocked(paths, root, s[0], s[1]));
        }
    }
}

/// Where a simple path `q` has the root in common with `p`, and no confirmed
/// path with that root goes on as `q` does, what `q` has after the root is a
/// walk in the graph with its edges suppressed.
#[verifier::rlimit(50)]
proof fn lemma_tail_survives(
    base: Seq<Seq<usize>>,
    paths: Seq<Seq<usize>>,
    g: Seq<Seq<usize>>,
    p: Seq<usize>,
    q: Seq<usize>,
    j: int,
    start: usize,
    end: usize,
)
    requires
        is_suppressed(base, paths, p.subrange(0, j + 1), g),
        is_simple_path(base, q, start, end),
        0 <= j,
        j + 1 < p.len(),
        j + 1 < q.len(),
        agree(p, q, j + 1),
        forall|k: int|
            0 <= k < paths.len() && continues(#[trigger] paths[k], p.subrange(0, j + 1))
                ==> paths[k][j + 1] != q[j + 1],
    ensures
        joins(g, q.subrange(j, q.len() as int), q[j], end),
{
    let root = p.subrange(0, j + 1);
    let t = q.subrange(j, q.len() as int);
    assert(root[j] == p[j]);
    assert(p[j] == q[j]);
    assert forall|i: int| 0 <= i < t.len() implies #[trigger] t[i] < g.len() by {
        assert(q[i + j] < base.len());
    }
    assert forall|i: int| 0 <= i < t.len() - 1 implies adjacent(g, #[trigger] t[i], t[i + 1]) by {
        let x = i + j;
        assert(adjacent(base, q[x], q[x + 1]));
        if blocked(paths, root, q[x], q[x + 1]) {
            if exists|r: int| 0 <= r < root.len() - 1 && (#[trigger] root[r] == q[x] || root[r]
                == q[x + 1]) {
                let r = choose|r: int| 0 <= r < root.len() - 1 && (#[trigger] root[r] == q[x]
                    || root[r] == q[x + 1]);
                assert(root[r] == q[r]);
                assert(false);
            } else {
                let k = choose|k: int|
                    0 <= k < paths.len() && continues(#[trigger] paths[k], root) && {
                        let a = paths[k][root.len() - 1];
                        let b = paths[k][root.len() as int];
                        (a == q[x] && b == q[x + 1]) || (a == q[x + 1] && b == q[x])
                    };
                assert(paths[k].subrange(0, root.len() as int)[j] == root[j]);
                assert(paths[k][j] == q[j]);
                assert(false);
            }
        }
    }
}

/// Where a simple path `q` between the same ends has the root in common with
/// `p`, and no confirmed path with that root goes on as `q` does, the search
/// from the spur vertex gives a candidate, which has that root too.
pub proof fn lemma_candidate_is_found(
    base: Seq<Seq<usize>>,
    paths: Seq<Seq<usize>>,
    p: Seq<usize>,
    q: Seq<usize>,
    j: int,
    start: usize,
    end: usize,
    outcome: Option<Seq<usize>>,
)
    requires
        well_formed(base),
        fits(base),
        is_simple_path(base, p, start, end),
        is_simple_path(base, q, start, end),
        0 <= j,
        j + 1 < p.len(),
        j + 1 < q.len(),
        agree(p, q, j + 1),
        forall|k: int|
            0 <= k < paths.len() && continues(#[trigger] paths[k], p.subrange(0, j + 1))
                ==> paths[k][j + 1] != q[j + 1],
        is_outcome(base, paths, p.subrange(0, j + 1), end, outcome),
    ensures
        outcome matches Some(c) && agree(c, q, j + 1),
{
    let root = p.subrange(0, j + 1);
    let g = suppressed(base, paths, root);
    lemma_suppressed(base, paths, root);
    lemma_tail_survives(base, paths, g, p, q, j, start, end);
    assert(root[j] == p[j]);
    assert(p[j] == q[j]);
    assert(p[j] != p[p.len() - 1]);
    match outcome {
        Some(c) => {
            assert forall|i: int| 0 <= i < j + 1 implies c[i] == q[i] by {
                assert(c.subrange(0, root.len() as int)[i] == root[i]);
            }
        },
        None => {
            assert(connected(g, root[root.len() - 1], end));
        },
    }
}

} // verus!
