//! The lexicographic order of sequences: the first element in which two
//! sequences differ decides, and a sequence that is the beginning of another
//! comes before it.

use vstd::prelude::*;

verus! {

/// `a` and `b` have the same first `k` elements.
pub open spec fn agree(a: Seq<usize>, b: Seq<usize>, k: int) -> bool {
    &&& 0 <= k <= a.len()
    &&& k <= b.len()
    &&& forall|i: int| 0 <= i < k ==> a[i] == b[i]
}

/// `a` comes before `b` in lexicographic order, or equals it.
pub open spec fn lex_le(a: Seq<usize>, b: Seq<usize>) -> bool {
    exists|k: int| #[trigger] agree(a, b, k) && (k == a.len() || (k < b.len() && a[k] < b[k]))
}

/// Every sequence is at most itself.
pub proof fn lemma_lex_reflexive(a: Seq<usize>)
    ensures
        lex_le(a, a),
{
    assert(agree(a, a, a.len() as int));
}

/// Two sequences that are each at most the other are equal.
pub proof fn lemma_lex_antisymmetric(a: Seq<usize>, b: Seq<usize>)
    requires
        lex_le(a, b),
        lex_le(b, a),
    ensures
        a == b,
{
    let k = choose|k: int| #[trigger] agree(a, b, k) && (k == a.len() || (k < b.len() && a[k] < b[k]));
    let m = choose|m: int| #[trigger] agree(b, a, m) && (m == b.len() || (m < a.len() && b[m] < a[m]));
    if k < m {
        assert(b[k] == a[k]);
    } else if m < k {
        assert(a[m] == b[m]);
    }
    assert(a =~= b);
}

/// The order is transitive.
pub proof fn lemma_lex_transitive(a: Seq<usize>, b: Seq<usize>, c: Seq<usize>)
    requires
        lex_le(a, b),
        lex_le(b, c),
    ensures
        lex_le(a, c),
{
    let k = choose|k: int| #[trigger] agree(a, b, k) && (k == a.len() || (k < b.len() && a[k] < b[k]));
    let m = choose|m: int| #[trigger] agree(b, c, m) && (m == b.len() || (m < c.len() && b[m] < c[m]));
    if k <= m {
        assert(agree(a, c, k));
    } else {
        assert(a[m] == b[m]);
        assert(agree(a, c, m));
    }
}

/// Of two sequences that agree in their first `k` elements, one is at most the other.
proof fn lemma_lex_total_from(a: Seq<usize>, b: Seq<usize>, k: int)
    requires
        agree(a, b, k),
    ensures
        lex_le(a, b) || lex_le(b, a),
    decreases a.len() - k,
{
    if k == a.len() {
    } else if k == b.len() {
        assert(agree(b, a, k));
    } else if a[k] < b[k] {
    } else if b[k] < a[k] {
        assert(agree(b, a, k));
    } else {
        lemma_lex_total_from(a, b, k + 1);
    }
}

/// The order is total.
pub proof fn lemma_lex_total(a: Seq<usize>, b: Seq<usize>)
    ensures
        lex_le(a, b) || lex_le(b, a),
{
    lemma_lex_total_from(a, b, 0);
}

/// Whether `a` comes before `b` in lexicographic order, or equals it.
pub fn precedes(a: &Vec<usize>, b: &Vec<usize>) -> (answer: bool)
    ensures
        answer == lex_le(a@, b@),
{
    let mut k: usize = 0;
    while k < a.len() && k < b.len() && a[k] == b[k]
        invariant
            agree(a@, b@, k as int),
        decreases a@.len() - k,
    {
        k += 1;
    }
    let answer = k == a.len() || (k < b.len() && a[k] < b[k]);
    proof {
        if !answer {
            assert forall|m: int| #[trigger] agree(a@, b@, m) implies !(m == a@.len() || (m < b@.len()
                && a@[m] < b@[m])) by {
                if m > k {
                    assert(a@[k as int] == b@[k as int]);
                }
            }
        }
    }
    answer
}

/// `a` comes before `b` and is not `b`.
pub open spec fn lex_lt(a: Seq<usize>, b: Seq<usize>) -> bool {
    lex_le(a, b) && a != b
}

/// What comes before a sequence comes before everything that the sequence is at most.
pub proof fn lemma_lex_lt_le(a: Seq<usize>, b: Seq<usize>, c: Seq<usize>)
    requires
        lex_lt(a, b),
        lex_le(b, c),
    ensures
        lex_lt(a, c),
{
    lemma_lex_transitive(a, b, c);
    if a == c {
        lemma_lex_antisymmetric(a, b);
    }
}

/// The order of two sequences of one length stays when the same element is appended to both.
pub proof fn lemma_lex_push_same(a: Seq<usize>, b: Seq<usize>, x: usize)
    requires
        lex_le(a, b),
        a.len() == b.len(),
    ensures
        lex_le(a.push(x), b.push(x)),
{
    let k = choose|k: int| #[trigger] agree(a, b, k) && (k == a.len() || (k < b.len() && a[k] < b[k]));
    if k == a.len() {
        assert(agree(a.push(x), b.push(x), k + 1));
    } else {
        assert(agree(a.push(x), b.push(x), k));
    }
}

/// Of two sequences of one length, the one that comes first still does when
/// elements are appended to both.
pub proof fn lemma_lex_push_after(a: Seq<usize>, b: Seq<usize>, x: usize, y: usize)
    requires
        lex_lt(a, b),
        a.len() == b.len(),
    ensures
        lex_lt(a.push(x), b.push(y)),
{
    let k = choose|k: int| #[trigger] agree(a, b, k) && (k == a.len() || (k < b.len() && a[k] < b[k]));
    if k == a.len() {
        assert(a =~= b);
    }
    assert(agree(a.push(x), b.push(y), k));
    assert(a.push(x)[k] != b.push(y)[k]);
}

/// Of two sequences that go on differently after a common beginning, the one
/// with the smaller element comes first.
pub proof fn lemma_lex_push_less(a: Seq<usize>, x: usize, y: usize)
    requires
        x < y,
    ensures
        lex_lt(a.push(x), a.push(y)),
{
    assert(agree(a.push(x), a.push(y), a.len() as int));
    assert(a.push(x)[a.len() as int] != a.push(y)[a.len() as int]);
}

} // verus!
