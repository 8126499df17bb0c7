//! The pool of candidate paths. It hands out the greatest of its paths first,
//! in the lexicographic order of their vertex sequences.

use crate::lex::{
    lemma_lex_reflexive, lemma_lex_total, lemma_lex_transitive, lex_le, precedes,
};
use vstd::multiset::Multiset;
use vstd::prelude::*;

verus! {

/// `top` is in the pool, and no path in the pool comes after it.
pub open spec fn is_greatest(pool: Multiset<Seq<usize>>, top: Seq<usize>) -> bool {
    &&& pool.contains(top)
    &&& forall|other: Seq<usize>| #[trigger] pool.contains(other) ==> lex_le(other, top)
}

/// The paths of a list, each by its view.
pub open spec fn views(paths: Seq<Vec<usize>>) -> Seq<Seq<usize>> {
    paths.map_values(|p: Vec<usize>| p@)
}

/// The candidates that wait to be confirmed.
pub struct CandidatePool {
    items: Vec<Vec<usize>>,
}

impl View for CandidatePool {
    type V = Multiset<Seq<usize>>;

    /// The paths in the pool, each as often as it was put in and not yet taken out.
    closed spec fn view(&self) -> Multiset<Seq<usize>> {
        views(self.items@).to_multiset()
    }
}

impl CandidatePool {
    /// An empty pool.
    pub fn new() -> (pool: CandidatePool)
        ensures
            pool@ == Multiset::<Seq<usize>>::empty(),
    {
        let pool = CandidatePool { items: Vec::new() };
        proof {
            broadcast use vstd::seq_lib::group_to_multiset_ensures;

            assert(views(pool.items@) =~= Seq::<Seq<usize>>::empty());
            assert(pool@.len() == 0);
        }
        pool
    }

    /// Puts `path` into the pool.
    pub fn push(&mut self, path: Vec<usize>)
        ensures
            final(self)@ == old(self)@.insert(path@),
    {
        self.items.push(path);
        proof {
            broadcast use vstd::seq_lib::group_to_multiset_ensures;

            assert(views(self.items@) =~= views(old(self).items@).push(path@));
        }
    }

    /// Takes the greatest path out of the pool, or returns `None` where the pool is empty.
    pub fn pop(&mut self) -> (top: Option<Vec<usize>>)
        ensures
            match top {
                Some(path) => is_greatest(old(self)@, path@) && final(self)@ == old(self)@.remove(
                    path@,
                ),
                None => old(self)@.len() == 0 && final(self)@ == old(self)@,
            },
    {
        let ghost before = views(self.items@);
        proof {
            broadcast use vstd::seq_lib::group_to_multiset_ensures;

        }
        if self.items.len() == 0 {
            return None;
        }
        let mut best: usize = 0;
        let mut i: usize = 1;
        proof {
            lemma_lex_reflexive(before[0]);
        }
        while i < self.items.len()
            invariant
                before == views(self.items@),
                best < i <= self.items@.len(),
                forall|j: int| 0 <= j < i ==> lex_le(#[trigger] before[j], before[best as int]),
            decreases self.items@.len() - i,
        {
            if !precedes(&self.items[i], &self.items[best]) {
                proof {
                    lemma_lex_total(before[i as int], before[best as int]);
                    lemma_lex_reflexive(before[i as int]);
                    assert forall|j: int| 0 <= j < i + 1 implies lex_le(
                        #[trigger] before[j],
                        before[i as int],
                    ) by {
                        if j < i {
                            lemma_lex_transitive(before[j], before[best as int], before[i as int]);
                        }
                    }
                }
                best = i;
            }
            i += 1;
        }
        let path = self.items.remove(best);
        proof {
            broadcast use vstd::seq_lib::group_to_multiset_ensures;

            assert(views(self.items@) =~= before.remove(best as int));
            assert(before[best as int] == path@);
            assert(before.contains(path@));
            assert forall|other: Seq<usize>| #[trigger]
                old(self)@.contains(other) implies lex_le(other, path@) by {
                assert(before.contains(other));
                let j = choose|j: int| 0 <= j < before.len() && before[j] == other;
                assert(lex_le(before[j], before[best as int]));
            }
        }
        Some(path)
    }
}

} // verus!
