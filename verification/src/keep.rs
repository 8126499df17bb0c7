//! The elements of a list that pass a test, in their order.

use crate::graph::{lemma_position, position};
use vstd::prelude::*;

verus! {

/// The elements of `list` for which `test` holds, in the order of `list`.
pub open spec fn keep(list: Seq<usize>, test: spec_fn(usize) -> bool) -> Seq<usize>
    decreases list.len(),
{
    if list.len() == 0 {
        list
    } else if test(list[0]) {
        seq![list[0]] + keep(list.drop_first(), test)
    } else {
        keep(list.drop_first(), test)
    }
}

/// What is kept are the elements of the list that pass the test, none twice
/// where the list has none twice.
#[verifier::rlimit(50)]
pub proof fn lemma_keep_contains(list: Seq<usize>, test: spec_fn(usize) -> bool)
    ensures
        forall|w: usize| #[trigger]
            keep(list, test).contains(w) <==> list.contains(w) && test(w),
        list.no_duplicates() ==> keep(list, test).no_duplicates(),
        keep(list, test).len() <= list.len(),
    decreases list.len(),
{
    if list.len() > 0 {
        let rest = list.drop_first();
        let kept = keep(list, test);
        let below = keep(rest, test);
        lemma_keep_contains(rest, test);
        assert forall|w: usize| #[trigger] kept.contains(w) <==> list.contains(w) && test(w) by {
            if kept.contains(w) {
                let i = choose|i: int| 0 <= i < kept.len() && kept[i] == w;
                if test(list[0]) && i == 0 {
                    assert(list[0] == w);
                } else {
                    if test(list[0]) {
                        assert(below[i - 1] == w);
                    }
                    assert(below.contains(w));
                    assert(rest.contains(w));
                    let r = choose|r: int| 0 <= r < rest.len() && rest[r] == w;
                    assert(list[r + 1] == w);
                }
            }
            if list.contains(w) && test(w) {
                let i = choose|i: int| 0 <= i < list.len() && list[i] == w;
                if i == 0 {
                    assert(kept[0] == w);
                } else {
                    assert(rest[i - 1] == w);
                    assert(rest.contains(w));
                    assert(below.contains(w));
                    let r = choose|r: int| 0 <= r < below.len() && below[r] == w;
                    if test(list[0]) {
                        assert(kept[r + 1] == w);
                    }
                }
            }
        }
        if list.no_duplicates() {
            assert(rest.no_duplicates()) by {
                assert forall|i: int, j: int| 0 <= i < rest.len() && 0 <= j < rest.len() && i
                    != j implies rest[i] != rest[j] by {
                    assert(rest[i] == list[i + 1] && rest[j] == list[j + 1]);
                }
            }
            if test(list[0]) {
                assert(!rest.contains(list[0])) by {
                    if rest.contains(list[0]) {
                        let r = choose|r: int| 0 <= r < rest.len() && rest[r] == list[0];
                        assert(list[r + 1] == list[0]);
                    }
                }
                assert forall|i: int, j: int| 0 <= i < kept.len() && 0 <= j < kept.len() && i
                    != j implies kept[i] != kept[j] by {
                    if i > 0 {
                        assert(kept[i] == below[i - 1]);
                        assert(below.contains(kept[i]));
                        assert(rest.contains(kept[i]));
                    }
                    if j > 0 {
                        assert(kept[j] == below[j - 1]);
                        assert(below.contains(kept[j]));
                        assert(rest.contains(kept[j]));
                    }
                }
            }
        }
    }
}

/// Two tests that say the same of every element of the list keep the same.
pub proof fn lemma_keep_same(
    list: Seq<usize>,
    test: spec_fn(usize) -> bool,
    other: spec_fn(usize) -> bool,
)
    requires
        forall|w: usize| list.contains(w) ==> test(w) == other(w),
    ensures
        keep(list, test) == keep(list, other),
    decreases list.len(),
{
    if list.len() > 0 {
        let rest = list.drop_first();
        assert(list.contains(list[0]));
        assert forall|w: usize| rest.contains(w) implies test(w) == other(w) by {
            let r = choose|r: int| 0 <= r < rest.len() && rest[r] == w;
            assert(list[r + 1] == w);
            assert(list.contains(w));
        }
        lemma_keep_same(rest, test, other);
    }
}

/// A test that every element passes keeps the list.
pub proof fn lemma_keep_all(list: Seq<usize>, test: spec_fn(usize) -> bool)
    requires
        forall|w: usize| list.contains(w) ==> test(w),
    ensures
        keep(list, test) == list,
    decreases list.len(),
{
    if list.len() > 0 {
        let rest = list.drop_first();
        assert(list.contains(list[0]));
        assert forall|w: usize| rest.contains(w) implies test(w) by {
            let r = choose|r: int| 0 <= r < rest.len() && rest[r] == w;
            assert(list[r + 1] == w);
            assert(list.contains(w));
        }
        lemma_keep_all(rest, test);
        assert(seq![list[0]] + rest =~= list);
    }
}

/// Keeping from what was kept is keeping what passes both tests.
pub proof fn lemma_keep_twice(
    list: Seq<usize>,
    first: spec_fn(usize) -> bool,
    second: spec_fn(usize) -> bool,
    both: spec_fn(usize) -> bool,
)
    requires
        forall|w: usize| list.contains(w) ==> both(w) == (first(w) && second(w)),
    ensures
        keep(keep(list, first), second) == keep(list, both),
    decreases list.len(),
{
    if list.len() > 0 {
        let rest = list.drop_first();
        assert(list.contains(list[0]));
        assert forall|w: usize| rest.contains(w) implies both(w) == (first(w) && second(w)) by {
            let r = choose|r: int| 0 <= r < rest.len() && rest[r] == w;
            assert(list[r + 1] == w);
            assert(list.contains(w));
        }
        lemma_keep_twice(rest, first, second, both);
        if first(list[0]) {
            let kept = keep(list, first);
            assert(kept.drop_first() =~= keep(rest, first));
            assert(kept[0] == list[0]);
        }
    }
}

/// Taking `v` out of a list without repetitions is keeping what is not `v`.
pub proof fn lemma_keep_without(list: Seq<usize>, v: usize, test: spec_fn(usize) -> bool)
    requires
        list.no_duplicates(),
        list.contains(v),
        forall|w: usize| list.contains(w) ==> test(w) == (w != v),
    ensures
        list.remove(position(list, v)) == keep(list, test),
    decreases list.len(),
{
    let rest = list.drop_first();
    assert(list.contains(list[0]));
    assert(rest.no_duplicates()) by {
        assert forall|i: int, j: int| 0 <= i < rest.len() && 0 <= j < rest.len() && i
            != j implies rest[i] != rest[j] by {
            assert(rest[i] == list[i + 1] && rest[j] == list[j + 1]);
        }
    }
    assert forall|w: usize| rest.contains(w) implies list.contains(w) by {
        let r = choose|r: int| 0 <= r < rest.len() && rest[r] == w;
        assert(list[r + 1] == w);
    }
    assert forall|w: usize| rest.contains(w) implies test(w) == (w != v) by {
        assert(list.contains(w));
    }
    if list[0] == v {
        assert(!rest.contains(v)) by {
            if rest.contains(v) {
                let r = choose|r: int| 0 <= r < rest.len() && rest[r] == v;
                assert(list[r + 1] == list[0]);
            }
        }
        lemma_keep_all(rest, test);
        assert(list.remove(0) =~= rest);
    } else {
        assert(rest.contains(v)) by {
            let i = choose|i: int| 0 <= i < list.len() && list[i] == v;
            assert(rest[i - 1] == v);
        }
        lemma_keep_without(rest, v, test);
        lemma_position(rest, v);
        let at = position(rest, v);
        assert(list.remove(1 + at) =~= seq![list[0]] + rest.remove(at));
    }
}

} // verus!
