//! The element of a given rank.

use crate::bags::lemma_map_keeps_permutation;
use vstd::prelude::*;
use vstd::relations::sorted_by;
use vstd::seq_lib::{group_to_multiset_ensures, lemma_multiset_commutative, lemma_sorted_unique};

verus! {

/// The values as mathematical integers.
pub open spec fn as_ints(values: Seq<i32>) -> Seq<int> {
    values.map_values(|v: i32| v as int)
}

/// Calls `select_nth_unstable` of the standard library's slices.
///
/// It reorders the values so that the one at `nth` is where a sort would put
/// it: none before it is greater, and none after it is less. That this
/// describes the call is its documentation's word, and is not proved.
#[verifier::external_body]
fn select_nth(values: &mut Vec<i32>, nth: usize)
    requires
        nth < old(values)@.len(),
    ensures
        final(values)@.to_multiset() == old(values)@.to_multiset(),
        forall|i: int| 0 <= i < nth ==> #[trigger] final(values)@[i] <= final(values)@[nth as int],
        forall|i: int|
            nth < i < final(values)@.len() ==> final(values)@[nth as int]
                <= #[trigger] final(values)@[i],
{
    values.select_nth_unstable(nth);
}

/// A value with nothing greater before it and nothing less after it is where a
/// sort puts it.
proof fn lemma_parted_value_has_rank(s: Seq<int>, nth: int)
    requires
        0 <= nth < s.len(),
        forall|i: int| 0 <= i < nth ==> #[trigger] s[i] <= s[nth],
        forall|i: int| nth < i < s.len() ==> s[nth] <= #[trigger] s[i],
    ensures
        s.sort()[nth] == s[nth],
        s.sort().len() == s.len(),
{
    broadcast use {vstd::multiset::group_multiset_axioms, group_to_multiset_ensures};

    let leq = |x: int, y: int| x <= y;
    let low = s.take(nth);
    let high = s.skip(nth + 1);
    let mid = seq![s[nth]];
    low.lemma_sort_ensures();
    high.lemma_sort_ensures();
    s.lemma_sort_ensures();
    let t = low.sort() + mid + high.sort();
    assert(s =~= low + mid + high);
    assert(low.sort().len() == low.len()) by {
        assert(low.to_multiset().len() == low.sort().to_multiset().len());
    }
    assert(high.sort().len() == high.len()) by {
        assert(high.to_multiset().len() == high.sort().to_multiset().len());
    }
    assert(s.sort().len() == s.len()) by {
        assert(s.to_multiset().len() == s.sort().to_multiset().len());
    }
    assert(t.to_multiset() == s.to_multiset()) by {
        lemma_multiset_commutative(low + mid, high);
        lemma_multiset_commutative(low, mid);
        lemma_multiset_commutative(low.sort() + mid, high.sort());
        lemma_multiset_commutative(low.sort(), mid);
    }
    assert forall|i: int| 0 <= i < low.len() implies #[trigger] low.sort()[i] <= s[nth] by {
        assert(low.sort().contains(low.sort()[i]));
        assert(low.to_multiset().count(low.sort()[i]) > 0);
        let j = choose|j: int| 0 <= j < low.len() && low[j] == low.sort()[i];
        assert(s[j] == low[j]);
    }
    assert forall|i: int| 0 <= i < high.len() implies s[nth] <= #[trigger] high.sort()[i] by {
        assert(high.sort().contains(high.sort()[i]));
        assert(high.to_multiset().count(high.sort()[i]) > 0);
        let j = choose|j: int| 0 <= j < high.len() && high[j] == high.sort()[i];
        assert(s[nth + 1 + j] == high[j]);
    }
    assert(sorted_by(t, leq)) by {
        assert forall|i: int, j: int| 0 <= i < j < t.len() implies #[trigger] leq(t[i], t[j]) by {
            if j < nth {
                assert(leq(low.sort()[i], low.sort()[j]));
            } else if i > nth {
                assert(leq(high.sort()[i - nth - 1], high.sort()[j - nth - 1]));
            } else {
                if i < nth {
                    assert(t[i] == low.sort()[i]);
                }
                if j > nth {
                    assert(t[j] == high.sort()[j - nth - 1]);
                }
            }
        }
    }
    lemma_sorted_unique(t, s.sort(), leq);
}

/// The value that stands at `nth` once the values are sorted.
pub(crate) fn nth_smallest(values: Vec<i32>, nth: usize) -> (r: i32)
    requires
        nth < values@.len(),
    ensures
        r == as_ints(values@).sort()[nth as int],
{
    broadcast use group_to_multiset_ensures;

    let mut parted: Vec<i32> = values;
    let ghost before = parted@;
    select_nth(&mut parted, nth);
    proof {
        assert(before.to_multiset().len() == parted@.to_multiset().len());
        lemma_map_keeps_permutation(before, parted@, |v: i32| v as int);
        let a = as_ints(before);
        let b = as_ints(parted@);
        assert forall|i: int| 0 <= i < nth implies #[trigger] b[i] <= b[nth as int] by {
            assert(b[i] == parted@[i]);
        }
        assert forall|i: int| nth < i < b.len() implies b[nth as int] <= #[trigger] b[i] by {
            assert(b[i] == parted@[i]);
        }
        lemma_parted_value_has_rank(b, nth as int);
        a.lemma_sort_ensures();
        b.lemma_sort_ensures();
        lemma_sorted_unique(a.sort(), b.sort(), |x: int, y: int| x <= y);
    }
    parted[nth]
}

}
