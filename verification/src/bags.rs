//! Facts about sequences taken as multisets.

use vstd::prelude::*;
use vstd::seq_lib::{group_to_multiset_ensures, lemma_multiset_commutative};

verus! {

/// Sequences with the same elements have the same elements once each is mapped.
pub proof fn lemma_map_keeps_permutation<A, B>(a: Seq<A>, b: Seq<A>, f: spec_fn(A) -> B)
    requires
        a.to_multiset() == b.to_multiset(),
    ensures
        a.map_values(f).to_multiset() == b.map_values(f).to_multiset(),
    decreases a.len(),
{
    broadcast use {vstd::multiset::group_multiset_axioms, group_to_multiset_ensures};

    a.to_multiset_ensures();
    b.to_multiset_ensures();
    if a.len() > 0 {
        let x = a[0];
        assert(a.contains(x));
        assert(b.to_multiset().count(x) > 0);
        let i = choose|i: int| 0 <= i < b.len() && b[i] == x;
        assert(a.remove(0).to_multiset() == a.to_multiset().remove(x));
        assert(b.remove(i).to_multiset() == b.to_multiset().remove(x));
        lemma_map_keeps_permutation(a.remove(0), b.remove(i), f);
        assert(a.map_values(f) =~= a.remove(0).map_values(f).insert(0, f(x)));
        assert(b.map_values(f) =~= b.remove(i).map_values(f).insert(i, f(x)));
    } else {
        assert(a =~= b);
    }
}

/// The elements of a sequence are those that meet a condition and those that do
/// not.
pub proof fn lemma_filter_splits<A>(s: Seq<A>, p: spec_fn(A) -> bool, q: spec_fn(A) -> bool)
    requires
        forall|x: A| #[trigger] p(x) == !q(x),
    ensures
        s.filter(p).to_multiset().add(s.filter(q).to_multiset()) == s.to_multiset(),
        s.filter(p).len() + s.filter(q).len() == s.len(),
    decreases s.len(),
{
    broadcast use {vstd::multiset::group_multiset_axioms, group_to_multiset_ensures};

    reveal(Seq::filter);
    if s.len() > 0 {
        let t = s.drop_last();
        lemma_filter_splits(t, p, q);
        assert(s =~= t.push(s.last()));
        assert(p(s.last()) == !q(s.last()));
        assert(s.filter(p).to_multiset().add(s.filter(q).to_multiset()) =~= s.to_multiset());
    } else {
        assert(s.filter(p).to_multiset().add(s.filter(q).to_multiset()) =~= s.to_multiset());
    }
}

/// What a function makes of the elements, one after the other.
pub open spec fn gathered<A, B>(s: Seq<A>, f: spec_fn(A) -> Seq<B>) -> Seq<B>
    decreases s.len(),
{
    if s.len() == 0 {
        Seq::empty()
    } else {
        f(s[0]) + gathered(s.skip(1), f)
    }
}

/// Where an element that was gathered came from.
pub proof fn lemma_gathered_from<A, B>(s: Seq<A>, f: spec_fn(A) -> Seq<B>, x: B) -> (i: int)
    requires
        gathered(s, f).contains(x),
    ensures
        0 <= i < s.len(),
        f(s[i]).contains(x),
    decreases s.len(),
{
    let at = choose|j: int| 0 <= j < gathered(s, f).len() && gathered(s, f)[j] == x;
    let n = f(s[0]).len();
    if at < n {
        assert(f(s[0])[at] == x);
        0
    } else {
        assert(gathered(s.skip(1), f)[at - n] == x);
        let i = lemma_gathered_from(s.skip(1), f, x);
        i + 1
    }
}

/// Taking an element away takes away what was made of it.
pub proof fn lemma_gathered_remove<A, B>(s: Seq<A>, f: spec_fn(A) -> Seq<B>, i: int)
    requires
        0 <= i < s.len(),
    ensures
        gathered(s, f).to_multiset() == gathered(s.remove(i), f).to_multiset().add(
            f(s[i]).to_multiset(),
        ),
    decreases s.len(),
{
    broadcast use {vstd::multiset::group_multiset_axioms, group_to_multiset_ensures};

    let rest = s.skip(1);
    lemma_multiset_commutative(f(s[0]), gathered(rest, f));
    if i == 0 {
        assert(s.remove(0) =~= rest);
        assert(gathered(s, f).to_multiset() =~= gathered(rest, f).to_multiset().add(
            f(s[0]).to_multiset(),
        ));
    } else {
        lemma_gathered_remove(rest, f, i - 1);
        assert(s.remove(i)[0] == s[0]);
        assert(s.remove(i).skip(1) =~= rest.remove(i - 1));
        lemma_multiset_commutative(f(s[0]), gathered(rest.remove(i - 1), f));
        assert(gathered(s, f).to_multiset() =~= gathered(s.remove(i), f).to_multiset().add(
            f(s[i]).to_multiset(),
        ));
    }
}

/// Sequences with the same elements gather the same.
pub proof fn lemma_gathered_permutation<A, B>(a: Seq<A>, b: Seq<A>, f: spec_fn(A) -> Seq<B>)
    requires
        a.to_multiset() == b.to_multiset(),
    ensures
        gathered(a, f).to_multiset() == gathered(b, f).to_multiset(),
    decreases a.len(),
{
    broadcast use {vstd::multiset::group_multiset_axioms, group_to_multiset_ensures};

    a.to_multiset_ensures();
    b.to_multiset_ensures();
    if a.len() > 0 {
        let x = a[0];
        assert(a.contains(x));
        assert(b.to_multiset().count(x) > 0);
        let i = choose|i: int| 0 <= i < b.len() && b[i] == x;
        assert(a.remove(0).to_multiset() == a.to_multiset().remove(x));
        assert(b.remove(i).to_multiset() == b.to_multiset().remove(x));
        lemma_gathered_permutation(a.remove(0), b.remove(i), f);
        lemma_gathered_remove(a, f, 0);
        lemma_gathered_remove(b, f, i);
    } else {
        assert(a =~= b);
    }
}

/// Two functions that make of each element the same, but for the order, gather
/// the same.
pub proof fn lemma_gathered_pointwise<A, B>(
    s: Seq<A>,
    f: spec_fn(A) -> Seq<B>,
    g: spec_fn(A) -> Seq<B>,
)
    requires
        forall|i: int|
            0 <= i < s.len() ==> f(#[trigger] s[i]).to_multiset() == g(s[i]).to_multiset(),
    ensures
        gathered(s, f).to_multiset() == gathered(s, g).to_multiset(),
    decreases s.len(),
{
    if s.len() > 0 {
        let rest = s.skip(1);
        assert forall|i: int| 0 <= i < rest.len() implies f(#[trigger] rest[i]).to_multiset() == g(
            rest[i],
        ).to_multiset() by {
            assert(rest[i] == s[i + 1]);
        }
        lemma_gathered_pointwise(rest, f, g);
        lemma_multiset_commutative(f(s[0]), gathered(rest, f));
        lemma_multiset_commutative(g(s[0]), gathered(rest, g));
    }
}

/// Taking an element away takes it from what is filtered.
proof fn lemma_filter_remove<A>(s: Seq<A>, p: spec_fn(A) -> bool, i: int)
    requires
        0 <= i < s.len(),
    ensures
        s.filter(p).len() == s.remove(i).filter(p).len() + if p(s[i]) {
            1int
        } else {
            0
        },
{
    let low = s.take(i);
    let high = s.skip(i + 1);
    let mid = seq![s[i]];
    assert(s =~= low + mid + high);
    assert(s.remove(i) =~= low + high);
    Seq::filter_distributes_over_add(low + mid, high, p);
    Seq::filter_distributes_over_add(low, mid, p);
    Seq::filter_distributes_over_add(low, high, p);
    reveal(Seq::filter);
    assert(mid.drop_last() =~= Seq::<A>::empty());
    assert(mid.drop_last().filter(p).len() == 0);
}

/// Sequences with the same elements have equally many that meet a condition.
pub proof fn lemma_filter_permutation<A>(a: Seq<A>, b: Seq<A>, p: spec_fn(A) -> bool)
    requires
        a.to_multiset() == b.to_multiset(),
    ensures
        a.filter(p).len() == b.filter(p).len(),
    decreases a.len(),
{
    broadcast use {vstd::multiset::group_multiset_axioms, group_to_multiset_ensures};

    a.to_multiset_ensures();
    b.to_multiset_ensures();
    if a.len() > 0 {
        let x = a[0];
        assert(a.contains(x));
        assert(b.to_multiset().count(x) > 0);
        let i = choose|i: int| 0 <= i < b.len() && b[i] == x;
        assert(a.remove(0).to_multiset() == a.to_multiset().remove(x));
        assert(b.remove(i).to_multiset() == b.to_multiset().remove(x));
        lemma_filter_permutation(a.remove(0), b.remove(i), p);
        lemma_filter_remove(a, p, 0);
        lemma_filter_remove(b, p, i);
    } else {
        assert(a =~= b);
    }
}

/// A condition that every element meets filters nothing out.
pub proof fn lemma_filter_all<A>(s: Seq<A>, p: spec_fn(A) -> bool)
    requires
        forall|i: int| 0 <= i < s.len() ==> p(#[trigger] s[i]),
    ensures
        s.filter(p).len() == s.len(),
    decreases s.len(),
{
    reveal(Seq::filter);
    if s.len() > 0 {
        lemma_filter_all(s.drop_last(), p);
        assert(p(s[s.len() - 1]));
    }
}

/// A condition that no element meets filters everything out.
pub proof fn lemma_filter_none<A>(s: Seq<A>, p: spec_fn(A) -> bool)
    requires
        forall|i: int| 0 <= i < s.len() ==> !p(#[trigger] s[i]),
    ensures
        s.filter(p).len() == 0,
    decreases s.len(),
{
    reveal(Seq::filter);
    if s.len() > 0 {
        lemma_filter_none(s.drop_last(), p);
        assert(!p(s[s.len() - 1]));
    }
}

}
