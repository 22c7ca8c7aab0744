//! The nearest reference transactions over all partitions.

use crate::bags::{
    gathered, lemma_gathered_from, lemma_gathered_permutation, lemma_gathered_pointwise,
};
use crate::distance::{
    box_gap, dist, in_box, law_box_gap_is_lower_bound, lb_box_sq, lemma_dist_upto_bounds, Point,
    DIMS, LANES,
};
use crate::index::{last_with_key, table_entry, AppState, NO_PARTITION};
use crate::layout::PartitionHeader;
use crate::search::{
    candidates, entries, farthest, is_nearest, law_meeting_order_holds_points,
    law_pruning_is_exact, law_scan_finds_nearest, lemma_blank_entries, lemma_meets_only_points,
    lemma_scan_concat, lemma_scan_far, lemma_scan_worst, lemma_worst, meeting_order, no_entries,
    parts, rated, scan, search_tree, visit, worst, K,
};
use crate::tree::{is_vp_tree, linked_tree, preorder, Tree};
use vstd::multiset::Multiset;
use vstd::prelude::*;
use vstd::seq_lib::{group_to_multiset_ensures, lemma_multiset_commutative};

verus! {

impl AppState {
    /// The tree of a partition.
    pub open spec fn tree_of(self, i: int) -> Tree {
        linked_tree(self.nodes@, self.partitions@[i].root)
    }

    /// The points of all partitions.
    pub open spec fn points(self) -> Seq<Point> {
        gathered(
            Seq::new(self.partitions@.len(), |i: int| i),
            |i: int| preorder(self.tree_of(i)),
        )
    }

    /// The tree of each partition is a vantage-point tree, and its box holds its
    /// points.
    pub open spec fn sound(self) -> bool {
        forall|i: int|
            0 <= i < self.partitions@.len() ==> is_vp_tree(#[trigger] self.tree_of(i))
                && forall|x: Point| #[trigger]
                preorder(self.tree_of(i)).contains(x) ==> in_box(
                    x.0@,
                    self.partitions@[i].min@,
                    self.partitions@[i].max@,
                )
    }

    /// The partition that is searched first for a key.
    pub open spec fn primary(self, key: u8) -> Option<int> {
        if self.key_to_idx@[key as int] == NO_PARTITION {
            None
        } else {
            Some(self.key_to_idx@[key as int] as int)
        }
    }
}

/// The positions up to `n`, but for one.
pub open spec fn all_but(n: nat, skip: Option<int>) -> Seq<int>
    decreases n,
{
    if n == 0 {
        Seq::empty()
    } else if skip == Some(n - 1) {
        all_but((n - 1) as nat, skip)
    } else {
        all_but((n - 1) as nat, skip).push(n - 1)
    }
}

/// Lower bound of the distance to the points of a partition, cut off at
/// `i32::MAX`.
pub open spec fn bound(q: Seq<i16>, p: PartitionHeader) -> int {
    if box_gap(q, p.min@, p.max@) <= i32::MAX {
        box_gap(q, p.min@, p.max@)
    } else {
        i32::MAX as int
    }
}

/// The partitions but for one, by ascending lower bound.
pub open spec fn is_visit_order(
    partitions: Seq<PartitionHeader>,
    q: Seq<i16>,
    skip: Option<int>,
    order: Seq<int>,
) -> bool {
    &&& order.to_multiset() == all_but(partitions.len(), skip).to_multiset()
    &&& forall|i: int, j: int|
        0 <= i <= j < order.len() ==> bound(q, partitions[#[trigger] order[i]]) <= bound(
            q,
            partitions[#[trigger] order[j]],
        )
}

/// What a search of the partitions one after the other makes of the entries. It
/// ends at the first partition whose lower bound is not below the farthest
/// entry.
pub open spec fn visit_in_turn(
    state: AppState,
    q: Seq<i16>,
    order: Seq<int>,
    best: Seq<(i32, u8)>,
) -> Seq<(i32, u8)>
    decreases order.len(),
{
    if order.len() == 0 || bound(q, state.partitions@[order[0]]) >= worst(best) {
        best
    } else {
        visit_in_turn(state, q, order.skip(1), visit(state.tree_of(order[0]), q, best))
    }
}

/// What is found in the partition with the key.
pub open spec fn found_first(state: AppState, q: Seq<i16>, key: u8) -> Seq<(i32, u8)> {
    match state.primary(key) {
        Some(i) => visit(state.tree_of(i), q, no_entries()),
        None => no_entries(),
    }
}

/// Sum of the labels.
pub open spec fn label_sum(best: Seq<(i32, u8)>) -> nat
    decreases best.len(),
{
    if best.len() == 0 {
        0
    } else {
        label_sum(best.drop_last()) + best.last().1 as nat
    }
}

/// Sum of the labels, but no more than five: as labels are 1 for fraud and 0 for
/// legit, the number of entries that are fraud.
pub open spec fn fraud_count(best: Seq<(i32, u8)>) -> nat {
    if label_sum(best) < 5 {
        label_sum(best)
    } else {
        5
    }
}

proof fn lemma_primary_in_range(partitions: Seq<PartitionHeader>, key: int)
    ensures
        last_with_key(partitions, key) matches Some(i) ==> 0 <= i < partitions.len(),
    decreases partitions.len(),
{
    if partitions.len() > 0 {
        lemma_primary_in_range(partitions.drop_last(), key);
    }
}

/// The positions of partitions in the order of a list.
spec fn positions(list: Seq<(i32, usize)>) -> Seq<int> {
    list.map_values(|e: (i32, usize)| e.1 as int)
}

/// A list holds each partition with its lower bound, by ascending lower bound.
spec fn list_ok(
    partitions: Seq<PartitionHeader>,
    q: Seq<i16>,
    list: Seq<(i32, usize)>,
) -> bool {
    &&& forall|i: int|
        0 <= i < list.len() ==> (#[trigger] list[i]).1 < partitions.len() && list[i].0 == bound(
            q,
            partitions[list[i].1 as int],
        )
    &&& forall|i: int, j: int|
        0 <= i <= j < list.len() ==> (#[trigger] list[i]).0 <= (#[trigger] list[j]).0
}

/// The partitions but for one, each with its lower bound, by ascending lower
/// bound.
fn rank_partitions(
    partitions: &[PartitionHeader],
    query: &[i16; 16],
    skip: Option<usize>,
) -> (r: Vec<(i32, usize)>)
    ensures
        list_ok(partitions@, query@, r@),
        positions(r@).to_multiset() == all_but(
            partitions@.len(),
            match skip {
                Some(i) => Some(i as int),
                None => None,
            },
        ).to_multiset(),
{
    let ghost without: Option<int> = match skip {
        Some(i) => Some(i as int),
        None => None,
    };
    let mut list: Vec<(i32, usize)> = Vec::new();
    assert(positions(list@) =~= all_but(0, without));
    let mut i: usize = 0;
    while i < partitions.len()
        invariant
            i <= partitions@.len(),
            without == (match skip {
                Some(i) => Some(i as int),
                None => None::<int>,
            }),
            list_ok(partitions@, query@, list@),
            positions(list@).to_multiset() == all_but(i as nat, without).to_multiset(),
        decreases partitions@.len() - i,
    {
        let skipped: bool = match skip {
            Some(s) => s == i,
            None => false,
        };
        if !skipped {
            let lb: i32 = lb_box_sq(query, &partitions[i].min, &partitions[i].max);
            let mut at: usize = list.len();
            while at > 0 && list[at - 1].0 > lb
                invariant
                    at <= list@.len(),
                    forall|k: int| at <= k < list@.len() ==> (#[trigger] list@[k]).0 > lb,
                decreases at,
            {
                at = at - 1;
            }
            let ghost before = list@;
            list.insert(at, (lb, i));
            proof {
                broadcast use {vstd::multiset::group_multiset_axioms, group_to_multiset_ensures};

                assert(positions(list@) =~= positions(before).insert(at as int, i as int));
                assert(without != Some(i as int));
                assert(all_but((i + 1) as nat, without) == all_but(i as nat, without).push(
                    i as int,
                ));
                assert(positions(list@).to_multiset() =~= all_but(
                    (i + 1) as nat,
                    without,
                ).to_multiset());
            }
        }
        i = i + 1;
    }
    list
}

/// Number of frauds among the `K` reference points nearest to the query: those
/// of the partition with the key are searched first, then the other partitions,
/// by ascending lower bound, for as long as they can hold a nearer point.
pub fn knn_search(state: &AppState, query: &[i16; 16], key: u8) -> (r: usize)
    requires
        state.wf(),
        state.searchable(),
    ensures
        exists|order: Seq<int>| #[trigger]
            is_visit_order(state.partitions@, query@, state.primary(key), order) && r
                == fraud_count(
                visit_in_turn(*state, query@, order, found_first(*state, query@, key)),
            ),
        state.sound() ==> exists|best: Seq<(i32, u8)>| #[trigger]
            is_nearest(best, query@, state.points()) && r == fraud_count(best),
{
    let mut best: [(i32, u8); 5] = [(i32::MAX, 0u8); 5];
    let mut worst_best: i32 = i32::MAX;
    assert(best@ =~= no_entries());
    proof {
        lemma_worst(best@);
        lemma_primary_in_range(state.partitions@, key as int);
    }
    let raw: u16 = state.key_to_idx[key as usize];
    assert(raw == state.key_to_idx@[key as int]);
    let primary: Option<usize> = if raw == NO_PARTITION {
        None
    } else {
        Some(raw as usize)
    };
    if let Some(i) = primary {
        let root: u32 = state.partitions[i].root;
        search_tree(state.nodes.as_slice(), root, query, &mut best, &mut worst_best);
    }
    let ghost first = best@;
    assert(first == found_first(*state, query@, key));
    let others: Vec<(i32, usize)> = rank_partitions(state.partitions.as_slice(), query, primary);
    let ghost order = positions(others@);
    assert(is_visit_order(state.partitions@, query@, state.primary(key), order));
    let ghost goal = visit_in_turn(*state, query@, order, first);
    assert(order.skip(0) =~= order);
    let mut k: usize = 0;
    while k < others.len() && others[k].0 < worst_best
        invariant
            k <= others@.len(),
            state.searchable(),
            order == positions(others@),
            list_ok(state.partitions@, query@, others@),
            worst_best == worst(best@),
            visit_in_turn(*state, query@, order.skip(k as int), best@) == goal,
        decreases others@.len() - k,
    {
        let root: u32 = state.partitions[others[k].1].root;
        proof {
            assert(order.skip(k as int)[0] == others@[k as int].1);
            assert(order.skip(k as int).skip(1) =~= order.skip(k + 1));
        }
        search_tree(state.nodes.as_slice(), root, query, &mut best, &mut worst_best);
        k = k + 1;
    }
    assert(k < others@.len() ==> order.skip(k as int)[0] == others@[k as int].1);
    assert(best@ == goal);
    let mut sum: usize = 0;
    let mut i: usize = 0;
    while i < K
        invariant
            i <= K,
            sum == label_sum(best@.take(i as int)),
            sum <= 255 * i,
        decreases K - i,
    {
        assert(best@.take(i + 1).drop_last() =~= best@.take(i as int));
        sum = sum + best[i].1 as usize;
        i = i + 1;
    }
    proof {
        assert(best@.take(5) =~= best@);
        if state.sound() {
            law_key_first_search_is_exact(*state, query@, key, order);
            assert(is_nearest(best@, query@, state.points()));
        }
    }
    if sum < 5 {
        sum
    } else {
        5
    }
}

/// Half of a number, towards zero.
pub open spec fn half(x: int) -> int {
    if x >= 0 {
        x / 2
    } else {
        -((-x) / 2)
    }
}

/// The middle of a partition's box; the two lanes that are no feature are zero.
pub open spec fn is_centre(p: PartitionHeader, q: Seq<i16>) -> bool {
    &&& q.len() == LANES
    &&& forall|l: int| 0 <= l < DIMS ==> #[trigger] q[l] == half(p.min@[l] + p.max@[l])
    &&& forall|l: int| DIMS <= l < LANES ==> #[trigger] q[l] == 0
}

/// The middle of a partition's box.
fn centre_of(p: &PartitionHeader) -> (r: [i16; 16])
    ensures
        is_centre(*p, r@),
{
    let mut q: [i16; 16] = [0; 16];
    let mut i: usize = 0;
    while i < DIMS
        invariant
            i <= DIMS,
            forall|l: int| 0 <= l < i ==> #[trigger] q@[l] == half(p.min@[l] + p.max@[l]),
            forall|l: int| i <= l < LANES ==> #[trigger] q@[l] == 0,
        decreases DIMS - i,
    {
        let sum: i32 = p.min[i] as i32 + p.max[i] as i32;
        q[i] = if sum >= 0 {
            (sum as u32 / 2) as i16
        } else {
            -(((-sum) as u32 / 2) as i32) as i16
        };
        i = i + 1;
    }
    q
}

/// The queries that touch every partition once: the middle of its box, with its
/// key. There are none for an index without nodes.
pub fn warmup_queries(state: &AppState) -> (r: Vec<([i16; 16], u8)>)
    ensures
        state.nodes@.len() == 0 ==> r@.len() == 0,
        state.nodes@.len() > 0 ==> r@.len() == state.partitions@.len() && forall|i: int|
            0 <= i < r@.len() ==> is_centre(state.partitions@[i], (#[trigger] r@[i]).0@)
                && r@[i].1 == state.partitions@[i].key as int % 256,
{
    let mut queries: Vec<([i16; 16], u8)> = Vec::new();
    if state.nodes.len() == 0 {
        return queries;
    }
    let mut i: usize = 0;
    while i < state.partitions.len()
        invariant
            i <= state.partitions@.len(),
            queries@.len() == i,
            forall|k: int|
                0 <= k < i ==> is_centre(state.partitions@[k], (#[trigger] queries@[k]).0@)
                    && queries@[k].1 == state.partitions@[k].key as int % 256,
        decreases state.partitions@.len() - i,
    {
        let p: PartitionHeader = state.partitions[i];
        queries.push((centre_of(&p), (p.key % 256) as u8));
        i = i + 1;
    }
    queries
}

/// No point of a partition is nearer than its lower bound.
pub proof fn law_bound_is_lower_bound(state: AppState, q: Seq<i16>, i: int, x: Point)
    requires
        state.sound(),
        0 <= i < state.partitions@.len(),
        preorder(state.tree_of(i)).contains(x),
    ensures
        bound(q, state.partitions@[i]) <= dist(q, x.0@),
{
    let p = state.partitions@[i];
    law_box_gap_is_lower_bound(q, x.0@, p.min@, p.max@);
}

/// Ending at the first partition that cannot hold a nearer point makes no
/// difference.
proof fn lemma_in_turn_is_scan(
    state: AppState,
    q: Seq<i16>,
    order: Seq<int>,
    best: Seq<(i32, u8)>,
)
    requires
        state.sound(),
        best.len() > 0,
        forall|i: int| 0 <= i < order.len() ==> 0 <= #[trigger] order[i] < state.partitions@.len(),
        forall|i: int, j: int|
            0 <= i <= j < order.len() ==> bound(q, state.partitions@[#[trigger] order[i]])
                <= bound(q, state.partitions@[#[trigger] order[j]]),
    ensures
        visit_in_turn(state, q, order, best) == scan(
            best,
            q,
            gathered(order, |i: int| meeting_order(state.tree_of(i), q)),
        ),
    decreases order.len(),
{
    let f = |i: int| meeting_order(state.tree_of(i), q);
    if order.len() == 0 {
    } else if bound(q, state.partitions@[order[0]]) >= worst(best) {
        assert forall|x: Point| #[trigger] gathered(order, f).contains(x) implies
            dist(q, x.0@) >= worst(best) by {
            let i = lemma_gathered_from(order, f, x);
            lemma_meets_only_points(state.tree_of(order[i]), q, x);
            law_bound_is_lower_bound(state, q, order[i], x);
        }
        lemma_scan_far(best, q, gathered(order, f));
    } else {
        let t = state.tree_of(order[0]);
        law_pruning_is_exact(t, q, best);
        lemma_scan_worst(best, q, meeting_order(t, q));
        let rest = order.skip(1);
        lemma_in_turn_is_scan(state, q, rest, visit(t, q, best));
        lemma_scan_concat(best, q, f(order[0]), gathered(rest, f));
    }
}

proof fn lemma_all_but_complete(n: nat, skip: int)
    requires
        0 <= skip < n,
    ensures
        all_but(n, Some(skip)).to_multiset().insert(skip) == Seq::new(n, |i: int| i).to_multiset(),
    decreases n,
{
    broadcast use {vstd::multiset::group_multiset_axioms, group_to_multiset_ensures};

    let m = (n - 1) as nat;
    let all = Seq::new(n, |i: int| i);
    let fewer = Seq::new(m, |i: int| i);
    assert(all =~= fewer.push(n - 1));
    if skip == n - 1 {
        lemma_all_but_none(m, Some(skip));
    } else {
        lemma_all_but_complete(m, skip);
        assert(all_but(n, Some(skip)) == all_but(m, Some(skip)).push(n - 1));
    }
    assert(all_but(n, Some(skip)).to_multiset().insert(skip) =~= all.to_multiset());
}

proof fn lemma_all_but_none(n: nat, skip: Option<int>)
    requires
        skip matches Some(i) ==> i >= n,
    ensures
        all_but(n, skip) == Seq::new(n, |i: int| i),
    decreases n,
{
    if n > 0 {
        lemma_all_but_none((n - 1) as nat, skip);
        assert(Seq::new(n, |i: int| i) =~= Seq::new((n - 1) as nat, |i: int| i).push(n - 1));
    }
}

/// The key sets which partition is searched first, not which points are found:
/// whatever the key, and however partitions with equal lower bounds are ordered,
/// a search of a sound index finds the nearest points of all partitions.
pub proof fn law_key_first_search_is_exact(
    state: AppState,
    q: Seq<i16>,
    key: u8,
    order: Seq<int>,
)
    requires
        state.wf(),
        state.sound(),
        is_visit_order(state.partitions@, q, state.primary(key), order),
    ensures
        is_nearest(
            visit_in_turn(state, q, order, found_first(state, q, key)),
            q,
            state.points(),
        ),
{
    broadcast use {vstd::multiset::group_multiset_axioms, group_to_multiset_ensures};

    let n = state.partitions@.len();
    let f = |i: int| meeting_order(state.tree_of(i), q);
    let g = |i: int| preorder(state.tree_of(i));
    let all = Seq::new(n, |i: int| i);
    let first = found_first(state, q, key);
    let none = Seq::<Point>::empty();
    lemma_primary_in_range(state.partitions@, key as int);
    assert(state.key_to_idx@[key as int] == table_entry(
        state.partitions@,
        key as int,
    ));
    let (lead, whole) = match state.primary(key) {
        Some(i) => (f(i), seq![i] + order),
        None => (none, order),
    };
    assert(whole.to_multiset() =~= all.to_multiset()) by {
        match state.primary(key) {
            Some(i) => {
                lemma_all_but_complete(n, i);
                lemma_multiset_commutative(seq![i], order);
                assert(seq![i] =~= Seq::<int>::empty().push(i));
            },
            None => {
                lemma_all_but_none(n, None);
            },
        }
    }
    assert(first == scan(no_entries(), q, lead)) by {
        if let Some(i) = state.primary(key) {
            law_pruning_is_exact(state.tree_of(i), q, no_entries());
        }
    }
    lemma_scan_worst(no_entries(), q, lead);
    assert forall|i: int| 0 <= i < order.len() implies 0 <= #[trigger] order[i] < n by {
        let x = order[i];
        assert(order.contains(x));
        assert(order.to_multiset().count(x) > 0);
        assert(whole.to_multiset().count(x) > 0) by {
            if let Some(p) = state.primary(key) {
                lemma_multiset_commutative(seq![p], order);
            }
        }
        assert(all.contains(x));
    }
    lemma_in_turn_is_scan(state, q, order, first);
    lemma_scan_concat(no_entries(), q, lead, gathered(order, f));
    let met = lead + gathered(order, f);
    assert(met =~= gathered(whole, f)) by {
        if let Some(i) = state.primary(key) {
            assert(whole.skip(1) =~= order);
            assert(whole[0] == i);
        }
    }
    lemma_gathered_permutation(whole, all, f);
    assert forall|i: int| 0 <= i < all.len() implies f(#[trigger] all[i]).to_multiset() == g(
        all[i],
    ).to_multiset() by {
        law_meeting_order_holds_points(state.tree_of(all[i]), q);
    }
    lemma_gathered_pointwise(all, f, g);
    law_scan_finds_nearest(q, met, state.points());
}

/// A multiset with no more of anything than another of the same size is the
/// same.
proof fn lemma_no_fewer_is_same(a: Multiset<(int, u8)>, b: Multiset<(int, u8)>)
    requires
        a.len() == b.len(),
        forall|x: (int, u8)| #[trigger] a.count(x) <= b.count(x),
    ensures
        a == b,
{
    broadcast use vstd::multiset::group_multiset_axioms;

    let more = b.sub(a);
    assert(a.subset_of(b));
    assert(a.add(more) =~= b);
    assert(more.len() == 0);
    assert(more =~= Multiset::empty());
    assert(a =~= b);
}

/// Two choices of the nearest points reach equally far, and nearer than that
/// they hold the same.
pub proof fn law_nearest_is_determined(
    best: Seq<(i32, u8)>,
    other: Seq<(i32, u8)>,
    q: Seq<i16>,
    points: Seq<Point>,
)
    requires
        is_nearest(best, q, points),
        is_nearest(other, q, points),
    ensures
        worst(best) == worst(other),
        forall|x: (int, u8)|
            x.0 < worst(best) ==> #[trigger] entries(best).to_multiset().count(x) == entries(
                other,
            ).to_multiset().count(x),
{
    broadcast use {vstd::multiset::group_multiset_axioms, group_to_multiset_ensures};

    lemma_no_farther(best, other, q, points);
    lemma_no_farther(other, best, q, points);
    let all = candidates(q, points);
    let out = choose|out: Multiset<(int, u8)>| #[trigger] parts(best, out, all);
    let other_out = choose|out: Multiset<(int, u8)>| #[trigger] parts(other, out, all);
    assert forall|x: (int, u8)| x.0 < worst(best) implies #[trigger] entries(
        best,
    ).to_multiset().count(x) == entries(other).to_multiset().count(x) by {
        assert(!out.contains(x));
        assert(!other_out.contains(x));
        assert(all.count(x) == entries(best).to_multiset().count(x) + out.count(x));
        assert(all.count(x) == entries(other).to_multiset().count(x) + other_out.count(x));
    }
}

/// No entry is farther than the farthest.
proof fn lemma_entry_not_farther(best: Seq<(i32, u8)>, x: (int, u8))
    requires
        best.len() > 0,
        entries(best).to_multiset().count(x) > 0,
    ensures
        x.0 <= worst(best),
{
    broadcast use group_to_multiset_ensures;

    lemma_worst(best);
    assert(entries(best).contains(x));
    let i = choose|i: int| 0 <= i < entries(best).len() && entries(best)[i] == x;
    assert(best[i].0 <= worst(best));
}

proof fn lemma_no_farther(
    best: Seq<(i32, u8)>,
    other: Seq<(i32, u8)>,
    q: Seq<i16>,
    points: Seq<Point>,
)
    requires
        is_nearest(best, q, points),
        is_nearest(other, q, points),
    ensures
        worst(best) <= worst(other),
{
    broadcast use {vstd::multiset::group_multiset_axioms, group_to_multiset_ensures};

    let all = candidates(q, points);
    let out = choose|out: Multiset<(int, u8)>| #[trigger] parts(best, out, all);
    let a = entries(best).to_multiset();
    let b = entries(other).to_multiset();
    if worst(other) < worst(best) {
        entries(best).to_multiset_ensures();
        entries(other).to_multiset_ensures();
        assert forall|x: (int, u8)| #[trigger] b.count(x) <= a.count(x) by {
            if b.count(x) > 0 {
                lemma_entry_not_farther(other, x);
                assert(!out.contains(x));
                assert(all.count(x) == a.count(x) + out.count(x));
                let other_out = choose|out: Multiset<(int, u8)>| #[trigger] parts(other, out, all);
                assert(all.count(x) == b.count(x) + other_out.count(x));
            }
        }
        lemma_no_fewer_is_same(b, a);
        lemma_worst(best);
        let last = entries(best)[farthest(best)];
        assert(entries(best).contains(last));
        lemma_entry_not_farther(other, last);
    }
}

/// A candidate that was left out is farther than the farthest entry, or all
/// candidates at its distance are the same as it.
pub open spec fn is_clear_cut(best: Seq<(i32, u8)>, q: Seq<i16>, points: Seq<Point>) -> bool {
    &&& best.len() == K
    &&& exists|out: Multiset<(int, u8)>| #[trigger]
        parts(best, out, candidates(q, points)) && forall|x: (int, u8)| #[trigger]
            out.contains(x) ==> worst(best) < x.0 || is_only_one_at(candidates(q, points), x)
}

/// Whatever is at the distance of `x` is the same as `x`.
pub open spec fn is_only_one_at(all: Multiset<(int, u8)>, x: (int, u8)) -> bool {
    forall|y: (int, u8)| #[trigger] all.contains(y) && y.0 == x.0 ==> y == x
}

proof fn lemma_label_sum_remove(best: Seq<(i32, u8)>, i: int)
    requires
        0 <= i < best.len(),
    ensures
        label_sum(best) == label_sum(best.remove(i)) + best[i].1,
    decreases best.len(),
{
    if i < best.len() - 1 {
        lemma_label_sum_remove(best.drop_last(), i);
        assert(best.remove(i).drop_last() =~= best.drop_last().remove(i));
        assert(best.remove(i).last() == best.last());
    } else {
        assert(best.remove(i) =~= best.drop_last());
    }
}

proof fn lemma_label_sum_permutation(a: Seq<(i32, u8)>, b: Seq<(i32, u8)>)
    requires
        entries(a).to_multiset() == entries(b).to_multiset(),
    ensures
        label_sum(a) == label_sum(b),
    decreases a.len(),
{
    broadcast use {vstd::multiset::group_multiset_axioms, group_to_multiset_ensures};

    let s = entries(a);
    let t = entries(b);
    s.to_multiset_ensures();
    t.to_multiset_ensures();
    if a.len() > 0 {
        let x = s[0];
        assert(s.contains(x));
        assert(t.to_multiset().count(x) > 0);
        assert(t.contains(x));
        let i = choose|i: int| 0 <= i < t.len() && t[i] == x;
        assert(entries(a.remove(0)) =~= s.remove(0));
        assert(entries(b.remove(i)) =~= t.remove(i));
        lemma_label_sum_permutation(a.remove(0), b.remove(i));
        lemma_label_sum_remove(a, 0);
        lemma_label_sum_remove(b, i);
    }
}

/// Where no point that was left out is as near as the farthest entry, or none
/// that is differs from it in its label, there is only one choice of the nearest
/// points, and one number of frauds among them.
pub proof fn law_clear_cut_count_is_determined(
    best: Seq<(i32, u8)>,
    other: Seq<(i32, u8)>,
    q: Seq<i16>,
    points: Seq<Point>,
)
    requires
        is_clear_cut(best, q, points),
        is_nearest(other, q, points),
    ensures
        entries(best).to_multiset() == entries(other).to_multiset(),
        fraud_count(best) == fraud_count(other),
{
    broadcast use {vstd::multiset::group_multiset_axioms, group_to_multiset_ensures};

    let all = candidates(q, points);
    let out = choose|out: Multiset<(int, u8)>| #[trigger]
        parts(best, out, all) && forall|x: (int, u8)| #[trigger]
            out.contains(x) ==> worst(best) < x.0 || is_only_one_at(all, x);
    let other_out = choose|out: Multiset<(int, u8)>| #[trigger] parts(other, out, all);
    let a = entries(best).to_multiset();
    let b = entries(other).to_multiset();
    assert(is_nearest(best, q, points));
    law_nearest_is_determined(best, other, q, points);
    entries(best).to_multiset_ensures();
    entries(other).to_multiset_ensures();
    assert forall|x: (int, u8)| #[trigger] all.count(x) == a.count(x) + out.count(x) && all.count(
        x,
    ) == b.count(x) + other_out.count(x) by {}
    if exists|x: (int, u8)| b.count(x) > #[trigger] a.count(x) {
        let x = choose|x: (int, u8)| b.count(x) > #[trigger] a.count(x);
        lemma_entry_not_farther(other, x);
        assert(all.count(x) == a.count(x) + out.count(x));
        assert(out.contains(x));
        assert(x.0 == worst(best));
        assert forall|y: (int, u8)| #[trigger] a.count(y) <= b.count(y) by {
            if y != x && a.count(y) > 0 {
                lemma_entry_not_farther(best, y);
                assert(all.count(y) == a.count(y) + out.count(y));
                assert(all.contains(y));
            }
        }
        lemma_no_fewer_is_same(a, b);
    } else {
        assert forall|y: (int, u8)| #[trigger] b.count(y) <= a.count(y) by {
            if b.count(y) > a.count(y) {
                assert(a.count(y) < b.count(y));
            }
        }
        lemma_no_fewer_is_same(b, a);
    }
    lemma_label_sum_permutation(best, other);
}

/// Sum of the labels of the points.
pub open spec fn total_label(points: Seq<Point>) -> nat
    decreases points.len(),
{
    if points.len() == 0 {
        0
    } else {
        total_label(points.drop_last()) + points.last().1 as nat
    }
}

/// The points as entries, followed by blanks.
spec fn filled(q: Seq<i16>, points: Seq<Point>, n: nat) -> Seq<(i32, u8)> {
    points.map_values(|p: Point| (dist(q, p.0@) as i32, p.1)) + Seq::new(
        n,
        |i: int| (i32::MAX, 0u8),
    )
}

proof fn lemma_filled_sum(q: Seq<i16>, points: Seq<Point>, n: nat)
    ensures
        label_sum(filled(q, points, n)) == total_label(points),
    decreases n, points.len(),
{
    let s = filled(q, points, n);
    if n > 0 {
        lemma_filled_sum(q, points, (n - 1) as nat);
        assert(s.drop_last() =~= filled(q, points, (n - 1) as nat));
        assert(s.last() == (i32::MAX, 0u8));
    } else if points.len() > 0 {
        lemma_filled_sum(q, points.drop_last(), 0);
        assert(s.drop_last() =~= filled(q, points.drop_last(), 0));
        assert(s.last().1 == points.last().1);
    }
}

proof fn lemma_blanks(n: nat, x: (int, u8))
    ensures
        Seq::new(n, |i: int| (i32::MAX as int, 0u8)).to_multiset().count(x) == if x == (
            i32::MAX as int,
            0u8,
        ) {
            n
        } else {
            0
        },
    decreases n,
{
    broadcast use {vstd::multiset::group_multiset_axioms, group_to_multiset_ensures};

    let s = Seq::new(n, |i: int| (i32::MAX as int, 0u8));
    if n > 0 {
        lemma_blanks((n - 1) as nat, x);
        assert(s =~= Seq::new((n - 1) as nat, |i: int| (i32::MAX as int, 0u8)).push(
            (i32::MAX as int, 0u8),
        ));
    } else {
        assert(s =~= Seq::empty());
    }
}

/// The entries are all of the points, filled up with blanks, where there are at
/// most `K` of them.
proof fn lemma_few_are_all_nearest(best: Seq<(i32, u8)>, q: Seq<i16>, points: Seq<Point>)
    requires
        is_nearest(best, q, points),
        points.len() <= K,
        forall|i: int| 0 <= i < points.len() ==> dist(q, (#[trigger] points[i]).0@) < i32::MAX,
    ensures
        entries(best).to_multiset() == entries(
            filled(q, points, (K - points.len()) as nat),
        ).to_multiset(),
{
    broadcast use {vstd::multiset::group_multiset_axioms, group_to_multiset_ensures};

    let all = candidates(q, points);
    let out = choose|out: Multiset<(int, u8)>| #[trigger] parts(best, out, all);
    let n = (K - points.len()) as nat;
    let a = entries(best).to_multiset();
    let r = rated(q, points).to_multiset();
    let blank = (i32::MAX as int, 0u8);
    let blanks = Seq::new(n, |i: int| blank);
    let full = entries(filled(q, points, n));
    rated(q, points).to_multiset_ensures();
    entries(best).to_multiset_ensures();
    full.to_multiset_ensures();
    lemma_worst(best);
    assert(full =~= rated(q, points) + blanks) by {
        assert forall|i: int| 0 <= i < points.len() implies full[i] == rated(q, points)[i] by {
            lemma_dist_upto_bounds(q, points[i].0@, DIMS as nat);
            assert(dist(q, points[i].0@) < i32::MAX);
        }
    }
    lemma_multiset_commutative(rated(q, points), blanks);
    let f = full.to_multiset();
    assert forall|x: (int, u8)| #[trigger] r.count(x) > 0 implies x.0 < i32::MAX by {
        assert(rated(q, points).contains(x));
        let i = choose|i: int| 0 <= i < rated(q, points).len() && rated(q, points)[i] == x;
        assert(dist(q, points[i].0@) < i32::MAX);
    }
    assert forall|x: (int, u8)|
        #![trigger all.count(x)]
        #![trigger f.count(x)]
        all.count(x) == r.count(x) + (if x == blank {
            K as nat
        } else {
            0
        }) && f.count(x) == r.count(x) + (if x == blank {
            n
        } else {
            0
        }) by {
        lemma_blank_entries(x);
        lemma_blanks(n, x);
    }
    assert(a.len() == f.len());
    if a.count(blank) > n {
        assert(entries(best).contains(blank));
        lemma_entry_not_farther(best, blank);
        assert forall|x: (int, u8)| #[trigger] f.count(x) <= a.count(x) by {
            assert(all.count(x) == a.count(x) + out.count(x));
            if x != blank && r.count(x) > 0 {
                assert(!out.contains(x));
            }
        }
        lemma_no_fewer_is_same(f, a);
    } else {
        assert forall|x: (int, u8)| #[trigger] a.count(x) <= f.count(x) by {
            assert(all.count(x) == a.count(x) + out.count(x));
        }
        lemma_no_fewer_is_same(a, f);
    }
}

/// Where there are at most `K` points, each at a distance below `i32::MAX`, all
/// of them are counted: the number of frauds is the sum of their labels, but no
/// more than five.
pub proof fn law_few_points_all_count(best: Seq<(i32, u8)>, q: Seq<i16>, points: Seq<Point>)
    requires
        is_nearest(best, q, points),
        points.len() <= K,
        forall|i: int| 0 <= i < points.len() ==> dist(q, (#[trigger] points[i]).0@) < i32::MAX,
    ensures
        fraud_count(best) == if total_label(points) < 5 {
            total_label(points)
        } else {
            5
        },
{
    let n = (K - points.len()) as nat;
    lemma_few_are_all_nearest(best, q, points);
    lemma_label_sum_permutation(best, filled(q, points, n));
    lemma_filled_sum(q, points, n);
}

/// Where no other partition holds a point nearer than those found in the
/// partition with the key, what was found there stands, ties included.
pub proof fn law_first_partition_wins_ties(
    state: AppState,
    q: Seq<i16>,
    key: u8,
    order: Seq<int>,
)
    requires
        state.sound(),
        is_visit_order(state.partitions@, q, state.primary(key), order),
        forall|i: int, x: Point|
            0 <= i < state.partitions@.len() && Some(i) != state.primary(key)
                && #[trigger] preorder(state.tree_of(i)).contains(x) ==> dist(q, x.0@) >= worst(
                found_first(state, q, key),
            ),
        state.primary(key) is Some,
        0 <= state.primary(key)->0 < state.partitions@.len(),
    ensures
        visit_in_turn(state, q, order, found_first(state, q, key)) == visit(
            state.tree_of(state.primary(key)->0),
            q,
            no_entries(),
        ),
{
    broadcast use {vstd::multiset::group_multiset_axioms, group_to_multiset_ensures};

    let n = state.partitions@.len();
    let f = |i: int| meeting_order(state.tree_of(i), q);
    let best = found_first(state, q, key);
    let i = state.primary(key)->0;
    law_pruning_is_exact(state.tree_of(i), q, no_entries());
    lemma_scan_worst(no_entries(), q, meeting_order(state.tree_of(i), q));
    lemma_all_but_members(n, state.primary(key));
    assert forall|k: int| 0 <= k < order.len() implies 0 <= #[trigger] order[k] < n && Some(order[k])
        != state.primary(key) by {
        assert(order.contains(order[k]));
        assert(order.to_multiset().count(order[k]) > 0);
        assert(all_but(n, state.primary(key)).contains(order[k]));
    }
    lemma_in_turn_is_scan(state, q, order, best);
    assert forall|x: Point| #[trigger] gathered(order, f).contains(x) implies dist(q, x.0@)
        >= worst(best) by {
        let k = lemma_gathered_from(order, f, x);
        lemma_meets_only_points(state.tree_of(order[k]), q, x);
    }
    lemma_scan_far(best, q, gathered(order, f));
}

proof fn lemma_all_but_members(n: nat, skip: Option<int>)
    ensures
        forall|x: int|
            all_but(n, skip).contains(x) <==> 0 <= x < n && Some(x) != skip,
    decreases n,
{
    if n > 0 {
        lemma_all_but_members((n - 1) as nat, skip);
        let fewer = all_but((n - 1) as nat, skip);
        assert forall|x: int| all_but(n, skip).contains(x) <==> 0 <= x < n && Some(x) != skip by {
            if skip != Some(n - 1) {
                let all = fewer.push(n - 1);
                if all.contains(x) && x != n - 1 {
                    let i = choose|i: int| 0 <= i < all.len() && all[i] == x;
                    assert(fewer[i] == x);
                }
                if fewer.contains(x) {
                    let i = choose|i: int| 0 <= i < fewer.len() && fewer[i] == x;
                    assert(all[i] == x);
                }
                assert(all[fewer.len() as int] == n - 1);
            }
        }
    } else {
        assert(all_but(0, skip) =~= Seq::<int>::empty());
    }
}

/// The partitions that are searched after the first: each of the others once,
/// and none before one whose box is nearer.
pub proof fn law_every_other_partition_has_its_turn(
    partitions: Seq<PartitionHeader>,
    q: Seq<i16>,
    skip: Option<int>,
    order: Seq<int>,
    i: int,
    j: int,
)
    requires
        is_visit_order(partitions, q, skip, order),
    ensures
        order.contains(i) <==> 0 <= i < partitions.len() && Some(i) != skip,
        0 <= i < j < order.len() ==> order[i] != order[j],
        0 <= i < j < order.len() && box_gap(
            q,
            partitions[order[j]].min@,
            partitions[order[j]].max@,
        ) < i32::MAX ==> box_gap(q, partitions[order[i]].min@, partitions[order[i]].max@)
            <= box_gap(q, partitions[order[j]].min@, partitions[order[j]].max@),
{
    broadcast use {vstd::multiset::group_multiset_axioms, group_to_multiset_ensures};

    let all = all_but(partitions.len(), skip);
    lemma_all_but_members(partitions.len(), skip);
    assert(order.contains(i) <==> order.to_multiset().count(i) > 0);
    assert(all.contains(i) <==> all.to_multiset().count(i) > 0);
    if 0 <= i < j < order.len() {
        lemma_all_but_distinct(partitions.len(), skip);
        all.lemma_multiset_has_no_duplicates();
        order.lemma_multiset_has_no_duplicates_conv();
        assert(bound(q, partitions[order[i]]) <= bound(q, partitions[order[j]]));
    }
}

proof fn lemma_all_but_distinct(n: nat, skip: Option<int>)
    ensures
        all_but(n, skip).no_duplicates(),
    decreases n,
{
    if n > 0 {
        lemma_all_but_distinct((n - 1) as nat, skip);
        lemma_all_but_members((n - 1) as nat, skip);
        let fewer = all_but((n - 1) as nat, skip);
        assert forall|i: int, j: int|
            0 <= i < all_but(n, skip).len() && 0 <= j < all_but(n, skip).len() && i
                != j implies all_but(n, skip)[i] != all_but(n, skip)[j] by {
            if i < fewer.len() {
                assert(fewer.contains(fewer[i]));
            }
            if j < fewer.len() {
                assert(fewer.contains(fewer[j]));
            }
        }
    }
}

/// The middle of a box: twice each of its 14 features is off the sum of the two
/// corners by at most one, on the side of zero, and the middle lies between the
/// corners; the lanes that are no feature are zero.
pub proof fn law_centre_is_in_the_middle(p: PartitionHeader, q: Seq<i16>, lane: int)
    requires
        is_centre(p, q),
    ensures
        q.len() == 16,
        0 <= lane < 14 ==> ({
            let sum = p.min@[lane] + p.max@[lane];
            let off = sum - 2 * q[lane];
            &&& -1 <= off <= 1
            &&& sum > 0 ==> off >= 0
            &&& sum < 0 ==> off <= 0
        }),
        0 <= lane < 14 && p.min@[lane] <= p.max@[lane] ==> p.min@[lane] <= q[lane] <= p.max@[lane],
        14 <= lane < 16 ==> q[lane] == 0,
{
    if 0 <= lane < 14 {
        assert(q[lane] == half(p.min@[lane] + p.max@[lane]));
    }
}

/// The count of frauds: an entry more adds its label, until there are five.
pub proof fn law_fraud_count_adds_labels(best: Seq<(i32, u8)>, e: (i32, u8))
    ensures
        fraud_count(Seq::empty()) == 0,
        fraud_count(best) <= 5,
        fraud_count(best.push(e)) == if fraud_count(best) + e.1 < 5 {
            fraud_count(best) + e.1
        } else {
            5
        },
{
    assert(best.push(e).drop_last() =~= best);
}

}
