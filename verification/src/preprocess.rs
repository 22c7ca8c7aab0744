//! Building the index from the reference transactions.

use crate::bags::{gathered, lemma_gathered_remove, lemma_map_keeps_permutation};
use crate::codec::{encode, holds_index, law_file_is_unambiguous, slack_is_zero};
use crate::distance::{
    compute_bbox, dist, dist_sq_i64, in_box, is_bbox, law_bbox_holds_points_tightly,
    law_box_diagonal_bounds_distances, Point,
};
use crate::index::{last_with_key, table_entry, AppState, NO_PARTITION};
use crate::layout::{Node, PartitionHeader, NULL};
use crate::search::{candidates, is_nearest};
use crate::tree::{
    breadth_first_from, children, is_vp_tree, lemma_walk_ok, link_list, link_ok, links_ok,
    preorder, tree_at, walk_ok,
};
use crate::vptree::{build_vptree, fits, law_tree_holds_points, law_tree_is_vp_tree, vp_tree};
use vstd::prelude::*;
use vstd::seq_lib::group_to_multiset_ensures;

verus! {

/// Number of partition keys.
pub const MAX_PARTITIONS: usize = 256;

/// A labelled reference transaction: its partition key and quantised features.
#[derive(Clone, Copy)]
pub struct Reference {
    pub key: u8,
    pub vector: [i16; 16],
    pub label: u8,
}

impl Reference {
    /// The labelled vector of the reference.
    pub open spec fn point(self) -> Point {
        (self.vector, self.label)
    }
}

/// The points of the references.
pub open spec fn points_of(references: Seq<Reference>) -> Seq<Point> {
    references.map_values(|r: Reference| r.point())
}

/// The points of the references with a key, in their order.
pub open spec fn group(references: Seq<Reference>, key: int) -> Seq<Point> {
    points_of(references.filter(|r: Reference| r.key == key))
}

/// The points of the references by key.
pub open spec fn groups_of(references: Seq<Reference>) -> Seq<Seq<Point>> {
    Seq::new(MAX_PARTITIONS as nat, |k: int| group(references, k))
}

proof fn lemma_group_step(references: Seq<Reference>, n: int, key: int)
    requires
        0 <= n < references.len(),
    ensures
        group(references.take(n + 1), key) == if references[n].key == key {
            group(references.take(n), key).push(references[n].point())
        } else {
            group(references.take(n), key)
        },
{
    reveal(Seq::filter);
    let s = references.take(n + 1);
    assert(s.drop_last() =~= references.take(n));
    assert(s.last() == references[n]);
    if references[n].key == key {
        assert(group(s, key) =~= group(references.take(n), key).push(references[n].point()));
    }
}

/// The groups as sequences.
pub open spec fn views(groups: Seq<Vec<Point>>) -> Seq<Seq<Point>> {
    groups.map_values(|g: Vec<Point>| g@)
}

/// Groups the references by partition key.
pub fn group_by_key(references: &[Reference]) -> (r: Vec<Vec<Point>>)
    ensures
        views(r@) == groups_of(references@),
{
    let mut groups: Vec<Vec<Point>> = Vec::new();
    let mut k: usize = 0;
    while k < MAX_PARTITIONS
        invariant
            k <= MAX_PARTITIONS,
            groups@.len() == k,
            forall|j: int| 0 <= j < k ==> (#[trigger] groups@[j])@.len() == 0,
        decreases MAX_PARTITIONS - k,
    {
        groups.push(Vec::new());
        k = k + 1;
    }
    proof {
        reveal(Seq::filter);
        assert(forall|j: int|
            0 <= j < MAX_PARTITIONS ==> (#[trigger] groups@[j])@ =~= group(references@.take(0), j));
    }
    let mut i: usize = 0;
    while i < references.len()
        invariant
            i <= references@.len(),
            groups@.len() == MAX_PARTITIONS,
            forall|j: int|
                0 <= j < MAX_PARTITIONS ==> (#[trigger] groups@[j])@ == group(
                    references@.take(i as int),
                    j,
                ),
        decreases references@.len() - i,
    {
        let reference: Reference = references[i];
        let ghost before = groups@;
        groups[reference.key as usize].push((reference.vector, reference.label));
        proof {
            assert forall|j: int| 0 <= j < MAX_PARTITIONS implies (#[trigger] groups@[j])@ == group(
                references@.take(i + 1),
                j,
            ) by {
                lemma_group_step(references@, i as int, j);
                assert(before[j]@ == group(references@.take(i as int), j));
            }
        }
        i = i + 1;
    }
    proof {
        assert(references@.take(references@.len() as int) =~= references@);
        assert(views(groups@) =~= groups_of(references@));
    }
    groups
}

/// Number of points in the first `k` groups.
pub open spec fn start_of(groups: Seq<Seq<Point>>, k: nat) -> nat
    decreases k,
{
    if k == 0 {
        0
    } else {
        start_of(groups, (k - 1) as nat) + groups[k - 1].len()
    }
}

/// Number of groups with points among the first `k`.
pub open spec fn rank_of(groups: Seq<Seq<Point>>, k: nat) -> nat
    decreases k,
{
    if k == 0 {
        0
    } else if groups[k - 1].len() == 0 {
        rank_of(groups, (k - 1) as nat)
    } else {
        rank_of(groups, (k - 1) as nat) + 1
    }
}

/// A partition with its nodes from `start` on is that of a group: it has the
/// key, the number of points, their bounding box and their vantage-point tree,
/// the nodes of which stand together in breadth-first order.
pub open spec fn is_partition_of(
    p: PartitionHeader,
    nodes: Seq<Node>,
    points: Seq<Point>,
    key: int,
    start: int,
) -> bool {
    &&& p.key == key
    &&& p.root == start
    &&& p.count == points.len()
    &&& is_bbox(points, p.min@, p.max@)
    &&& start + points.len() <= nodes.len()
    &&& tree_at(nodes, start) == vp_tree(points)
    &&& breadth_first_from(nodes.subrange(start, start + points.len()), start)
}

/// The partitions and nodes are those of the first `n` groups: one partition for
/// each group with points, by ascending key.
pub open spec fn indexes_upto(
    partitions: Seq<PartitionHeader>,
    nodes: Seq<Node>,
    groups: Seq<Seq<Point>>,
    n: nat,
) -> bool {
    &&& partitions.len() == rank_of(groups, n)
    &&& nodes.len() == start_of(groups, n)
    &&& links_ok(nodes)
    &&& forall|k: int|
        0 <= k < n && (#[trigger] groups[k]).len() > 0 ==> is_partition_of(
            partitions[rank_of(groups, k as nat) as int],
            nodes,
            groups[k],
            k,
            start_of(groups, k as nat) as int,
        )
}

/// The partitions and nodes are those of the groups.
pub open spec fn indexes(
    partitions: Seq<PartitionHeader>,
    nodes: Seq<Node>,
    groups: Seq<Seq<Point>>,
) -> bool {
    indexes_upto(partitions, nodes, groups, groups.len())
}

/// A link moved by `base`.
spec fn shifted(link: u32, base: int) -> u32 {
    if link == NULL {
        NULL
    } else {
        (link + base) as u32
    }
}

/// A node with its links moved by `base`.
spec fn shifted_node(node: Node, base: int) -> Node {
    Node { left: shifted(node.left, base), right: shifted(node.right, base), ..node }
}

/// The nodes of `local` stand in `all` from `base` on, their links moved.
spec fn holds_shifted(all: Seq<Node>, base: int, local: Seq<Node>) -> bool {
    &&& 0 <= base
    &&& base + local.len() == all.len()
    &&& all.len() <= u32::MAX
    &&& forall|i: int|
        base <= i < all.len() ==> #[trigger] all[i] == shifted_node(local[i - base], base)
}

proof fn lemma_shifted_tree(all: Seq<Node>, base: int, local: Seq<Node>, i: int)
    requires
        holds_shifted(all, base, local),
        links_ok(local),
        0 <= i < local.len(),
    ensures
        tree_at(all, base + i) == tree_at(local, i),
    decreases local.len() - i,
{
    let node = local[i];
    assert(all[base + i] == shifted_node(node, base));
    assert(link_ok(local, i, node.left) && link_ok(local, i, node.right));
    if node.left != NULL {
        lemma_shifted_tree(all, base, local, node.left as int);
    }
    if node.right != NULL {
        lemma_shifted_tree(all, base, local, node.right as int);
    }
}

proof fn lemma_shifted_links(all: Seq<Node>, base: int, local: Seq<Node>)
    requires
        holds_shifted(all, base, local),
        links_ok(local),
        links_ok(all.take(base)),
    ensures
        links_ok(all),
{
    assert forall|i: int| 0 <= i < all.len() implies link_ok(all, i, (#[trigger] all[i]).left)
        && link_ok(all, i, all[i].right) by {
        if i < base {
            assert(all.take(base)[i] == all[i]);
        } else {
            let node = local[i - base];
            assert(link_ok(local, i - base, node.left) && link_ok(local, i - base, node.right));
        }
    }
}

proof fn lemma_shifted_link_list(local: Seq<Node>, moved: Seq<Node>, base: int, n: int)
    requires
        0 <= base,
        0 <= n <= local.len(),
        base + local.len() <= u32::MAX,
        links_ok(local),
        moved.len() == n,
        forall|i: int| 0 <= i < n ==> #[trigger] moved[i] == shifted_node(local[i], base),
    ensures
        link_list(moved) == link_list(local.take(n)).map_values(|l: int| base + l),
    decreases n,
{
    let add = |l: int| base + l;
    let from = local.take(n);
    if n == 0 {
        assert(link_list(moved) =~= link_list(from).map_values(add));
    } else {
        lemma_shifted_link_list(local, moved.drop_last(), base, n - 1);
        assert(from.drop_last() =~= local.take(n - 1));
        let node = local[n - 1];
        assert(from.last() == node);
        assert(moved.last() == shifted_node(node, base));
        assert(link_ok(local, n - 1, node.left) && link_ok(local, n - 1, node.right));
        assert(children(moved.last()) =~= children(node).map_values(add));
        assert(link_list(moved) =~= link_list(from).map_values(add));
    }
}

proof fn lemma_shifted_breadth_first(all: Seq<Node>, base: int, local: Seq<Node>)
    requires
        holds_shifted(all, base, local),
        links_ok(local),
        breadth_first_from(local, 0),
    ensures
        breadth_first_from(all.subrange(base, base + local.len()), base),
{
    let moved = all.subrange(base, base + local.len());
    let n = local.len() as int;
    assert forall|i: int| 0 <= i < n implies #[trigger] moved[i] == shifted_node(
        local[i],
        base,
    ) by {
        assert(moved[i] == all[base + i]);
    }
    lemma_shifted_link_list(local, moved, base, n);
    assert(local.take(n) =~= local);
    assert(link_list(moved) =~= Seq::new((n - 1) as nat, |i: int| base + i + 1));
}

/// A tree is the same in an array that goes on after it.
proof fn lemma_tree_in_longer(short: Seq<Node>, long: Seq<Node>, i: int)
    requires
        links_ok(short),
        short.len() <= long.len(),
        long.take(short.len() as int) == short,
        0 <= i < short.len(),
    ensures
        tree_at(long, i) == tree_at(short, i),
    decreases short.len() - i,
{
    assert(long.take(short.len() as int)[i] == long[i]);
    let node = short[i];
    assert(link_ok(short, i, node.left) && link_ok(short, i, node.right));
    if node.left != NULL {
        lemma_tree_in_longer(short, long, node.left as int);
    }
    if node.right != NULL {
        lemma_tree_in_longer(short, long, node.right as int);
    }
}

/// Appends a tree to the nodes, its links moved to where it then stands.
fn append_tree(nodes: &mut Vec<Node>, local: &Vec<Node>)
    requires
        old(nodes)@.len() + local@.len() <= u32::MAX,
        links_ok(local@),
    ensures
        final(nodes)@.len() == old(nodes)@.len() + local@.len(),
        final(nodes)@.take(old(nodes)@.len() as int) == old(nodes)@,
        holds_shifted(final(nodes)@, old(nodes)@.len() as int, local@),
{
    let ghost before = nodes@;
    let base: u32 = nodes.len() as u32;
    let mut i: usize = 0;
    while i < local.len()
        invariant
            i <= local@.len(),
            base == before.len(),
            base + local@.len() <= u32::MAX,
            links_ok(local@),
            nodes@.len() == base + i,
            nodes@.take(base as int) == before,
            forall|k: int|
                base <= k < nodes@.len() ==> #[trigger] nodes@[k] == shifted_node(
                    local@[k - base],
                    base as int,
                ),
        decreases local@.len() - i,
    {
        let mut node: Node = local[i];
        assert(link_ok(local@, i as int, node.left) && link_ok(local@, i as int, node.right));
        if node.left != NULL {
            node.left = node.left + base;
        }
        if node.right != NULL {
            node.right = node.right + base;
        }
        let ghost mid = nodes@;
        nodes.push(node);
        assert(nodes@.take(base as int) =~= mid.take(base as int));
        i = i + 1;
    }
}

proof fn lemma_starts_ascend(groups: Seq<Seq<Point>>, k: nat, n: nat)
    requires
        k <= n,
    ensures
        start_of(groups, k) <= start_of(groups, n),
        rank_of(groups, k) <= rank_of(groups, n),
        k < n ==> start_of(groups, k) + groups[k as int].len() <= start_of(groups, n),
        k < n && groups[k as int].len() > 0 ==> rank_of(groups, k) < rank_of(groups, n),
    decreases n,
{
    if k < n {
        lemma_starts_ascend(groups, k, (n - 1) as nat);
    }
}

/// What has been built stays as it is when the partition of a further group is
/// added.
proof fn lemma_index_grows(
    partitions: Seq<PartitionHeader>,
    nodes: Seq<Node>,
    groups: Seq<Seq<Point>>,
    n: nat,
    p: PartitionHeader,
    more: Seq<Node>,
)
    requires
        indexes_upto(partitions, nodes, groups, n),
        n < groups.len(),
        groups[n as int].len() > 0,
        nodes.len() <= more.len(),
        more.take(nodes.len() as int) == nodes,
        more.len() == start_of(groups, n + 1),
        links_ok(more),
        is_partition_of(p, more, groups[n as int], n as int, start_of(groups, n) as int),
    ensures
        indexes_upto(partitions.push(p), more, groups, n + 1),
{
    let now = partitions.push(p);
    assert forall|k: int| 0 <= k < n + 1 && (#[trigger] groups[k]).len() > 0 implies is_partition_of(
        now[rank_of(groups, k as nat) as int],
        more,
        groups[k],
        k,
        start_of(groups, k as nat) as int,
    ) by {
        if k < n {
            lemma_starts_ascend(groups, k as nat, n);
            let start = start_of(groups, k as nat) as int;
            lemma_tree_in_longer(nodes, more, start);
            assert(more.subrange(start, start + groups[k].len()) =~= more.take(
                nodes.len() as int,
            ).subrange(start, start + groups[k].len()));
        }
    }
}

/// Builds the vantage-point tree of every group and puts their nodes one after
/// the other.
pub fn build_index(groups: Vec<Vec<Point>>) -> (r: (Vec<PartitionHeader>, Vec<Node>))
    requires
        groups@.len() <= MAX_PARTITIONS,
        start_of(views(groups@), groups@.len()) <= u32::MAX,
        forall|k: int| 0 <= k < groups@.len() ==> fits((#[trigger] groups@[k])@),
    ensures
        indexes(r.0@, r.1@, views(groups@)),
{
    let ghost g = views(groups@);
    let mut groups = groups;
    let ghost given = groups@;
    let mut partitions: Vec<PartitionHeader> = Vec::new();
    let mut nodes: Vec<Node> = Vec::new();
    let mut key: usize = 0;
    while key < groups.len()
        invariant
            key <= groups@.len() <= MAX_PARTITIONS,
            groups@.len() == given.len(),
            g == views(given),
            start_of(g, given.len()) <= u32::MAX,
            forall|k: int| 0 <= k < given.len() ==> fits((#[trigger] given[k])@),
            forall|k: int| key <= k < given.len() ==> #[trigger] groups@[k] == given[k],
            indexes_upto(partitions@, nodes@, g, key as nat),
        decreases groups@.len() - key,
    {
        assert(groups@[key as int] == given[key as int]);
        assert(g[key as int] == given[key as int]@);
        if groups[key].len() > 0 {
            proof {
                lemma_starts_ascend(g, (key + 1) as nat, given.len());
            }
            let (min, max) = compute_bbox(groups[key].as_slice());
            let local: Vec<Node> = build_vptree(&mut groups[key]);
            let base: u32 = nodes.len() as u32;
            let count: u32 = local.len() as u32;
            let ghost before = nodes@;
            append_tree(&mut nodes, &local);
            let p: PartitionHeader = PartitionHeader {
                key: key as u32,
                root: base,
                count,
                min,
                max,
            };
            proof {
                lemma_shifted_tree(nodes@, base as int, local@, 0);
                lemma_shifted_links(nodes@, base as int, local@);
                lemma_shifted_breadth_first(nodes@, base as int, local@);
                lemma_index_grows(partitions@, before, g, key as nat, p, nodes@);
            }
            partitions.push(p);
        }
        key = key + 1;
    }
    (partitions, nodes)
}

/// Whether every two of the points are at a distance that 32 bits hold.
///
/// They are where the corners of their bounding box are; only where those are
/// not, every pair is looked at.
pub fn points_fit(points: &[Point]) -> (r: bool)
    ensures
        r == fits(points@),
{
    let (min, max) = compute_bbox(points);
    if dist_sq_i64(&min, &max) <= i32::MAX as i64 {
        proof {
            law_bbox_holds_points_tightly(points@, min@, max@);
            assert forall|i: int, j: int|
                0 <= i < points@.len() && 0 <= j < points@.len() implies #[trigger] dist(
                points@[i].0@,
                points@[j].0@,
            ) <= i32::MAX by {
                law_box_diagonal_bounds_distances(points@[i].0@, points@[j].0@, min@, max@);
            }
        }
        return true;
    }
    let mut i: usize = 0;
    while i < points.len()
        invariant
            i <= points@.len(),
            forall|k: int, j: int|
                0 <= k < i && 0 <= j < points@.len() ==> #[trigger] dist(
                    points@[k].0@,
                    points@[j].0@,
                ) <= i32::MAX,
        decreases points@.len() - i,
    {
        let mut j: usize = 0;
        while j < points.len()
            invariant
                i < points@.len(),
                j <= points@.len(),
                forall|k: int|
                    0 <= k < j ==> #[trigger] dist(points@[i as int].0@, points@[k].0@) <= i32::MAX,
            decreases points@.len() - j,
        {
            if dist_sq_i64(&points[i].0, &points[j].0) > i32::MAX as i64 {
                assert(dist(points@[i as int].0@, points@[j as int].0@) > i32::MAX);
                return false;
            }
            j = j + 1;
        }
        i = i + 1;
    }
    true
}

proof fn lemma_gathered_push<A, B>(s: Seq<A>, x: A, f: spec_fn(A) -> Seq<B>)
    ensures
        gathered(s.push(x), f).to_multiset() == gathered(s, f).to_multiset().add(
            f(x).to_multiset(),
        ),
{
    lemma_gathered_remove(s.push(x), f, s.len() as int);
    assert(s.push(x).remove(s.len() as int) =~= s);
}

/// The groups of the references hold the point of each of them exactly once.
pub proof fn law_groups_hold_references(references: Seq<Reference>)
    ensures
        gathered(groups_of(references), |g: Seq<Point>| g).to_multiset() == points_of(
            references,
        ).to_multiset(),
    decreases references.len(),
{
    broadcast use {vstd::multiset::group_multiset_axioms, group_to_multiset_ensures};

    let same = |g: Seq<Point>| g;
    let groups = groups_of(references);
    if references.len() == 0 {
        reveal(Seq::filter);
        assert forall|k: int| 0 <= k < groups.len() implies #[trigger] groups[k]
            =~= Seq::<Point>::empty() by {}
        lemma_gathered_nothing(groups);
        assert(points_of(references) =~= Seq::empty());
    } else {
        let n = references.len() - 1;
        let fewer = references.drop_last();
        law_groups_hold_references(fewer);
        let before = groups_of(fewer);
        let last = references.last();
        let key = last.key as int;
        assert(references.take(n) =~= fewer);
        assert(references.take(n + 1) =~= references);
        assert forall|k: int| 0 <= k < MAX_PARTITIONS implies groups[k] == if k == key {
            before[k].push(last.point())
        } else {
            before[k]
        } by {
            lemma_group_step(references, n, k);
        }
        assert(groups.remove(key) =~= before.remove(key));
        lemma_gathered_remove(groups, same, key);
        lemma_gathered_remove(before, same, key);
        assert(points_of(references) =~= points_of(fewer).push(last.point()));
        assert(gathered(groups, same).to_multiset() =~= points_of(references).to_multiset());
    }
}

proof fn lemma_gathered_nothing(groups: Seq<Seq<Point>>)
    requires
        forall|k: int| 0 <= k < groups.len() ==> (#[trigger] groups[k]).len() == 0,
    ensures
        gathered(groups, |g: Seq<Point>| g) == Seq::<Point>::empty(),
    decreases groups.len(),
{
    if groups.len() > 0 {
        assert forall|k: int| 0 <= k < groups.skip(1).len() implies (#[trigger] groups.skip(
            1,
        )[k]).len() == 0 by {
            assert(groups.skip(1)[k] == groups[k + 1]);
        }
        lemma_gathered_nothing(groups.skip(1));
        assert(gathered(groups, |g: Seq<Point>| g) =~= Seq::<Point>::empty());
    }
}

proof fn lemma_gathered_upto(state: AppState, groups: Seq<Seq<Point>>, n: nat)
    requires
        n <= groups.len(),
        indexes(state.partitions@, state.nodes@, groups),
        start_of(groups, groups.len()) <= u32::MAX,
    ensures
        gathered(
            Seq::new(rank_of(groups, n), |i: int| i),
            |i: int| preorder(state.tree_of(i)),
        ).to_multiset() == gathered(groups.take(n as int), |g: Seq<Point>| g).to_multiset(),
    decreases n,
{
    broadcast use {vstd::multiset::group_multiset_axioms, group_to_multiset_ensures};

    let f = |i: int| preorder(state.tree_of(i));
    let same = |g: Seq<Point>| g;
    if n > 0 {
        let m = (n - 1) as nat;
        lemma_gathered_upto(state, groups, m);
        let points = groups[m as int];
        assert(groups.take(n as int) =~= groups.take(m as int).push(points));
        lemma_gathered_push(groups.take(m as int), points, same);
        let r = rank_of(groups, m);
        let before = Seq::new(r, |i: int| i);
        if points.len() > 0 {
            lemma_starts_ascend(groups, m, groups.len());
            assert(Seq::new(r + 1, |i: int| i) =~= before.push(r as int));
            lemma_gathered_push(before, r as int, f);
            law_tree_holds_points(points);
            assert(state.tree_of(r as int) == vp_tree(points));
        } else {
            assert(points =~= Seq::<Point>::empty());
            assert(gathered(groups.take(n as int), same).to_multiset() =~= gathered(
                groups.take(m as int),
                same,
            ).to_multiset());
        }
    } else {
        assert(groups.take(0) =~= Seq::<Seq<Point>>::empty());
        assert(Seq::new(0, |i: int| i) =~= Seq::<int>::empty());
    }
}

/// The group that a partition was built from.
proof fn lemma_group_of_partition(groups: Seq<Seq<Point>>, n: nat, i: int) -> (k: int)
    requires
        0 <= i < rank_of(groups, n),
    ensures
        0 <= k < n,
        groups[k].len() > 0,
        rank_of(groups, k as nat) == i,
    decreases n,
{
    let m = (n - 1) as nat;
    if i < rank_of(groups, m) {
        lemma_group_of_partition(groups, m, i)
    } else {
        m as int
    }
}

/// An index that was built from groups of points can be searched, its trees and
/// boxes are sound, and its partitions hold the points of the groups, each
/// exactly once.
pub proof fn law_built_index_is_sound(state: AppState, groups: Seq<Seq<Point>>)
    requires
        indexes(state.partitions@, state.nodes@, groups),
        start_of(groups, groups.len()) <= u32::MAX,
    ensures
        state.searchable(),
        state.sound(),
        state.points().to_multiset() == gathered(groups, |g: Seq<Point>| g).to_multiset(),
{
    let n = groups.len();
    assert forall|i: int| 0 <= i < state.partitions@.len() implies is_vp_tree(
        #[trigger] state.tree_of(i),
    ) && state.partitions@[i].root < state.nodes@.len() && forall|x: Point| #[trigger]
        preorder(state.tree_of(i)).contains(x) ==> in_box(
            x.0@,
            state.partitions@[i].min@,
            state.partitions@[i].max@,
        ) by {
        let k = lemma_group_of_partition(groups, n, i);
        let points = groups[k];
        lemma_starts_ascend(groups, k as nat, n);
        assert(state.tree_of(i) == vp_tree(points));
        law_tree_is_vp_tree(points);
        law_tree_holds_points(points);
        let p = state.partitions@[i];
        law_bbox_holds_points_tightly(points, p.min@, p.max@);
        assert forall|x: Point| #[trigger] preorder(state.tree_of(i)).contains(x) implies in_box(
            x.0@,
            p.min@,
            p.max@,
        ) by {
            broadcast use group_to_multiset_ensures;

            assert(preorder(vp_tree(points)).to_multiset().count(x) > 0);
            assert(points.to_multiset().count(x) > 0);
            assert(points.contains(x));
        }
    }
    assert forall|i: int| 0 <= i < state.partitions@.len() implies walk_ok(
        state.nodes@,
        (#[trigger] state.partitions@[i]).root,
    ) by {
        assert(is_vp_tree(state.tree_of(i)));
        lemma_walk_ok(state.nodes@, state.partitions@[i].root);
    }
    lemma_gathered_upto(state, groups, n);
    assert(groups.take(n as int) =~= groups);
}

proof fn lemma_start_counts_points(groups: Seq<Seq<Point>>, n: nat)
    requires
        n <= groups.len(),
    ensures
        gathered(groups.take(n as int), |g: Seq<Point>| g).to_multiset().len() == start_of(
            groups,
            n,
        ),
        rank_of(groups, n) <= n,
    decreases n,
{
    broadcast use {vstd::multiset::group_multiset_axioms, group_to_multiset_ensures};

    let same = |g: Seq<Point>| g;
    if n > 0 {
        let m = (n - 1) as nat;
        let points = groups[m as int];
        lemma_start_counts_points(groups, m);
        assert(groups.take(n as int) =~= groups.take(m as int).push(points));
        lemma_gathered_push(groups.take(m as int), points, same);
        points.to_multiset_ensures();
    } else {
        assert(groups.take(0) =~= Seq::<Seq<Point>>::empty());
        gathered(groups.take(0), same).to_multiset_ensures();
    }
}

/// There are as many points in the groups as there are references.
proof fn lemma_groups_count_references(references: Seq<Reference>)
    ensures
        start_of(groups_of(references), MAX_PARTITIONS as nat) == references.len(),
        rank_of(groups_of(references), MAX_PARTITIONS as nat) <= MAX_PARTITIONS,
{
    let groups = groups_of(references);
    lemma_start_counts_points(groups, MAX_PARTITIONS as nat);
    assert(groups.take(MAX_PARTITIONS as int) =~= groups);
    law_groups_hold_references(references);
    points_of(references).to_multiset_ensures();
}

/// The bytes are an index file of the references.
pub open spec fn is_index_of(b: Seq<u8>, references: Seq<Reference>) -> bool {
    exists|partitions: Seq<PartitionHeader>, nodes: Seq<Node>| #[trigger]
        holds_index(b, partitions, nodes) && indexes(partitions, nodes, groups_of(references))
            && slack_is_zero(b, partitions.len() as int, nodes.len() as int)
}

/// Makes the index file of the references.
pub fn preprocess(references: &[Reference]) -> (r: Vec<u8>)
    requires
        references@.len() <= u32::MAX,
        forall|k: int| 0 <= k < MAX_PARTITIONS ==> fits(#[trigger] group(references@, k)),
    ensures
        is_index_of(r@, references@),
{
    proof {
        lemma_groups_count_references(references@);
    }
    let groups: Vec<Vec<Point>> = group_by_key(references);
    proof {
        let g = groups_of(references@);
        assert(groups@.len() == g.len());
        assert forall|k: int| 0 <= k < groups@.len() implies fits((#[trigger] groups@[k])@) by {
            assert(views(groups@)[k] == groups@[k]@);
            assert(g[k] == group(references@, k));
        }
    }
    let (partitions, nodes) = build_index(groups);
    let bytes: Vec<u8> = encode(partitions.as_slice(), nodes.as_slice());
    assert(holds_index(bytes@, partitions@, nodes@));
    bytes
}

/// An index read back from the file of the references can be searched, is
/// sound, and answers for exactly the references: the nearest points of its
/// partitions are the nearest references.
pub proof fn law_index_answers_for_references(
    b: Seq<u8>,
    references: Seq<Reference>,
    state: AppState,
)
    requires
        references.len() <= u32::MAX,
        is_index_of(b, references),
        holds_index(b, state.partitions@, state.nodes@),
    ensures
        state.searchable(),
        state.sound(),
        state.points().to_multiset() == points_of(references).to_multiset(),
        forall|best: Seq<(i32, u8)>, q: Seq<i16>| #[trigger]
            is_nearest(best, q, state.points()) <==> is_nearest(best, q, points_of(references)),
{
    let (partitions, nodes) = choose|partitions: Seq<PartitionHeader>, nodes: Seq<Node>| #[trigger]
        holds_index(b, partitions, nodes) && indexes(partitions, nodes, groups_of(references))
            && slack_is_zero(b, partitions.len() as int, nodes.len() as int);
    law_file_is_unambiguous(b, partitions, nodes, state.partitions@, state.nodes@);
    lemma_groups_count_references(references);
    law_built_index_is_sound(state, groups_of(references));
    law_groups_hold_references(references);
    assert forall|best: Seq<(i32, u8)>, q: Seq<i16>| #[trigger]
        is_nearest(best, q, state.points()) <==> is_nearest(best, q, points_of(references)) by {
        lemma_map_keeps_permutation(
            state.points(),
            points_of(references),
            |p: Point| (dist(q, p.0@), p.1),
        );
        assert(candidates(q, state.points()) == candidates(q, points_of(references)));
    }
}

/// The partitions of an index that was built from groups have different keys, in
/// ascending order, and there are no more of them than groups.
pub proof fn law_partition_keys_ascend(
    partitions: Seq<PartitionHeader>,
    nodes: Seq<Node>,
    groups: Seq<Seq<Point>>,
)
    requires
        indexes(partitions, nodes, groups),
    ensures
        partitions.len() <= groups.len(),
        forall|i: int, j: int|
            0 <= i < j < partitions.len() ==> (#[trigger] partitions[i]).key < (
            #[trigger] partitions[j]).key,
        forall|i: int|
            0 <= i < partitions.len() ==> (#[trigger] partitions[i]).key < groups.len()
                && partitions[i].count == groups[partitions[i].key as int].len()
                && partitions[i].count > 0,
{
    let n = groups.len();
    lemma_start_counts_points(groups, n);
    assert forall|i: int, j: int| 0 <= i < j < partitions.len() implies (
    #[trigger] partitions[i]).key < (#[trigger] partitions[j]).key by {
        let k = lemma_group_of_partition(groups, n, i);
        let l = lemma_group_of_partition(groups, n, j);
        if l <= k {
            lemma_starts_ascend(groups, l as nat, k as nat);
        }
    }
    assert forall|i: int| 0 <= i < partitions.len() implies (#[trigger] partitions[i]).key
        < groups.len() && partitions[i].count == groups[partitions[i].key as int].len()
        && partitions[i].count > 0 by {
        let k = lemma_group_of_partition(groups, n, i);
    }
}

proof fn lemma_last_with_key_is(partitions: Seq<PartitionHeader>, key: int, i: int)
    requires
        0 <= i < partitions.len(),
        partitions[i].key as int % 256 == key,
        forall|j: int| i < j < partitions.len() ==> (#[trigger] partitions[j]).key as int % 256 != key,
    ensures
        last_with_key(partitions, key) == Some(i),
    decreases partitions.len(),
{
    if i < partitions.len() - 1 {
        assert(partitions[partitions.len() - 1].key as int % 256 != key);
        lemma_last_with_key_is(partitions.drop_last(), key, i);
    }
}

proof fn lemma_last_with_key_none(partitions: Seq<PartitionHeader>, key: int)
    requires
        forall|j: int| 0 <= j < partitions.len() ==> (#[trigger] partitions[j]).key as int % 256 != key,
    ensures
        last_with_key(partitions, key) == None::<int>,
    decreases partitions.len(),
{
    if partitions.len() > 0 {
        assert(partitions[partitions.len() - 1].key as int % 256 != key);
        lemma_last_with_key_none(partitions.drop_last(), key);
    }
}

proof fn lemma_rank_has_key(
    partitions: Seq<PartitionHeader>,
    nodes: Seq<Node>,
    groups: Seq<Seq<Point>>,
    k: int,
)
    requires
        indexes(partitions, nodes, groups),
        0 <= k < groups.len(),
        groups[k].len() > 0,
    ensures
        rank_of(groups, k as nat) < partitions.len(),
        partitions[rank_of(groups, k as nat) as int].key == k,
{
    lemma_starts_ascend(groups, k as nat, groups.len());
}

proof fn lemma_table_entry_is(partitions: Seq<PartitionHeader>, key: int, at: Option<int>)
    requires
        partitions.len() <= 256,
        forall|i: int, j: int|
            0 <= i < j < partitions.len() ==> (#[trigger] partitions[i]).key < (
            #[trigger] partitions[j]).key,
        forall|i: int| 0 <= i < partitions.len() ==> (#[trigger] partitions[i]).key < 256,
        at matches Some(i) ==> 0 <= i < partitions.len() && partitions[i].key == key,
        at is None ==> forall|i: int|
            0 <= i < partitions.len() ==> (#[trigger] partitions[i]).key != key,
    ensures
        table_entry(partitions, key) == match at {
            Some(i) => i as u16,
            None => NO_PARTITION,
        },
{
    match at {
        Some(i) => {
            assert forall|j: int| i < j < partitions.len() implies (
            #[trigger] partitions[j]).key as int % 256 != key by {
                assert(partitions[i].key < partitions[j].key);
            }
            lemma_last_with_key_is(partitions, key, i);
        },
        None => {
            lemma_last_with_key_none(partitions, key);
        },
    }
}

/// The partition that is searched first for a key is the one that holds the
/// points with that key; where there are none, no partition is.
pub proof fn law_lookup_finds_partition(state: AppState, groups: Seq<Seq<Point>>, key: u8)
    requires
        state.wf(),
        indexes(state.partitions@, state.nodes@, groups),
        groups.len() == MAX_PARTITIONS,
    ensures
        state.primary(key) == if groups[key as int].len() > 0 {
            Some(rank_of(groups, key as nat) as int)
        } else {
            None
        },
        state.primary(key) matches Some(i) ==> 0 <= i < state.partitions@.len()
            && state.partitions@[i].key == key,
{
    let partitions = state.partitions@;
    let k = key as int;
    law_partition_keys_ascend(partitions, state.nodes@, groups);
    assert(state.key_to_idx@[k] == table_entry(partitions, k));
    let at = if groups[k].len() > 0 {
        lemma_rank_has_key(partitions, state.nodes@, groups, k);
        Some(rank_of(groups, k as nat) as int)
    } else {
        None
    };
    lemma_table_entry_is(partitions, k, at);
}

/// A further reference goes behind those with its own key, with its vector and
/// label as they are, and no other group changes. Without references every group
/// is empty.
pub proof fn law_reference_joins_its_group(references: Seq<Reference>, r: Reference, key: int)
    requires
        0 <= key < 256,
    ensures
        groups_of(references).len() == 256,
        groups_of(references.push(r))[key] == if r.key == key {
            groups_of(references)[key].push((r.vector, r.label))
        } else {
            groups_of(references)[key]
        },
        groups_of(Seq::empty())[key].len() == 0,
        points_of(references.push(r)) == points_of(references).push((r.vector, r.label)),
        points_of(Seq::empty()).len() == 0,
{
    let n = references.len() as int;
    let all = references.push(r);
    lemma_group_step(all, n, key);
    assert(all.take(n) =~= references);
    assert(all.take(n + 1) =~= all);
    reveal(Seq::filter);
    assert(points_of(all) =~= points_of(references).push((r.vector, r.label)));
}

/// Each partition of a built index holds exactly the points of the group with
/// its key, and their bounding box; the nodes of the first partition start at 0,
/// and those of each further one where the one before ends.
pub proof fn law_partition_holds_its_group(state: AppState, groups: Seq<Seq<Point>>, i: int)
    requires
        indexes(state.partitions@, state.nodes@, groups),
        start_of(groups, groups.len()) <= u32::MAX,
        0 <= i < state.partitions@.len(),
    ensures
        ({
            let p = state.partitions@[i];
            let points = groups[p.key as int];
            &&& p.key < groups.len()
            &&& p.count == points.len()
            &&& preorder(state.tree_of(i)).to_multiset() == points.to_multiset()
            &&& is_bbox(points, p.min@, p.max@)
            &&& i == 0 ==> p.root == 0
            &&& i + 1 < state.partitions@.len() ==> state.partitions@[i + 1].root == p.root
                + p.count
            &&& i + 1 == state.partitions@.len() ==> state.nodes@.len() == p.root + p.count
        }),
{
    let n = groups.len();
    let partitions = state.partitions@;
    let k = lemma_group_of_partition(groups, n, i);
    let points = groups[k];
    lemma_starts_ascend(groups, k as nat, n);
    assert(is_partition_of(
        partitions[i],
        state.nodes@,
        points,
        k,
        start_of(groups, k as nat) as int,
    ));
    assert(state.tree_of(i) == vp_tree(points));
    law_tree_holds_points(points);
    if i == 0 {
        lemma_nothing_before(groups, k as nat);
    }
    if i + 1 < partitions.len() {
        let l = lemma_group_of_partition(groups, n, i + 1);
        if l <= k {
            lemma_starts_ascend(groups, l as nat, k as nat);
        }
        assert(is_partition_of(
            partitions[i + 1],
            state.nodes@,
            groups[l],
            l,
            start_of(groups, l as nat) as int,
        ));
        lemma_nothing_between(groups, (k + 1) as nat, l as nat);
    } else {
        lemma_nothing_between(groups, (k + 1) as nat, n);
    }
}

proof fn lemma_nothing_before(groups: Seq<Seq<Point>>, k: nat)
    requires
        rank_of(groups, k) == 0,
    ensures
        start_of(groups, k) == 0,
    decreases k,
{
    if k > 0 {
        lemma_nothing_before(groups, (k - 1) as nat);
    }
}

proof fn lemma_nothing_between(groups: Seq<Seq<Point>>, k: nat, l: nat)
    requires
        k <= l,
        rank_of(groups, k) == rank_of(groups, l),
    ensures
        start_of(groups, k) == start_of(groups, l),
    decreases l,
{
    if k < l {
        lemma_starts_ascend(groups, k, (l - 1) as nat);
        lemma_starts_ascend(groups, (l - 1) as nat, l);
        lemma_nothing_between(groups, k, (l - 1) as nat);
    }
}

/// Every group with points has a partition, and no other key has one.
pub proof fn law_every_group_has_a_partition(
    partitions: Seq<PartitionHeader>,
    nodes: Seq<Node>,
    groups: Seq<Seq<Point>>,
    key: int,
)
    requires
        indexes(partitions, nodes, groups),
        0 <= key < groups.len(),
    ensures
        groups[key].len() > 0 <==> exists|i: int|
            0 <= i < partitions.len() && (#[trigger] partitions[i]).key == key,
{
    if groups[key].len() > 0 {
        lemma_rank_has_key(partitions, nodes, groups, key);
        assert(partitions[rank_of(groups, key as nat) as int].key == key);
    }
    law_partition_keys_ascend(partitions, nodes, groups);
}

/// The groups as sequences, in their places.
pub proof fn law_views(groups: Seq<Vec<Point>>, k: int)
    ensures
        views(groups).len() == groups.len(),
        0 <= k < groups.len() ==> views(groups)[k] == groups[k]@,
{
}

}
