//! Building the vantage-point tree of a set of points.

use crate::bags::{
    lemma_filter_all, lemma_filter_none, lemma_filter_permutation, lemma_filter_splits,
};
use crate::distance::{
    dist, dist_sq_i16, dist_upto, law_dist_symmetric, lemma_dist_upto_bounds, sq, Point, DIMS,
};
use crate::layout::{Node, NULL};
use crate::select::{as_ints, nth_smallest};
use crate::tree::{
    breadth_first_from, children, is_strict_vp_tree, is_vp_tree, link_list, link_ok, links_ok,
    preorder, tree_at, Tree,
};
use std::collections::VecDeque;
use vstd::prelude::*;
use vstd::seq_lib::{group_to_multiset_ensures, lemma_multiset_commutative};

verus! {

/// Largest number of candidates for a vantage point.
pub const MAX_SAMPLE: usize = 15;

/// Every two of the points are at a distance that 32 bits hold.
pub open spec fn fits(points: Seq<Point>) -> bool {
    forall|i: int, j: int|
        0 <= i < points.len() && 0 <= j < points.len() ==> #[trigger] dist(
            points[i].0@,
            points[j].0@,
        ) <= i32::MAX
}

/// Number of candidates among `n` points.
pub open spec fn sample_size(n: int) -> int {
    if n < MAX_SAMPLE {
        n
    } else {
        MAX_SAMPLE as int
    }
}

/// Distance between the positions of two candidates among `n` points.
pub open spec fn sample_step(n: int) -> int {
    if n > sample_size(n) {
        n / sample_size(n)
    } else {
        1
    }
}

/// Vector of candidate `s`.
pub open spec fn candidate(points: Seq<Point>, s: int) -> Seq<i16> {
    points[s * sample_step(points.len() as int)].0@
}

/// Sum of the distances from candidate `s` to those of the first `m`
/// candidates that are not itself.
pub open spec fn dispersion_upto(points: Seq<Point>, s: int, m: nat) -> int
    decreases m,
{
    if m == 0 {
        0
    } else {
        dispersion_upto(points, s, (m - 1) as nat) + if s != m - 1 {
            dist(candidate(points, s), candidate(points, m - 1))
        } else {
            0
        }
    }
}

/// Average distance, rounded down, from candidate `s` to the others.
pub open spec fn dispersion(points: Seq<Point>, s: int) -> int {
    let n = sample_size(points.len() as int);
    if n > 1 {
        dispersion_upto(points, s, n as nat) / (n - 1)
    } else {
        0
    }
}

/// The first of the most dispersed among the first `m` candidates.
pub open spec fn most_dispersed(points: Seq<Point>, m: nat) -> int
    decreases m,
{
    if m <= 1 {
        0
    } else {
        let b = most_dispersed(points, (m - 1) as nat);
        if dispersion(points, m - 1) > dispersion(points, b) {
            m - 1
        } else {
            b
        }
    }
}

/// Position of the point that becomes the vantage point.
pub open spec fn vantage(points: Seq<Point>) -> int {
    let n = points.len() as int;
    most_dispersed(points, sample_size(n) as nat) * sample_step(n)
}

/// The points with the vantage point and the first point exchanged.
pub open spec fn vantage_first(points: Seq<Point>) -> Seq<Point> {
    let k = vantage(points);
    points.update(0, points[k]).update(k, points[0])
}

/// Distances of the points from a vector.
pub open spec fn distances(points: Seq<Point>, v: Seq<i16>) -> Seq<int> {
    points.map_values(|p: Point| dist(p.0@, v))
}

/// Median of the distances: the one at half the number of points, rounded
/// down, once they are sorted (0 where there are no points).
pub open spec fn median_radius(points: Seq<Point>, v: Seq<i16>) -> int {
    if points.len() == 0 {
        0
    } else {
        distances(points, v).sort()[points.len() as int / 2]
    }
}

/// The points at a distance of at most `r` from `v`, in their order.
pub open spec fn inside(points: Seq<Point>, v: Seq<i16>, r: int) -> Seq<Point> {
    points.filter(|p: Point| dist(p.0@, v) <= r)
}

/// The points farther than `r` from `v`, in their order.
pub open spec fn outside(points: Seq<Point>, v: Seq<i16>, r: int) -> Seq<Point> {
    points.filter(|p: Point| dist(p.0@, v) > r)
}

/// Candidates stand at different positions, all of them among the points.
proof fn lemma_sample_position(n: int, s: int)
    requires
        0 < n,
        0 <= s < sample_size(n),
    ensures
        1 <= sample_step(n),
        0 <= s * sample_step(n) < n,
{
    let m = sample_size(n);
    let step = sample_step(n);
    if n > m {
        assert(m * (n / m) <= n) by (nonlinear_arith)
            requires
                0 < m,
        ;
        assert(1 <= n / m) by (nonlinear_arith)
            requires
                0 < m < n,
        ;
    }
    assert(m * step <= n);
    assert(0 <= s * step) by (nonlinear_arith)
        requires
            0 <= s,
            1 <= step,
    ;
    assert(s * step < m * step) by (nonlinear_arith)
        requires
            s < m,
            1 <= step,
    ;
}

/// The vantage point is one of the points.
pub proof fn lemma_vantage_in_range(points: Seq<Point>)
    requires
        points.len() > 0,
    ensures
        0 <= vantage(points) < points.len(),
        vantage_first(points).len() == points.len(),
        vantage_first(points)[0] == points[vantage(points)],
{
    let n = points.len() as int;
    lemma_most_dispersed_in_range(points, sample_size(n) as nat);
    lemma_sample_position(n, most_dispersed(points, sample_size(n) as nat));
}

proof fn lemma_most_dispersed_in_range(points: Seq<Point>, m: nat)
    requires
        m > 0,
    ensures
        0 <= most_dispersed(points, m) < m,
    decreases m,
{
    if m > 1 {
        lemma_most_dispersed_in_range(points, (m - 1) as nat);
    }
}

/// The vantage-point tree of the points.
#[verifier::opaque]
pub open spec fn vp_tree(points: Seq<Point>) -> Tree
    decreases points.len(),
{
    if points.len() == 0 {
        Tree::Leaf
    } else {
        let point = vantage_first(points)[0];
        let rest = vantage_first(points).skip(1);
        let radius = median_radius(rest, point.0@);
        proof {
            lemma_vantage_in_range(points);
            rest.lemma_filter_len(|p: Point| dist(p.0@, point.0@) <= radius);
            rest.lemma_filter_len(|p: Point| dist(p.0@, point.0@) > radius);
        }
        Tree::Fork {
            point,
            radius,
            left: Box::new(vp_tree(inside(rest, point.0@, radius))),
            right: Box::new(vp_tree(outside(rest, point.0@, radius))),
        }
    }
}

proof fn lemma_fits_permutation(a: Seq<Point>, b: Seq<Point>)
    requires
        fits(a),
        a.to_multiset() == b.to_multiset(),
    ensures
        fits(b),
{
    broadcast use group_to_multiset_ensures;

    assert forall|i: int, j: int| 0 <= i < b.len() && 0 <= j < b.len() implies #[trigger] dist(
        b[i].0@,
        b[j].0@,
    ) <= i32::MAX by {
        assert(b.contains(b[i]));
        assert(b.contains(b[j]));
        assert(a.to_multiset().count(b[i]) > 0);
        assert(a.to_multiset().count(b[j]) > 0);
        let x = choose|x: int| 0 <= x < a.len() && a[x] == b[i];
        let y = choose|y: int| 0 <= y < a.len() && a[y] == b[j];
        assert(dist(a[x].0@, a[y].0@) <= i32::MAX);
    }
}

/// Average distance from candidate `s` of the points in a range to the others.
fn average_distance(points: &Vec<Point>, start: usize, end: usize, s: usize) -> (r: i64)
    requires
        start < end <= points.len(),
        s < sample_size(end - start),
        fits(points@),
    ensures
        r == dispersion(points@.subrange(start as int, end as int), s as int),
        r >= 0,
{
    let ghost g = points@.subrange(start as int, end as int);
    let len: usize = end - start;
    let sample: usize = if len < MAX_SAMPLE {
        len
    } else {
        MAX_SAMPLE
    };
    let step: usize = if len > sample {
        len / sample
    } else {
        1
    };
    proof {
        lemma_sample_position(len as int, s as int);
    }
    let at: usize = start + s * step;
    let mut sum: i64 = 0;
    let mut t: usize = 0;
    while t < sample
        invariant
            start < end <= points.len(),
            len == end - start,
            sample == sample_size(len as int),
            step == sample_step(len as int),
            s < sample,
            at == start + s * step,
            start <= at < end,
            g == points@.subrange(start as int, end as int),
            fits(points@),
            t <= sample,
            sum == dispersion_upto(g, s as int, t as nat),
            0 <= sum <= t * i32::MAX,
        decreases sample - t,
    {
        proof {
            lemma_sample_position(len as int, t as int);
        }
        let other: usize = start + t * step;
        if t != s {
            proof {
                assert(g[s * step].0@ == points@[at as int].0@);
                assert(g[t * step].0@ == points@[other as int].0@);
                lemma_dist_upto_bounds(
                    points@[at as int].0@,
                    points@[other as int].0@,
                    DIMS as nat,
                );
            }
            sum = sum + dist_sq_i16(&points[at].0, &points[other].0) as i64;
        }
        t = t + 1;
    }
    if sample > 1 {
        proof {
            assert(0 <= sum as int / (sample - 1)) by (nonlinear_arith)
                requires
                    0 <= sum,
                    1 < sample,
            ;
        }
        sum / (sample as i64 - 1)
    } else {
        0
    }
}

/// Offset within a range of the point that becomes its vantage point.
fn pick_vantage(points: &Vec<Point>, start: usize, end: usize) -> (r: usize)
    requires
        start < end <= points.len(),
        fits(points@),
    ensures
        r == vantage(points@.subrange(start as int, end as int)),
        r < end - start,
{
    let ghost g = points@.subrange(start as int, end as int);
    let len: usize = end - start;
    let sample: usize = if len < MAX_SAMPLE {
        len
    } else {
        MAX_SAMPLE
    };
    let step: usize = if len > sample {
        len / sample
    } else {
        1
    };
    let mut best: usize = 0;
    let mut best_disp: i64 = -1;
    let mut s: usize = 0;
    while s < sample
        invariant
            start < end <= points.len(),
            len == end - start,
            sample == sample_size(len as int),
            g == points@.subrange(start as int, end as int),
            fits(points@),
            s <= sample,
            best < sample,
            s == 0 ==> best_disp == -1,
            s > 0 ==> best == most_dispersed(g, s as nat) && best_disp == dispersion(
                g,
                best as int,
            ),
        decreases sample - s,
    {
        let disp: i64 = average_distance(points, start, end, s);
        if disp > best_disp {
            best_disp = disp;
            best = s;
        }
        s = s + 1;
    }
    proof {
        lemma_sample_position(len as int, best as int);
    }
    best * step
}

/// Parts a range by the median distance from its first point: those inside the
/// radius follow it, then those outside. Gives the radius and the number inside.
fn split_range(points: &mut Vec<Point>, start: usize, end: usize) -> (r: (i32, usize))
    requires
        start < end <= old(points).len(),
        fits(old(points)@),
    ensures
        ({
            let v = old(points)@[start as int].0@;
            let rest = old(points)@.subrange(start + 1, end as int);
            &&& r.0 == median_radius(rest, v)
            &&& r.1 == inside(rest, v, r.0 as int).len()
            &&& r.1 + outside(rest, v, r.0 as int).len() == end - start - 1
            &&& final(points)@ == old(points)@.take(start + 1) + inside(rest, v, r.0 as int)
                + outside(rest, v, r.0 as int) + old(points)@.skip(end as int)
        }),
{
    let ghost before = points@;
    let v: [i16; 16] = points[start].0;
    let ghost rest = before.subrange(start + 1, end as int);
    let mut dists: Vec<i32> = Vec::new();
    let mut i: usize = start + 1;
    while i < end
        invariant
            start < i <= end <= points.len(),
            points@ == before,
            fits(before),
            v == before[start as int].0,
            rest == before.subrange(start + 1, end as int),
            dists@.len() == i - start - 1,
            forall|k: int|
                0 <= k < dists@.len() ==> #[trigger] dists@[k] == dist(rest[k].0@, v@),
        decreases end - i,
    {
        proof {
            assert(rest[i - start - 1] == before[i as int]);
            assert(dist(before[i as int].0@, before[start as int].0@) <= i32::MAX);
        }
        dists.push(dist_sq_i16(&points[i].0, &v));
        i = i + 1;
    }
    let radius: i32 = if dists.len() == 0 {
        0
    } else {
        proof {
            assert(as_ints(dists@) =~= distances(rest, v@));
        }
        let mid: usize = dists.len() / 2;
        nth_smallest(dists, mid)
    };
    let ghost p = |p: Point| dist(p.0@, v@) <= radius;
    let ghost q = |p: Point| dist(p.0@, v@) > radius;
    let mut near: Vec<Point> = Vec::new();
    let mut far: Vec<Point> = Vec::new();
    let mut i: usize = start + 1;
    while i < end
        invariant
            start < i <= end <= points.len(),
            points@ == before,
            fits(before),
            v == before[start as int].0,
            rest == before.subrange(start + 1, end as int),
            p == (|p: Point| dist(p.0@, v@) <= radius),
            q == (|p: Point| dist(p.0@, v@) > radius),
            near@ == rest.take(i - start - 1).filter(p),
            far@ == rest.take(i - start - 1).filter(q),
        decreases end - i,
    {
        let ghost done = rest.take(i - start - 1);
        let ghost next = rest.take(i - start);
        proof {
            reveal(Seq::filter);
            assert(next.drop_last() =~= done);
            assert(next.last() == before[i as int]);
            assert(dist(before[i as int].0@, before[start as int].0@) <= i32::MAX);
        }
        let point: Point = points[i];
        if dist_sq_i16(&point.0, &v) <= radius {
            near.push(point);
        } else {
            far.push(point);
        }
        i = i + 1;
    }
    proof {
        assert(rest.take(end - start - 1) =~= rest);
        lemma_filter_splits(rest, p, q);
    }
    let split: usize = near.len();
    let mut i: usize = 0;
    while i < near.len()
        invariant
            i <= near@.len(),
            near@.len() + far@.len() == end - start - 1,
            start < end <= points.len(),
            points@.len() == before.len(),
            forall|k: int|
                0 <= k < points@.len() ==> #[trigger] points@[k] == if start < k <= start + i {
                    near@[k - start - 1]
                } else {
                    before[k]
                },
        decreases near.len() - i,
    {
        points[start + 1 + i] = near[i];
        i = i + 1;
    }
    let mut i: usize = 0;
    while i < far.len()
        invariant
            i <= far@.len(),
            split == near@.len(),
            near@.len() + far@.len() == end - start - 1,
            start < end <= points.len(),
            points@.len() == before.len(),
            forall|k: int|
                0 <= k < points@.len() ==> #[trigger] points@[k] == if start < k <= start
                    + near@.len() {
                    near@[k - start - 1]
                } else if start + near@.len() < k <= start + near@.len() + i {
                    far@[k - start - 1 - near@.len()]
                } else {
                    before[k]
                },
        decreases far.len() - i,
    {
        points[start + 1 + split + i] = far[i];
        i = i + 1;
    }
    proof {
        assert(points@ =~= before.take(start + 1) + near@ + far@ + before.skip(end as int));
    }
    (radius, split)
}

/// Where the index of a node still to be made is to be written.
enum Patch {
    Left(usize),
    Right(usize),
    Root,
}

/// A range of points still to be turned into a tree.
struct Job {
    start: usize,
    end: usize,
    patch: Patch,
}

/// The link of a node to the side inside its radius, or outside.
spec fn link_of(node: Node, outer: bool) -> u32 {
    if outer {
        node.right
    } else {
        node.left
    }
}

/// The subtree on one side of a tree.
spec fn branch(t: Tree, outer: bool) -> Tree {
    match t {
        Tree::Leaf => Tree::Leaf,
        Tree::Fork { left, right, .. } => if outer {
            *right
        } else {
            *left
        },
    }
}

/// The node and the side that a patch speaks of.
spec fn patched(patch: Patch) -> Option<(int, bool)> {
    match patch {
        Patch::Left(p) => Some((p as int, false)),
        Patch::Right(p) => Some((p as int, true)),
        Patch::Root => None,
    }
}

/// Each link leads forward to a node that knows it, and each node but the first
/// is led to by the link that it knows.
#[verifier::opaque]
spec fn linked_by(nodes: Seq<Node>, parent: Seq<(int, bool)>) -> bool {
    &&& parent.len() == nodes.len()
    &&& forall|i: int|
        0 <= i < nodes.len() && (#[trigger] nodes[i]).left != NULL ==> i < nodes[i].left
            < nodes.len() && parent[nodes[i].left as int] == (i, false)
    &&& forall|i: int|
        0 <= i < nodes.len() && (#[trigger] nodes[i]).right != NULL ==> i < nodes[i].right
            < nodes.len() && parent[nodes[i].right as int] == (i, true)
    &&& forall|j: int|
        1 <= j < nodes.len() ==> 0 <= (#[trigger] parent[j]).0 < j && link_of(
            nodes[parent[j].0],
            parent[j].1,
        ) == j
}

/// A job waits for the link of a node to one side.
spec fn pending(stack: Seq<Job>, i: int, outer: bool) -> bool {
    exists|k: int| 0 <= k < stack.len() && patched((#[trigger] stack[k]).patch) == Some((i, outer))
}

/// A link leads to the subtree it stands for, or there is none, or a job waits
/// to set it.
spec fn side_ok(
    nodes: Seq<Node>,
    trees: Seq<Tree>,
    stack: Seq<Job>,
    i: int,
    outer: bool,
) -> bool {
    let link = link_of(nodes[i], outer);
    if link == NULL {
        branch(trees[i], outer) is Leaf || pending(stack, i, outer)
    } else {
        trees[link as int] == branch(trees[i], outer)
    }
}

/// A node holds the vantage point and the radius of a tree.
spec fn tells(node: Node, t: Tree) -> bool {
    match t {
        Tree::Leaf => false,
        Tree::Fork { point, radius, .. } => point == node.point() && radius == node.radius_sq,
    }
}

/// Node `i` is the root of `trees[i]`.
#[verifier::opaque]
spec fn nodes_stand_for(nodes: Seq<Node>, trees: Seq<Tree>, stack: Seq<Job>) -> bool {
    &&& trees.len() == nodes.len()
    &&& forall|i: int|
        0 <= i < nodes.len() ==> {
            &&& tells(#[trigger] nodes[i], trees[i])
            &&& side_ok(nodes, trees, stack, i, false)
            &&& side_ok(nodes, trees, stack, i, true)
        }
}

/// The ranges of the jobs cover what is left of the points, the last job first.
#[verifier::opaque]
spec fn ranges_ok(stack: Seq<Job>, done: int, n: int) -> bool {
    &&& stack.len() == 0 ==> done == n
    &&& stack.len() > 0 ==> stack.last().start == done && stack[0].end == n
    &&& forall|k: int| 0 <= k < stack.len() ==> (#[trigger] stack[k]).start < stack[k].end <= n
    &&& forall|a: int, b: int|
        0 <= a < b < stack.len() ==> (#[trigger] stack[b]).end <= (#[trigger] stack[a]).start
    &&& forall|a: int, b: int|
        0 <= a && b == a + 1 && b < stack.len() ==> (#[trigger] stack[b]).end == (
        #[trigger] stack[a]).start
}

/// Each job makes the tree that its patch is for.
#[verifier::opaque]
spec fn jobs_ok(
    stack: Seq<Job>,
    plan: Seq<Tree>,
    nodes: Seq<Node>,
    trees: Seq<Tree>,
    points: Seq<Point>,
    whole: Tree,
) -> bool {
    &&& plan.len() == stack.len()
    &&& forall|k: int|
        0 <= k < stack.len() ==> plan[k] == vp_tree(
            points.subrange((#[trigger] stack[k]).start as int, stack[k].end as int),
        )
    &&& forall|k: int|
        0 <= k < stack.len() ==> match patched((#[trigger] stack[k]).patch) {
            Some((p, outer)) => {
                &&& 0 <= p < nodes.len()
                &&& plan[k] == branch(trees[p], outer)
                &&& link_of(nodes[p], outer) == NULL
            },
            None => nodes.len() == 0 && plan[k] == whole,
        }
    &&& forall|a: int, b: int|
        0 <= a < b < stack.len() ==> patched((#[trigger] stack[a]).patch) != patched(
            (#[trigger] stack[b]).patch,
        )
}

/// The points of the trees that are still to be made, the last one first.
spec fn planned(plan: Seq<Tree>) -> Seq<Point>
    decreases plan.len(),
{
    if plan.len() == 0 {
        Seq::empty()
    } else {
        preorder(plan.last()) + planned(plan.drop_last())
    }
}

proof fn lemma_tree_at(nodes: Seq<Node>, trees: Seq<Tree>, parent: Seq<(int, bool)>, i: int)
    requires
        linked_by(nodes, parent),
        nodes_stand_for(nodes, trees, Seq::empty()),
        0 <= i < nodes.len(),
    ensures
        tree_at(nodes, i) == trees[i],
    decreases nodes.len() - i,
{
    reveal(linked_by);
    reveal(nodes_stand_for);
    assert(side_ok(nodes, trees, Seq::empty(), i, false));
    assert(side_ok(nodes, trees, Seq::empty(), i, true));
    let left = nodes[i].left;
    let right = nodes[i].right;
    assert(trees[i] is Fork);
    if left != NULL {
        lemma_tree_at(nodes, trees, parent, left as int);
    }
    if right != NULL {
        lemma_tree_at(nodes, trees, parent, right as int);
    }
}

proof fn lemma_swap_keeps_points(a: Seq<Point>, i: int, j: int)
    requires
        0 <= i < a.len(),
        0 <= j < a.len(),
    ensures
        a.update(i, a[j]).update(j, a[i]).to_multiset() == a.to_multiset(),
{
    broadcast use {vstd::multiset::group_multiset_axioms, group_to_multiset_ensures};

    let b = a.update(i, a[j]);
    assert(a.contains(a[i]) && a.contains(a[j]));
    assert(b.contains(b[j]));
    assert(b.update(j, a[i]).to_multiset() =~= a.to_multiset());
}

/// Exchanging the vantage point to the front of a range and parting the rest by
/// its radius leaves the ranges of the two subtrees.
proof fn lemma_split_makes_tree(
    p0: Seq<Point>,
    p1: Seq<Point>,
    p2: Seq<Point>,
    start: int,
    end: int,
    radius: int,
    split: int,
)
    requires
        0 <= start < end <= p0.len(),
        ({
            let g = p0.subrange(start, end);
            let k = start + vantage(g);
            p1 == p0.update(start, p0[k]).update(k, p0[start])
        }),
        ({
            let v = p1[start].0@;
            let rest = p1.subrange(start + 1, end);
            &&& radius == median_radius(rest, v)
            &&& split == inside(rest, v, radius).len()
            &&& p2 == p1.take(start + 1) + inside(rest, v, radius) + outside(rest, v, radius)
                + p1.skip(end)
        }),
    ensures
        0 <= split < end - start,
        p2.len() == p0.len(),
        p2.to_multiset() == p0.to_multiset(),
        forall|i: int| 0 <= i < start || end <= i < p0.len() ==> #[trigger] p2[i] == p0[i],
        vp_tree(p0.subrange(start, end)) == (Tree::Fork {
            point: p2[start],
            radius,
            left: Box::new(vp_tree(p2.subrange(start + 1, start + 1 + split))),
            right: Box::new(vp_tree(p2.subrange(start + 1 + split, end))),
        }),
{
    reveal(vp_tree);
    let g = p0.subrange(start, end);
    lemma_vantage_in_range(g);
    let k = start + vantage(g);
    lemma_swap_keeps_points(p0, start, k);
    let v = p1[start].0@;
    let rest = p1.subrange(start + 1, end);
    let near = inside(rest, v, radius);
    let far = outside(rest, v, radius);
    lemma_filter_splits(
        rest,
        |p: Point| dist(p.0@, v) <= radius,
        |p: Point| dist(p.0@, v) > radius,
    );
    assert(p1.subrange(start, end) =~= vantage_first(g));
    assert(vantage_first(g).skip(1) =~= rest);
    assert(vantage_first(g)[0] == p1[start]);
    assert(p2.subrange(start + 1, start + 1 + split) =~= near);
    assert(p2.subrange(start + 1 + split, end) =~= far);
    assert(p2[start] == p1[start]);
    assert(p1 =~= p1.take(start + 1) + rest + p1.skip(end));
    lemma_multiset_commutative(p1.take(start + 1) + rest, p1.skip(end));
    lemma_multiset_commutative(p1.take(start + 1), rest);
    lemma_multiset_commutative(p1.take(start + 1) + near + far, p1.skip(end));
    lemma_multiset_commutative(p1.take(start + 1) + near, far);
    lemma_multiset_commutative(p1.take(start + 1), near);
    broadcast use vstd::multiset::group_multiset_axioms;

    assert(p2.to_multiset() =~= p1.to_multiset());
}

/// Moves the vantage point of a range to its front and parts the rest by its
/// radius. Gives the radius and the number of points inside it.
fn fork_range(points: &mut Vec<Point>, start: usize, end: usize) -> (r: (i32, usize))
    requires
        start < end <= old(points)@.len(),
        fits(old(points)@),
    ensures
        r.1 < end - start,
        final(points)@.len() == old(points)@.len(),
        final(points)@.to_multiset() == old(points)@.to_multiset(),
        fits(final(points)@),
        forall|i: int|
            0 <= i < start || end <= i < old(points)@.len() ==> #[trigger] final(points)@[i]
                == old(points)@[i],
        vp_tree(old(points)@.subrange(start as int, end as int)) == (Tree::Fork {
            point: final(points)@[start as int],
            radius: r.0 as int,
            left: Box::new(vp_tree(final(points)@.subrange(start + 1, start + 1 + r.1))),
            right: Box::new(vp_tree(final(points)@.subrange(start + 1 + r.1, end as int))),
        }),
{
    let ghost p0 = points@;
    let offset: usize = pick_vantage(points, start, end);
    let first: Point = points[start];
    let chosen: Point = points[start + offset];
    points[start] = chosen;
    points[start + offset] = first;
    let ghost p1 = points@;
    proof {
        lemma_swap_keeps_points(p0, start as int, start + offset);
        lemma_fits_permutation(p0, p1);
    }
    let (radius_sq, split) = split_range(points, start, end);
    proof {
        lemma_split_makes_tree(
            p0,
            p1,
            points@,
            start as int,
            end as int,
            radius_sq as int,
            split as int,
        );
        lemma_fits_permutation(p0, points@);
    }
    (radius_sq, split)
}

/// The jobs that a fork at node `idx` leaves: the range outside its radius, and
/// on top of it the range inside.
spec fn fork_jobs(start: int, mid: int, end: int, idx: int) -> Seq<Job> {
    (if mid < end {
        seq![Job { start: mid as usize, end: end as usize, patch: Patch::Right(idx as usize) }]
    } else {
        Seq::empty()
    }) + (if start + 1 < mid {
        seq![
            Job {
                start: (start + 1) as usize,
                end: mid as usize,
                patch: Patch::Left(idx as usize),
            },
        ]
    } else {
        Seq::empty()
    })
}

/// The trees that those jobs make.
spec fn fork_plan(start: int, mid: int, end: int, inner: Tree, outer: Tree) -> Seq<Tree> {
    (if mid < end {
        seq![outer]
    } else {
        Seq::empty()
    }) + (if start + 1 < mid {
        seq![inner]
    } else {
        Seq::empty()
    })
}

/// The nodes with one more, and the link to it set.
spec fn linked_nodes(nodes: Seq<Node>, node: Node, at: Option<(int, bool)>) -> Seq<Node> {
    let more = nodes.push(node);
    match at {
        None => more,
        Some((p, outer)) => more.update(
            p,
            if outer {
                Node { right: nodes.len() as u32, ..more[p] }
            } else {
                Node { left: nodes.len() as u32, ..more[p] }
            },
        ),
    }
}

proof fn lemma_empty_range_is_leaf(points: Seq<Point>, at: int)
    ensures
        0 <= at <= points.len() ==> vp_tree(points.subrange(at, at)) is Leaf,
{
    reveal(vp_tree);
}

proof fn lemma_fork_planned(
    below: Seq<Tree>,
    start: int,
    mid: int,
    end: int,
    inner: Tree,
    outer: Tree,
)
    requires
        start + 1 <= mid <= end,
        start + 1 == mid ==> inner is Leaf,
        mid == end ==> outer is Leaf,
    ensures
        planned(below + fork_plan(start, mid, end, inner, outer)) == preorder(inner) + (preorder(
            outer,
        ) + planned(below)),
{
    let a = if mid < end {
        below.push(outer)
    } else {
        below
    };
    assert(planned(a) =~= preorder(outer) + planned(below)) by {
        if mid < end {
            assert(a.drop_last() =~= below);
        }
    }
    let b = if start + 1 < mid {
        a.push(inner)
    } else {
        a
    };
    assert(planned(b) =~= preorder(inner) + planned(a)) by {
        if start + 1 < mid {
            assert(b.drop_last() =~= a);
        }
    }
    assert(b =~= below + fork_plan(start, mid, end, inner, outer));
}

proof fn lemma_fork_ranges(stack0: Seq<Job>, done: int, n: int, mid: int)
    requires
        ranges_ok(stack0, done, n),
        stack0.len() > 0,
        n <= u32::MAX,
        stack0.last().start + 1 <= mid <= stack0.last().end,
    ensures
        ranges_ok(
            stack0.drop_last() + fork_jobs(
                stack0.last().start as int,
                mid,
                stack0.last().end as int,
                done,
            ),
            done + 1,
            n,
        ),
{
    reveal(ranges_ok);
    let below = stack0.drop_last();
    let job = stack0.last();
    let extra = fork_jobs(job.start as int, mid, job.end as int, done);
    let stack1 = below + extra;
    assert(forall|k: int| 0 <= k < below.len() ==> stack1[k] == #[trigger] stack0[k]);
    assert(forall|k: int|
        0 <= k < below.len() ==> job.end <= (#[trigger] stack0[k]).start);
    assert(stack0.len() > 1 ==> stack0[stack0.len() - 2].start == job.end);
    assert(forall|k: int| below.len() <= k < stack1.len() ==> #[trigger] stack1[k] == extra[k - below.len()]);
}

proof fn lemma_fork_linked(
    nodes0: Seq<Node>,
    parent0: Seq<(int, bool)>,
    node: Node,
    at: Option<(int, bool)>,
)
    requires
        linked_by(nodes0, parent0),
        nodes0.len() < u32::MAX,
        node.left == NULL,
        node.right == NULL,
        match at {
            Some((p, outer)) => 0 <= p < nodes0.len() && link_of(nodes0[p], outer) == NULL,
            None => nodes0.len() == 0,
        },
    ensures
        linked_by(
            linked_nodes(nodes0, node, at),
            parent0.push(
                match at {
                    Some(x) => x,
                    None => (0, false),
                },
            ),
        ),
{
    reveal(linked_by);
    let nodes1 = linked_nodes(nodes0, node, at);
    let parent1 = parent0.push(
        match at {
            Some(x) => x,
            None => (0, false),
        },
    );
    let idx = nodes0.len() as int;
    assert forall|i: int| 0 <= i < nodes1.len() && (#[trigger] nodes1[i]).left != NULL implies i
        < nodes1[i].left < nodes1.len() && parent1[nodes1[i].left as int] == (i, false) by {
        if i < idx && at != Some((i, false)) {
            assert(nodes1[i].left == nodes0[i].left);
        }
    }
    assert forall|i: int| 0 <= i < nodes1.len() && (#[trigger] nodes1[i]).right != NULL implies i
        < nodes1[i].right < nodes1.len() && parent1[nodes1[i].right as int] == (i, true) by {
        if i < idx && at != Some((i, true)) {
            assert(nodes1[i].right == nodes0[i].right);
        }
    }
    assert forall|j: int| 1 <= j < nodes1.len() implies 0 <= (#[trigger] parent1[j]).0 < j
        && link_of(nodes1[parent1[j].0], parent1[j].1) == j by {
        if j < idx {
            assert(parent1[j] == parent0[j]);
            let (i, side) = parent0[j];
            assert(link_of(nodes0[i], side) == j);
            assert(at != Some((i, side)));
        }
    }
}

/// What the last job of the stack says of itself.
proof fn lemma_last_job(
    stack: Seq<Job>,
    plan: Seq<Tree>,
    nodes: Seq<Node>,
    trees: Seq<Tree>,
    points: Seq<Point>,
    whole: Tree,
)
    requires
        stack.len() > 0,
        ranges_ok(stack, nodes.len() as int, points.len() as int),
        jobs_ok(stack, plan, nodes, trees, points, whole),
    ensures
        plan.len() == stack.len(),
        stack.last().start == nodes.len(),
        stack.last().start < stack.last().end <= points.len(),
        plan.last() == vp_tree(
            points.subrange(stack.last().start as int, stack.last().end as int),
        ),
        match patched(stack.last().patch) {
            Some((p, outer)) => {
                &&& 0 <= p < nodes.len()
                &&& plan.last() == branch(trees[p], outer)
                &&& link_of(nodes[p], outer) == NULL
            },
            None => nodes.len() == 0 && plan.last() == whole,
        },
{
    reveal(ranges_ok);
    reveal(jobs_ok);
    assert(stack[stack.len() - 1] == stack.last());
}

proof fn lemma_fork_jobs_ok(
    stack0: Seq<Job>,
    plan0: Seq<Tree>,
    nodes0: Seq<Node>,
    trees0: Seq<Tree>,
    p0: Seq<Point>,
    whole: Tree,
    n: int,
    node: Node,
    tree: Tree,
    p2: Seq<Point>,
    mid: int,
)
    requires
        n == p0.len() == p2.len() <= u32::MAX,
        stack0.len() > 0,
        trees0.len() == nodes0.len() < n,
        ranges_ok(stack0, nodes0.len() as int, n),
        jobs_ok(stack0, plan0, nodes0, trees0, p0, whole),
        nodes0.len() == 0 ==> stack0.len() == 1,
        node.left == NULL,
        node.right == NULL,
        stack0.last().start + 1 <= mid <= stack0.last().end,
        forall|i: int|
            0 <= i < stack0.last().start || stack0.last().end <= i < n ==> #[trigger] p2[i]
                == p0[i],
        branch(tree, false) == vp_tree(p2.subrange(stack0.last().start + 1, mid)),
        branch(tree, true) == vp_tree(p2.subrange(mid, stack0.last().end as int)),
    ensures
        ({
            let job = stack0.last();
            let start = job.start as int;
            let end = job.end as int;
            jobs_ok(
                stack0.drop_last() + fork_jobs(start, mid, end, nodes0.len() as int),
                plan0.drop_last() + fork_plan(
                    start,
                    mid,
                    end,
                    branch(tree, false),
                    branch(tree, true),
                ),
                linked_nodes(nodes0, node, patched(job.patch)),
                trees0.push(tree),
                p2,
                whole,
            )
        }),
{
    reveal(ranges_ok);
    reveal(jobs_ok);
    let job = stack0.last();
    let start = job.start as int;
    let end = job.end as int;
    let idx = nodes0.len() as int;
    let below = stack0.drop_last();
    let extra = fork_jobs(start, mid, end, idx);
    let stack1 = below + extra;
    let plan1 = plan0.drop_last() + fork_plan(
        start,
        mid,
        end,
        branch(tree, false),
        branch(tree, true),
    );
    let nodes1 = linked_nodes(nodes0, node, patched(job.patch));
    let trees1 = trees0.push(tree);
    assert forall|k: int| 0 <= k < stack1.len() implies plan1[k] == vp_tree(
        p2.subrange((#[trigger] stack1[k]).start as int, stack1[k].end as int),
    ) by {
        if k < below.len() {
            assert(stack1[k] == stack0[k]);
            assert(job.end <= stack0[k].start);
            assert(plan1[k] == plan0[k]);
            assert(p2.subrange(stack0[k].start as int, stack0[k].end as int) =~= p0.subrange(
                stack0[k].start as int,
                stack0[k].end as int,
            ));
        } else {
            assert(stack1[k] == extra[k - below.len()]);
        }
    }
    assert forall|k: int| 0 <= k < stack1.len() implies match patched(
        (#[trigger] stack1[k]).patch,
    ) {
        Some((p, outer)) => {
            &&& 0 <= p < nodes1.len()
            &&& plan1[k] == branch(trees1[p], outer)
            &&& link_of(nodes1[p], outer) == NULL
        },
        None => nodes1.len() == 0 && plan1[k] == whole,
    } by {
        if k < below.len() {
            assert(stack1[k] == stack0[k]);
            assert(patched(stack0[k].patch) != patched(stack0[stack0.len() - 1].patch));
        } else {
            assert(stack1[k] == extra[k - below.len()]);
        }
    }
    assert forall|a: int, b: int| 0 <= a < b < stack1.len() implies patched(
        (#[trigger] stack1[a]).patch,
    ) != patched((#[trigger] stack1[b]).patch) by {
        if a < below.len() {
            assert(stack1[a] == stack0[a]);
        } else {
            assert(stack1[a] == extra[a - below.len()]);
        }
        if b < below.len() {
            assert(stack1[b] == stack0[b]);
        } else {
            assert(stack1[b] == extra[b - below.len()]);
        }
    }
}

proof fn lemma_fork_stands(
    stack0: Seq<Job>,
    nodes0: Seq<Node>,
    trees0: Seq<Tree>,
    parent0: Seq<(int, bool)>,
    node: Node,
    tree: Tree,
    mid: int,
)
    requires
        stack0.len() > 0,
        nodes0.len() < u32::MAX,
        nodes_stand_for(nodes0, trees0, stack0),
        linked_by(nodes0, parent0),
        node.left == NULL,
        node.right == NULL,
        tells(node, tree),
        match patched(stack0.last().patch) {
            Some((p, outer)) => {
                &&& 0 <= p < nodes0.len()
                &&& tree == branch(trees0[p], outer)
                &&& link_of(nodes0[p], outer) == NULL
            },
            None => nodes0.len() == 0,
        },
        stack0.last().start + 1 <= mid <= stack0.last().end,
        stack0.last().start + 1 == mid ==> branch(tree, false) is Leaf,
        stack0.last().end == mid ==> branch(tree, true) is Leaf,
    ensures
        nodes_stand_for(
            linked_nodes(nodes0, node, patched(stack0.last().patch)),
            trees0.push(tree),
            stack0.drop_last() + fork_jobs(
                stack0.last().start as int,
                mid,
                stack0.last().end as int,
                nodes0.len() as int,
            ),
        ),
{
    reveal(linked_by);
    reveal(nodes_stand_for);
    let job = stack0.last();
    let at = patched(job.patch);
    let start = job.start as int;
    let end = job.end as int;
    let idx = nodes0.len() as int;
    let below = stack0.drop_last();
    let extra = fork_jobs(start, mid, end, idx);
    let stack1 = below + extra;
    let nodes1 = linked_nodes(nodes0, node, at);
    let trees1 = trees0.push(tree);
    assert forall|i: int, side: bool|
        0 <= i < idx && at != Some((i, side)) && side_ok(
            nodes0,
            trees0,
            stack0,
            i,
            side,
        ) implies #[trigger] side_ok(nodes1, trees1, stack1, i, side) by {
        assert(link_of(nodes1[i], side) == link_of(nodes0[i], side));
        if link_of(nodes0[i], side) == NULL {
            if pending(stack0, i, side) {
                let k = choose|k: int|
                    0 <= k < stack0.len() && patched((#[trigger] stack0[k]).patch) == Some(
                        (i, side),
                    );
                assert(stack1[k] == stack0[k]);
                assert(pending(stack1, i, side));
            }
        } else {
            assert(nodes0[i].left != NULL || nodes0[i].right != NULL);
            assert(link_of(nodes0[i], side) < idx);
        }
    }
    if mid < end {
        assert(patched(stack1[below.len() as int].patch) == Some((idx, true))) by {
            assert(stack1[below.len() as int] == extra[0]);
        }
        assert(pending(stack1, idx, true));
    }
    if start + 1 < mid {
        let k = stack1.len() - 1;
        assert(patched(stack1[k].patch) == Some((idx, false))) by {
            assert(stack1[k] == extra[extra.len() - 1]);
        }
        assert(pending(stack1, idx, false));
    }
    assert forall|i: int| 0 <= i < nodes1.len() implies {
        &&& tells(#[trigger] nodes1[i], trees1[i])
        &&& side_ok(nodes1, trees1, stack1, i, false)
        &&& side_ok(nodes1, trees1, stack1, i, true)
    } by {
        if i < idx {
            assert(nodes1[i].point() == nodes0[i].point());
            assert(side_ok(nodes0, trees0, stack0, i, false));
            assert(side_ok(nodes0, trees0, stack0, i, true));
        }
    }
}

/// Turns the points into nodes, each vantage point before the points inside its
/// radius and those before the ones outside, and leaves the points in that
/// order. The second result tells which link leads to each node.
fn lay_out(points: &mut Vec<Point>) -> (r: (Vec<Node>, Ghost<Seq<(int, bool)>>))
    requires
        0 < old(points)@.len() <= u32::MAX,
        fits(old(points)@),
    ensures
        final(points)@ == preorder(vp_tree(old(points)@)),
        r.0@.len() == old(points)@.len(),
        linked_by(r.0@, r.1@),
        tree_at(r.0@, 0) == vp_tree(old(points)@),
{
    let n: usize = points.len();
    let ghost whole = vp_tree(points@);
    let mut nodes: Vec<Node> = Vec::with_capacity(n);
    let mut stack: Vec<Job> = Vec::new();
    stack.push(Job { start: 0, end: n, patch: Patch::Root });
    let ghost mut trees: Seq<Tree> = Seq::empty();
    let ghost mut parent: Seq<(int, bool)> = Seq::empty();
    let ghost mut plan: Seq<Tree> = seq![whole];
    proof {
        reveal(ranges_ok);
        reveal(jobs_ok);
        reveal(nodes_stand_for);
        reveal(linked_by);
        assert(points@.subrange(0, n as int) =~= points@);
        assert(plan.drop_last() =~= Seq::<Tree>::empty());
        assert(points@.take(0) + planned(plan) =~= preorder(whole)) by {
            assert(planned(plan.drop_last()) =~= Seq::<Point>::empty());
        }
    }
    while stack.len() > 0
        invariant
            0 < n <= u32::MAX,
            points@.len() == n,
            old(points)@.len() == n,
            whole == vp_tree(old(points)@),
            points@.to_multiset() == old(points)@.to_multiset(),
            fits(points@),
            nodes@.len() <= n,
            trees.len() == nodes@.len(),
            ranges_ok(stack@, nodes@.len() as int, n as int),
            jobs_ok(stack@, plan, nodes@, trees, points@, whole),
            nodes_stand_for(nodes@, trees, stack@),
            linked_by(nodes@, parent),
            nodes@.len() == 0 ==> stack@.len() == 1 && patched(stack@[0].patch) is None,
            nodes@.len() > 0 ==> trees[0] == whole,
            preorder(whole) == points@.take(nodes@.len() as int) + planned(plan),
        decreases n - nodes@.len(),
    {
        let ghost stack0 = stack@;
        let ghost nodes0 = nodes@;
        let ghost p0 = points@;
        proof {
            lemma_last_job(stack0, plan, nodes0, trees, p0, whole);
        }
        let job: Job = stack.pop().unwrap();
        let start: usize = job.start;
        let end: usize = job.end;
        proof {
            assert(stack0.last() == job);
        }
        let (radius_sq, split) = fork_range(points, start, end);
        let left_end: usize = start + 1 + split;
        let vantage_point: Point = points[start];
        let node_idx: usize = nodes.len();
        let node: Node = Node {
            vector: vantage_point.0,
            radius_sq,
            left: NULL,
            right: NULL,
            label: vantage_point.1,
        };
        nodes.push(node);
        match job.patch {
            Patch::Left(p) => {
                let mut at: Node = nodes[p];
                at.left = node_idx as u32;
                nodes[p] = at;
            },
            Patch::Right(p) => {
                let mut at: Node = nodes[p];
                at.right = node_idx as u32;
                nodes[p] = at;
            },
            Patch::Root => {},
        }
        if left_end < end {
            stack.push(Job { start: left_end, end, patch: Patch::Right(node_idx) });
        }
        if start + 1 < left_end {
            stack.push(Job { start: start + 1, end: left_end, patch: Patch::Left(node_idx) });
        }
        proof {
            let mid = left_end as int;
            let tree = plan.last();
            lemma_empty_range_is_leaf(points@, mid);
            let inner = branch(tree, false);
            let outer = branch(tree, true);
            assert(tree == vp_tree(p0.subrange(start as int, end as int)));
            assert(nodes@ =~= linked_nodes(nodes0, node, patched(job.patch)));
            assert(stack@ =~= stack0.drop_last() + fork_jobs(
                start as int,
                mid,
                end as int,
                node_idx as int,
            ));
            lemma_fork_ranges(stack0, node_idx as int, n as int, mid);
            lemma_fork_linked(nodes0, parent, node, patched(job.patch));
            lemma_fork_jobs_ok(
                stack0,
                plan,
                nodes0,
                trees,
                p0,
                whole,
                n as int,
                node,
                tree,
                points@,
                mid,
            );
            lemma_fork_stands(stack0, nodes0, trees, parent, node, tree, mid);
            lemma_fork_planned(plan.drop_last(), start as int, mid, end as int, inner, outer);
            assert(points@.take(node_idx + 1) =~= p0.take(node_idx as int) + seq![
                points@[start as int],
            ]);
            assert(planned(plan) == preorder(tree) + planned(plan.drop_last()));
            trees = trees.push(tree);
            parent = parent.push(
                match patched(job.patch) {
                    Some(at) => at,
                    None => (0, false),
                },
            );
            plan = plan.drop_last() + fork_plan(start as int, mid, end as int, inner, outer);
            assert(preorder(whole) =~= points@.take(node_idx + 1) + planned(plan));
        }
    }
    proof {
        reveal(ranges_ok);
        reveal(jobs_ok);
        assert(stack@ =~= Seq::<Job>::empty());
        assert(plan =~= Seq::<Tree>::empty());
        assert(points@.take(n as int) =~= points@);
        assert(preorder(whole) =~= points@);
        lemma_tree_at(nodes@, trees, parent, 0);
    }
    (nodes, Ghost(parent))
}

/// The links of the nodes that have been visited, in the order of the visits.
spec fn child_list(nodes: Seq<Node>, order: Seq<int>) -> Seq<int>
    decreases order.len(),
{
    if order.len() == 0 {
        Seq::empty()
    } else {
        child_list(nodes, order.drop_last()) + children(nodes[order.last()])
    }
}

/// The node that leads to `w[m]` stands before it, among the first `done`.
spec fn parent_before(w: Seq<int>, parent: Seq<(int, bool)>, done: int, m: int) -> bool {
    exists|k: int| 0 <= k < m && k < done && #[trigger] w[k] == parent[w[m]].0
}

/// A breadth-first walk: `w` holds the visited nodes `order` and, behind them,
/// those still to be visited.
#[verifier::opaque]
spec fn queue_ok(
    nodes: Seq<Node>,
    parent: Seq<(int, bool)>,
    order: Seq<int>,
    w: Seq<int>,
) -> bool {
    &&& order.len() <= w.len()
    &&& forall|k: int| 0 <= k < order.len() ==> #[trigger] order[k] == w[k]
    &&& w == seq![0int] + child_list(nodes, order)
    &&& forall|m: int| 0 <= m < w.len() ==> 0 <= #[trigger] w[m] < nodes.len()
    &&& forall|a: int, b: int| 0 <= a < b < w.len() ==> #[trigger] w[a] != #[trigger] w[b]
    &&& forall|m: int|
        1 <= m < w.len() ==> #[trigger] parent_before(w, parent, order.len() as int, m)
}

proof fn lemma_distinct_below(w: Seq<int>, n: int)
    requires
        0 <= n,
        forall|m: int| 0 <= m < w.len() ==> 0 <= #[trigger] w[m] < n,
        forall|a: int, b: int| 0 <= a < b < w.len() ==> #[trigger] w[a] != #[trigger] w[b],
    ensures
        w.len() <= n,
{
    let all = vstd::set_lib::set_int_range(0, n);
    vstd::set_lib::lemma_int_range(0, n);
    assert(w.no_duplicates());
    w.unique_seq_to_set();
    assert(w.to_set().subset_of(all));
    vstd::set_lib::lemma_len_subset(w.to_set(), all);
}

proof fn lemma_covers_all(w: Seq<int>, n: int)
    requires
        0 <= n,
        forall|j: int| 0 <= j < n ==> w.contains(j),
    ensures
        w.len() >= n,
{
    let all = vstd::set_lib::set_int_range(0, n);
    vstd::set_lib::lemma_int_range(0, n);
    w.lemma_cardinality_of_set();
    assert(all.subset_of(w.to_set()));
    vstd::set_lib::lemma_len_subset(all, w.to_set());
}

proof fn lemma_walk_start(nodes: Seq<Node>, parent: Seq<(int, bool)>)
    requires
        nodes.len() > 0,
    ensures
        queue_ok(nodes, parent, Seq::empty(), seq![0int]),
{
    reveal(queue_ok);
    assert(seq![0int] =~= seq![0int] + child_list(nodes, Seq::empty()));
}

proof fn lemma_walk_step(
    nodes: Seq<Node>,
    parent: Seq<(int, bool)>,
    order: Seq<int>,
    w: Seq<int>,
)
    requires
        linked_by(nodes, parent),
        queue_ok(nodes, parent, order, w),
        order.len() < w.len(),
    ensures
        0 <= w[order.len() as int] < nodes.len(),
        w.len() <= nodes.len(),
        forall|k: int| 0 <= k < order.len() ==> #[trigger] order[k] != w[order.len() as int],
        queue_ok(
            nodes,
            parent,
            order.push(w[order.len() as int]),
            w + children(nodes[w[order.len() as int]]),
        ),
{
    reveal(linked_by);
    reveal(queue_ok);
    lemma_distinct_below(w, nodes.len() as int);
    let d = order.len() as int;
    let x = w[d];
    let c = children(nodes[x]);
    let order1 = order.push(x);
    let w1 = w + c;
    assert(order1.drop_last() =~= order);
    assert(w1 =~= seq![0int] + child_list(nodes, order1));
    assert forall|j: int| 0 <= j < c.len() implies x < #[trigger] c[j] < nodes.len() && parent[c[j]].0
        == x by {}
    assert(c.len() == 2 ==> c[0] != c[1]);
    assert forall|m: int, j: int| 0 <= m < w.len() && 0 <= j < c.len() implies #[trigger] w[m]
        != #[trigger] c[j] by {
        if w[m] == c[j] && m > 0 {
            assert(parent_before(w, parent, d, m));
            let k = choose|k: int| 0 <= k < m && k < d && #[trigger] w[k] == parent[w[m]].0;
            assert(w[k] != w[d]);
        }
    }
    assert forall|m: int| 0 <= m < w1.len() implies 0 <= #[trigger] w1[m] < nodes.len() by {
        if m >= w.len() {
            assert(w1[m] == c[m - w.len()]);
        }
    }
    assert forall|a: int, b: int| 0 <= a < b < w1.len() implies #[trigger] w1[a]
        != #[trigger] w1[b] by {
        if a < w.len() {
            if b >= w.len() {
                assert(w[a] != c[b - w.len()]);
            }
        } else {
            assert(w1[a] == c[a - w.len()]);
            assert(w1[b] == c[b - w.len()]);
        }
    }
    assert forall|m: int| 1 <= m < w1.len() implies #[trigger] parent_before(
        w1,
        parent,
        d + 1,
        m,
    ) by {
        if m < w.len() {
            assert(parent_before(w, parent, d, m));
            let k = choose|k: int| 0 <= k < m && k < d && #[trigger] w[k] == parent[w[m]].0;
            assert(w1[k] == w[k]);
        } else {
            assert(w1[m] == c[m - w.len()]);
            assert(w1[d] == x);
        }
    }
}

proof fn lemma_child_list_prefix(nodes: Seq<Node>, order: Seq<int>, t: int)
    requires
        0 <= t <= order.len(),
    ensures
        child_list(nodes, order.take(t)).len() <= child_list(nodes, order).len(),
        forall|i: int|
            0 <= i < child_list(nodes, order.take(t)).len() ==> #[trigger] child_list(
                nodes,
                order.take(t),
            )[i] == child_list(nodes, order)[i],
    decreases order.len(),
{
    if t == order.len() {
        assert(order.take(t) =~= order);
    } else {
        lemma_child_list_prefix(nodes, order.drop_last(), t);
        assert(order.drop_last().take(t) =~= order.take(t));
    }
}

/// The position at which a finished walk visits a child of its `k`-th node.
proof fn lemma_child_position(
    nodes: Seq<Node>,
    parent: Seq<(int, bool)>,
    order: Seq<int>,
    k: int,
    c: int,
) -> (m: int)
    requires
        linked_by(nodes, parent),
        queue_ok(nodes, parent, order, order),
        0 <= k < order.len(),
        children(nodes[order[k]]).contains(c),
    ensures
        k < m < order.len(),
        order[m] == c,
{
    reveal(linked_by);
    reveal(queue_ok);
    let before = child_list(nodes, order.take(k));
    let upto = child_list(nodes, order.take(k + 1));
    let kids = children(nodes[order[k]]);
    assert(order.take(k + 1).drop_last() =~= order.take(k));
    lemma_child_list_prefix(nodes, order, k + 1);
    let j = choose|j: int| 0 <= j < kids.len() && kids[j] == c;
    let at = before.len() + j;
    assert(upto[at] == c);
    assert(child_list(nodes, order)[at] == c);
    let m = at + 1;
    assert(order[m] == c);
    assert(parent_before(order, parent, order.len() as int, m));
    let p = choose|p: int| 0 <= p < m && p < order.len() && #[trigger] order[p] == parent[c].0;
    assert(parent[c].0 == order[k]);
    if p != k {
        if p < k {
            assert(order[p] != order[k]);
        } else {
            assert(order[k] != order[p]);
        }
    }
    m
}

/// A finished walk visits every node.
proof fn lemma_walk_visits(
    nodes: Seq<Node>,
    parent: Seq<(int, bool)>,
    order: Seq<int>,
    j: int,
)
    requires
        linked_by(nodes, parent),
        queue_ok(nodes, parent, order, order),
        nodes.len() <= u32::MAX,
        0 <= j < nodes.len(),
    ensures
        order.contains(j),
    decreases j,
{
    if j == 0 {
        assert(order.len() > 0 && order[0] == 0) by {
            reveal(queue_ok);
        }
    } else {
        let i = parent[j].0;
        let side = parent[j].1;
        assert(0 <= i < j && link_of(nodes[i], side) == j && nodes.len() == parent.len()) by {
            reveal(linked_by);
        }
        lemma_walk_visits(nodes, parent, order, i);
        let k = choose|k: int| 0 <= k < order.len() && order[k] == i;
        let kids = children(nodes[i]);
        if side {
            assert(kids[kids.len() - 1] == j);
        } else {
            assert(kids[0] == j);
        }
        assert(kids.contains(j));
        let m = lemma_child_position(nodes, parent, order, k, j);
        assert(order[m] == j);
    }
}

/// A link after the nodes have been given new positions.
spec fn moved(table: Seq<u32>, link: u32) -> u32 {
    if link == NULL {
        NULL
    } else {
        table[link as int]
    }
}

/// The nodes in the order of the walk, with their links moved along.
spec fn moved_node(table: Seq<u32>, node: Node) -> Node {
    Node { left: moved(table, node.left), right: moved(table, node.right), ..node }
}

/// `table` gives each visited node its position in the walk.
spec fn table_ok(order: Seq<int>, table: Seq<u32>) -> bool {
    forall|k: int| 0 <= k < order.len() ==> table[#[trigger] order[k]] == k
}

/// `f` holds the nodes of a finished walk, in its order.
spec fn is_moved(
    nodes: Seq<Node>,
    order: Seq<int>,
    table: Seq<u32>,
    f: Seq<Node>,
) -> bool {
    &&& f.len() == order.len()
    &&& forall|k: int|
        0 <= k < f.len() ==> #[trigger] f[k] == moved_node(table, nodes[order[k]])
}

proof fn lemma_moved_links(
    nodes: Seq<Node>,
    parent: Seq<(int, bool)>,
    order: Seq<int>,
    table: Seq<u32>,
    f: Seq<Node>,
    k: int,
)
    requires
        linked_by(nodes, parent),
        queue_ok(nodes, parent, order, order),
        table_ok(order, table),
        is_moved(nodes, order, table, f),
        order.len() <= u32::MAX,
        0 <= k < f.len(),
    ensures
        (f[k].left == NULL) == (nodes[order[k]].left == NULL),
        f[k].left != NULL ==> k < f[k].left < f.len() && order[f[k].left as int]
            == nodes[order[k]].left,
        (f[k].right == NULL) == (nodes[order[k]].right == NULL),
        f[k].right != NULL ==> k < f[k].right < f.len() && order[f[k].right as int]
            == nodes[order[k]].right,
{
    let node = nodes[order[k]];
    let kids = children(node);
    assert(f[k] == moved_node(table, node));
    if node.left != NULL {
        assert(kids[0] == node.left);
        assert(kids.contains(node.left as int));
        let m = lemma_child_position(nodes, parent, order, k, node.left as int);
        assert(table[order[m]] == m);
    }
    if node.right != NULL {
        assert(kids[kids.len() - 1] == node.right);
        assert(kids.contains(node.right as int));
        let m = lemma_child_position(nodes, parent, order, k, node.right as int);
        assert(table[order[m]] == m);
    }
}

proof fn lemma_moved_tree(
    nodes: Seq<Node>,
    parent: Seq<(int, bool)>,
    order: Seq<int>,
    table: Seq<u32>,
    f: Seq<Node>,
    k: int,
)
    requires
        linked_by(nodes, parent),
        queue_ok(nodes, parent, order, order),
        table_ok(order, table),
        is_moved(nodes, order, table, f),
        order.len() <= u32::MAX,
        0 <= k < f.len(),
    ensures
        tree_at(f, k) == tree_at(nodes, order[k]),
    decreases f.len() - k,
{
    lemma_moved_links(nodes, parent, order, table, f, k);
    let i = order[k];
    assert(0 <= i < nodes.len()) by {
        reveal(queue_ok);
    }
    assert(f[k] == moved_node(table, nodes[i]));
    assert(f[k].point() == nodes[i].point());
    if f[k].left != NULL {
        assert(i < nodes[i].left < nodes.len()) by {
            reveal(linked_by);
        }
        lemma_moved_tree(nodes, parent, order, table, f, f[k].left as int);
    }
    if f[k].right != NULL {
        assert(i < nodes[i].right < nodes.len()) by {
            reveal(linked_by);
        }
        lemma_moved_tree(nodes, parent, order, table, f, f[k].right as int);
    }
}

proof fn lemma_moved_link_list(
    nodes: Seq<Node>,
    parent: Seq<(int, bool)>,
    order: Seq<int>,
    table: Seq<u32>,
    f: Seq<Node>,
    t: int,
)
    requires
        linked_by(nodes, parent),
        queue_ok(nodes, parent, order, order),
        table_ok(order, table),
        is_moved(nodes, order, table, f),
        order.len() <= u32::MAX,
        0 <= t <= f.len(),
    ensures
        link_list(f.take(t)) == Seq::new(
            child_list(nodes, order.take(t)).len(),
            |i: int| i + 1,
        ),
    decreases t,
{
    let done = child_list(nodes, order.take(t));
    if t == 0 {
        assert(link_list(f.take(t)) =~= Seq::new(done.len(), |i: int| i + 1));
    } else {
        let k = t - 1;
        lemma_moved_link_list(nodes, parent, order, table, f, k);
        lemma_moved_links(nodes, parent, order, table, f, k);
        assert(f.take(t).drop_last() =~= f.take(k));
        assert(order.take(t).drop_last() =~= order.take(k));
        assert(f.take(t).last() == f[k]);
        assert(order.take(t).last() == order[k]);
        let node = nodes[order[k]];
        let before = child_list(nodes, order.take(k));
        let kids = children(node);
        let moved_kids = children(f[k]);
        lemma_child_list_prefix(nodes, order, t);
        assert(kids.len() == moved_kids.len());
        assert forall|j: int| 0 <= j < kids.len() implies #[trigger] moved_kids[j] == before.len()
            + j + 1 by {
            assert(done[before.len() + j] == kids[j]);
            let m = before.len() + j + 1;
            assert(order[m] == kids[j] && m < order.len()) by {
                reveal(queue_ok);
                assert(child_list(nodes, order)[before.len() + j] == kids[j]);
            }
            assert(table[order[m]] == m);
        }
        assert(link_list(f.take(t)) =~= Seq::new(done.len(), |i: int| i + 1));
    }
}

/// Puts the nodes in breadth-first order.
fn reorder(nodes: &Vec<Node>, Ghost(parent): Ghost<Seq<(int, bool)>>) -> (r: Vec<Node>)
    requires
        0 < nodes@.len() <= u32::MAX,
        linked_by(nodes@, parent),
    ensures
        r@.len() == nodes@.len(),
        links_ok(r@),
        breadth_first_from(r@, 0),
        tree_at(r@, 0) == tree_at(nodes@, 0),
{
    let n: usize = nodes.len();
    let mut bfs: Vec<Node> = Vec::with_capacity(n);
    let mut old_to_new: Vec<u32> = vec![NULL; n];
    let mut queue: VecDeque<u32> = VecDeque::new();
    queue.push_back(0);
    let ghost mut order: Seq<int> = Seq::empty();
    let ghost mut w: Seq<int> = seq![0int];
    proof {
        lemma_walk_start(nodes@, parent);
    }
    while queue.len() > 0
        invariant
            n == nodes@.len(),
            0 < n <= u32::MAX,
            linked_by(nodes@, parent),
            queue_ok(nodes@, parent, order, w),
            order.len() + queue@.len() == w.len(),
            forall|k: int|
                0 <= k < queue@.len() ==> #[trigger] queue@[k] == w[order.len() + k],
            w.len() >= 1,
            w[0] == 0,
            bfs@.len() == order.len(),
            order.len() <= n,
            old_to_new@.len() == n,
            forall|k: int|
                0 <= k < order.len() ==> 0 <= #[trigger] order[k] < n && bfs@[k]
                    == nodes@[order[k]],
            table_ok(order, old_to_new@),
        decreases n - order.len(),
    {
        let ghost w0 = w;
        let ghost order0 = order;
        let ghost queue0 = queue@;
        proof {
            lemma_walk_step(nodes@, parent, order, w);
        }
        let old_idx: u32 = queue.pop_front().unwrap();
        proof {
            assert(old_idx == w0[order0.len() as int]);
        }
        let node: Node = nodes[old_idx as usize];
        old_to_new[old_idx as usize] = bfs.len() as u32;
        bfs.push(node);
        if node.left != NULL {
            queue.push_back(node.left);
        }
        if node.right != NULL {
            queue.push_back(node.right);
        }
        proof {
            order = order0.push(old_idx as int);
            w = w0 + children(node);
            assert forall|k: int| 0 <= k < queue@.len() implies #[trigger] queue@[k] == w[
                order.len() + k
            ] by {
                if k < queue0.len() - 1 {
                    assert(queue@[k] == queue0[k + 1]);
                }
            }
            assert(table_ok(order, old_to_new@)) by {
                assert forall|k: int| 0 <= k < order.len() implies old_to_new@[
                    #[trigger] order[k]
                ] == k by {
                    if k < order0.len() {
                        assert(order[k] == order0[k]);
                        assert(order0[k] != old_idx);
                    }
                }
            }
        }
    }
    proof {
        assert(order =~= w) by {
            reveal(queue_ok);
        }
        assert(order.len() == n) by {
            assert forall|j: int| 0 <= j < n implies order.contains(j) by {
                lemma_walk_visits(nodes@, parent, order, j);
            }
            lemma_covers_all(order, n as int);
        }
    }
    let ghost visited = bfs@;
    let mut k: usize = 0;
    while k < bfs.len()
        invariant
            k <= bfs@.len(),
            bfs@.len() == visited.len() == order.len() == n,
            n == nodes@.len(),
            0 < n <= u32::MAX,
            old_to_new@.len() == n,
            linked_by(nodes@, parent),
            forall|i: int|
                0 <= i < order.len() ==> 0 <= #[trigger] order[i] < n && visited[i]
                    == nodes@[order[i]],
            forall|i: int|
                0 <= i < k ==> #[trigger] bfs@[i] == moved_node(old_to_new@, visited[i]),
            forall|i: int| k <= i < bfs@.len() ==> #[trigger] bfs@[i] == visited[i],
        decreases bfs@.len() - k,
    {
        let mut node: Node = bfs[k];
        proof {
            reveal(linked_by);
            assert(node == nodes@[order[k as int]]);
        }
        if node.left != NULL {
            node.left = old_to_new[node.left as usize];
        }
        if node.right != NULL {
            node.right = old_to_new[node.right as usize];
        }
        bfs[k] = node;
        k = k + 1;
    }
    proof {
        assert(is_moved(nodes@, order, old_to_new@, bfs@));
        assert forall|i: int| 0 <= i < bfs@.len() implies link_ok(
            bfs@,
            i,
            (#[trigger] bfs@[i]).left,
        ) && link_ok(bfs@, i, bfs@[i].right) by {
            lemma_moved_links(nodes@, parent, order, old_to_new@, bfs@, i);
        }
        lemma_moved_tree(nodes@, parent, order, old_to_new@, bfs@, 0);
        lemma_moved_link_list(nodes@, parent, order, old_to_new@, bfs@, n as int);
        assert(bfs@.take(n as int) =~= bfs@);
        assert(order.take(n as int) =~= order);
        assert(child_list(nodes@, order).len() == n - 1) by {
            reveal(queue_ok);
        }
        assert(link_list(bfs@) =~= Seq::new((n - 1) as nat, |i: int| 0 + i + 1));
    }
    bfs
}

/// Builds the vantage-point tree of the points, its nodes in breadth-first order
/// with the root first, and leaves the points in preorder.
pub fn build_vptree(points: &mut Vec<Point>) -> (r: Vec<Node>)
    requires
        0 < old(points)@.len() <= u32::MAX,
        fits(old(points)@),
    ensures
        tree_at(r@, 0) == vp_tree(old(points)@),
        r@.len() == old(points)@.len(),
        links_ok(r@),
        breadth_first_from(r@, 0),
        final(points)@ == preorder(vp_tree(old(points)@)),
{
    let (nodes, parent) = lay_out(points);
    reorder(&nodes, parent)
}

proof fn lemma_filter_members<A>(s: Seq<A>, p: spec_fn(A) -> bool, x: A)
    requires
        s.filter(p).contains(x),
    ensures
        p(x),
{
    let i = choose|i: int| 0 <= i < s.filter(p).len() && s.filter(p)[i] == x;
    s.lemma_filter_pred(p, i);
}

/// The tree of a set of points holds each of them exactly once.
pub proof fn law_tree_holds_points(points: Seq<Point>)
    ensures
        preorder(vp_tree(points)).to_multiset() == points.to_multiset(),
    decreases points.len(),
{
    broadcast use {vstd::multiset::group_multiset_axioms, group_to_multiset_ensures};

    reveal(vp_tree);
    if points.len() == 0 {
        assert(preorder(vp_tree(points)) =~= points);
    } else {
        lemma_vantage_in_range(points);
        let k = vantage(points);
        lemma_swap_keeps_points(points, 0, k);
        let swapped = vantage_first(points);
        let point = swapped[0];
        let rest = swapped.skip(1);
        let v = point.0@;
        let radius = median_radius(rest, v);
        let near = inside(rest, v, radius);
        let far = outside(rest, v, radius);
        lemma_filter_splits(
            rest,
            |p: Point| dist(p.0@, v) <= radius,
            |p: Point| dist(p.0@, v) > radius,
        );
        law_tree_holds_points(near);
        law_tree_holds_points(far);
        let l = preorder(vp_tree(near));
        let r = preorder(vp_tree(far));
        assert(preorder(vp_tree(points)) == seq![point] + l + r);
        lemma_multiset_commutative(seq![point] + l, r);
        lemma_multiset_commutative(seq![point], l);
        assert(swapped =~= seq![point] + rest);
        lemma_multiset_commutative(seq![point], rest);
        assert(preorder(vp_tree(points)).to_multiset() =~= points.to_multiset());
    }
}

/// In the tree of a set of points every radius parts the points around its
/// vantage point: those inside are no farther than the radius, those outside are
/// farther.
pub proof fn law_tree_is_vp_tree(points: Seq<Point>)
    ensures
        is_strict_vp_tree(vp_tree(points)),
        is_vp_tree(vp_tree(points)),
    decreases points.len(),
{
    broadcast use group_to_multiset_ensures;

    reveal(vp_tree);
    if points.len() > 0 {
        lemma_vantage_in_range(points);
        let point = vantage_first(points)[0];
        let rest = vantage_first(points).skip(1);
        let v = point.0@;
        let radius = median_radius(rest, v);
        let p = |p: Point| dist(p.0@, v) <= radius;
        let q = |p: Point| dist(p.0@, v) > radius;
        let near = inside(rest, v, radius);
        let far = outside(rest, v, radius);
        lemma_filter_splits(rest, p, q);
        law_tree_is_vp_tree(near);
        law_tree_is_vp_tree(far);
        law_tree_holds_points(near);
        law_tree_holds_points(far);
        assert forall|x: Point| #[trigger] preorder(vp_tree(near)).contains(x) implies dist(
            v,
            x.0@,
        ) <= radius by {
            assert(preorder(vp_tree(near)).to_multiset().count(x) > 0);
            assert(near.to_multiset().count(x) > 0);
            lemma_filter_members(rest, p, x);
            law_dist_symmetric(v, x.0@);
        }
        assert forall|x: Point| #[trigger] preorder(vp_tree(far)).contains(x) implies dist(v, x.0@)
            > radius by {
            assert(preorder(vp_tree(far)).to_multiset().count(x) > 0);
            assert(far.to_multiset().count(x) > 0);
            lemma_filter_members(rest, q, x);
            law_dist_symmetric(v, x.0@);
        }
    }
}

/// The points nearer than `r` to `v`, in their order.
pub open spec fn nearer(points: Seq<Point>, v: Seq<i16>, r: int) -> Seq<Point> {
    points.filter(|p: Point| dist(p.0@, v) < r)
}

proof fn lemma_filtered_lens(points: Seq<Point>, v: Seq<i16>, r: int)
    ensures
        inside(points, v, r).len() == distances(points, v).filter(|d: int| d <= r).len(),
        nearer(points, v, r).len() == distances(points, v).filter(|d: int| d < r).len(),
    decreases points.len(),
{
    reveal(Seq::filter);
    if points.len() > 0 {
        lemma_filtered_lens(points.drop_last(), v, r);
        assert(distances(points, v).drop_last() =~= distances(points.drop_last(), v));
    }
}

/// The radius is a median: more than half of the other points are inside it,
/// less than half outside, and at most half are nearer than it.
pub proof fn law_radius_halves_points(rest: Seq<Point>, v: Seq<i16>)
    requires
        rest.len() > 0,
    ensures
        inside(rest, v, median_radius(rest, v)).len() > rest.len() / 2,
        inside(rest, v, median_radius(rest, v)).len() + outside(
            rest,
            v,
            median_radius(rest, v),
        ).len() == rest.len(),
        nearer(rest, v, median_radius(rest, v)).len() <= rest.len() / 2,
{
    let r = median_radius(rest, v);
    let p = |d: int| d <= r;
    let q = |d: int| d < r;
    let leq = |x: int, y: int| x <= y;
    let all = distances(rest, v);
    let sorted = all.sort();
    let mid = rest.len() as int / 2;
    all.lemma_sort_ensures();
    all.to_multiset_ensures();
    sorted.to_multiset_ensures();
    lemma_filtered_lens(rest, v, r);
    lemma_filter_permutation(all, sorted, p);
    lemma_filter_permutation(all, sorted, q);
    let low = sorted.take(mid + 1);
    let high = sorted.skip(mid + 1);
    assert(sorted =~= low + high);
    Seq::filter_distributes_over_add(low, high, p);
    assert forall|i: int| 0 <= i < low.len() implies p(#[trigger] low[i]) by {
        if i < mid {
            assert(leq(sorted[i], sorted[mid]));
        }
    }
    lemma_filter_all(low, p);
    let first = sorted.take(mid);
    let last = sorted.skip(mid);
    assert(sorted =~= first + last);
    Seq::filter_distributes_over_add(first, last, q);
    first.lemma_filter_len(q);
    assert forall|i: int| 0 <= i < last.len() implies !q(#[trigger] last[i]) by {
        if i > 0 {
            assert(leq(sorted[mid], sorted[mid + i]));
        }
    }
    lemma_filter_none(last, q);
    lemma_filter_splits(
        rest,
        |p: Point| dist(p.0@, v) <= r,
        |p: Point| dist(p.0@, v) > r,
    );
}

/// Average distance, rounded down, from one of the vectors to all the others.
pub open spec fn spread(vectors: Seq<Seq<i16>>, s: int) -> int {
    if vectors.len() <= 1 {
        0
    } else {
        Seq::new(vectors.len(), |t: int| dist(vectors[s], vectors[t])).fold_left(
            0,
            |sum: int, d: int| sum + d,
        ) / (vectors.len() - 1)
    }
}

proof fn lemma_spread_sum(points: Seq<Point>, s: int, m: nat, f: spec_fn(int) -> int)
    requires
        f == (|t: int| dist(candidate(points, s), candidate(points, t))),
    ensures
        Seq::new(m, f).fold_left(0, |sum: int, d: int| sum + d) == dispersion_upto(points, s, m),
    decreases m,
{
    let ds = Seq::new(m, f);
    if m > 0 {
        lemma_spread_sum(points, s, (m - 1) as nat, f);
        assert(ds.drop_last() =~= Seq::new((m - 1) as nat, f));
        assert(ds.last() == f(m - 1));
        if s == m - 1 {
            lemma_dist_to_itself(candidate(points, s), DIMS as nat);
        }
    }
}

proof fn lemma_dist_to_itself(a: Seq<i16>, n: nat)
    ensures
        dist_upto(a, a, n) == 0,
    decreases n,
{
    if n > 0 {
        lemma_dist_to_itself(a, (n - 1) as nat);
        assert(sq(0) == 0);
    }
}

proof fn lemma_most_dispersed_is_first(points: Seq<Point>, m: nat)
    requires
        m > 0,
    ensures
        0 <= most_dispersed(points, m) < m,
        forall|s: int|
            0 <= s < m ==> #[trigger] dispersion(points, s) <= dispersion(
                points,
                most_dispersed(points, m),
            ),
        forall|s: int|
            0 <= s < most_dispersed(points, m) ==> #[trigger] dispersion(points, s) < dispersion(
                points,
                most_dispersed(points, m),
            ),
    decreases m,
{
    if m > 1 {
        lemma_most_dispersed_is_first(points, (m - 1) as nat);
    }
}

/// The vantage point is one of up to 15 candidates, which stand at even steps
/// from the first point on: the first of those that are, on average, farthest
/// from the others.
pub proof fn law_vantage_is_most_spread(points: Seq<Point>, m: int, step: int) -> (k: int)
    requires
        points.len() > 0,
        points.len() <= 15 ==> m == points.len() && step == 1,
        points.len() > 15 ==> m == 15 && step == points.len() as int / 15,
    ensures
        ({
            let vectors = Seq::new(m as nat, |s: int| points[s * step].0@);
            &&& 0 <= k < m
            &&& vantage(points) == k * step
            &&& forall|s: int| 0 <= s < m ==> #[trigger] spread(vectors, s) <= spread(vectors, k)
            &&& forall|s: int| 0 <= s < k ==> #[trigger] spread(vectors, s) < spread(vectors, k)
        }),
{
    let n = points.len() as int;
    assert(m == sample_size(n));
    assert(step == sample_step(n));
    let vectors = Seq::new(m as nat, |s: int| points[s * step].0@);
    assert forall|s: int| 0 <= s < m implies #[trigger] spread(vectors, s) == dispersion(
        points,
        s,
    ) by {
        let f = |t: int| dist(candidate(points, s), candidate(points, t));
        lemma_spread_sum(points, s, m as nat, f);
        assert(Seq::new(vectors.len(), |t: int| dist(vectors[s], vectors[t])) =~= Seq::new(
            m as nat,
            f,
        ));
    }
    lemma_most_dispersed_is_first(points, m as nat);
    most_dispersed(points, m as nat)
}

/// A further point goes behind those inside the radius if it is no farther than
/// that, and behind those outside if it is; the other side stays as it is.
pub proof fn law_radius_sorts_points(points: Seq<Point>, p: Point, v: Seq<i16>, r: int)
    ensures
        dist(p.0@, v) <= r ==> inside(points.push(p), v, r) == inside(points, v, r).push(p)
            && outside(points.push(p), v, r) == outside(points, v, r),
        dist(p.0@, v) > r ==> inside(points.push(p), v, r) == inside(points, v, r) && outside(
            points.push(p),
            v,
            r,
        ) == outside(points, v, r).push(p),
        inside(Seq::empty(), v, r).len() == 0,
        outside(Seq::empty(), v, r).len() == 0,
{
    reveal(Seq::filter);
    assert(points.push(p).drop_last() =~= points);
}

/// The tree of a set of points: its vantage point changes places with the first
/// point and heads the tree; the points after it, parted by the radius, make up
/// the two subtrees.
pub proof fn law_tree_by_parts(points: Seq<Point>)
    requires
        points.len() > 0,
    ensures
        ({
            let k = vantage(points);
            let point = points[k];
            let rest = points.update(0, point).update(k, points[0]).skip(1);
            let t = vp_tree(points);
            &&& 0 <= k < points.len()
            &&& t is Fork
            &&& t->point == point
            &&& points.len() == 1 ==> t->radius == 0
            &&& *t->left == vp_tree(inside(rest, point.0@, t->radius))
            &&& *t->right == vp_tree(outside(rest, point.0@, t->radius))
            &&& vp_tree(Seq::empty()) == Tree::Leaf
        }),
{
    reveal(vp_tree);
    lemma_vantage_in_range(points);
}

proof fn lemma_filter_twice(points: Seq<Point>, v: Seq<i16>, r: int)
    ensures
        inside(points, v, r).filter(|p: Point| dist(p.0@, v) < r).len() == nearer(
            points,
            v,
            r,
        ).len(),
    decreases points.len(),
{
    reveal(Seq::filter);
    if points.len() > 0 {
        let fewer = points.drop_last();
        lemma_filter_twice(fewer, v, r);
        let near = inside(fewer, v, r);
        assert(near.push(points.last()).drop_last() =~= near);
    }
}

/// The radius of a tree is the median of the distances of the points below its
/// vantage point: more than half of them are inside, and at most half are nearer
/// than the radius.
pub proof fn law_tree_is_parted_at_median(points: Seq<Point>)
    requires
        points.len() > 1,
    ensures
        ({
            let t = vp_tree(points);
            let v = t->point.0@;
            let half = (points.len() - 1) / 2;
            &&& preorder(*t->left).len() > half
            &&& preorder(*t->left).len() + preorder(*t->right).len() == points.len() - 1
            &&& preorder(*t->left).filter(|p: Point| dist(p.0@, v) < t->radius).len() <= half
        }),
{
    reveal(vp_tree);
    lemma_vantage_in_range(points);
    let t = vp_tree(points);
    let v = t->point.0@;
    let rest = vantage_first(points).skip(1);
    let near = inside(rest, v, t->radius);
    let far = outside(rest, v, t->radius);
    law_radius_halves_points(rest, v);
    law_tree_holds_points(near);
    law_tree_holds_points(far);
    near.to_multiset_ensures();
    far.to_multiset_ensures();
    preorder(*t->left).to_multiset_ensures();
    preorder(*t->right).to_multiset_ensures();
    lemma_filter_permutation(preorder(*t->left), near, |p: Point| dist(p.0@, v) < t->radius);
    lemma_filter_twice(rest, v, t->radius);
}

/// Points fit where no two of them are farther apart than 32 bits hold with a
/// sign; a further point fits with those that do if it is not too far from any.
pub proof fn law_fits(points: Seq<Point>, p: Point)
    requires
        fits(points),
    ensures
        fits(Seq::empty()),
        fits(points.push(p)) <==> forall|i: int|
            0 <= i < points.len() ==> dist(p.0@, (#[trigger] points[i]).0@) <= 0x7fff_ffff,
{
    let all = points.push(p);
    let n = points.len() as int;
    if fits(all) {
        assert forall|i: int| 0 <= i < points.len() implies dist(p.0@, (#[trigger] points[i]).0@)
            <= 0x7fff_ffff by {
            assert(dist(all[n].0@, all[i].0@) <= i32::MAX);
        }
    } else if forall|i: int|
        0 <= i < points.len() ==> dist(p.0@, (#[trigger] points[i]).0@) <= 0x7fff_ffff {
        assert forall|i: int, j: int| 0 <= i < all.len() && 0 <= j < all.len() implies #[trigger] dist(
            all[i].0@,
            all[j].0@,
        ) <= i32::MAX by {
            if i < n && j < n {
                assert(dist(points[i].0@, points[j].0@) <= i32::MAX);
            } else if i < n {
                assert(dist(p.0@, points[i].0@) <= 0x7fff_ffff);
                law_dist_symmetric(p.0@, points[i].0@);
            } else if j < n {
                assert(dist(p.0@, points[j].0@) <= 0x7fff_ffff);
            } else {
                lemma_dist_to_itself(p.0@, DIMS as nat);
            }
        }
    }
}

}
