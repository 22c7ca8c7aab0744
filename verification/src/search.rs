//! Searching a vantage-point tree for the nearest points.

use crate::bags::lemma_map_keeps_permutation;
use crate::distance::{
    dist, dist_sq_i64, law_dist_symmetric, law_triangle_inequality, lemma_dist_upto_bounds, sq,
    Point, DIMS,
};
use crate::layout::{Node, NULL};
use crate::tree::{is_vp_tree, linked_tree, preorder, walk_ok, Tree};
use vstd::multiset::Multiset;
use vstd::prelude::*;
use vstd::seq_lib::{group_to_multiset_ensures, lemma_multiset_commutative};

verus! {

/// Number of neighbours that a search keeps.
pub const K: usize = 5;

/// Position of the first of the farthest among the first `n` entries.
pub open spec fn farthest_upto(best: Seq<(i32, u8)>, n: nat) -> int
    decreases n,
{
    if n <= 1 {
        0
    } else {
        let m = farthest_upto(best, (n - 1) as nat);
        if best[n - 1].0 > best[m].0 {
            n - 1
        } else {
            m
        }
    }
}

/// Position of the first of the farthest entries.
pub open spec fn farthest(best: Seq<(i32, u8)>) -> int {
    farthest_upto(best, best.len())
}

/// Distance of the farthest entry.
pub open spec fn worst(best: Seq<(i32, u8)>) -> i32 {
    best[farthest(best)].0
}

/// A point at distance `d` takes the place of the farthest entry, if it is
/// nearer.
pub open spec fn offered(best: Seq<(i32, u8)>, d: int, label: u8) -> Seq<(i32, u8)> {
    if d < worst(best) {
        best.update(farthest(best), (d as i32, label))
    } else {
        best
    }
}

/// Whether a ball of squared radius `w` around a query, at squared distance `d`
/// from a vantage point, reaches into its squared radius `r`.
///
/// This is `sqrt(d) - sqrt(r) < sqrt(w)`, without the roots.
pub open spec fn reaches_inside(d: int, r: int, w: int) -> bool {
    w > 0 && (r < 0 || d - r - w < 0 || sq(d - r - w) < 4 * (r * w))
}

/// Whether that ball reaches out of the radius.
///
/// This is `sqrt(r) - sqrt(d) < sqrt(w)`, without the roots.
pub open spec fn reaches_outside(d: int, r: int, w: int) -> bool {
    w > 0 && (r - d - w < 0 || sq(r - d - w) < 4 * (d * w))
}

/// What a search of a tree makes of the entries found so far.
///
/// The vantage point is offered first. A subtree is searched if the ball up to
/// the farthest entry then reaches into it, and the side on which the query
/// lies is searched before the other.
pub open spec fn visit(t: Tree, q: Seq<i16>, best: Seq<(i32, u8)>) -> Seq<(i32, u8)>
    decreases t,
{
    match t {
        Tree::Leaf => best,
        Tree::Fork { point, radius, left, right } => {
            let d = dist(q, point.0@);
            let now = offered(best, d, point.1);
            let see_left = reaches_inside(d, radius, worst(now) as int);
            let see_right = reaches_outside(d, radius, worst(now) as int);
            if d <= radius {
                let then = if see_left {
                    visit(*left, q, now)
                } else {
                    now
                };
                if see_right {
                    visit(*right, q, then)
                } else {
                    then
                }
            } else {
                let then = if see_right {
                    visit(*right, q, now)
                } else {
                    now
                };
                if see_left {
                    visit(*left, q, then)
                } else {
                    then
                }
            }
        },
    }
}

/// `offered`, for entries together with the distance `s.1` below which a point
/// is taken in; once one has been, that is the distance of the farthest entry.
pub open spec fn offered_from(s: (Seq<(i32, u8)>, i32), d: int, label: u8) -> (
    Seq<(i32, u8)>,
    i32,
) {
    if d < s.1 {
        let now = s.0.update(farthest(s.0), (d as i32, label));
        (now, worst(now))
    } else {
        s
    }
}

/// `visit`, for entries together with the distance below which a point is taken
/// in.
pub open spec fn visit_from(t: Tree, q: Seq<i16>, s: (Seq<(i32, u8)>, i32)) -> (
    Seq<(i32, u8)>,
    i32,
)
    decreases t,
{
    match t {
        Tree::Leaf => s,
        Tree::Fork { point, radius, left, right } => {
            let d = dist(q, point.0@);
            let now = offered_from(s, d, point.1);
            let see_left = reaches_inside(d, radius, now.1 as int);
            let see_right = reaches_outside(d, radius, now.1 as int);
            if d <= radius {
                let then = if see_left {
                    visit_from(*left, q, now)
                } else {
                    now
                };
                if see_right {
                    visit_from(*right, q, then)
                } else {
                    then
                }
            } else {
                let then = if see_right {
                    visit_from(*right, q, now)
                } else {
                    now
                };
                if see_left {
                    visit_from(*left, q, then)
                } else {
                    then
                }
            }
        },
    }
}

/// A search that starts from the distance of the farthest entry ends with that
/// of the farthest entry then.
pub proof fn law_worst_is_kept(t: Tree, q: Seq<i16>, best: Seq<(i32, u8)>)
    ensures
        visit_from(t, q, (best, worst(best))) == (visit(t, q, best), worst(visit(t, q, best))),
    decreases t,
{
    match t {
        Tree::Leaf => {},
        Tree::Fork { point, radius, left, right } => {
            let d = dist(q, point.0@);
            let now = offered(best, d, point.1);
            assert(offered_from((best, worst(best)), d, point.1) == (now, worst(now)));
            law_worst_is_kept(*left, q, now);
            law_worst_is_kept(*right, q, now);
            law_worst_is_kept(*left, q, visit(*right, q, now));
            law_worst_is_kept(*right, q, visit(*left, q, now));
        },
    }
}

proof fn lemma_farthest_upto(best: Seq<(i32, u8)>, n: nat)
    requires
        0 < n <= best.len(),
    ensures
        0 <= farthest_upto(best, n) < n,
        forall|i: int| 0 <= i < n ==> (#[trigger] best[i]).0 <= best[farthest_upto(best, n)].0,
    decreases n,
{
    if n > 1 {
        lemma_farthest_upto(best, (n - 1) as nat);
    }
}

/// No entry is farther than the farthest.
pub proof fn lemma_worst(best: Seq<(i32, u8)>)
    requires
        best.len() > 0,
    ensures
        0 <= farthest(best) < best.len(),
        forall|i: int| 0 <= i < best.len() ==> (#[trigger] best[i]).0 <= worst(best),
{
    lemma_farthest_upto(best, best.len());
}

/// Offers a point at squared distance `d`.
fn offer(best: &mut [(i32, u8); 5], worst_best: &mut i32, d: i64, label: u8)
    requires
        d >= 0,
    ensures
        (final(best)@, *final(worst_best)) == offered_from(
            (old(best)@, *old(worst_best)),
            d as int,
            label,
        ),
{
    if d < *worst_best as i64 {
        let mut max_pos: usize = 0;
        let mut i: usize = 1;
        while i < K
            invariant
                1 <= i <= K,
                max_pos < i,
                best@ == old(best)@,
                max_pos == farthest_upto(best@, i as nat),
            decreases K - i,
        {
            if best[i].0 > best[max_pos].0 {
                max_pos = i;
            }
            i = i + 1;
        }
        best[max_pos] = (d as i32, label);
        let ghost now = best@;
        let mut w: i32 = best[0].0;
        let mut i: usize = 1;
        while i < K
            invariant
                1 <= i <= K,
                best@ == now,
                now.len() == K,
                w == now[farthest_upto(now, i as nat)].0,
            decreases K - i,
        {
            if best[i].0 > w {
                w = best[i].0;
            }
            i = i + 1;
        }
        *worst_best = w;
    }
}

/// `reaches_inside`, decided in 128 bits.
fn can_reach_inside(d: i64, r: i32, w: i32) -> (b: bool)
    requires
        0 <= d <= 0x10_0000_0000,
    ensures
        b == reaches_inside(d as int, r as int, w as int),
{
    if w <= 0 {
        return false;
    }
    if r < 0 {
        return true;
    }
    let t: i128 = d as i128 - r as i128 - w as i128;
    if t < 0 {
        return true;
    }
    proof {
        lemma_products_fit(t as int, r as int, w as int);
    }
    t * t < 4 * (r as i128 * w as i128)
}

/// `reaches_outside`, decided in 128 bits.
fn can_reach_outside(d: i64, r: i32, w: i32) -> (b: bool)
    requires
        0 <= d <= 0x10_0000_0000,
    ensures
        b == reaches_outside(d as int, r as int, w as int),
{
    if w <= 0 {
        return false;
    }
    let t: i128 = r as i128 - d as i128 - w as i128;
    if t < 0 {
        return true;
    }
    proof {
        lemma_products_fit(t as int, d as int, w as int);
    }
    t * t < 4 * (d as i128 * w as i128)
}

proof fn lemma_products_fit(t: int, x: int, w: int)
    requires
        0 <= t <= 0x20_0000_0000,
        0 <= x <= 0x10_0000_0000,
        0 <= w <= i32::MAX,
    ensures
        0 <= t * t <= 0x400_0000_0000_0000_0000,
        0 <= x * w <= 0x800_0000_0000_0000_0000,
{
    assert(0 <= t * t <= 0x400_0000_0000_0000_0000) by (nonlinear_arith)
        requires
            0 <= t <= 0x20_0000_0000,
    ;
    assert(0 <= x * w <= 0x800_0000_0000_0000_0000) by (nonlinear_arith)
        requires
            0 <= x <= 0x10_0000_0000,
            0 <= w <= 0x7fff_ffff,
    ;
}

/// What is left of a search whose stack holds these links, the last one on top.
spec fn unwind(
    nodes: Seq<Node>,
    q: Seq<i16>,
    stack: Seq<u32>,
    s: (Seq<(i32, u8)>, i32),
) -> (Seq<(i32, u8)>, i32)
    decreases stack.len(),
{
    if stack.len() == 0 {
        s
    } else {
        unwind(nodes, q, stack.drop_last(), visit_from(linked_tree(nodes, stack.last()), q, s))
    }
}

/// Number of nodes of a tree.
spec fn size(t: Tree) -> nat
    decreases t,
{
    match t {
        Tree::Leaf => 0,
        Tree::Fork { left, right, .. } => 1 + size(*left) + size(*right),
    }
}

/// Work that a stack of links stands for.
spec fn load(nodes: Seq<Node>, stack: Seq<u32>) -> nat
    decreases stack.len(),
{
    if stack.len() == 0 {
        0
    } else {
        load(nodes, stack.drop_last()) + 1 + 2 * size(linked_tree(nodes, stack.last()))
    }
}

proof fn lemma_stack_push(nodes: Seq<Node>, q: Seq<i16>, stack: Seq<u32>, link: u32)
    ensures
        load(nodes, stack.push(link)) == load(nodes, stack) + 1 + 2 * size(
            linked_tree(nodes, link),
        ),
        forall|s: (Seq<(i32, u8)>, i32)| #[trigger]
            unwind(nodes, q, stack.push(link), s) == unwind(
                nodes,
                q,
                stack,
                visit_from(linked_tree(nodes, link), q, s),
            ),
{
    assert(stack.push(link).drop_last() =~= stack);
}

/// Searches the tree that `root` leads to, and keeps in `best` the nearest
/// points found; `worst_best` is the distance of the farthest of them.
pub fn search_tree(
    nodes: &[Node],
    root: u32,
    query: &[i16; 16],
    best: &mut [(i32, u8); 5],
    worst_best: &mut i32,
)
    requires
        walk_ok(nodes@, root),
    ensures
        (final(best)@, *final(worst_best)) == visit_from(
            linked_tree(nodes@, root),
            query@,
            (old(best)@, *old(worst_best)),
        ),
        *old(worst_best) == worst(old(best)@) ==> final(best)@ == visit(
            linked_tree(nodes@, root),
            query@,
            old(best)@,
        ) && *final(worst_best) == worst(final(best)@),
{
    let mut stack: Vec<u32> = Vec::new();
    stack.push(root);
    let ghost goal = visit_from(linked_tree(nodes@, root), query@, (best@, *worst_best));
    proof {
        law_worst_is_kept(linked_tree(nodes@, root), query@, best@);
        lemma_stack_push(nodes@, query@, Seq::empty(), root);
        assert(stack@ =~= Seq::<u32>::empty().push(root));
    }
    while stack.len() > 0
        invariant
            forall|i: int| 0 <= i < stack@.len() ==> walk_ok(nodes@, #[trigger] stack@[i]),
            unwind(nodes@, query@, stack@, (best@, *worst_best)) == goal,
        decreases load(nodes@, stack@),
    {
        let ghost stack0 = stack@;
        let ghost before = (best@, *worst_best);
        let idx: u32 = stack.pop().unwrap();
        let ghost below = stack@;
        proof {
            assert(stack0[stack0.len() - 1] == idx);
            assert(stack0 =~= below.push(idx));
            lemma_stack_push(nodes@, query@, below, idx);
        }
        if idx != NULL {
            let node: Node = nodes[idx as usize];
            let d: i64 = dist_sq_i64(query, &node.vector);
            proof {
                lemma_dist_upto_bounds(query@, node.vector@, DIMS as nat);
            }
            offer(best, worst_best, d, node.label);
            let can_left: bool = node.left != NULL && can_reach_inside(
                d,
                node.radius_sq,
                *worst_best,
            );
            let can_right: bool = node.right != NULL && can_reach_outside(
                d,
                node.radius_sq,
                *worst_best,
            );
            let ghost now = (best@, *worst_best);
            if can_left && can_right {
                if d <= node.radius_sq as i64 {
                    stack.push(node.right);
                    stack.push(node.left);
                } else {
                    stack.push(node.left);
                    stack.push(node.right);
                }
            } else {
                if can_left {
                    stack.push(node.left);
                }
                if can_right {
                    stack.push(node.right);
                }
            }
            proof {
                lemma_search_step(nodes@, query@, idx, below, stack@, before, now);
            }
        }
    }
}

/// A step of a search: what is left of it is the same before the node on top has
/// been offered and after, and there is less of it.
proof fn lemma_search_step(
    nodes: Seq<Node>,
    q: Seq<i16>,
    idx: u32,
    below: Seq<u32>,
    stack: Seq<u32>,
    before: (Seq<(i32, u8)>, i32),
    now: (Seq<(i32, u8)>, i32),
)
    requires
        walk_ok(nodes, idx),
        idx != NULL,
        now == offered_from(before, dist(q, nodes[idx as int].vector@), nodes[idx as int].label),
        ({
            let node = nodes[idx as int];
            let d = dist(q, node.vector@);
            let can_left = node.left != NULL && reaches_inside(
                d,
                node.radius_sq as int,
                now.1 as int,
            );
            let can_right = node.right != NULL && reaches_outside(
                d,
                node.radius_sq as int,
                now.1 as int,
            );
            stack == if can_left && can_right {
                if d <= node.radius_sq {
                    below.push(node.right).push(node.left)
                } else {
                    below.push(node.left).push(node.right)
                }
            } else if can_left {
                below.push(node.left)
            } else if can_right {
                below.push(node.right)
            } else {
                below
            }
        }),
    ensures
        unwind(nodes, q, stack, now) == unwind(nodes, q, below.push(idx), before),
        load(nodes, stack) < load(nodes, below.push(idx)),
{
    let node = nodes[idx as int];
    let tree = linked_tree(nodes, idx);
    let l = linked_tree(nodes, node.left);
    let r = linked_tree(nodes, node.right);
    assert(tree == Tree::Fork {
        point: node.point(),
        radius: node.radius_sq as int,
        left: Box::new(l),
        right: Box::new(r),
    });
    lemma_stack_push(nodes, q, below, idx);
    lemma_stack_push(nodes, q, below, node.left);
    lemma_stack_push(nodes, q, below, node.right);
    lemma_stack_push(nodes, q, below.push(node.left), node.right);
    lemma_stack_push(nodes, q, below.push(node.right), node.left);
    assert(node.left == NULL ==> forall|s: (Seq<(i32, u8)>, i32)| #[trigger]
        visit_from(l, q, s) == s);
    assert(node.right == NULL ==> forall|s: (Seq<(i32, u8)>, i32)| #[trigger]
        visit_from(r, q, s) == s);
    let d = dist(q, node.vector@);
    let see_left = reaches_inside(d, node.radius_sq as int, now.1 as int);
    let see_right = reaches_outside(d, node.radius_sq as int, now.1 as int);
    let after = if d <= node.radius_sq {
        let then = if see_left {
            visit_from(l, q, now)
        } else {
            now
        };
        if see_right {
            visit_from(r, q, then)
        } else {
            then
        }
    } else {
        let then = if see_right {
            visit_from(r, q, now)
        } else {
            now
        };
        if see_left {
            visit_from(l, q, then)
        } else {
            then
        }
    };
    assert(visit_from(tree, q, before) == after);
    assert(unwind(nodes, q, stack, now) == unwind(nodes, q, below, after));
}

/// The points of a tree in the order in which a search that leaves nothing out
/// meets them.
pub open spec fn meeting_order(t: Tree, q: Seq<i16>) -> Seq<Point>
    decreases t,
{
    match t {
        Tree::Leaf => Seq::empty(),
        Tree::Fork { point, radius, left, right } => if dist(q, point.0@) <= radius {
            seq![point] + meeting_order(*left, q) + meeting_order(*right, q)
        } else {
            seq![point] + meeting_order(*right, q) + meeting_order(*left, q)
        },
    }
}

/// The entries after the points have been offered one by one.
pub open spec fn scan(best: Seq<(i32, u8)>, q: Seq<i16>, points: Seq<Point>) -> Seq<(i32, u8)>
    decreases points.len(),
{
    if points.len() == 0 {
        best
    } else {
        scan(
            offered(best, dist(q, points[0].0@), points[0].1),
            q,
            points.skip(1),
        )
    }
}

proof fn lemma_offered_worst(best: Seq<(i32, u8)>, d: int, label: u8)
    requires
        best.len() > 0,
        d >= 0,
    ensures
        offered(best, d, label).len() == best.len(),
        worst(offered(best, d, label)) <= worst(best),
{
    lemma_worst(best);
    let now = offered(best, d, label);
    lemma_worst(now);
    if d < worst(best) {
        assert(now[farthest(now)].0 <= worst(best));
    }
}

pub(crate) proof fn lemma_scan_worst(best: Seq<(i32, u8)>, q: Seq<i16>, points: Seq<Point>)
    requires
        best.len() > 0,
    ensures
        scan(best, q, points).len() == best.len(),
        worst(scan(best, q, points)) <= worst(best),
    decreases points.len(),
{
    if points.len() > 0 {
        let d = dist(q, points[0].0@);
        lemma_dist_upto_bounds(q, points[0].0@, DIMS as nat);
        lemma_offered_worst(best, d, points[0].1);
        lemma_scan_worst(offered(best, d, points[0].1), q, points.skip(1));
    }
}

pub(crate) proof fn lemma_scan_concat(best: Seq<(i32, u8)>, q: Seq<i16>, a: Seq<Point>, b: Seq<Point>)
    ensures
        scan(best, q, a + b) == scan(scan(best, q, a), q, b),
    decreases a.len(),
{
    if a.len() == 0 {
        assert(a + b =~= b);
    } else {
        assert((a + b).skip(1) =~= a.skip(1) + b);
        lemma_scan_concat(offered(best, dist(q, a[0].0@), a[0].1), q, a.skip(1), b);
    }
}

/// Points that are no nearer than the farthest entry change nothing.
pub(crate) proof fn lemma_scan_far(best: Seq<(i32, u8)>, q: Seq<i16>, points: Seq<Point>)
    requires
        forall|x: Point| #[trigger] points.contains(x) ==> dist(q, x.0@) >= worst(best),
    ensures
        scan(best, q, points) == best,
    decreases points.len(),
{
    if points.len() > 0 {
        assert(points.contains(points[0]));
        assert forall|x: Point| #[trigger] points.skip(1).contains(x) implies dist(q, x.0@)
            >= worst(best) by {
            let i = choose|i: int| 0 <= i < points.skip(1).len() && points.skip(1)[i] == x;
            assert(points[i + 1] == x);
            assert(points.contains(x));
        }
        lemma_scan_far(best, q, points.skip(1));
    }
}

/// A search meets every point of the tree, each of them once.
pub proof fn law_meeting_order_holds_points(t: Tree, q: Seq<i16>)
    ensures
        meeting_order(t, q).to_multiset() == preorder(t).to_multiset(),
    decreases t,
{
    match t {
        Tree::Leaf => {
            assert(meeting_order(t, q) =~= preorder(t));
        },
        Tree::Fork { point, radius, left, right } => {
            law_meeting_order_holds_points(*left, q);
            law_meeting_order_holds_points(*right, q);
            let p = seq![point];
            let l = meeting_order(*left, q);
            let r = meeting_order(*right, q);
            lemma_multiset_commutative(p + l, r);
            lemma_multiset_commutative(p, l);
            lemma_multiset_commutative(p + r, l);
            lemma_multiset_commutative(p, r);
            lemma_multiset_commutative(p + preorder(*left), preorder(*right));
            lemma_multiset_commutative(p, preorder(*left));
            broadcast use vstd::multiset::group_multiset_axioms;

            assert(meeting_order(t, q).to_multiset() =~= preorder(t).to_multiset());
        },
    }
}

pub(crate) proof fn lemma_meets_only_points(t: Tree, q: Seq<i16>, x: Point)
    requires
        meeting_order(t, q).contains(x),
    ensures
        preorder(t).contains(x),
{
    broadcast use group_to_multiset_ensures;

    law_meeting_order_holds_points(t, q);
    assert(meeting_order(t, q).to_multiset().count(x) > 0);
    assert(preorder(t).to_multiset().count(x) > 0);
}

/// A ball that does not reach inside a radius holds no point from inside it.
pub proof fn law_pruned_inside_is_far(
    q: Seq<i16>,
    v: Seq<i16>,
    x: Seq<i16>,
    radius: int,
    w: int,
)
    requires
        dist(v, x) <= radius,
        !reaches_inside(dist(q, v), radius, w),
    ensures
        dist(q, x) >= w,
{
    let a = dist(q, v);
    let b = dist(v, x);
    let c = dist(q, x);
    lemma_dist_upto_bounds(q, v, DIMS as nat);
    lemma_dist_upto_bounds(v, x, DIMS as nat);
    lemma_dist_upto_bounds(q, x, DIMS as nat);
    law_triangle_inequality(q, v, x);
    if w > 0 {
        lemma_gap_beats_products(a - radius - w, a - b - c, b, c, radius, w);
    }
}

/// A ball that does not reach out of a radius holds no point from outside it.
pub proof fn law_pruned_outside_is_far(
    q: Seq<i16>,
    v: Seq<i16>,
    x: Seq<i16>,
    radius: int,
    w: int,
)
    requires
        dist(v, x) >= radius,
        !reaches_outside(dist(q, v), radius, w),
    ensures
        dist(q, x) >= w,
{
    let a = dist(q, v);
    let b = dist(v, x);
    let c = dist(q, x);
    lemma_dist_upto_bounds(q, v, DIMS as nat);
    lemma_dist_upto_bounds(v, x, DIMS as nat);
    lemma_dist_upto_bounds(q, x, DIMS as nat);
    law_triangle_inequality(x, v, q);
    law_dist_symmetric(x, v);
    law_dist_symmetric(v, q);
    law_dist_symmetric(x, q);
    if w > 0 {
        lemma_gap_beats_products(radius - a - w, b - a - c, a, c, a, w);
    }
}

/// If the square of `t` is at least four times `r * w`, and that of a larger `u`
/// at most four times `b * c` with `b` no more than `r`, then `c` is not less
/// than `w`.
proof fn lemma_gap_beats_products(t: int, u: int, b: int, c: int, r: int, w: int)
    requires
        0 <= t,
        c < w ==> t < u,
        0 <= b <= r,
        0 <= c,
        sq(t) >= 4 * (r * w),
        sq(u) <= 4 * (b * c),
    ensures
        c >= w,
{
    if c < w {
        assert(t * t < u * u) by (nonlinear_arith)
            requires
                0 <= t < u,
        ;
        assert(b * c <= r * w) by (nonlinear_arith)
            requires
                0 <= b <= r,
                0 <= c < w,
        ;
    }
}

/// Leaving out the subtrees that the ball does not reach makes no difference: a
/// search of a vantage-point tree finds what it would find if it met every
/// point.
pub proof fn law_pruning_is_exact(t: Tree, q: Seq<i16>, best: Seq<(i32, u8)>)
    requires
        is_vp_tree(t),
        best.len() > 0,
    ensures
        visit(t, q, best) == scan(best, q, meeting_order(t, q)),
    decreases t,
{
    match t {
        Tree::Leaf => {},
        Tree::Fork { point, radius, left, right } => {
            let v = point.0@;
            let d = dist(q, v);
            let now = offered(best, d, point.1);
            let w = worst(now) as int;
            lemma_dist_upto_bounds(q, v, DIMS as nat);
            lemma_offered_worst(best, d, point.1);
            let l = meeting_order(*left, q);
            let r = meeting_order(*right, q);
            assert(scan(best, q, seq![point]) == now) by {
                assert(seq![point].skip(1) =~= Seq::<Point>::empty());
                assert(scan(now, q, seq![point].skip(1)) == now);
            }
            let (near, far) = if d <= radius {
                (l, r)
            } else {
                (r, l)
            };
            lemma_scan_concat(best, q, seq![point] + near, far);
            lemma_scan_concat(best, q, seq![point], near);
            assert(scan(best, q, meeting_order(t, q)) == scan(scan(now, q, near), q, far));
            lemma_scan_worst(now, q, l);
            lemma_scan_worst(now, q, r);
            law_pruning_is_exact(*left, q, now);
            law_pruning_is_exact(*right, q, now);
            law_pruning_is_exact(*left, q, scan(now, q, r));
            law_pruning_is_exact(*right, q, scan(now, q, l));
            if !reaches_inside(d, radius, w) {
                assert forall|x: Point| #[trigger] l.contains(x) implies dist(q, x.0@) >= w by {
                    lemma_meets_only_points(*left, q, x);
                    law_pruned_inside_is_far(q, v, x.0@, radius, w);
                }
                lemma_scan_far(now, q, l);
                lemma_scan_far(scan(now, q, r), q, l);
            }
            if !reaches_outside(d, radius, w) {
                assert forall|x: Point| #[trigger] r.contains(x) implies dist(q, x.0@) >= w by {
                    lemma_meets_only_points(*right, q, x);
                    law_pruned_outside_is_far(q, v, x.0@, radius, w);
                }
                lemma_scan_far(now, q, r);
                lemma_scan_far(scan(now, q, l), q, r);
            }
        },
    }
}

/// The entries that a search starts with: as far as can be told, and legit.
pub open spec fn no_entries() -> Seq<(i32, u8)> {
    Seq::new(K as nat, |i: int| (i32::MAX, 0u8))
}

/// Entries with their distances as mathematical integers.
pub open spec fn entries(best: Seq<(i32, u8)>) -> Seq<(int, u8)> {
    best.map_values(|e: (i32, u8)| (e.0 as int, e.1))
}

/// Distance from the query, and label, of each point.
pub open spec fn rated(q: Seq<i16>, points: Seq<Point>) -> Seq<(int, u8)> {
    points.map_values(|p: Point| (dist(q, p.0@), p.1))
}

/// Everything that can stand among the entries of a search of the points.
pub open spec fn candidates(q: Seq<i16>, points: Seq<Point>) -> Multiset<(int, u8)> {
    entries(no_entries()).to_multiset().add(rated(q, points).to_multiset())
}

/// The entries and the left-out make up all of `all`, and none of the left-out
/// is nearer than any entry.
pub open spec fn parts(
    best: Seq<(i32, u8)>,
    left_out: Multiset<(int, u8)>,
    all: Multiset<(int, u8)>,
) -> bool {
    &&& entries(best).to_multiset().add(left_out) == all
    &&& forall|x: (int, u8)| #[trigger] left_out.contains(x) ==> worst(best) <= x.0
}

/// The entries are `K` of the candidates, and no other candidate is nearer.
pub open spec fn is_nearest(best: Seq<(i32, u8)>, q: Seq<i16>, points: Seq<Point>) -> bool {
    &&& best.len() == K
    &&& exists|left_out: Multiset<(int, u8)>| #[trigger]
        parts(best, left_out, candidates(q, points))
}

proof fn lemma_offered_parts(
    best: Seq<(i32, u8)>,
    left_out: Multiset<(int, u8)>,
    all: Multiset<(int, u8)>,
    d: int,
    label: u8,
) -> (now_left_out: Multiset<(int, u8)>)
    requires
        best.len() > 0,
        d >= 0,
        parts(best, left_out, all),
    ensures
        parts(offered(best, d, label), now_left_out, all.insert((d, label))),
{
    broadcast use {vstd::multiset::group_multiset_axioms, group_to_multiset_ensures};

    let now = offered(best, d, label);
    lemma_worst(best);
    lemma_offered_worst(best, d, label);
    let e = entries(best);
    if d < worst(best) {
        let at = farthest(best);
        let dropped = e[at];
        assert(entries(now) =~= e.update(at, (d, label)));
        assert(e.contains(dropped));
        let rest = left_out.insert(dropped);
        assert(entries(now).to_multiset().add(rest) =~= all.insert((d, label)));
        assert forall|x: (int, u8)| #[trigger] rest.contains(x) implies worst(now) <= x.0 by {
            if x != dropped {
                assert(left_out.contains(x));
            }
        }
        rest
    } else {
        let rest = left_out.insert((d, label));
        assert(entries(now).to_multiset().add(rest) =~= all.insert((d, label)));
        assert forall|x: (int, u8)| #[trigger] rest.contains(x) implies worst(now) <= x.0 by {
            if x != (d, label) {
                assert(left_out.contains(x));
            }
        }
        rest
    }
}

proof fn lemma_scan_parts(
    best: Seq<(i32, u8)>,
    left_out: Multiset<(int, u8)>,
    all: Multiset<(int, u8)>,
    q: Seq<i16>,
    points: Seq<Point>,
) -> (now_left_out: Multiset<(int, u8)>)
    requires
        best.len() > 0,
        parts(best, left_out, all),
    ensures
        parts(scan(best, q, points), now_left_out, all.add(rated(q, points).to_multiset())),
    decreases points.len(),
{
    broadcast use {vstd::multiset::group_multiset_axioms, group_to_multiset_ensures};

    if points.len() == 0 {
        assert(rated(q, points) =~= Seq::empty());
        assert(all.add(rated(q, points).to_multiset()) =~= all);
        left_out
    } else {
        let p = points[0];
        let d = dist(q, p.0@);
        lemma_dist_upto_bounds(q, p.0@, DIMS as nat);
        lemma_offered_worst(best, d, p.1);
        let mid = lemma_offered_parts(best, left_out, all, d, p.1);
        let end = lemma_scan_parts(
            offered(best, d, p.1),
            mid,
            all.insert((d, p.1)),
            q,
            points.skip(1),
        );
        let rest = rated(q, points.skip(1));
        assert(rated(q, points) =~= rest.insert(0, (d, p.1)));
        assert(all.insert((d, p.1)).add(rest.to_multiset()) =~= all.add(
            rated(q, points).to_multiset(),
        ));
        end
    }
}

/// Offering the points one by one, in whatever order, leaves the nearest of
/// them.
pub proof fn law_scan_finds_nearest(q: Seq<i16>, met: Seq<Point>, points: Seq<Point>)
    requires
        met.to_multiset() == points.to_multiset(),
    ensures
        is_nearest(scan(no_entries(), q, met), q, points),
{
    let none = Multiset::<(int, u8)>::empty();
    let all = entries(no_entries()).to_multiset();
    broadcast use vstd::multiset::group_multiset_axioms;

    assert(all.add(none) =~= all);
    lemma_scan_worst(no_entries(), q, met);
    let left_out = lemma_scan_parts(no_entries(), none, all, q, met);
    lemma_map_keeps_permutation(met, points, |p: Point| (dist(q, p.0@), p.1));
    assert(parts(scan(no_entries(), q, met), left_out, candidates(q, points)));
}

/// A search of a vantage-point tree finds its nearest points.
pub proof fn law_search_finds_nearest(t: Tree, q: Seq<i16>)
    requires
        is_vp_tree(t),
    ensures
        is_nearest(visit(t, q, no_entries()), q, preorder(t)),
{
    law_pruning_is_exact(t, q, no_entries());
    law_meeting_order_holds_points(t, q);
    law_scan_finds_nearest(q, meeting_order(t, q), preorder(t));
}

pub(crate) proof fn lemma_blank_entries(x: (int, u8))
    ensures
        entries(no_entries()).to_multiset().count(x) == if x == (i32::MAX as int, 0u8) {
            K as nat
        } else {
            0
        },
{
    broadcast use {vstd::multiset::group_multiset_axioms, group_to_multiset_ensures};

    let b = (i32::MAX as int, 0u8);
    let none = Seq::<(int, u8)>::empty();
    assert(entries(no_entries()) =~= none.push(b).push(b).push(b).push(b).push(b));
}

/// Where there are `K` points or more, and each is at a distance below
/// `i32::MAX`, the entries are `K` of the points, and none of the others is
/// nearer.
pub proof fn law_nearest_are_points(best: Seq<(i32, u8)>, q: Seq<i16>, points: Seq<Point>)
    requires
        is_nearest(best, q, points),
        points.len() >= K,
        forall|i: int| 0 <= i < points.len() ==> dist(q, (#[trigger] points[i]).0@) < i32::MAX,
    ensures
        exists|left_out: Multiset<(int, u8)>| #[trigger]
            parts(best, left_out, rated(q, points).to_multiset()),
{
    broadcast use {vstd::multiset::group_multiset_axioms, group_to_multiset_ensures};

    let all = candidates(q, points);
    let out = choose|out: Multiset<(int, u8)>| #[trigger] parts(best, out, all);
    let a = entries(best).to_multiset();
    let r = rated(q, points).to_multiset();
    let b = (i32::MAX as int, 0u8);
    rated(q, points).to_multiset_ensures();
    entries(best).to_multiset_ensures();
    lemma_worst(best);
    assert forall|x: (int, u8)| #[trigger] r.count(x) > 0 implies x.0 < i32::MAX by {
        assert(rated(q, points).contains(x));
        let i = choose|i: int| 0 <= i < rated(q, points).len() && rated(q, points)[i] == x;
        assert(dist(q, points[i].0@) < i32::MAX);
    }
    assert forall|x: (int, u8)| #[trigger] all.count(x) == r.count(x) + if x == b {
        K as nat
    } else {
        0
    } by {
        lemma_blank_entries(x);
    }
    if a.count(b) > 0 {
        assert(entries(best).contains(b));
        let i = choose|i: int| 0 <= i < entries(best).len() && entries(best)[i] == b;
        assert(best[i].0 <= worst(best));
        assert forall|x: (int, u8)| #[trigger] r.count(x) <= a.remove(b).count(x) by {
            if r.count(x) > 0 {
                assert(!out.contains(x));
                assert(all.count(x) == a.count(x) + out.count(x));
            }
        }
        assert(r.subset_of(a.remove(b)));
        assert(a.remove(b).sub(r).len() == a.remove(b).len() - r.len());
    }
    let left = r.sub(a);
    assert forall|x: (int, u8)| #[trigger] a.count(x) <= r.count(x) by {
        assert(all.count(x) == a.count(x) + out.count(x));
    }
    assert(a.add(left) =~= r);
    assert forall|x: (int, u8)| #[trigger] left.contains(x) implies worst(best) <= x.0 by {
        assert(all.count(x) == a.count(x) + out.count(x));
        assert(out.contains(x));
    }
    assert(parts(best, left, r));
}

/// The first of the entries that none is farther than.
pub open spec fn is_first_farthest(best: Seq<(i32, u8)>, at: int) -> bool {
    &&& 0 <= at < best.len()
    &&& forall|i: int| 0 <= i < best.len() ==> (#[trigger] best[i]).0 <= best[at].0
    &&& forall|i: int| 0 <= i < at ==> (#[trigger] best[i]).0 < best[at].0
}

proof fn lemma_farthest_is_first(best: Seq<(i32, u8)>, n: nat)
    requires
        0 < n <= best.len(),
    ensures
        forall|i: int|
            0 <= i < farthest_upto(best, n) ==> (#[trigger] best[i]).0 < best[farthest_upto(
                best,
                n,
            )].0,
    decreases n,
{
    if n > 1 {
        lemma_farthest_is_first(best, (n - 1) as nat);
        lemma_farthest_upto(best, (n - 1) as nat);
    }
}

/// A point that is nearer than the farthest entry takes its place with its own
/// distance and label, and no other entry changes; one that is not changes
/// nothing. Of equally far entries the first one goes.
pub proof fn law_nearer_point_takes_farthest_place(
    best: Seq<(i32, u8)>,
    at: int,
    d: int,
    label: u8,
)
    requires
        is_first_farthest(best, at),
        d >= 0,
    ensures
        worst(best) == best[at].0,
        d < best[at].0 ==> offered(best, d, label) == best.update(at, (d as i32, label)),
        d >= best[at].0 ==> offered(best, d, label) == best,
{
    lemma_worst(best);
    lemma_farthest_is_first(best, best.len());
    let f = farthest(best);
    assert(best[f].0 <= best[at].0);
    assert(best[at].0 <= best[f].0);
    assert(f == at);
}

/// The same for entries with a distance of their own below which a point is
/// taken in: once one has been, it is that of the farthest entry.
pub proof fn law_point_within_limit_is_taken_in(
    best: Seq<(i32, u8)>,
    w: i32,
    at: int,
    d: int,
    label: u8,
)
    requires
        is_first_farthest(best, at),
        0 <= d,
    ensures
        d >= w ==> offered_from((best, w), d, label) == (best, w),
        d < w ==> ({
            let now = offered_from((best, w), d, label);
            &&& now.0 == best.update(at, (d as i32, label))
            &&& forall|i: int| 0 <= i < best.len() ==> (#[trigger] now.0[i]).0 <= now.1
            &&& exists|i: int| 0 <= i < best.len() && (#[trigger] now.0[i]).0 == now.1
        }),
{
    law_nearer_point_takes_farthest_place(best, at, d, label);
    lemma_worst(best);
    lemma_farthest_is_first(best, best.len());
    let now = best.update(at, (d as i32, label));
    lemma_worst(now);
    assert(now[farthest(now)].0 == worst(now));
    let f = farthest(best);
    assert(best[f].0 <= best[at].0);
    assert(f == at);
}

/// Whether a ball reaches inside a radius goes by the roots: wherever
/// `x / k` is at least the root of `d`, `y / k` at most that of `r`, `z / k` at
/// most that of `w`, and `x - y < z`, it does; and wherever the bounds lie the
/// other way and `x - y >= z`, it does not.
pub proof fn law_reach_inside_goes_by_roots(
    d: int,
    r: int,
    w: int,
    k: int,
    x: int,
    y: int,
    z: int,
)
    requires
        d >= 0,
        r >= 0,
        w > 0,
        k >= 1,
        x >= 0,
        y >= 0,
        z >= 0,
    ensures
        d * (k * k) <= x * x && r * (k * k) >= y * y && w * (k * k) >= z * z && x - y < z
            ==> reaches_inside(d, r, w),
        d * (k * k) >= x * x && r * (k * k) <= y * y && w * (k * k) <= z * z && x - y >= z
            ==> !reaches_inside(d, r, w),
{
    lemma_reach(d - r - w, d, r, w, k, x, y, z);
}

/// Whether it reaches outside goes by the roots likewise, with the two other
/// distances exchanged.
pub proof fn law_reach_outside_goes_by_roots(
    d: int,
    r: int,
    w: int,
    k: int,
    x: int,
    y: int,
    z: int,
)
    requires
        d >= 0,
        r >= 0,
        w > 0,
        k >= 1,
        x >= 0,
        y >= 0,
        z >= 0,
    ensures
        r * (k * k) <= y * y && d * (k * k) >= x * x && w * (k * k) >= z * z && y - x < z
            ==> reaches_outside(d, r, w),
        r * (k * k) >= y * y && d * (k * k) <= x * x && w * (k * k) <= z * z && y - x >= z
            ==> !reaches_outside(d, r, w),
{
    lemma_reach(r - d - w, r, d, w, k, y, x, z);
}

proof fn lemma_reach(t: int, d: int, r: int, w: int, k: int, x: int, y: int, z: int)
    requires
        t == d - r - w,
        d >= 0,
        r >= 0,
        w > 0,
        k >= 1,
        x >= 0,
        y >= 0,
        z >= 0,
    ensures
        d * (k * k) <= x * x && r * (k * k) >= y * y && w * (k * k) >= z * z && x - y < z ==> t < 0
            || t * t < 4 * (r * w),
        d * (k * k) >= x * x && r * (k * k) <= y * y && w * (k * k) <= z * z && x - y >= z ==> t
            >= 0 && t * t >= 4 * (r * w),
{
    let kk = k * k;
    assert(kk >= 1) by (nonlinear_arith)
        requires
            k >= 1,
            kk == k * k,
    ;
    let dk = d * kk;
    let rk = r * kk;
    let wk = w * kk;
    let tk = t * kk;
    assert(tk == dk - rk - wk) by (nonlinear_arith)
        requires
            t == d - r - w,
            tk == t * kk,
            dk == d * kk,
            rk == r * kk,
            wk == w * kk,
    ;
    assert(rk >= 0 && wk >= 0) by (nonlinear_arith)
        requires
            r >= 0,
            w > 0,
            kk >= 1,
            rk == r * kk,
            wk == w * kk,
    ;
    let yz = y * z;
    let k4 = kk * kk;
    assert((y + z) * (y + z) == y * y + z * z + 2 * yz) by (nonlinear_arith)
        requires
            yz == y * z,
    ;
    assert(tk * tk == (t * t) * k4) by (nonlinear_arith)
        requires
            tk == t * kk,
            k4 == kk * kk,
    ;
    assert(rk * wk == (r * w) * k4) by (nonlinear_arith)
        requires
            rk == r * kk,
            wk == w * kk,
            k4 == kk * kk,
    ;
    assert(k4 >= 1) by (nonlinear_arith)
        requires
            kk >= 1,
            k4 == kk * kk,
    ;
    assert(yz * yz == (y * y) * (z * z)) by (nonlinear_arith)
        requires
            yz == y * z,
    ;
    assert(yz >= 0) by (nonlinear_arith)
        requires
            y >= 0,
            z >= 0,
            yz == y * z,
    ;
    if dk <= x * x && rk >= y * y && wk >= z * z && x - y < z {
        assert(x * x < (y + z) * (y + z)) by (nonlinear_arith)
            requires
                0 <= x < y + z,
        ;
        assert(tk < 2 * yz);
        if t >= 0 {
            assert(tk >= 0) by (nonlinear_arith)
                requires
                    t >= 0,
                    kk >= 1,
                    tk == t * kk,
            ;
            assert(tk * tk < 4 * (yz * yz)) by (nonlinear_arith)
                requires
                    0 <= tk < 2 * yz,
            ;
            assert((y * y) * (z * z) <= rk * wk) by (nonlinear_arith)
                requires
                    0 <= y * y <= rk,
                    0 <= z * z <= wk,
            {
                assert(0 <= y * y);
                assert(0 <= z * z);
            }
            let a = t * t;
            let b = 4 * (r * w);
            assert(b * k4 == 4 * ((r * w) * k4)) by (nonlinear_arith)
                requires
                    b == 4 * (r * w),
            ;
            assert(a * k4 < b * k4);
            assert(a < b) by (nonlinear_arith)
                requires
                    a * k4 < b * k4,
                    k4 >= 1,
            ;
        }
    }
    if dk >= x * x && rk <= y * y && wk <= z * z && x - y >= z {
        assert(x * x >= (y + z) * (y + z)) by (nonlinear_arith)
            requires
                x >= y + z,
                y + z >= 0,
        ;
        assert(tk >= 2 * yz);
        assert(t >= 0) by (nonlinear_arith)
            requires
                tk >= 0,
                tk == t * kk,
                kk >= 1,
        ;
        assert(tk * tk >= 4 * (yz * yz)) by (nonlinear_arith)
            requires
                tk >= 2 * yz,
                yz >= 0,
        ;
        assert((y * y) * (z * z) >= rk * wk) by (nonlinear_arith)
            requires
                0 <= rk <= y * y,
                0 <= wk <= z * z,
        ;
        let a = t * t;
        let b = 4 * (r * w);
        assert(b * k4 == 4 * ((r * w) * k4)) by (nonlinear_arith)
            requires
                b == 4 * (r * w),
        ;
        assert(a * k4 >= b * k4);
        assert(a >= b) by (nonlinear_arith)
            requires
                a * k4 >= b * k4,
                k4 >= 1,
        ;
    }
}

/// A search that leaves nothing out meets the vantage point first, then the side
/// of the radius on which the query lies, then the other.
pub proof fn law_near_side_is_met_first(
    point: Point,
    radius: int,
    left: Tree,
    right: Tree,
    q: Seq<i16>,
)
    ensures
        ({
            let t = Tree::Fork { point, radius, left: Box::new(left), right: Box::new(right) };
            let met = meeting_order(t, q);
            let (near, far) = if dist(q, point.0@) <= radius {
                (left, right)
            } else {
                (right, left)
            };
            let n = preorder(near).len() as int;
            &&& met[0] == point
            &&& met.len() == 1 + n + preorder(far).len()
            &&& met.subrange(1, 1 + n).to_multiset() == preorder(near).to_multiset()
            &&& met.skip(1 + n).to_multiset() == preorder(far).to_multiset()
        }),
{
    let t = Tree::Fork { point, radius, left: Box::new(left), right: Box::new(right) };
    let met = meeting_order(t, q);
    let (near, far) = if dist(q, point.0@) <= radius {
        (left, right)
    } else {
        (right, left)
    };
    law_meeting_order_holds_points(near, q);
    law_meeting_order_holds_points(far, q);
    preorder(near).to_multiset_ensures();
    preorder(far).to_multiset_ensures();
    meeting_order(near, q).to_multiset_ensures();
    meeting_order(far, q).to_multiset_ensures();
    let n = preorder(near).len() as int;
    assert(met == seq![point] + meeting_order(near, q) + meeting_order(far, q));
    assert(met.subrange(1, 1 + n) =~= meeting_order(near, q));
    assert(met.skip(1 + n) =~= meeting_order(far, q));
}

/// Points that are offered one by one: each of them in turn, and what was found
/// first stays unless something nearer comes.
pub proof fn law_scan_goes_on(best: Seq<(i32, u8)>, q: Seq<i16>, points: Seq<Point>, p: Point)
    requires
        best.len() > 0,
    ensures
        scan(best, q, points.push(p)) == offered(
            scan(best, q, points),
            dist(q, p.0@),
            p.1,
        ),
        scan(best, q, Seq::empty()) == best,
        (forall|x: Point| #[trigger] points.contains(x) ==> dist(q, x.0@) >= worst(best))
            ==> scan(best, q, points) == best,
{
    let one = seq![p];
    lemma_scan_concat(best, q, points, one);
    assert(points.push(p) =~= points + one);
    let s = scan(best, q, points);
    assert(one.skip(1) =~= Seq::<Point>::empty());
    assert(scan(s, q, one) == scan(offered(s, dist(q, p.0@), p.1), q, one.skip(1)));
    if forall|x: Point| #[trigger] points.contains(x) ==> dist(q, x.0@) >= worst(best) {
        lemma_scan_far(best, q, points);
    }
}

/// Nothing is searched in a ball of no size, and a negative radius is no
/// obstacle.
pub proof fn law_reach_at_the_limits(d: int, r: int, w: int)
    ensures
        w <= 0 ==> !reaches_inside(d, r, w) && !reaches_outside(d, r, w),
        w > 0 && r < 0 && d >= 0 ==> reaches_inside(d, r, w) && reaches_outside(d, r, w),
{
}

/// A search of no tree changes nothing, and one of a single point offers it.
pub proof fn law_search_of_little(
    point: Point,
    radius: int,
    q: Seq<i16>,
    s: (Seq<(i32, u8)>, i32),
)
    ensures
        visit_from(Tree::Leaf, q, s) == s,
        visit(Tree::Leaf, q, s.0) == s.0,
        visit_from(
            Tree::Fork {
                point,
                radius,
                left: Box::new(Tree::Leaf),
                right: Box::new(Tree::Leaf),
            },
            q,
            s,
        ) == offered_from(s, dist(q, point.0@), point.1),
{
    let now = offered_from(s, dist(q, point.0@), point.1);
    assert(visit_from(Tree::Leaf, q, now) == now);
}

/// The entries that a search starts with are five, legit, and farther than any
/// point that can be taken in.
pub proof fn law_blank_entries(i: int)
    requires
        0 <= i < 5,
    ensures
        no_entries().len() == 5,
        no_entries()[i].0 == 0x7fff_ffff,
        no_entries()[i].1 == 0,
{
}

}
