//! Vantage-point trees as mathematical values, and how an array of nodes
//! stands for one.

use crate::distance::{dist, Point};
use crate::layout::{Node, NULL};
use vstd::prelude::*;

verus! {

/// A vantage-point tree.
pub enum Tree {
    Leaf,
    Fork { point: Point, radius: int, left: Box<Tree>, right: Box<Tree> },
}

/// The points of a tree: a vantage point, then those inside its radius, then
/// those outside.
pub open spec fn preorder(t: Tree) -> Seq<Point>
    decreases t,
{
    match t {
        Tree::Leaf => Seq::empty(),
        Tree::Fork { point, left, right, .. } => seq![point] + preorder(*left) + preorder(*right),
    }
}

/// Every point inside a radius is no farther from its vantage point than the
/// radius, and every point outside is no nearer.
pub open spec fn is_vp_tree(t: Tree) -> bool
    decreases t,
{
    match t {
        Tree::Leaf => true,
        Tree::Fork { point, radius, left, right } => {
            &&& is_vp_tree(*left)
            &&& is_vp_tree(*right)
            &&& forall|x: Point| #[trigger]
                preorder(*left).contains(x) ==> dist(point.0@, x.0@) <= radius
            &&& forall|x: Point| #[trigger]
                preorder(*right).contains(x) ==> dist(point.0@, x.0@) >= radius
        },
    }
}

/// `is_vp_tree`, with every point outside farther from its vantage point than
/// the radius.
pub open spec fn is_strict_vp_tree(t: Tree) -> bool
    decreases t,
{
    match t {
        Tree::Leaf => true,
        Tree::Fork { point, radius, left, right } => {
            &&& is_strict_vp_tree(*left)
            &&& is_strict_vp_tree(*right)
            &&& forall|x: Point| #[trigger]
                preorder(*left).contains(x) ==> dist(point.0@, x.0@) <= radius
            &&& forall|x: Point| #[trigger]
                preorder(*right).contains(x) ==> dist(point.0@, x.0@) > radius
        },
    }
}

/// A link is `NULL` or leads forward to a node of the array.
pub open spec fn link_ok(nodes: Seq<Node>, i: int, link: u32) -> bool {
    link == NULL || i < link < nodes.len()
}

/// Every link leads forward, so that no walk from node to node goes round.
pub open spec fn links_ok(nodes: Seq<Node>) -> bool {
    forall|i: int|
        0 <= i < nodes.len() ==> link_ok(nodes, i, (#[trigger] nodes[i]).left) && link_ok(
            nodes,
            i,
            nodes[i].right,
        )
}

/// Every link that a walk from `link` meets leads forward to a node of the
/// array, or is `NULL`. From `NULL` it meets none.
pub open spec fn walk_ok(nodes: Seq<Node>, link: u32) -> bool
    decreases nodes.len() - link,
{
    link == NULL || {
        &&& link < nodes.len()
        &&& nodes[link as int].left == NULL || (link < nodes[link as int].left < nodes.len()
            && walk_ok(nodes, nodes[link as int].left))
        &&& nodes[link as int].right == NULL || (link < nodes[link as int].right < nodes.len()
            && walk_ok(nodes, nodes[link as int].right))
    }
}

/// Where every link of the array leads forward, so does every link that a walk
/// meets.
pub proof fn lemma_walk_ok(nodes: Seq<Node>, link: u32)
    requires
        links_ok(nodes),
        link == NULL || link < nodes.len(),
    ensures
        walk_ok(nodes, link),
    decreases nodes.len() - link,
{
    if link != NULL {
        let node = nodes[link as int];
        assert(link_ok(nodes, link as int, node.left) && link_ok(nodes, link as int, node.right));
        if node.left != NULL {
            lemma_walk_ok(nodes, node.left);
        }
        if node.right != NULL {
            lemma_walk_ok(nodes, node.right);
        }
    }
}

/// The tree whose root is node `i`.
pub open spec fn tree_at(nodes: Seq<Node>, i: int) -> Tree
    decreases nodes.len() - i,
{
    if 0 <= i < nodes.len() {
        let left = nodes[i].left;
        let right = nodes[i].right;
        Tree::Fork {
            point: nodes[i].point(),
            radius: nodes[i].radius_sq as int,
            left: Box::new(
                if left != NULL && i < left < nodes.len() {
                    tree_at(nodes, left as int)
                } else {
                    Tree::Leaf
                },
            ),
            right: Box::new(
                if right != NULL && i < right < nodes.len() {
                    tree_at(nodes, right as int)
                } else {
                    Tree::Leaf
                },
            ),
        }
    } else {
        Tree::Leaf
    }
}

/// The tree that a link leads to.
pub open spec fn linked_tree(nodes: Seq<Node>, link: u32) -> Tree {
    if link == NULL {
        Tree::Leaf
    } else {
        tree_at(nodes, link as int)
    }
}

/// The links of a node that lead to a node, the left one first.
pub open spec fn children(node: Node) -> Seq<int> {
    (if node.left == NULL {
        Seq::<int>::empty()
    } else {
        seq![node.left as int]
    }) + (if node.right == NULL {
        Seq::<int>::empty()
    } else {
        seq![node.right as int]
    })
}

/// The links that lead to a node, in the order in which the array holds them.
pub open spec fn link_list(nodes: Seq<Node>) -> Seq<int>
    decreases nodes.len(),
{
    if nodes.len() == 0 {
        Seq::empty()
    } else {
        link_list(nodes.drop_last()) + children(nodes.last())
    }
}

/// The nodes are laid out breadth first from `base`: read in order, their links
/// lead to the nodes after the first, one by one.
pub open spec fn breadth_first_from(nodes: Seq<Node>, base: int) -> bool {
    &&& nodes.len() > 0
    &&& link_list(nodes) == Seq::new((nodes.len() - 1) as nat, |i: int| base + i + 1)
}

/// A node heads its tree: its vector and label are the vantage point, its squared
/// radius is the radius, and its two links lead to the subtrees inside and
/// outside.
pub proof fn law_node_heads_tree(nodes: Seq<Node>, link: u32)
    requires
        links_ok(nodes),
        link < nodes.len(),
        link != u32::MAX,
    ensures
        ({
            let node = nodes[link as int];
            &&& linked_tree(nodes, u32::MAX) == Tree::Leaf
            &&& linked_tree(nodes, link) == (Tree::Fork {
                point: (node.vector, node.label),
                radius: node.radius_sq as int,
                left: Box::new(linked_tree(nodes, node.left)),
                right: Box::new(linked_tree(nodes, node.right)),
            })
        }),
{
    let node = nodes[link as int];
    assert(link_ok(nodes, link as int, node.left) && link_ok(nodes, link as int, node.right));
}

/// A tree holds its vantage point and the points of its subtrees, in this order.
pub proof fn law_preorder(point: Point, radius: int, left: Tree, right: Tree)
    ensures
        preorder(
            Tree::Fork { point, radius, left: Box::new(left), right: Box::new(right) },
        ) == seq![point] + preorder(left) + preorder(right),
        preorder(Tree::Leaf).len() == 0,
{
}

proof fn lemma_link_list_prefix(nodes: Seq<Node>, n: int)
    requires
        0 <= n <= nodes.len(),
    ensures
        link_list(nodes.take(n)).len() <= link_list(nodes).len(),
        link_list(nodes).take(link_list(nodes.take(n)).len() as int) == link_list(nodes.take(n)),
    decreases nodes.len(),
{
    if n == nodes.len() {
        assert(nodes.take(n) =~= nodes);
        assert(link_list(nodes).take(link_list(nodes).len() as int) =~= link_list(nodes));
    } else {
        let fewer = nodes.drop_last();
        lemma_link_list_prefix(fewer, n);
        assert(fewer.take(n) =~= nodes.take(n));
        let k = link_list(nodes.take(n)).len() as int;
        assert(link_list(nodes).take(k) =~= link_list(fewer).take(k));
    }
}

/// The links of node `i` stand next to each other among all links.
proof fn lemma_links_of(nodes: Seq<Node>, i: int) -> (at: int)
    requires
        0 <= i < nodes.len(),
    ensures
        at == link_list(nodes.take(i)).len(),
        at + children(nodes[i]).len() == link_list(nodes.take(i + 1)).len(),
        at + children(nodes[i]).len() <= link_list(nodes).len(),
        forall|k: int|
            0 <= k < children(nodes[i]).len() ==> link_list(nodes)[at + k] == #[trigger] children(
                nodes[i],
            )[k],
{
    let some = nodes.take(i + 1);
    assert(some.drop_last() =~= nodes.take(i));
    assert(some.last() == nodes[i]);
    lemma_link_list_prefix(nodes, i + 1);
    let at = link_list(nodes.take(i)).len() as int;
    let n = link_list(some).len() as int;
    assert forall|k: int| 0 <= k < children(nodes[i]).len() implies link_list(nodes)[at + k]
        == #[trigger] children(nodes[i])[k] by {
        assert(link_list(nodes).take(n)[at + k] == link_list(some)[at + k]);
    }
    at
}

proof fn lemma_link_list_ascends(nodes: Seq<Node>, i: int, j: int)
    requires
        0 <= i <= j <= nodes.len(),
    ensures
        link_list(nodes.take(i)).len() <= link_list(nodes.take(j)).len(),
{
    lemma_link_list_prefix(nodes.take(j), i);
    assert(nodes.take(j).take(i) =~= nodes.take(i));
}

/// In breadth-first order the two children of a node stand next to each other,
/// the one inside first, and the children of an earlier node before those of a
/// later one. Each node after the first is the child of some node.
pub proof fn law_breadth_first_links(nodes: Seq<Node>, base: int, i: int, j: int)
    requires
        breadth_first_from(nodes, base),
        0 <= i < j < nodes.len(),
    ensures
        nodes[i].left != u32::MAX && nodes[i].right != u32::MAX ==> nodes[i].right == nodes[i].left
            + 1,
        nodes[i].left != u32::MAX && nodes[j].left != u32::MAX ==> nodes[i].left < nodes[j].left,
        nodes[i].left != u32::MAX && nodes[j].right != u32::MAX ==> nodes[i].left < nodes[j].right,
        nodes[i].right != u32::MAX && nodes[j].left != u32::MAX ==> nodes[i].right < nodes[j].left,
        nodes[i].right != u32::MAX && nodes[j].right != u32::MAX ==> nodes[i].right
            < nodes[j].right,
        exists|k: int|
            0 <= k < nodes.len() && ((#[trigger] nodes[k]).left == base + j || nodes[k].right
                == base + j),
{
    let all = link_list(nodes);
    let a = lemma_links_of(nodes, i);
    let b = lemma_links_of(nodes, j);
    lemma_link_list_ascends(nodes, i + 1, j);
    let ci = children(nodes[i]);
    let cj = children(nodes[j]);
    assert(all[j - 1] == base + j);
    if nodes[i].left != NULL {
        assert(ci[0] == nodes[i].left);
    }
    if nodes[i].right != NULL {
        assert(ci[ci.len() - 1] == nodes[i].right);
    }
    if nodes[j].left != NULL {
        assert(cj[0] == nodes[j].left);
    }
    if nodes[j].right != NULL {
        assert(cj[cj.len() - 1] == nodes[j].right);
    }
    let k = lemma_link_from(nodes, j - 1);
}

/// A node that a link comes from.
proof fn lemma_link_from(nodes: Seq<Node>, t: int) -> (k: int)
    requires
        0 <= t < link_list(nodes).len(),
    ensures
        0 <= k < nodes.len(),
        nodes[k].left == link_list(nodes)[t] || nodes[k].right == link_list(nodes)[t],
    decreases nodes.len(),
{
    let fewer = nodes.drop_last();
    if t < link_list(fewer).len() {
        let k = lemma_link_from(fewer, t);
        assert(fewer[k] == nodes[k]);
        k
    } else {
        let c = children(nodes.last());
        let at = t - link_list(fewer).len();
        assert(link_list(nodes)[t] == c[at]);
        nodes.len() - 1
    }
}

/// A walk can be followed if its start is `NULL`, or a node whose two links, if
/// there are any, lead further on in the array to walks that can be followed.
pub proof fn law_walk_meets_every_link(nodes: Seq<Node>, link: u32)
    requires
        link != u32::MAX,
    ensures
        walk_ok(nodes, u32::MAX),
        walk_ok(nodes, link) <==> link < nodes.len() && {
            let node = nodes[link as int];
            &&& node.left != u32::MAX ==> link < node.left && walk_ok(nodes, node.left)
            &&& node.right != u32::MAX ==> link < node.right && walk_ok(nodes, node.right)
        },
{
}

}
