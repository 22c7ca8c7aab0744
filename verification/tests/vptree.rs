use rinha::distance::dist_sq_i16;
use rinha::layout::{Node, NULL};
use rinha::search::search_tree;
use rinha::vptree::build_vptree;

fn next(seed: &mut u64) -> u64 {
    *seed = seed.wrapping_mul(6364136223846793005).wrapping_add(1442695040888963407);
    *seed >> 33
}

fn random_points(n: usize, seed: u64, spread: u64) -> Vec<([i16; 16], u8)> {
    let mut s = seed;
    let mut points = Vec::new();
    for _ in 0..n {
        let mut v = [0i16; 16];
        for lane in v.iter_mut().take(14) {
            *lane = (next(&mut s) % spread) as i16;
        }
        points.push((v, (next(&mut s) % 2) as u8));
    }
    points
}

fn subtree(nodes: &[Node], link: u32, out: &mut Vec<([i16; 16], u8)>) {
    if link != NULL {
        let node = &nodes[link as usize];
        out.push((node.vector, node.label));
        subtree(nodes, node.left, out);
        subtree(nodes, node.right, out);
    }
}

fn nearest_by_scan(points: &[([i16; 16], u8)], q: &[i16; 16]) -> Vec<i32> {
    let mut d: Vec<i32> = points.iter().map(|p| dist_sq_i16(q, &p.0)).collect();
    d.sort();
    d.truncate(5);
    d
}

#[test]
fn tree_of_one_point() {
    let mut v = [0i16; 16];
    v[3] = 42;
    let mut points = vec![(v, 1u8)];
    let nodes = build_vptree(&mut points);
    assert_eq!(nodes.len(), 1);
    assert_eq!(nodes[0].vector, v);
    assert_eq!(nodes[0].label, 1);
    assert_eq!(nodes[0].radius_sq, 0);
    assert_eq!((nodes[0].left, nodes[0].right), (NULL, NULL));
}

#[test]
fn tree_of_two_points() {
    let mut far = [0i16; 16];
    far[0] = 3;
    far[1] = 4;
    let mut points = vec![([0i16; 16], 0u8), (far, 1)];
    let nodes = build_vptree(&mut points);
    assert_eq!(nodes[0].vector, [0i16; 16]);
    assert_eq!(nodes[0].radius_sq, 25);
    assert_eq!((nodes[0].left, nodes[0].right), (1, NULL));
    assert_eq!(nodes[1].vector, far);
}

#[test]
fn vantage_point_is_most_dispersed() {
    let mut points = Vec::new();
    for x in [0i16, 1, 2, 100] {
        let mut v = [0i16; 16];
        v[0] = x;
        points.push((v, 0u8));
    }
    let nodes = build_vptree(&mut points);
    assert_eq!(nodes[0].vector[0], 100);
    assert_eq!(nodes[0].radius_sq, 99 * 99);
}

#[test]
fn tree_holds_every_point_once() {
    let mut points = random_points(200, 7, 50);
    let mut given = points.clone();
    let nodes = build_vptree(&mut points);
    let mut held = Vec::new();
    subtree(&nodes, 0, &mut held);
    assert_eq!(held, points);
    held.sort();
    given.sort();
    assert_eq!(held, given);
}

#[test]
fn radius_is_median_distance() {
    let mut points = random_points(31, 11, 1000);
    let given = points.clone();
    let nodes = build_vptree(&mut points);
    let root = nodes[0].vector;
    let mut d: Vec<i32> = given.iter().map(|p| dist_sq_i16(&p.0, &root)).collect();
    d.sort();
    assert_eq!(d[0], 0);
    assert_eq!(nodes[0].radius_sq, d[1 + 30 / 2]);
}

#[test]
fn radius_parts_every_subtree() {
    let mut points = random_points(300, 3, 30);
    let nodes = build_vptree(&mut points);
    for node in &nodes {
        let mut near = Vec::new();
        let mut far = Vec::new();
        subtree(&nodes, node.left, &mut near);
        subtree(&nodes, node.right, &mut far);
        assert!(near.iter().all(|p| dist_sq_i16(&p.0, &node.vector) <= node.radius_sq));
        assert!(far.iter().all(|p| dist_sq_i16(&p.0, &node.vector) > node.radius_sq));
    }
}

#[test]
fn nodes_are_in_breadth_first_order() {
    let mut points = random_points(100, 5, 500);
    let nodes = build_vptree(&mut points);
    let mut links = Vec::new();
    for node in &nodes {
        for link in [node.left, node.right] {
            if link != NULL {
                links.push(link);
            }
        }
    }
    let expected: Vec<u32> = (1..100).collect();
    assert_eq!(links, expected);
}

#[test]
fn equal_points_go_inside() {
    let mut points = vec![([5i16; 16], 0u8); 4];
    let nodes = build_vptree(&mut points);
    assert!(nodes.iter().all(|n| n.radius_sq == 0 && n.right == NULL));
}

#[test]
fn search_finds_nearest_of_tree() {
    let mut points = random_points(500, 13, 2000);
    let given = points.clone();
    let nodes = build_vptree(&mut points);
    let mut s = 99u64;
    for _ in 0..50 {
        let mut q = [0i16; 16];
        for lane in q.iter_mut().take(14) {
            *lane = (next(&mut s) % 2500) as i16 - 250;
        }
        let mut best = [(i32::MAX, 0u8); 5];
        let mut worst = i32::MAX;
        search_tree(&nodes, 0, &q, &mut best, &mut worst);
        let mut found: Vec<i32> = best.iter().map(|e| e.0).collect();
        found.sort();
        assert_eq!(found, nearest_by_scan(&given, &q));
        assert_eq!(worst, found[4]);
    }
}

#[test]
fn search_of_no_tree_finds_nothing() {
    let mut best = [(i32::MAX, 0u8); 5];
    let mut worst = i32::MAX;
    search_tree(&[], NULL, &[0; 16], &mut best, &mut worst);
    assert_eq!(best, [(i32::MAX, 0u8); 5]);
    assert_eq!(worst, i32::MAX);
}

#[test]
fn search_of_few_points_keeps_blanks() {
    let mut points = random_points(3, 1, 100);
    let nodes = build_vptree(&mut points);
    let mut best = [(i32::MAX, 0u8); 5];
    let mut worst = i32::MAX;
    search_tree(&nodes, 0, &[0; 16], &mut best, &mut worst);
    assert_eq!(best.iter().filter(|e| e.0 == i32::MAX).count(), 2);
    assert_eq!(worst, i32::MAX);
}

#[test]
fn search_goes_on_from_entries() {
    let node = Node { vector: [1; 16], radius_sq: 0, left: NULL, right: NULL, label: 1 };
    let mut best = [(20, 0u8), (30, 0), (30, 1), (10, 0), (5, 0)];
    let mut worst = 30;
    search_tree(&[node], 0, &[0; 16], &mut best, &mut worst);
    assert_eq!(best, [(20, 0u8), (14, 1), (30, 1), (10, 0), (5, 0)]);
    assert_eq!(worst, 30);
}

#[test]
fn search_prunes_exactly_at_the_boundary() {
    // The query is at distance 10 from the vantage point; a point on the
    // radius, in the query's direction, is at distance 10 - 4 = 6.
    let mut q = [0i16; 16];
    q[0] = 10;
    let mut inner = [0i16; 16];
    inner[0] = 4;
    let nodes = [
        Node { vector: [0; 16], radius_sq: 16, left: 1, right: NULL, label: 0 },
        Node { vector: inner, radius_sq: 0, left: NULL, right: NULL, label: 1 },
    ];
    let mut best = [(37, 0u8); 5];
    let mut worst = 37;
    search_tree(&nodes, 0, &q, &mut best, &mut worst);
    assert_eq!(best[0], (36, 1));
    let mut best = [(36, 0u8); 5];
    let mut worst = 36;
    search_tree(&nodes, 0, &q, &mut best, &mut worst);
    assert_eq!(best, [(36, 0u8); 5]);
}

#[test]
fn more_than_half_are_inside() {
    let mut points = random_points(41, 19, 300);
    let nodes = build_vptree(&mut points);
    let mut near = Vec::new();
    let mut far = Vec::new();
    subtree(&nodes, nodes[0].left, &mut near);
    subtree(&nodes, nodes[0].right, &mut far);
    assert_eq!(near.len() + far.len(), 40);
    assert!(near.len() > 20);
    assert!(far.len() < 20);
    let root = nodes[0].vector;
    let nearer = near.iter().filter(|p| dist_sq_i16(&p.0, &root) < nodes[0].radius_sq);
    assert!(nearer.count() <= 20);
}

#[test]
fn search_from_no_root_leaves_entries() {
    let stray = Node { vector: [1; 16], radius_sq: 0, left: 0, right: 9, label: 1 };
    let mut best = [(20, 0u8), (30, 0), (30, 1), (10, 0), (5, 0)];
    let mut worst = 7;
    search_tree(&[stray], NULL, &[0; 16], &mut best, &mut worst);
    assert_eq!(best, [(20, 0u8), (30, 0), (30, 1), (10, 0), (5, 0)]);
    assert_eq!(worst, 7);
}
