use rinha::distance::dist_sq_i16;
use rinha::index::AppState;
use rinha::knn::{knn_search, warmup_queries};
use rinha::preprocess::{build_index, group_by_key, points_fit, preprocess, Reference};
use rinha::response::fraud_score;

fn next(seed: &mut u64) -> u64 {
    *seed = seed.wrapping_mul(6364136223846793005).wrapping_add(1442695040888963407);
    *seed >> 33
}

fn random_vector(seed: &mut u64) -> [i16; 16] {
    let mut v = [0i16; 16];
    for lane in v.iter_mut().take(14) {
        *lane = (next(seed) % 10001) as i16;
    }
    v
}

fn random_references(n: usize, keys: u64, seed: u64) -> Vec<Reference> {
    let mut s = seed;
    let mut references = Vec::new();
    for _ in 0..n {
        let mut vector = random_vector(&mut s);
        let key = (next(&mut s) % keys) as u8;
        // Partitions lie apart from each other, so that their boxes differ.
        vector[0] = key as i16 * 30 + vector[0] % 40;
        references.push(Reference { key, vector, label: (next(&mut s) % 2) as u8 });
    }
    references
}

fn load(bytes: &[u8]) -> AppState {
    match AppState::new(bytes) {
        Ok(state) => state,
        Err(_) => panic!("an index"),
    }
}

fn frauds_by_scan(references: &[Reference], q: &[i16; 16]) -> usize {
    let mut d: Vec<(i32, u8)> =
        references.iter().map(|r| (dist_sq_i16(q, &r.vector), r.label)).collect();
    d.sort();
    d.truncate(6);
    assert!(d.len() < 6 || d[4].0 < d[5].0);
    d.iter().take(5).map(|e| e.1 as usize).sum()
}

#[test]
fn search_over_partitions_is_exact() {
    let references = random_references(1500, 200, 17);
    let state = load(&preprocess(&references));
    assert!(state.is_searchable());
    assert_eq!(state.nodes().len(), 1500);
    let mut s = 5u64;
    for i in 0..60 {
        let q = random_vector(&mut s);
        assert_eq!(knn_search(&state, &q, (i * 4) as u8), frauds_by_scan(&references, &q));
    }
}

#[test]
fn key_does_not_change_what_is_found() {
    let references = random_references(400, 256, 23);
    let state = load(&preprocess(&references));
    let mut s = 8u64;
    let q = random_vector(&mut s);
    let expected = frauds_by_scan(&references, &q);
    for key in 0..=255u8 {
        assert_eq!(knn_search(&state, &q, key), expected);
    }
}

#[test]
fn reference_finds_itself() {
    let references: Vec<Reference> =
        (0..10).map(|i| Reference { key: i, vector: [i as i16 * 1000; 16], label: 1 }).collect();
    let state = load(&preprocess(&references));
    assert_eq!(knn_search(&state, &[3000; 16], 3), 5);
    assert_eq!(knn_search(&state, &[3000; 16], 200), 5);
}

#[test]
fn fewer_than_five_references_count_as_legit() {
    let references: Vec<Reference> =
        (0..3).map(|i| Reference { key: 9, vector: [i as i16; 16], label: 1 }).collect();
    let state = load(&preprocess(&references));
    assert_eq!(knn_search(&state, &[0; 16], 9), 3);
}

#[test]
fn count_of_frauds_is_capped() {
    let references: Vec<Reference> =
        (0..5).map(|i| Reference { key: 9, vector: [i as i16; 16], label: 200 }).collect();
    let state = load(&preprocess(&references));
    assert_eq!(knn_search(&state, &[0; 16], 9), 5);
}

#[test]
fn empty_index_finds_no_fraud() {
    let state = load(&preprocess(&[]));
    assert_eq!(knn_search(&state, &[0; 16], 0), 0);
    assert_eq!(fraud_score(&state, Some(([0; 16], 0))), "{\"approved\":true,\"fraud_score\":0.0}");
}

#[test]
fn answer_follows_frauds() {
    for frauds in 0..6u8 {
        let references: Vec<Reference> = (0..5u8)
            .map(|i| Reference { key: 1, vector: [i as i16; 16], label: (i < frauds) as u8 })
            .collect();
        let state = load(&preprocess(&references));
        let text = fraud_score(&state, Some(([0; 16], 1)));
        assert_eq!(
            text,
            format!(
                "{{\"approved\":{},\"fraud_score\":{:.1}}}",
                (frauds as f32 / 5.0) < 0.6,
                frauds as f32 / 5.0
            )
        );
    }
}

#[test]
fn no_query_is_approved() {
    let references = random_references(50, 3, 1);
    let state = load(&preprocess(&references));
    assert_eq!(fraud_score(&state, None), "{\"approved\":true,\"fraud_score\":0.0}");
}

#[test]
fn groups_keep_order() {
    let r = |key: u8, x: i16, label: u8| Reference { key, vector: [x; 16], label };
    let groups = group_by_key(&[r(7, 1, 0), r(255, 2, 1), r(7, 3, 1)]);
    assert_eq!(groups.len(), 256);
    assert_eq!(groups[7], vec![([1i16; 16], 0u8), ([3; 16], 1)]);
    assert_eq!(groups[255], vec![([2i16; 16], 1u8)]);
    assert!(groups[0].is_empty());
}

#[test]
fn partitions_follow_groups() {
    let references = random_references(300, 40, 77);
    let groups = group_by_key(&references);
    let (partitions, nodes) = build_index(groups.clone());
    let keys: Vec<u32> = (0..256u32).filter(|k| !groups[*k as usize].is_empty()).collect();
    assert_eq!(partitions.iter().map(|p| p.key).collect::<Vec<u32>>(), keys);
    let mut start = 0;
    for p in &partitions {
        assert_eq!(p.root, start);
        assert_eq!(p.count as usize, groups[p.key as usize].len());
        for v in groups[p.key as usize].iter().map(|g| g.0) {
            assert!((0..14).all(|l| p.min[l] <= v[l] && v[l] <= p.max[l]));
        }
        start += p.count;
    }
    assert_eq!(nodes.len(), 300);
    assert_eq!(start, 300);
}

#[test]
fn primary_partition_has_the_key() {
    let references = random_references(100, 256, 3);
    let state = load(&preprocess(&references));
    for key in 0..256usize {
        let present = references.iter().any(|r| r.key as usize == key);
        let at = state.key_to_idx[key];
        assert_eq!(at != u16::MAX, present);
        if present {
            assert_eq!(state.partitions()[at as usize].key as usize, key);
        }
    }
}

#[test]
fn wide_points_do_not_fit() {
    assert!(points_fit(&[([0; 16], 0u8), ([10000; 16], 0)]));
    assert!(!points_fit(&[([0; 16], 0u8), ([20000; 16], 0)]));
    assert!(points_fit(&[([20000; 16], 0u8)]));
    // The box is wider than 32 bits hold, but no two of the points are so far
    // apart.
    let spread = |lane: usize| {
        let mut v = [0i16; 16];
        v[lane] = 30000;
        (v, 0u8)
    };
    assert!(points_fit(&[spread(0), spread(1), spread(2), spread(3)]));
}

#[test]
fn warmup_queries_are_centres() {
    let r = |key: u8, x: i16| Reference { key, vector: [x; 16], label: 0 };
    let state = load(&preprocess(&[r(4, -3), r(4, 0), r(9, 10), r(9, 13)]));
    let queries = warmup_queries(&state);
    assert_eq!(queries.len(), 2);
    let mut low = [-1i16; 16];
    low[14] = 0;
    low[15] = 0;
    let mut high = [11i16; 16];
    high[14] = 0;
    high[15] = 0;
    assert_eq!(queries[0], (low, 4u8));
    assert_eq!(queries[1], (high, 9u8));
    assert!(warmup_queries(&load(&preprocess(&[]))).is_empty());
}

#[test]
fn up_to_five_references_all_count() {
    for n in 0..6u8 {
        for frauds in 0..n + 1 {
            let references: Vec<Reference> = (0..n)
                .map(|i| Reference {
                    key: i,
                    vector: [i as i16 * 700; 16],
                    label: (i < frauds) as u8,
                })
                .collect();
            let state = load(&preprocess(&references));
            assert_eq!(knn_search(&state, &[2500; 16], 3), frauds as usize);
        }
    }
}

#[test]
fn ties_with_the_same_label_do_not_matter() {
    let references: Vec<Reference> =
        (0..9).map(|i| Reference { key: i, vector: [100; 16], label: 1 }).collect();
    let state = load(&preprocess(&references));
    for key in 0..10 {
        assert_eq!(knn_search(&state, &[90; 16], key), 5);
    }
}
