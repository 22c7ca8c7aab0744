use rinha::distance::{compute_bbox, dist_sq_i16, dist_sq_i64, lb_box_sq};

fn lanes(first: &[i16]) -> [i16; 16] {
    let mut v = [0i16; 16];
    for (i, x) in first.iter().enumerate() {
        v[i] = *x;
    }
    v
}

#[test]
fn distance_is_sum_of_squares() {
    let a = lanes(&[1, 2, 3]);
    let b = lanes(&[4, -2, 3]);
    assert_eq!(dist_sq_i16(&a, &b), 9 + 16);
    assert_eq!(dist_sq_i64(&a, &b), 25);
    assert_eq!(dist_sq_i16(&b, &a), 25);
    assert_eq!(dist_sq_i16(&a, &a), 0);
}

#[test]
fn distance_leaves_padding_lanes_out() {
    let mut a = [0i16; 16];
    a[14] = 100;
    a[15] = -100;
    assert_eq!(dist_sq_i16(&a, &[0; 16]), 0);
    a[13] = 7;
    assert_eq!(dist_sq_i16(&a, &[0; 16]), 49);
}

#[test]
fn largest_normalised_distance_fits() {
    let mut lo = [0i16; 16];
    let mut hi = [0i16; 16];
    for i in 0..14 {
        hi[i] = 10000;
    }
    lo[5] = -10000;
    lo[6] = -10000;
    assert_eq!(dist_sq_i16(&lo, &hi), 2_000_000_000);
}

#[test]
fn wide_distance_holds_every_pair() {
    let lo = [i16::MIN; 16];
    let hi = [i16::MAX; 16];
    assert_eq!(dist_sq_i64(&lo, &hi), 14 * 65535i64 * 65535);
}

#[test]
fn triangle_inequality_on_values() {
    let q = lanes(&[3, 9, -4]);
    let v = lanes(&[-5, 2, 8]);
    let x = lanes(&[1, 1, 1]);
    let qv = dist_sq_i64(&q, &v);
    let vx = dist_sq_i64(&v, &x);
    let qx = dist_sq_i64(&q, &x);
    assert!((qv - vx - qx) * (qv - vx - qx) <= 4 * vx * qx);
}

#[test]
fn bbox_of_points() {
    let points = vec![(lanes(&[1, 5, -3]), 0u8), (lanes(&[4, -2, 8]), 1), (lanes(&[2, 0, 0]), 0)];
    let (min, max) = compute_bbox(&points);
    assert_eq!(min, lanes(&[1, -2, -3]));
    assert_eq!(max, lanes(&[4, 5, 8]));
}

#[test]
fn bbox_padding_is_zero() {
    let mut v = [9i16; 16];
    v[14] = 3;
    v[15] = -3;
    let (min, max) = compute_bbox(&[(v, 0u8)]);
    assert_eq!(&min[..14], &[9; 14]);
    assert_eq!(&max[..14], &[9; 14]);
    assert_eq!((min[14], min[15], max[14], max[15]), (0, 0, 0, 0));
}

#[test]
fn bbox_of_nothing_is_inside_out() {
    let (min, max) = compute_bbox(&[]);
    assert_eq!(min[0], i16::MAX);
    assert_eq!(max[13], i16::MIN);
    assert_eq!(min[14], 0);
}

#[test]
fn box_bound_inside_and_outside() {
    let min = lanes(&[0, 0, 0]);
    let max = lanes(&[10, 10, 10]);
    assert_eq!(lb_box_sq(&lanes(&[5, 0, 10]), &min, &max), 0);
    assert_eq!(lb_box_sq(&lanes(&[-3, 14, 5]), &min, &max), 9 + 16);
}

#[test]
fn box_bound_is_cut_off() {
    assert_eq!(lb_box_sq(&[i16::MAX; 16], &[i16::MIN; 16], &[i16::MIN; 16]), i32::MAX);
}

#[test]
fn box_bound_is_below_distance() {
    let points = vec![(lanes(&[1, 5, -3]), 0u8), (lanes(&[4, -2, 8]), 1)];
    let (min, max) = compute_bbox(&points);
    let q = lanes(&[20, 30, -40]);
    for (v, _) in &points {
        assert!(lb_box_sq(&q, &min, &max) <= dist_sq_i16(&q, v));
    }
}
