use rinha::features::{
    compute_partition_key, is_unknown_merchant, label_of, mcc_risk, quantize, quantize_vec,
    read_request,
};
use rinha::response::response;

fn key_of(v: [f32; 14]) -> u8 {
    compute_partition_key(&v.map(f32::to_bits))
}

#[test]
fn listed_categories() {
    let listed = [
        ("5411", 15),
        ("5812", 30),
        ("5912", 20),
        ("5944", 45),
        ("7801", 80),
        ("7802", 75),
        ("7995", 85),
        ("4511", 35),
        ("5311", 25),
        ("5999", 50),
    ];
    for (mcc, risk) in listed {
        assert_eq!(mcc_risk(mcc), risk);
    }
}

#[test]
fn other_categories_are_average() {
    for mcc in ["", "541", "54111", "0000", "5412", "é"] {
        assert_eq!(mcc_risk(mcc), 50);
    }
}

#[test]
fn unknown_merchants() {
    let known = vec!["m1".to_string(), "m2".to_string()];
    assert!(!is_unknown_merchant(&known, "m1"));
    assert!(!is_unknown_merchant(&known, "m2"));
    assert!(is_unknown_merchant(&known, "m3"));
    assert!(is_unknown_merchant(&known, "m"));
    assert!(is_unknown_merchant(&Vec::new(), "m1"));
}

#[test]
fn labels() {
    assert_eq!(label_of("fraud"), 1);
    assert_eq!(label_of("legit"), 0);
    assert_eq!(label_of("Fraud"), 0);
    assert_eq!(label_of(""), 0);
}

#[test]
fn quantised_values_are_clamped() {
    assert_eq!(quantize(5000), 5000);
    assert_eq!(quantize(-10000), -10000);
    assert_eq!(quantize(32766), 32766);
    assert_eq!(quantize(32767), 32767);
    assert_eq!(quantize(1_000_000), 32767);
    assert_eq!(quantize(-32768), -32768);
    assert_eq!(quantize(i32::MIN), -32768);
}

#[test]
fn quantised_vector_is_padded() {
    let mut scaled = [0i32; 14];
    scaled[0] = 1;
    scaled[13] = 40000;
    let q = quantize_vec(&scaled);
    assert_eq!(q[0], 1);
    assert_eq!(q[13], 32767);
    assert_eq!((q[14], q[15]), (0, 0));
}

#[test]
fn key_of_nothing_special() {
    let mut v = [0.0f32; 14];
    v[5] = -1.0;
    assert_eq!(key_of(v), 0);
}

#[test]
fn each_bit_of_a_key() {
    let mut base = [0.0f32; 14];
    base[5] = -1.0;
    let with = |i: usize, x: f32| {
        let mut v = base;
        v[i] = x;
        key_of(v)
    };
    assert_eq!(with(5, 0.0), 1);
    assert_eq!(with(5, -0.0), 1);
    assert_eq!(with(5, 0.7), 1);
    assert_eq!(with(9, 1.0), 2);
    assert_eq!(with(10, 1.0), 4);
    assert_eq!(with(11, 1.0), 8);
    assert_eq!(with(2, 0.6), 64);
    assert_eq!(with(8, 0.55), 128);
    assert_eq!(with(2, 0.5), 0);
    assert_eq!(with(8, -3.0), 0);
    assert_eq!(with(9, f32::NAN), 0);
    assert_eq!(with(5, f32::NAN), 0);
    assert_eq!(with(9, f32::INFINITY), 2);
    assert_eq!(with(9, f32::NEG_INFINITY), 0);
}

#[test]
fn levels_of_risk() {
    let mut v = [0.0f32; 14];
    v[5] = -1.0;
    let levels = [
        (0.0f32, 0),
        (-1.0, 0),
        (0.15, 0),
        (0.2, 0),
        (0.20001, 1),
        (0.5, 1),
        (0.500001, 2),
        (0.8, 2),
        (0.85, 3),
        (f32::NAN, 3),
        (f32::NEG_INFINITY, 0),
        (f32::INFINITY, 3),
    ];
    for (risk, level) in levels {
        v[12] = risk;
        assert_eq!(key_of(v), 16 * level);
    }
}

#[test]
fn all_bits_of_a_key() {
    assert_eq!(key_of([1.0; 14]), 255);
}

#[test]
fn hundredths_give_the_listed_risks() {
    let listed = [(15, 0.15f32), (30, 0.30), (20, 0.20), (45, 0.45), (80, 0.80), (75, 0.75)];
    for (hundredths, risk) in listed {
        assert_eq!(hundredths as f32 / 100.0, risk);
    }
    for (hundredths, risk) in [(85, 0.85f32), (35, 0.35), (25, 0.25), (50, 0.50)] {
        assert_eq!(hundredths as f32 / 100.0, risk);
    }
}

#[test]
fn readings_of_a_request() {
    let known = vec!["m1".to_string()];
    let r = read_request(
        "2026-03-11T18:45:53Z",
        Some("2026-03-11T18:40:53Z"),
        &known,
        "m2",
        "7995",
    );
    assert_eq!((r.hour, r.weekday), (18, 2));
    assert_eq!(r.since_last, Some(300));
    assert!(r.unknown_merchant);
    assert_eq!(r.risk, 85);
    let r = read_request("2026-03-11T18:45:53Z", None, &known, "m1", "");
    assert_eq!(r.since_last, None);
    assert!(!r.unknown_merchant);
    assert_eq!(r.risk, 50);
}

#[test]
fn six_answers() {
    assert_eq!(response(0), "{\"approved\":true,\"fraud_score\":0.0}");
    assert_eq!(response(1), "{\"approved\":true,\"fraud_score\":0.2}");
    assert_eq!(response(2), "{\"approved\":true,\"fraud_score\":0.4}");
    assert_eq!(response(3), "{\"approved\":false,\"fraud_score\":0.6}");
    assert_eq!(response(4), "{\"approved\":false,\"fraud_score\":0.8}");
    assert_eq!(response(5), "{\"approved\":false,\"fraud_score\":1.0}");
}
