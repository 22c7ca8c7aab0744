use rinha::references::{
    check_readable, read_item, read_items, read_references, RawReference, ReferenceError,
};

fn lanes(numbers: &[f64]) -> [u64; 14] {
    let mut lanes = [0u64; 14];
    for (lane, x) in lanes.iter_mut().zip(numbers) {
        *lane = x.to_bits();
    }
    lanes
}

fn read(text: &str) -> Result<Vec<([u64; 14], u8)>, ReferenceError> {
    assert!(check_readable(text.as_bytes()));
    read_references(text.as_bytes())
}

#[test]
fn references_in_order() {
    let text = r#"[
        {"vector": [0.5, -1, 0.25], "label": "fraud"},
        {"label": "legit", "vector": [1, 2, 3, 4, 5, 6, 7, 8, 9, 10, 11, 12, 13, 14]}
    ]"#;
    assert_eq!(
        read(text),
        Ok(vec![
            (lanes(&[0.5, -1.0, 0.25]), 1),
            (
                lanes(&[
                    1.0, 2.0, 3.0, 4.0, 5.0, 6.0, 7.0, 8.0, 9.0, 10.0, 11.0, 12.0, 13.0, 14.0
                ]),
                0
            ),
        ])
    );
}

#[test]
fn no_references() {
    assert_eq!(read("[]"), Ok(vec![]));
    assert_eq!(read(" [ ] "), Ok(vec![]));
}

#[test]
fn further_numbers_are_left_out() {
    let text = r#"[{"vector":[0,0,0,0,0,0,0,0,0,0,0,0,0,1,2,3]}]"#;
    let mut expected = [0u64; 14];
    expected[13] = 1.0f64.to_bits();
    assert_eq!(read(text), Ok(vec![(expected, 0)]));
}

#[test]
fn what_is_no_number_is_zero() {
    let text = r#"[{"vector":[null,"7",true,[1],0.5,{}],"label":"fraud"},{"vector":[]}]"#;
    assert_eq!(
        read(text),
        Ok(vec![(lanes(&[0.0, 0.0, 0.0, 0.0, 0.5]), 1), ([0; 14], 0)])
    );
}

#[test]
fn only_fraud_is_fraud() {
    for (label, expected) in [
        (r#""label":"fraud""#, 1),
        (r#""label":"legit""#, 0),
        (r#""label":"Fraud""#, 0),
        (r#""label":1"#, 0),
        (r#""label":null"#, 0),
        (r#""other":"fraud""#, 0),
        (r#""label":"\u0066raud""#, 1),
        (r#""label":"fraud ""#, 0),
    ] {
        let text = format!("[{{\"vector\":[],{label}}}]");
        assert_eq!(read(&text), Ok(vec![([0; 14], expected)]));
    }
}

#[test]
fn text_that_is_not_json() {
    for text in ["", "[", "[1,]", "[{\"vector\":[}]", "[] x", "nonsense"] {
        assert_eq!(read(text), Err(ReferenceError::NotJson));
    }
    assert_eq!(read_references(b"[\"\xff\"]"), Err(ReferenceError::NotJson));
    assert_eq!(ReferenceError::NotJson.message(), "json parse error");
}

#[test]
fn text_that_is_no_array() {
    for text in ["{}", "{\"vector\":[]}", "null", "3", "\"[]\""] {
        assert_eq!(read(text), Err(ReferenceError::NotArray));
    }
    assert_eq!(ReferenceError::NotArray.message(), "expected array");
}

#[test]
fn items_without_a_vector() {
    for text in [
        r#"[{}]"#,
        r#"[{"vector":[1]},{"label":"fraud"}]"#,
        r#"[{"vector":3}]"#,
        r#"[{"vector":null}]"#,
        r#"[7]"#,
        r#"[[1,2]]"#,
    ] {
        assert_eq!(read(text), Err(ReferenceError::NoVector));
    }
    assert_eq!(ReferenceError::NoVector.message(), "vector field");
}

#[test]
fn items_that_were_parsed() {
    assert_eq!(read_items(&None), Err(ReferenceError::NotJson));
    assert_eq!(read_items(&Some(None)), Err(ReferenceError::NotArray));
    assert_eq!(read_items(&Some(Some(vec![]))), Ok(vec![]));
    let item = RawReference {
        numbers: Some(vec![Some(9), None, Some(8)]),
        label: Some("fraud".to_string()),
    };
    let mut expected = [0u64; 14];
    expected[0] = 9;
    expected[2] = 8;
    assert_eq!(read_item(&item), Some((expected, 1)));
    assert_eq!(read_item(&RawReference { numbers: None, label: None }), None);
    assert_eq!(read_items(&Some(Some(vec![item]))), Ok(vec![(expected, 1)]));
}

#[test]
fn nesting_is_limited() {
    let nested = |n: usize| format!("{}{}", "[".repeat(n), "]".repeat(n));
    assert!(check_readable(nested(32).as_bytes()));
    assert_eq!(read(&nested(32)), Err(ReferenceError::NoVector));
    assert!(!check_readable(nested(33).as_bytes()));
    let objects = format!("[{}1{}]", "{\"vector\":".repeat(31), "}".repeat(31));
    assert_eq!(read(&objects), Err(ReferenceError::NoVector));
    assert!(!check_readable("{\"a\":".repeat(33).as_bytes()));
    assert!(check_readable("[]".repeat(1000).as_bytes()));
}

#[test]
fn brackets_in_strings_do_not_nest() {
    let text = format!("[{{\"vector\":[],\"x\":\"\\\"{}\\\\\"}}]", "[".repeat(1000));
    assert_eq!(read(&text), Ok(vec![([0; 14], 0)]));
    let text = format!("[\"{}\",{}", "]".repeat(1000), "[".repeat(32));
    assert!(!check_readable(text.as_bytes()));
}
