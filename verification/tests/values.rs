use my_db::db_types::{int_to_text, is_float_text, parse_i64, DataType};

#[test]
fn integers_parse_like_std() {
    assert_eq!(parse_i64("10"), Some(10));
    assert_eq!(parse_i64("+10"), Some(10));
    assert_eq!(parse_i64("-10"), Some(-10));
    assert_eq!(parse_i64("007"), Some(7));
    assert_eq!(parse_i64("-0"), Some(0));
    assert_eq!(parse_i64("9223372036854775807"), Some(i64::MAX));
    assert_eq!(parse_i64("-9223372036854775808"), Some(i64::MIN));
    assert_eq!(parse_i64("9223372036854775808"), None);
    assert_eq!(parse_i64("-9223372036854775809"), None);
    assert_eq!(parse_i64("99999999999999999999999"), None);
    assert_eq!(parse_i64(""), None);
    assert_eq!(parse_i64("+"), None);
    assert_eq!(parse_i64("-"), None);
    assert_eq!(parse_i64("1 "), None);
    assert_eq!(parse_i64(" 1"), None);
    assert_eq!(parse_i64("1a"), None);
    assert_eq!(parse_i64("+-1"), None);
    for s in ["0", "12", "-5", "+7", "123456789", "x", "", "1e3", "-"] {
        assert_eq!(parse_i64(s), s.parse::<i64>().ok(), "{}", s);
    }
}

#[test]
fn integer_text_matches_display() {
    for v in [0i64, 7, -7, 10, 1234567890, i64::MAX, i64::MIN, -1] {
        assert_eq!(int_to_text(v), v.to_string());
    }
}

#[test]
fn float_literals_follow_std_grammar() {
    let cases = [
        "1.5", "1.", ".5", ".", "1e5", "1E5", "1e+5", "1e-5", "1e", "e5", "1.e3", ".e3", "inf",
        "-inf", "+Infinity", "INFINITY", "NaN", "nan", "-nan", "infin", "1.2.3", "1_000", "",
        "+", "-.5", "0x10", "12", "1e5e5", " 1.5", "1.5 ",
    ];
    for s in cases {
        assert_eq!(is_float_text(s), s.parse::<f64>().is_ok(), "{}", s);
    }
}

#[test]
fn values_read_from_text() {
    assert!(matches!(DataType::from_text("10"), DataType::Integer { value: 10 }));
    assert!(matches!(DataType::from_text("-3"), DataType::Integer { value: -3 }));
    match DataType::from_text("3.5") {
        DataType::Float { text } => assert_eq!(text, "3.5"),
        other => panic!("{:?}", other),
    }
    match DataType::from_text("inf") {
        DataType::Float { text } => assert_eq!(text, "inf"),
        other => panic!("{:?}", other),
    }
    match DataType::from_text("hello world") {
        DataType::Text { value } => assert_eq!(value, "hello world"),
        other => panic!("{:?}", other),
    }
    match DataType::from_text("9223372036854775808") {
        DataType::Float { text } => assert_eq!(text, "9223372036854775808"),
        other => panic!("{:?}", other),
    }
}

#[test]
fn values_have_text() {
    assert_eq!(DataType::from(-42i64).to_str(), "-42");
    assert_eq!(DataType::from("Alice".to_string()).to_str(), "Alice");
    assert_eq!(DataType::Float { text: 0.25f64.to_string() }.to_str(), "0.25");
}

#[test]
fn canonical_texts_round_trip() {
    for v in [0i64, 10, -10, i64::MIN, i64::MAX] {
        let back = DataType::from_text(&DataType::from(v).to_str());
        assert!(matches!(back, DataType::Integer { value } if value == v));
    }
}

#[test]
fn values_parse_through_from_str_trait() {
    let v: DataType = "12".parse().unwrap();
    assert!(matches!(v, DataType::Integer { value: 12 }));
    let v: DataType = "twelve".parse().unwrap();
    assert_eq!(v.to_str(), "twelve");
}
