use taco_pack::space::pack::taco_safe_name;
use taco_pack::space::pack::text::{eq_ignore_ascii_case, is_float_literal, parse_i32};

#[test]
fn safe_name_replaces_other_characters() {
    assert_eq!(taco_safe_name("Hello World!", false), "Hello_World_");
    assert_eq!(taco_safe_name("a.b c", true), "a.b_c");
    assert_eq!(taco_safe_name("a.b", false), "a_b");
    assert_eq!(taco_safe_name("été", false), "_t_");
    assert_eq!(taco_safe_name("", true), "");
    assert_eq!(taco_safe_name("Abc123", false), "Abc123");
}

#[test]
fn safe_name_is_idempotent() {
    for (s, full) in [("x y.z", true), ("x y.z", false), ("ü-ñ", true), ("tr.a il", false)] {
        let once = taco_safe_name(s, full);
        let twice = taco_safe_name(&once, full);
        assert_eq!(once, twice);
        assert_eq!(once.chars().count(), s.chars().count());
    }
}

#[test]
fn case_insensitive_comparison() {
    assert!(eq_ignore_ascii_case("MapID", "mapid"));
    assert!(eq_ignore_ascii_case("mapid", "MapID"));
    assert!(eq_ignore_ascii_case("", ""));
    assert!(!eq_ignore_ascii_case("map", "mapid"));
    assert!(!eq_ignore_ascii_case("É", "é"));
    assert!(eq_ignore_ascii_case("É", "É"));
    assert!(!eq_ignore_ascii_case("a", "b"));
}

#[test]
fn i32_parsing_agrees_with_std() {
    let cases = [
        "42", "-17", "+5", "", "-", "+", "2147483647", "2147483648", "-2147483648", "-2147483649",
        "12a", " 1", "1 ", "00012", "-0", "+-1", "99999999999999999999", "٣",
    ];
    for c in cases {
        assert_eq!(parse_i32(c), c.parse::<i32>().ok(), "text {:?}", c);
    }
    assert_eq!(parse_i32("-2147483648"), Some(i32::MIN));
    assert_eq!(parse_i32("2147483648"), None);
}

#[test]
fn float_literals_agree_with_std() {
    let cases = [
        "1", "1.", ".5", ".", "", "1e5", "1E-5", "1e", "e5", "inf", "-Infinity", "NaN", "+nan",
        "infin", "1.2.3", "1e5.0", " 1", "1 ", "1_000", "0x10", "+", "-", "-.5e+3", "12.75",
        "-0.0", "1e+", "1e-", "E", "3.40282347e38", "1e999", "infinityx", "INF", "+.e1", ".e1",
        "5.e3", "00.00",
    ];
    for c in cases {
        assert_eq!(is_float_literal(c), c.parse::<f32>().is_ok(), "text {:?}", c);
    }
}
