use huectl::order::{id_key_le, sort_by_numeric_id};
use huectl::rule::Rule;

fn rule(id: &str) -> Rule {
    Rule { id: id.to_string(), name: format!("rule {}", id), actions: vec![], conditions: vec![] }
}

fn ids(rules: &[Rule]) -> Vec<String> {
    rules.iter().map(|r| r.id.clone()).collect()
}

#[test]
fn numeric_sort_orders_ids_by_value() {
    let sorted = sort_by_numeric_id(vec![rule("10"), rule("2"), rule("1")]);
    assert_eq!(ids(&sorted), vec!["1", "2", "10"]);
}

#[test]
fn non_numeric_id_sorts_as_zero() {
    let sorted = sort_by_numeric_id(vec![rule("5"), rule("abc"), rule("-3")]);
    assert_eq!(ids(&sorted), vec!["-3", "abc", "5"]);
}

#[test]
fn equal_keys_keep_their_order() {
    let sorted = sort_by_numeric_id(vec![rule("7"), rule("b"), rule("0"), rule("a"), rule("-1")]);
    assert_eq!(ids(&sorted), vec!["-1", "b", "0", "a", "7"]);
}

#[test]
fn sort_of_empty_is_empty() {
    assert!(sort_by_numeric_id(vec![]).is_empty());
}

#[test]
fn sort_keeps_every_rule() {
    let sorted = sort_by_numeric_id(vec![rule("3"), rule("3"), rule("1")]);
    assert_eq!(ids(&sorted), vec!["1", "3", "3"]);
}

#[test]
fn large_ids_sort_by_value() {
    let sorted = sort_by_numeric_id(vec![rule("3000000000"), rule("10")]);
    assert_eq!(ids(&sorted), vec!["10", "3000000000"]);
    let sorted = sort_by_numeric_id(vec![
        rule("100000000000000000000000000000000000000001"),
        rule("-99999999999999999999999999999999999999999999"),
        rule("x"),
        rule("99999999999999999999999999999999999999999"),
        rule("-2147483649"),
    ]);
    assert_eq!(
        ids(&sorted),
        vec![
            "-99999999999999999999999999999999999999999999",
            "-2147483649",
            "x",
            "99999999999999999999999999999999999999999",
            "100000000000000000000000000000000000000001",
        ]
    );
}

fn key_eq(a: &str, b: &str) -> bool {
    id_key_le(a, b) && id_key_le(b, a)
}

#[test]
fn key_of_plain_decimal() {
    assert!(key_eq("007", "7"));
    assert!(key_eq("0", "000"));
    assert!(id_key_le("9", "10"));
    assert!(!id_key_le("10", "9"));
}

#[test]
fn key_of_signed_decimal() {
    assert!(key_eq("+7", "7"));
    assert!(key_eq("-0", "0"));
    assert!(key_eq("-0", "+000"));
    assert!(id_key_le("-15", "-14"));
    assert!(!id_key_le("-14", "-15"));
    assert!(id_key_le("-1", "0"));
    assert!(!id_key_le("1", "-1"));
}

#[test]
fn key_beyond_machine_integers() {
    assert!(!id_key_le("3000000000", "10"));
    assert!(id_key_le("10", "3000000000"));
    assert!(!id_key_le("2147483648", "2147483647"));
    assert!(id_key_le("-2147483649", "-2147483648"));
    assert!(!id_key_le("99999999999999999999999", "0"));
    assert!(key_eq("000099999999999999999999999", "99999999999999999999999"));
    assert!(id_key_le("99999999999999999999998", "99999999999999999999999"));
    assert!(!id_key_le("99999999999999999999999", "99999999999999999999998"));
}

#[test]
fn key_of_non_numeric_is_zero() {
    for s in ["", "+", "-", "1a", " 1", "--1", "\u{0663}", "1_0", "abc"] {
        assert!(key_eq(s, "0"), "id {:?}", s);
    }
    assert!(id_key_le("abc", "1"));
    assert!(id_key_le("-1", "abc"));
}

#[test]
fn key_agrees_with_integer_order() {
    let ids = ["12", "+3", "-4", "x", "", "2147483647", "-2147483648", "0", "-0", "99"];
    for a in ids {
        for b in ids {
            let ka = a.parse::<i64>().unwrap_or(0);
            let kb = b.parse::<i64>().unwrap_or(0);
            assert_eq!(id_key_le(a, b), ka <= kb, "ids {:?} {:?}", a, b);
        }
    }
}
