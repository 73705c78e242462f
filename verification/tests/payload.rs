use std::sync::Arc;

use vecvec::payload::{
    Condition, Field, Filter, FilterQuery, JsonNumber, JsonValue, PayloadMap, Range,
};
use vecvec::OrderedF64;

fn float(x: f64) -> OrderedF64 {
    OrderedF64::new(x.to_bits())
}

fn text(s: &str) -> JsonValue {
    JsonValue::Text(s.to_string())
}

fn whole(n: u64) -> JsonValue {
    JsonValue::Number(JsonNumber::PosInt(n))
}

fn fraction(x: f64) -> JsonValue {
    JsonValue::Number(JsonNumber::Float(float(x)))
}

fn object(fields: Vec<(&str, JsonValue)>) -> JsonValue {
    JsonValue::Object(
        fields
            .into_iter()
            .map(|(name, value)| Field { name: name.to_string(), value })
            .collect(),
    )
}

fn payload(v: JsonValue) -> PayloadMap {
    let mut m = PayloadMap::new();
    m.insert(1, Arc::new(v));
    m
}

fn is(key: &str, value: JsonValue) -> Condition {
    Condition { key: key.to_string(), match_value: Some(value), range: None }
}

fn within(key: &str, range: Range) -> Condition {
    Condition { key: key.to_string(), match_value: None, range: Some(range) }
}

fn passes(filter: &Filter, payloads: &PayloadMap, id: u64) -> bool {
    FilterQuery { filter, payloads }.matches(id)
}

#[test]
fn match_and_range() {
    let payloads = payload(object(vec![("color", text("red")), ("price", fraction(12.5))]));
    let red = Filter { must: vec![is("color", text("red"))], ..Default::default() };
    assert!(passes(&red, &payloads, 1));

    let cheap = Filter {
        must: vec![within(
            "price",
            Range { lt: Some(float(20.0)), gte: Some(float(10.0)), ..Default::default() },
        )],
        ..Default::default()
    };
    assert!(passes(&cheap, &payloads, 1));

    let expensive = Filter {
        must: vec![within("price", Range { gt: Some(float(100.0)), ..Default::default() })],
        ..Default::default()
    };
    assert!(!passes(&expensive, &payloads, 1));
}

#[test]
fn should_and_must_not() {
    let payloads = payload(object(vec![("tag", text("b"))]));
    let f = Filter {
        should: vec![is("tag", text("a")), is("tag", text("b"))],
        must_not: vec![is("tag", text("c"))],
        ..Default::default()
    };
    assert!(passes(&f, &payloads, 1));
    // A point with no payload (id 99) fails the `should`.
    assert!(!passes(&f, &payloads, 99));
}

#[test]
fn match_int_vs_float_equality() {
    // `match` is type-sensitive: an int filter only matches an int-stored value (and
    // float only float).
    let int_stored = payload(object(vec![("n", whole(3))]));
    let float_stored = payload(object(vec![("n", fraction(3.0))]));

    let cond = |val: JsonValue| Filter { must: vec![is("n", val)], ..Default::default() };

    // Same type on both sides matches.
    assert!(passes(&cond(whole(3)), &int_stored, 1));
    assert!(passes(&cond(fraction(3.0)), &float_stored, 1));
    // Crossing int/float does NOT match (documents the typing footgun).
    assert!(!passes(&cond(fraction(3.0)), &int_stored, 1));
    assert!(!passes(&cond(whole(3)), &float_stored, 1));
}

#[test]
fn must_not_does_not_exclude_missing_field() {
    let payloads = payload(object(vec![("tag", text("b"))]));
    let f = Filter { must_not: vec![is("other", text("x"))], ..Default::default() };
    // Point lacks "other" -> must_not doesn't fire -> passes.
    assert!(passes(&f, &payloads, 1));
    // A point with no payload at all also passes a pure must_not filter.
    assert!(passes(&f, &payloads, 99));

    // must + must_not + should evaluated together on one payload, all satisfied.
    let combined = Filter {
        must: vec![is("tag", text("b"))],
        should: vec![is("tag", text("b"))],
        must_not: vec![is("missing", text("z"))],
    };
    assert!(passes(&combined, &payloads, 1));
}

#[test]
fn ranges_compare_integers_as_numbers() {
    let payloads = payload(object(vec![("n", whole(10)), ("m", text("10"))]));
    let at = |range: Range, key: &str| {
        let f = Filter { must: vec![within(key, range)], ..Default::default() };
        passes(&f, &payloads, 1)
    };
    assert!(at(Range { gte: Some(float(10.0)), lte: Some(float(10.0)), ..Default::default() }, "n"));
    assert!(!at(Range { gt: Some(float(10.0)), ..Default::default() }, "n"));
    assert!(!at(Range { lt: Some(float(10.0)), ..Default::default() }, "n"));
    assert!(!at(Range { lt: Some(float(f64::NAN)), ..Default::default() }, "n"));
    // A string is no number, and an absent field meets no range.
    assert!(!at(Range::default(), "m"));
    assert!(!at(Range::default(), "missing"));
    assert!(at(Range::default(), "n"));
}

#[test]
fn empty_filter_admits_everything() {
    let payloads = payload(object(vec![]));
    let f = Filter::default();
    assert!(f.is_empty());
    assert!(passes(&f, &payloads, 1));
    assert!(passes(&f, &payloads, 2));
}

#[test]
fn equality_is_deep_and_ignores_field_order() {
    let a = object(vec![("x", whole(1)), ("y", JsonValue::Array(vec![JsonValue::Null, text("s")]))]);
    let b = object(vec![("y", JsonValue::Array(vec![JsonValue::Null, text("s")])), ("x", whole(1))]);
    let c = object(vec![("y", JsonValue::Array(vec![text("s"), JsonValue::Null])), ("x", whole(1))]);
    assert!(a.equals(&b));
    assert!(!a.equals(&c));
    assert!(!a.equals(&object(vec![("x", whole(1))])));
    assert!(fraction(0.0).equals(&fraction(-0.0)));
    assert!(!fraction(f64::NAN).equals(&fraction(f64::NAN)));
    assert!(!JsonValue::Bool(true).equals(&JsonValue::Bool(false)));
    let minus = JsonValue::Number(JsonNumber::NegInt(-1));
    assert!(!minus.equals(&whole(1)));
    assert_eq!(minus.as_f64(), Some(float(-1.0)));
    assert_eq!(text("1").as_f64(), None);
    assert!(a.get(&"x".to_string()).unwrap().equals(&whole(1)));
    assert!(a.get(&"z".to_string()).is_none());
}
