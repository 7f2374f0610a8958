//! Conditions on points.

use vectordb::json::{Json, Num, Number};
use vectordb::{Condition, ExternalId};

fn string(s: &str) -> Json {
    Json::Str(s.to_string())
}

fn number(value: Num, text: &str) -> Json {
    Json::Number(Number {
        value,
        text: text.to_string(),
    })
}

fn object(fields: Vec<(&str, Json)>) -> Option<Json> {
    Some(Json::Object(
        fields
            .into_iter()
            .map(|(k, v)| (k.to_string(), v))
            .collect(),
    ))
}

fn eval(c: &Condition, payload: &Option<Json>) -> bool {
    c.eval(&ExternalId::Num(1), payload)
}

fn bits(x: f64) -> Option<u64> {
    Some(x.to_bits())
}

#[test]
fn field_ops() {
    let p = object(vec![
        ("lang", string("en")),
        ("year", number(Num::PosInt(2023), "2023")),
        ("tags", Json::Array(vec![string("a"), string("b")])),
        ("nul", Json::Null),
    ]);
    assert!(eval(&Condition::matches("lang", string("en")), &p));
    assert!(!eval(&Condition::matches("lang", string("zh")), &p));
    assert!(eval(&Condition::matches("tags", string("a")), &p));
    assert!(eval(
        &Condition::range("year", None, bits(2020.0), bits(2025.0), None),
        &p
    ));
    assert!(!eval(
        &Condition::range("year", None, None, None, bits(2020.0)),
        &p
    ));
    assert!(eval(&Condition::has_field("lang"), &p));
    assert!(!eval(&Condition::has_field("nul"), &p));
    assert!(!eval(&Condition::has_field("missing"), &p));
    assert!(!eval(&Condition::matches("lang", string("en")), &None));
}

#[test]
fn boolean_ops() {
    let p = object(vec![("lang", string("en"))]);
    let en = || Condition::matches("lang", string("en"));
    let zh = || Condition::matches("lang", string("zh"));
    assert!(eval(&Condition::all(vec![en()]), &p));
    assert!(!eval(&Condition::all(vec![en(), zh()]), &p));
    assert!(eval(&Condition::any(vec![zh(), en()]), &p));
    assert!(eval(&!zh(), &p));
    assert!(eval(&Condition::All { of: vec![] }, &p));
    assert!(!eval(&Condition::Any { of: vec![] }, &p));
}

#[test]
fn has_id() {
    let c = Condition::HasId {
        ids: vec![ExternalId::Num(1), ExternalId::Str("x".to_string())],
    };
    assert!(c.eval(&ExternalId::Num(1), &None));
    assert!(!c.eval(&ExternalId::Num(2), &None));
    assert!(c.eval(&ExternalId::Str("x".to_string()), &None));
}

#[test]
fn bounds_of_ranges() {
    let p = object(vec![
        ("n", number(Num::PosInt(5), "5")),
        ("m", number(Num::NegInt(-3), "-3")),
        ("x", number(Num::Float(2.5f64.to_bits()), "2.5")),
        ("s", string("5")),
        ("a", Json::Array(vec![number(Num::PosInt(5), "5")])),
    ]);
    let r = |f: &str, gt, gte, lt, lte| eval(&Condition::range(f, gt, gte, lt, lte), &p);
    assert!(!r("n", bits(5.0), None, None, None));
    assert!(r("n", None, bits(5.0), None, None));
    assert!(!r("n", None, None, bits(5.0), None));
    assert!(r("n", None, None, None, bits(5.0)));
    assert!(r("n", None, None, None, None));
    assert!(r("m", bits(-3.5), None, bits(-2.5), None));
    assert!(r("x", None, bits(2.5), None, bits(2.5)));
    assert!(r("x", bits(-0.0), None, None, None));
    assert!(!r("x", None, None, None, bits(f64::NAN)));
    assert!(!r("s", None, None, None, None));
    assert!(!r("missing", None, None, None, None));
}

#[test]
fn numbers_match_by_value_and_kind() {
    let p = object(vec![("n", number(Num::PosInt(1), "1"))]);
    assert!(eval(
        &Condition::matches("n", number(Num::PosInt(1), "1")),
        &p
    ));
    assert!(!eval(
        &Condition::matches("n", number(Num::Float(1.0f64.to_bits()), "1.0")),
        &p
    ));
    let list = object(vec![(
        "n",
        Json::Array(vec![number(Num::PosInt(1), "1"), Json::Bool(true)]),
    )]);
    assert!(eval(&Condition::matches("n", Json::Bool(true)), &list));
    assert!(!eval(&Condition::matches("n", Json::Bool(false)), &list));
}

#[test]
fn payloads_that_are_no_objects_have_no_fields() {
    assert!(!eval(&Condition::has_field("x"), &Some(string("x"))));
    assert!(!eval(&Condition::has_field("x"), &Some(Json::Null)));
    assert!(eval(&!Condition::has_field("x"), &None));
}
