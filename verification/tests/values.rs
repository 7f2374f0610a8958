//! Names, identifiers, numbers, texts and bytes.

use vectordb::batch::{Batch, BATCH};
use vectordb::api::{
    index_kind_name, metric_name, parse_id, parse_json_id, parse_metric, status_code,
};
use vectordb::bytes::{push_bytes, push_u16, push_u32, push_u32s, Reader};
use vectordb::error::{Invalid, IoError};
use vectordb::float;
use vectordb::json::{Json, Num, Number};
use vectordb::text::{is_before, is_same, read_digits, read_number, write_decimal};
use vectordb::{Error, ExternalId, HnswParams, IndexKind, Metric};

fn number(value: Num, text: &str) -> Json {
    Json::Number(Number {
        value,
        text: text.to_string(),
    })
}

fn from_value(v: &serde_json::Value) -> Json {
    match v {
        serde_json::Value::Null => Json::Null,
        serde_json::Value::Bool(b) => Json::Bool(*b),
        serde_json::Value::Number(n) => Json::Number(Number {
            value: match (n.as_u64(), n.as_i64()) {
                (Some(x), _) => Num::PosInt(x),
                (None, Some(x)) => Num::NegInt(x),
                (None, None) => Num::Float(n.as_f64().unwrap().to_bits()),
            },
            text: n.to_string(),
        }),
        serde_json::Value::String(s) => Json::Str(s.clone()),
        serde_json::Value::Array(a) => Json::Array(a.iter().map(from_value).collect()),
        serde_json::Value::Object(o) => {
            Json::Object(o.iter().map(|(k, v)| (k.clone(), from_value(v))).collect())
        }
    }
}

#[test]
fn names_of_metrics() {
    for (text, metric) in [
        ("l2", Metric::L2),
        ("L2", Metric::L2),
        ("cosine", Metric::Cosine),
        ("Cosine", Metric::Cosine),
        ("dot", Metric::Dot),
        ("DOT", Metric::Dot),
    ] {
        assert_eq!(parse_metric(text).unwrap(), metric);
    }
    for m in [Metric::L2, Metric::Cosine, Metric::Dot] {
        assert_eq!(parse_metric(metric_name(m)).unwrap(), m);
    }
    match parse_metric("Euclid") {
        Err(Error::Invalid(Invalid::UnknownMetric(s))) => assert_eq!(s, "Euclid"),
        other => panic!("{other:?}"),
    }
}

#[test]
fn names_of_indexes() {
    assert_eq!(index_kind_name(&IndexKind::Flat), "flat");
    let params = HnswParams::default();
    assert_eq!(index_kind_name(&IndexKind::Hnsw { params }), "hnsw");
    assert_eq!(
        (params.m, params.m0, params.ef_construct, params.ef_search),
        (16, 32, 128, 512)
    );
    assert_eq!(params.max_links(0), 32);
    assert_eq!(params.max_links(1), 16);
}

#[test]
fn identifiers_in_texts() {
    assert_eq!(parse_id("12"), ExternalId::Num(12));
    assert_eq!(parse_id("-12"), ExternalId::Num(-12));
    assert_eq!(parse_id("+12"), ExternalId::Num(12));
    assert_eq!(
        parse_id("-9223372036854775808"),
        ExternalId::Num(i64::MIN)
    );
    assert_eq!(
        parse_id("9223372036854775808"),
        ExternalId::Str("9223372036854775808".to_string())
    );
    assert_eq!(parse_id("\"12\""), ExternalId::Str("12".to_string()));
    assert_eq!(parse_id("a b"), ExternalId::Str("a b".to_string()));
    assert_eq!(parse_id("-"), ExternalId::Str("-".to_string()));
    assert_eq!(parse_id(""), ExternalId::Str(String::new()));
}

#[test]
fn identifiers_in_values() {
    assert_eq!(
        parse_json_id(&number(Num::PosInt(7), "7")).unwrap(),
        ExternalId::Num(7)
    );
    assert_eq!(
        parse_json_id(&number(Num::NegInt(-7), "-7")).unwrap(),
        ExternalId::Num(-7)
    );
    assert_eq!(
        parse_json_id(&Json::Str("7".to_string())).unwrap(),
        ExternalId::Str("7".to_string())
    );
    assert!(matches!(
        parse_json_id(&number(Num::PosInt(u64::MAX), "18446744073709551615")),
        Err(Error::Invalid(Invalid::IdRange))
    ));
    assert!(matches!(
        parse_json_id(&number(Num::Float(1.5f64.to_bits()), "1.5")),
        Err(Error::Invalid(Invalid::IdRange))
    ));
    assert!(matches!(
        parse_json_id(&Json::Bool(true)),
        Err(Error::Invalid(Invalid::IdType))
    ));
}

#[test]
fn kinds_of_identifiers() {
    let n = ExternalId::from(5i64);
    let s = ExternalId::from("five");
    assert_eq!(n.as_num(), Some(5));
    assert_eq!(n.as_str(), None);
    assert_eq!(s.as_num(), None);
    assert_eq!(s.as_str(), Some("five"));
    assert!(s.same(&ExternalId::from("five".to_string())));
    assert!(!s.same(&n));
}

#[test]
fn codes_of_errors() {
    let name = || "c".to_string();
    assert_eq!(status_code(&Error::CollectionNotFound(name())), 404);
    assert_eq!(status_code(&Error::CollectionExists(name())), 409);
    assert_eq!(
        status_code(&Error::DimensionMismatch {
            expected: 1,
            got: 2
        }),
        400
    );
    assert_eq!(status_code(&Error::Invalid(Invalid::ZeroTopK)), 400);
    assert_eq!(status_code(&Error::Io(IoError::Other)), 500);
    assert_eq!(status_code(&Error::Serde(name())), 500);
}

#[test]
fn decimal_texts() {
    for n in [0u64, 7, 10, 999, 1000, u64::MAX] {
        assert_eq!(write_decimal(n), n.to_string());
        assert_eq!(read_number(&n.to_string()), Some(n));
    }
    for t in ["", "+", "-1", "1 ", "18446744073709551616", "+5", "007"] {
        assert_eq!(read_number(t), t.parse::<u64>().ok(), "{t:?}");
    }
    assert_eq!(read_digits("042"), Some(42));
    assert_eq!(read_digits("4x"), None);
}

#[test]
fn order_of_texts() {
    for a in ["", "a", "ab", "b", "\u{e9}", "\u{1f600}"] {
        for b in ["", "a", "ab", "b", "\u{e9}", "\u{1f600}"] {
            assert_eq!(is_before(a, b), a < b, "{a:?} {b:?}");
            assert_eq!(is_same(a, b), a == b);
        }
    }
}

#[test]
fn order_of_numbers() {
    let singles = [
        f32::NEG_INFINITY,
        -1.5,
        -0.0,
        0.0,
        1.0e-40,
        1.5,
        f32::INFINITY,
        f32::NAN,
    ];
    for a in singles {
        for b in singles {
            let (x, y) = (a.to_bits(), b.to_bits());
            assert_eq!(float::lt(x, y), a < b, "{a} {b}");
            assert_eq!(float::le(x, y), a <= b, "{a} {b}");
            assert_eq!(
                float::wide_lt((a as f64).to_bits(), (b as f64).to_bits()),
                a < b
            );
            assert_eq!(
                float::wide_le((a as f64).to_bits(), (b as f64).to_bits()),
                a <= b
            );
            assert_eq!(
                float::wide_eq((a as f64).to_bits(), (b as f64).to_bits()),
                a == b
            );
            assert_eq!(
                float::ranked_before(x, y),
                a.total_cmp(&b) == std::cmp::Ordering::Less
            );
        }
        assert_eq!(float::negate(a.to_bits()), (-a).to_bits());
        assert_eq!(float::is_nan(a.to_bits()), a.is_nan());
    }
}

#[test]
fn integers_as_doubles() {
    for n in [
        0u64,
        1,
        2,
        3,
        (1 << 53) - 1,
        1 << 53,
        (1 << 53) + 1,
        (1 << 53) + 2,
        (1 << 53) + 3,
        (1 << 54) + 6,
        u64::MAX - 1024,
        u64::MAX - 1023,
        u64::MAX,
    ] {
        assert_eq!(Num::PosInt(n).as_double(), (n as f64).to_bits(), "{n}");
    }
    for n in [-1i64, -3, i64::MIN, i64::MIN + 1, -(1 << 53) - 1] {
        assert_eq!(Num::NegInt(n).as_double(), (n as f64).to_bits(), "{n}");
    }
    assert_eq!(Num::Float(77).as_double(), 77);
}

#[test]
fn lengths_of_values_as_text() {
    for t in [
        "null",
        "true",
        "false",
        "12",
        "-3",
        "1.5",
        "1e300",
        "\"\"",
        "\"a\\n\\u0001\\\"\\\\\u{e9}\"",
        "[]",
        "[1,\"b\",[null]]",
        "{}",
        "{\"a\":{\"b\\t\":[true,false]},\"c\":0.25}",
    ] {
        let v: serde_json::Value = serde_json::from_str(t).unwrap();
        let text = serde_json::to_string(&v).unwrap();
        assert_eq!(from_value(&v).text_len(), text.len() as u64, "{t}");
    }
}

#[test]
fn equality_of_values() {
    let v = |t: &str| from_value(&serde_json::from_str(t).unwrap());
    assert!(v("{\"a\":[1,2]}").equals(&v("{\"a\":[1,2]}")));
    assert!(!v("{\"a\":[1,2]}").equals(&v("{\"a\":[2,1]}")));
    assert!(!v("{\"a\":1}").equals(&v("{\"b\":1}")));
    assert!(!v("1").equals(&v("1.0")));
    assert!(v("0.0").equals(&v("-0.0")));
    assert!(!v("null").equals(&v("false")));
    assert!(v("{\"a\":1}").get("a").is_some());
    assert!(v("{\"a\":1}").get("b").is_none());
    assert!(v("[1]").get("a").is_none());
    assert!(v("null").is_null());
}

#[test]
fn integers_in_bytes() {
    let mut b = Vec::new();
    push_u32(&mut b, 0x0403_0201);
    push_u16(&mut b, 0x0605);
    push_bytes(&mut b, &[7]);
    push_u32s(&mut b, &[8, 0xffff_ffff]);
    assert_eq!(b, vec![1, 2, 3, 4, 5, 6, 7, 8, 0, 0, 0, 255, 255, 255, 255]);
    let mut r = Reader::new(&b);
    assert_eq!(r.u32().unwrap(), 0x0403_0201);
    assert_eq!(r.u16().unwrap(), 0x0605);
    assert_eq!(r.u8().unwrap(), 7);
    assert_eq!(r.take(4).unwrap(), &[8, 0, 0, 0]);
    assert_eq!(r.remaining(), 4);
    assert_eq!(r.i32().unwrap(), -1);
    assert!(matches!(
        r.u8(),
        Err(Error::Invalid(Invalid::IndexTruncated))
    ));
}

#[test]
fn codes_of_other_errors() {
    assert_eq!(status_code(&Error::AlreadyOpen("d".to_string())), 423);
    let reason = vectordb::error::FrameFault::CrcMismatch;
    assert_eq!(status_code(&Error::WalCorrupt { offset: 0, reason }), 400);
}

#[test]
fn strings_are_escaped_before_their_texts_are_measured() {
    let s = |t: &str| Json::Str(t.to_string()).text_len();
    assert_eq!(s(""), 2);
    assert_eq!(s("a\"\\"), 7);
    assert_eq!(s("\n\t\r"), 8);
    assert_eq!(s("\u{8}\u{c}"), 6);
    assert_eq!(s("\u{1}\u{1f}"), 14);
    assert_eq!(s("\u{7f}/"), 4);
    assert_eq!(s("\u{e9}"), 4);
}

#[test]
fn items_are_handed_on_a_batch_at_a_time() {
    let mut batch = Batch::new();
    let mut seen = Vec::new();
    for i in 0..2500usize {
        if let Some(full) = batch.take_in(i) {
            assert_eq!(full.len(), BATCH);
            seen.extend(full);
        }
    }
    assert_eq!(seen.len(), 2000);
    let rest = batch.rest();
    assert_eq!(rest.len(), 500);
    seen.extend(rest);
    assert_eq!(seen, (0..2500).collect::<Vec<usize>>());
}
