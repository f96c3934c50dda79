use nomad_core::field_map::FieldMap;
use nomad_core::request::{
    fields_of_body, value_as_string, FormBody, FormScalar, MAX_REQUEST_FIELD_KEY_BYTES,
    MAX_REQUEST_FIELD_VALUE_BYTES, MAX_REQUEST_MSGPACK_DEPTH,
};
use nomad_core::{
    decode_request_fields, NomadError, NomadRequestFields, MAX_REQUEST_BODY_BYTES,
    MAX_REQUEST_FIELDS,
};

fn text(s: &str) -> FormScalar {
    FormScalar::Text(Some(s.to_string()))
}

fn encoded(value: rmpv::Value) -> Vec<u8> {
    let mut buf = Vec::new();
    rmpv::encode::write_value(&mut buf, &value).unwrap();
    buf
}

#[test]
fn decodes_msgpack_string_map() {
    let map = vec![
        (
            rmpv::Value::String("field_q".into()),
            rmpv::Value::String("hello".into()),
        ),
        (
            rmpv::Value::String("var_mode".into()),
            rmpv::Value::String("search".into()),
        ),
    ];
    let mut buf = Vec::new();
    rmpv::encode::write_value(&mut buf, &rmpv::Value::Map(map)).unwrap();
    let parsed = decode_request_fields(&buf).unwrap();
    assert_eq!(
        parsed.fields.get("field_q").map(String::as_str),
        Some("hello")
    );
    assert_eq!(
        parsed.fields.get("var_mode").map(String::as_str),
        Some("search")
    );
}

#[test]
fn empty_on_invalid() {
    let parsed = decode_request_fields(b"not-msgpack").unwrap();
    assert!(parsed.fields.is_empty());
    assert_eq!(parsed.raw, b"not-msgpack");
}

#[test]
fn empty_body_yields_empty_fields() {
    let parsed = decode_request_fields(b"").unwrap();
    assert!(parsed.fields.is_empty());
    assert!(parsed.raw.is_empty());
}

#[test]
fn non_map_yields_empty_fields() {
    let mut buf = Vec::new();
    rmpv::encode::write_value(&mut buf, &rmpv::Value::Array(vec![])).unwrap();
    let parsed = decode_request_fields(&buf).unwrap();
    assert!(parsed.fields.is_empty());
}

#[test]
fn coerces_integer_and_bool_values() {
    let map = vec![
        (
            rmpv::Value::String("field_n".into()),
            rmpv::Value::Integer(42.into()),
        ),
        (
            rmpv::Value::String("field_b".into()),
            rmpv::Value::Boolean(true),
        ),
    ];
    let mut buf = Vec::new();
    rmpv::encode::write_value(&mut buf, &rmpv::Value::Map(map)).unwrap();
    let parsed = decode_request_fields(&buf).unwrap();
    assert_eq!(parsed.fields.get("field_n").map(String::as_str), Some("42"));
    assert_eq!(
        parsed.fields.get("field_b").map(String::as_str),
        Some("true")
    );
}

#[test]
fn rejects_oversized_body() {
    let big = vec![0u8; MAX_REQUEST_BODY_BYTES + 1];
    let err = decode_request_fields(&big).unwrap_err();
    assert!(matches!(err, NomadError::TooLarge { .. }));
}

#[test]
fn caps_field_count() {
    let map: Vec<_> = (0..MAX_REQUEST_FIELDS + 10)
        .map(|i| {
            (
                rmpv::Value::String(format!("field_{i}").into()),
                rmpv::Value::String("v".into()),
            )
        })
        .collect();
    let mut buf = Vec::new();
    rmpv::encode::write_value(&mut buf, &rmpv::Value::Map(map)).unwrap();
    let parsed = decode_request_fields(&buf).unwrap();
    assert_eq!(parsed.fields.len(), MAX_REQUEST_FIELDS);
}

#[test]
fn the_largest_body_is_accepted() {
    let parsed = decode_request_fields(&vec![0xc0u8; MAX_REQUEST_BODY_BYTES]).unwrap();
    assert!(parsed.fields.is_empty());
    assert_eq!(parsed.raw.len(), MAX_REQUEST_BODY_BYTES);
    match decode_request_fields(&vec![0u8; MAX_REQUEST_BODY_BYTES + 1]) {
        Err(NomadError::TooLarge { size, max }) => {
            assert_eq!(size, 65_537);
            assert_eq!(max, 65_536);
        }
        other => panic!("unexpected {other:?}"),
    }
}

#[test]
fn every_kind_of_value_has_its_text() {
    let map = vec![
        ("bytes", rmpv::Value::Binary(b"raw".to_vec())),
        ("bad", rmpv::Value::Binary(vec![0xff, 0xfe])),
        ("neg", rmpv::Value::Integer((-7).into())),
        ("min", rmpv::Value::Integer(i64::MIN.into())),
        ("huge", rmpv::Value::Integer(u64::MAX.into())),
        ("no", rmpv::Value::Boolean(false)),
        ("real", rmpv::Value::F64(1.5)),
        ("single", rmpv::Value::F32(1.5)),
        ("nil", rmpv::Value::Nil),
        ("list", rmpv::Value::Array(vec![])),
    ];
    let body = encoded(rmpv::Value::Map(
        map.into_iter()
            .map(|(k, v)| (rmpv::Value::String(k.into()), v))
            .collect(),
    ));
    let fields = decode_request_fields(&body).unwrap().fields;
    let got = |k: &str| fields.get(k).map(String::as_str);
    assert_eq!(got("bytes"), Some("raw"));
    assert_eq!(got("bad"), None);
    assert_eq!(got("neg"), Some("-7"));
    assert_eq!(got("min"), Some("-9223372036854775808"));
    assert_eq!(got("huge"), None);
    assert_eq!(got("no"), Some("false"));
    assert_eq!(got("real"), Some("1.5"));
    assert_eq!(got("single"), None);
    assert_eq!(got("nil"), None);
    assert_eq!(got("list"), None);
    assert_eq!(fields.len(), 5);
}

#[test]
fn keys_may_be_of_any_kind_with_a_text() {
    let body = encoded(rmpv::Value::Map(vec![
        (rmpv::Value::Integer(7.into()), rmpv::Value::String("n".into())),
        (rmpv::Value::Nil, rmpv::Value::String("skipped".into())),
    ]));
    let fields = decode_request_fields(&body).unwrap().fields;
    assert_eq!(fields.get("7").map(String::as_str), Some("n"));
    assert_eq!(fields.len(), 1);
}

#[test]
fn nesting_deeper_than_the_limit_yields_no_fields() {
    let mut deep = rmpv::Value::Nil;
    for _ in 0..MAX_REQUEST_MSGPACK_DEPTH {
        deep = rmpv::Value::Array(vec![deep]);
    }
    let entry = (rmpv::Value::String("a".into()), rmpv::Value::String("b".into()));
    let shallow = encoded(rmpv::Value::Map(vec![
        entry.clone(),
        (rmpv::Value::String("l".into()), rmpv::Value::Array(vec![])),
    ]));
    assert_eq!(decode_request_fields(&shallow).unwrap().fields.len(), 1);
    let nested = encoded(rmpv::Value::Map(vec![
        entry,
        (rmpv::Value::String("l".into()), deep),
    ]));
    assert!(decode_request_fields(&nested).unwrap().fields.is_empty());
}

#[test]
fn long_keys_and_values_are_skipped() {
    let key = "k".repeat(MAX_REQUEST_FIELD_KEY_BYTES);
    let value = "v".repeat(MAX_REQUEST_FIELD_VALUE_BYTES);
    let body = FormBody::Entries(vec![
        (text(&key), text(&value)),
        (text(&format!("{key}k")), text("x")),
        (text("x"), text(&format!("{value}v"))),
    ]);
    let fields = fields_of_body(&body);
    assert_eq!(fields.len(), 1);
    assert_eq!(fields.get(&key), Some(&value));
}

#[test]
fn the_later_of_two_equal_keys_counts() {
    let body = FormBody::Entries(vec![
        (text("a"), text("1")),
        (text("b"), text("2")),
        (text("a"), text("3")),
    ]);
    let fields = fields_of_body(&body);
    assert_eq!(fields.len(), 2);
    assert_eq!(fields.get("a").map(String::as_str), Some("3"));
}

#[test]
fn only_the_first_entries_are_looked_at() {
    let mut entries: Vec<_> = (0..MAX_REQUEST_FIELDS)
        .map(|_| (FormScalar::Other, text("v")))
        .collect();
    entries.push((text("late"), text("v")));
    assert!(fields_of_body(&FormBody::Entries(entries)).is_empty());
    assert!(fields_of_body(&FormBody::NotAMap).is_empty());
    assert!(fields_of_body(&FormBody::Malformed).is_empty());
}

#[test]
fn scalars_stand_for_texts() {
    assert_eq!(value_as_string(&text("t")).as_deref(), Some("t"));
    assert_eq!(value_as_string(&FormScalar::Text(None)), None);
    assert_eq!(
        value_as_string(&FormScalar::Binary("é".as_bytes().to_vec())).as_deref(),
        Some("é")
    );
    assert_eq!(value_as_string(&FormScalar::Binary(vec![0x80])), None);
    assert_eq!(value_as_string(&FormScalar::Integer(Some(0))).as_deref(), Some("0"));
    assert_eq!(value_as_string(&FormScalar::Integer(None)), None);
    assert_eq!(
        value_as_string(&FormScalar::Real("2.5".to_string())).as_deref(),
        Some("2.5")
    );
    assert_eq!(value_as_string(&FormScalar::Other), None);
}

#[test]
fn field_maps_keep_their_keys_in_order() {
    let mut map = FieldMap::new();
    for key in ["b", "a", "é", "z", "aa", "b"] {
        map.insert(key.to_string(), format!("={key}"));
    }
    let keys: Vec<&str> = map.entries().iter().map(|(k, _)| k.as_str()).collect();
    assert_eq!(keys, ["a", "aa", "b", "z", "é"]);
    assert_eq!(map.len(), 5);
    assert_eq!(map.get("aa").map(String::as_str), Some("=aa"));
    assert_eq!(map.get("ab"), None);
    let copy = map.clone();
    assert_eq!(copy.entries(), map.entries());
    assert!(FieldMap::default().is_empty());
}

#[test]
fn parsed_fields_can_be_copied() {
    let body = encoded(rmpv::Value::Map(vec![(
        rmpv::Value::String("k".into()),
        rmpv::Value::String("v".into()),
    )]));
    let parsed = decode_request_fields(&body).unwrap();
    let copy = parsed.clone();
    assert_eq!(copy.raw, body);
    assert_eq!(copy.fields.get("k"), parsed.fields.get("k"));
    let none = NomadRequestFields::default();
    assert!(none.raw.is_empty() && none.fields.is_empty());
}
