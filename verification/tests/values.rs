use semhash_rs::{
    coerce_value, make_hashable, to_frozendict, to_key_map, DictRecord, Float64, Record,
    SemHashError, Value,
};

fn dict(pairs: &[(&str, Value)]) -> DictRecord {
    let mut map = DictRecord::new();
    for (key, value) in pairs {
        map.insert((*key).to_string(), value.clone());
    }
    map
}

fn double(x: f64) -> Value {
    Value::F64(Float64 {
        bits: x.to_bits(),
        debug: format!("{x:?}"),
        display: format!("{x}"),
    })
}

fn columns(names: &[&str]) -> Vec<String> {
    names.iter().map(|name| name.to_string()).collect()
}

#[test]
fn canonical_representations() {
    let nested = dict(&[
        ("b", Value::List(vec![1.into(), Value::Null, false.into()])),
        ("a", Value::from(vec![0u8, 255, 16])),
        ("c\n", "say \"hi\"\\\t\r\u{1}\u{7f}\u{85}é".into()),
    ]);
    assert_eq!(
        Value::Dict(nested.clone()).canonical(),
        "{\"a\":bytes:00ff10,\"b\":[1,null,false],\"c\\n\":\"say \\\"hi\\\"\\\\\\t\\r\\u0001\\u007f\\u0085é\"}"
    );
    assert_eq!(Value::from(i64::MIN).canonical(), "-9223372036854775808");
    assert_eq!(Value::from(u64::MAX).canonical(), "18446744073709551615");
    assert_eq!(double(1.0).canonical(), "1.0");
    assert_eq!(double(f64::NAN).canonical(), "NaN");
    assert_eq!(double(f64::INFINITY).canonical(), "Infinity");
    assert_eq!(double(f64::NEG_INFINITY).canonical(), "-Infinity");
    assert_eq!(Record::from("a\"b").canonical(), "text:a\"b");
    assert_eq!(Record::dict(dict(&[])).canonical(), "{}");
    assert_eq!(Value::List(Vec::new()).canonical(), "[]");
}

#[test]
fn lossy_texts() {
    assert_eq!(Value::from(&b"ab\xffc"[..]).as_string_lossy(), "ab\u{fffd}c");
    assert_eq!(Value::from(vec![0xc3u8, 0xa9]).as_string_lossy(), "é");
    assert_eq!(Value::from(true).as_string_lossy(), "True");
    assert_eq!(Value::from(false).as_string_lossy(), "False");
    assert_eq!(Value::Null.as_string_lossy(), "");
    assert_eq!(double(1.0).as_string_lossy(), "1");
    assert_eq!(Value::from(-7).as_string_lossy(), "-7");
    assert_eq!(Value::from(7usize).as_string_lossy(), "7");
    assert_eq!(Value::List(vec!["x".into()]).as_string_lossy(), "[\"x\"]");
}

#[test]
fn texts_for_readers() {
    assert_eq!(Value::from(true).to_string(), "true");
    assert_eq!(Value::Null.to_string(), "None");
    assert_eq!(Value::from("x").to_string(), "x");
    assert_eq!(Value::from(vec![0x66u8, 0xfe]).to_string(), "f\u{fffd}");
    assert_eq!(Record::from("plain").to_string(), "plain");
    assert_eq!(
        Record::Dict(dict(&[("a", 1.into())])).to_string(),
        "{\"a\":1}"
    );
}

#[test]
fn dictionaries_keep_the_order_of_their_keys() {
    let mut map = DictRecord::new();
    assert_eq!(map.insert("b".to_string(), 1.into()), None);
    assert_eq!(map.insert("a".to_string(), 2.into()), None);
    assert_eq!(map.insert("b".to_string(), 3.into()), Some(1.into()));
    assert_eq!(map.len(), 2);
    assert_eq!(map.get("b"), Some(&Value::from(3)));
    assert_eq!(map.get("c"), None);
    assert!(map.contains_key("a") && !map.contains_key(""));
    assert_eq!(map, dict(&[("a", 2.into()), ("b", 3.into())]));
    assert_eq!(map.canonical(), "{\"a\":2,\"b\":3}");
}

#[test]
fn values_are_ordered_by_kind_and_then_by_content() {
    let ordered = [
        Value::from("a"),
        Value::from("b"),
        Value::from(vec![0u8]),
        Value::from(vec![0u8, 0]),
        Value::from(-1),
        Value::from(1),
        Value::from(0usize),
        double(0.5),
        Value::from(false),
        Value::from(true),
        Value::Null,
        Value::List(vec![1.into()]),
        Value::List(vec![1.into(), 0.into()]),
        Value::List(vec![2.into()]),
        Value::Dict(dict(&[("a", 1.into())])),
        Value::Dict(dict(&[("b", 0.into())])),
    ];
    for (i, a) in ordered.iter().enumerate() {
        for (j, b) in ordered.iter().enumerate() {
            assert_eq!(a < b, i < j);
            assert_eq!(a == b, i == j);
            assert_eq!(a.cmp(b), i.cmp(&j));
        }
    }
}

#[test]
fn conversions_for_keys_and_encoders() {
    let list = Value::List(vec![1.into()]);
    assert_eq!(make_hashable(&list), Value::from("[1]"));
    assert_eq!(make_hashable(&make_hashable(&list)), make_hashable(&list));
    assert_eq!(make_hashable(&Value::Null), Value::Null);
    assert_eq!(coerce_value(&list), list);
    assert_eq!(coerce_value(&Value::Null), Value::Null);
    assert_eq!(coerce_value(&double(2.5)), Value::from("2.5"));
    assert_eq!(coerce_value(&Value::from(vec![1u8])), Value::from(vec![1u8]));
    assert_eq!(
        coerce_value(&coerce_value(&Value::from(9u64))),
        Value::from("9")
    );
}

#[test]
fn keys_hold_the_columns_only() {
    let record = dict(&[
        ("text", "x".into()),
        ("id", 1.into()),
        ("tags", Value::List(vec!["t".into()])),
    ]);
    let key = to_key_map(&record, &columns(&["text", "tags", "text"])).unwrap();
    assert_eq!(
        key,
        dict(&[("tags", "[\"t\"]".into()), ("text", "x".into())])
    );
    assert_eq!(
        to_frozendict(&record, &columns(&["text", "tags", "text"])),
        Ok(key)
    );
    assert_eq!(
        to_key_map(&record, &columns(&["id", "gone", "lost"])),
        Err(SemHashError::MissingColumn {
            column: "gone".to_string()
        })
    );
}

#[test]
fn records_from_plain_data() {
    assert_eq!(Record::text("a".to_string()), Record::from("a"));
    assert_eq!(Record::from("a").as_text(), Some("a"));
    assert_eq!(Record::from("a".to_string()).as_dict(), None);
    let map = dict(&[("k", 1.into())]);
    assert_eq!(Record::from(map.clone()).as_dict(), Some(&map));
    assert_eq!(Record::dict(map).as_text(), None);
    assert_eq!(Value::from("s".to_string()), Value::from("s"));
    assert_eq!(Value::from(5i64), Value::from(5i32));
    assert_ne!(Value::from(5i64), Value::from(5u64));
}
