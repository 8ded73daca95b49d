use semhash_rs::deduplication::sort_out_buckets;
use semhash_rs::records::{
    add_scores_to_records, dict_to_string, group_records_by_key,
    map_deduplication_result_to_strings, prepare_records, records_to_dicts_for_featurize,
    remove_exact_duplicates, validate_if_strings,
};
use semhash_rs::{
    featurize, DeduplicationResult, DictRecord, DuplicateRecord, Embeddings, Encoder, Float32,
    Record, Result, SemHash, SemHashError, SemHashOptions, Value,
};
use std::sync::Arc;

fn float(x: f32) -> Float32 {
    Float32 { bits: x.to_bits() }
}

fn dict(pairs: &[(&str, Value)]) -> DictRecord {
    let mut map = DictRecord::new();
    for (key, value) in pairs {
        map.insert((*key).to_string(), value.clone());
    }
    map
}

fn item(id: i32, text: &str) -> DictRecord {
    dict(&[("id", id.into()), ("text", text.into())])
}

fn columns(names: &[&str]) -> Vec<String> {
    names.iter().map(|name| name.to_string()).collect()
}

fn missing(column: &str) -> SemHashError {
    SemHashError::MissingColumn {
        column: column.to_string(),
    }
}

struct Lengths;

impl Encoder for Lengths {
    fn encode(&self, inputs: &[Value]) -> Result<Embeddings> {
        Ok(inputs
            .iter()
            .map(|value| vec![float(value.as_string_lossy().len() as f32)])
            .collect())
    }
}

struct Broken;

impl Encoder for Broken {
    fn encode(&self, _: &[Value]) -> Result<Embeddings> {
        Err(SemHashError::Message("no model".to_string()))
    }
}

struct Short;

impl Encoder for Short {
    fn encode(&self, _: &[Value]) -> Result<Embeddings> {
        Ok(Vec::new())
    }
}

#[test]
fn records_are_grouped_by_key_in_order() {
    let records = [item(0, "b"), item(1, "a"), item(2, "b"), item(3, "a")];
    let (firsts, groups) = group_records_by_key(&records, &columns(&["text"])).unwrap();
    assert_eq!(firsts, vec![item(0, "b"), item(1, "a")]);
    assert_eq!(
        groups,
        vec![
            vec![item(0, "b"), item(2, "b")],
            vec![item(1, "a"), item(3, "a")]
        ]
    );
    assert_eq!(
        group_records_by_key(&records, &columns(&["text", "x"])),
        Err(missing("x"))
    );
}

#[test]
fn repeated_records_duplicate_the_first() {
    let records = [item(0, "a"), item(1, "b"), item(2, "a"), item(3, "a")];
    let (kept, gone) = remove_exact_duplicates(&records, &columns(&["text"]), None).unwrap();
    assert_eq!(kept, vec![item(0, "a"), item(1, "b")]);
    assert_eq!(
        gone,
        vec![
            (item(2, "a"), vec![item(0, "a")]),
            (item(3, "a"), vec![item(0, "a")])
        ]
    );
}

#[test]
fn known_records_duplicate_the_last_set_with_their_key() {
    let reference = vec![
        vec![item(10, "a")],
        Vec::new(),
        vec![item(11, "a"), item(12, "z")],
    ];
    let records = [item(0, "a"), item(1, "b"), item(2, "b")];
    let (kept, gone) =
        remove_exact_duplicates(&records, &columns(&["text"]), Some(&reference)).unwrap();
    assert_eq!(kept, vec![item(1, "b"), item(2, "b")]);
    assert_eq!(
        gone,
        vec![(item(0, "a"), vec![item(11, "a"), item(12, "z")])]
    );
    assert_eq!(
        remove_exact_duplicates(&records, &columns(&["x"]), Some(&reference)),
        Err(missing("x"))
    );
}

#[test]
fn preparing_refuses_what_does_not_fit() {
    assert_eq!(prepare_records(&[], None), Err(SemHashError::EmptyRecords));
    assert_eq!(
        prepare_records(&[Record::Dict(item(0, "a"))], None),
        Err(SemHashError::ColumnsRequired)
    );
    let mixed = [Record::from("a"), Record::Dict(item(0, "a"))];
    assert_eq!(
        prepare_records(&mixed, None),
        Err(SemHashError::MixedRecordTypes { expected: "strings" })
    );
    let mixed = [Record::Dict(item(0, "a")), Record::from("a")];
    assert_eq!(
        prepare_records(&mixed, Some(columns(&["text"]))),
        Err(SemHashError::MixedRecordTypes { expected: "dicts" })
    );
    let empty = dict(&[("text", Value::Null)]);
    assert_eq!(
        prepare_records(&[Record::Dict(empty)], Some(columns(&["text"]))),
        Err(SemHashError::NoneValue {
            column: "text".to_string(),
            record: "{\"text\":null}".to_string()
        })
    );
}

#[test]
fn preparing_converts_the_columns_only() {
    let record = dict(&[("id", 7.into()), ("n", 3.into()), ("ok", true.into())]);
    let (rows, names, was_string) =
        prepare_records(&[Record::Dict(record)], Some(columns(&["n", "ok"]))).unwrap();
    assert_eq!(
        rows,
        vec![dict(&[("id", 7.into()), ("n", "3".into()), ("ok", "True".into())])]
    );
    assert_eq!(names, columns(&["n", "ok"]));
    assert!(!was_string);
}

#[test]
fn validation_goes_by_what_the_instance_was_built_from() {
    let texts = [Record::from("a")];
    assert_eq!(
        validate_if_strings(&texts, &columns(&["text"]), true),
        Ok(vec![dict(&[("text", "a".into())])])
    );
    assert_eq!(
        validate_if_strings(&texts, &columns(&["text"]), false),
        Err(SemHashError::OriginallyNotStrings)
    );
    assert_eq!(
        validate_if_strings(&[], &columns(&["text"]), true),
        Err(SemHashError::EmptyRecords)
    );
}

#[test]
fn text_survives_conversion_but_for_tabs() {
    let names = columns(&["text"]);
    let (rows, _, _) = prepare_records(&[Record::from("a b"), Record::from("a\tb")], None).unwrap();
    assert_eq!(dict_to_string(&rows[0], &names), "a b");
    assert_eq!(dict_to_string(&rows[1], &names), "a b");
    let record = dict(&[("x", 1.into()), ("y", true.into())]);
    assert_eq!(dict_to_string(&record, &columns(&["y", "gone", "x"])), "True\t\t1");

    let result = DeduplicationResult::new(
        vec![Record::Dict(item(0, "a")), Record::from("kept")],
        vec![DuplicateRecord::new(
            Record::Dict(item(1, "b\tc")),
            true,
            vec![(Record::Dict(item(2, "d")), float(0.5))],
        )],
        float(0.25),
        Some(names.clone()),
    );
    let mapped = map_deduplication_result_to_strings(result, &names);
    assert_eq!(mapped.selected_texts(), Some(columns(&["a", "kept"])));
    assert_eq!(mapped.filtered[0].record, Record::from("b c"));
    assert!(mapped.filtered[0].exact);
    assert_eq!(
        mapped.filtered[0].duplicates,
        vec![(Record::from("d"), float(0.5))]
    );
    assert_eq!(mapped.threshold, float(0.25));
}

#[test]
fn candidates_become_dictionaries() {
    let candidates = [Record::from("a"), Record::Dict(item(1, "b"))];
    assert_eq!(
        records_to_dicts_for_featurize(&candidates, &columns(&["body"])),
        Ok(vec![dict(&[("body", "a".into())]), item(1, "b")])
    );
    assert_eq!(
        records_to_dicts_for_featurize(&candidates, &columns(&["a", "b"])),
        Err(SemHashError::Message(
            "Text candidates can only be featurized with a single column".to_string()
        ))
    );
    assert_eq!(
        records_to_dicts_for_featurize(&candidates[1..], &columns(&["a", "b"])),
        Ok(vec![item(1, "b")])
    );
    assert_eq!(
        add_scores_to_records(&[item(1, "b")]),
        vec![(item(1, "b"), float(1.0))]
    );
}

#[test]
fn columns_are_encoded_side_by_side() {
    let records = [
        dict(&[("a", "x".into()), ("b", "yy".into())]),
        dict(&[("a", "xxx".into()), ("b", "".into())]),
    ];
    assert_eq!(
        featurize(&records, &columns(&["b", "a"]), &Lengths),
        Ok(vec![
            vec![float(2.0), float(1.0)],
            vec![float(0.0), float(3.0)]
        ])
    );
    assert_eq!(featurize(&[], &columns(&["b"]), &Broken), Ok(Vec::new()));
    assert_eq!(
        featurize(&records, &columns(&["a", "c"]), &Lengths),
        Err(missing("c"))
    );
    assert_eq!(
        featurize(&records, &columns(&["a"]), &Short),
        Err(SemHashError::InvalidEmbeddings(
            "Number of embeddings (0) must match number of records (2)".to_string()
        ))
    );
    assert_eq!(
        featurize(&records, &columns(&["a"]), &Broken).unwrap_err().to_string(),
        "Failed to encode column 'a' (data type: str). If encoding non-text data, provide a compatible encoder via the `model` parameter. See the SemHash documentation for more info. Source error: no model"
    );
}

#[test]
fn buckets_are_sorted_out_by_what_was_seen() {
    let items = vec![
        vec![item(0, "a"), item(1, "a"), item(2, "a")],
        vec![item(3, "b")],
        Vec::new(),
        vec![item(4, "c")],
    ];
    let results = vec![
        vec![(item(0, "a"), float(1.0)), (item(3, "b"), float(0.8))],
        vec![(item(3, "b"), float(1.0)), (item(0, "a"), float(0.8))],
        Vec::new(),
        Vec::new(),
    ];
    let (selected, filtered) = sort_out_buckets(&items, &results, &columns(&["text"])).unwrap();
    assert_eq!(
        selected,
        vec![Record::Dict(item(0, "a")), Record::Dict(item(4, "c"))]
    );
    assert_eq!(filtered.len(), 3);
    assert_eq!(
        filtered[0].duplicates,
        vec![
            (Record::Dict(item(0, "a")), float(1.0)),
            (Record::Dict(item(2, "a")), float(1.0))
        ]
    );
    assert!(filtered[0].exact && filtered[1].exact && !filtered[2].exact);
    assert_eq!(filtered[2].record, Record::Dict(item(3, "b")));
    assert_eq!(
        filtered[2].duplicates,
        vec![(Record::Dict(item(0, "a")), float(0.8))]
    );
    assert_eq!(
        sort_out_buckets(&items, &results, &columns(&["x"])),
        Err(missing("x"))
    );
}

#[test]
fn embeddings_have_to_match_the_records() {
    let model: Arc<dyn Encoder> = Arc::new(Lengths);
    let build = |embeddings: Embeddings, texts: &[&str]| {
        SemHash::from_embeddings(
            embeddings,
            texts.iter().copied().map(Record::from).collect(),
            model.clone(),
            SemHashOptions::new(),
        )
        .err()
    };
    assert_eq!(build(Vec::new(), &[]), Some(SemHashError::EmptyRecords));
    assert_eq!(
        build(vec![Vec::new()], &["a"]),
        Some(SemHashError::InvalidEmbeddings(
            "embeddings must be a 2D array, got an empty or 1D shape".to_string()
        ))
    );
    assert_eq!(
        build(vec![vec![float(1.0)]], &["a", "b"]),
        Some(SemHashError::InvalidEmbeddings(
            "Number of embeddings (1) must match number of records (2)".to_string()
        ))
    );
    assert_eq!(build(vec![vec![float(1.0)]], &["a"]), None);
}

#[test]
fn texts_are_fitted_with_their_lengths() {
    let model: Arc<dyn Encoder> = Arc::new(Lengths);
    let semhash = SemHash::from_texts(columns(&["aa", "b", "aa"]), model).unwrap();
    assert!(semhash.was_string());
    assert_eq!(semhash.index.vectors, vec![vec![float(2.0)], vec![float(1.0)]]);
    assert_eq!(semhash.index.items[0].len(), 2);
    assert_eq!(semhash.columns, columns(&["text"]));
    let broken: Arc<dyn Encoder> = Arc::new(Broken);
    assert!(SemHash::from_texts(columns(&["aa"]), broken).is_err());
}
