use semhash_rs::{
    DeduplicationResult, DuplicateRecord, FilterResult, Float32, Ratio, Record, SemHashError,
};

fn float(x: f32) -> Float32 {
    Float32 { bits: x.to_bits() }
}

fn duplicate(text: &str, exact: bool, originals: &[(&str, f32)]) -> DuplicateRecord {
    DuplicateRecord::new(
        Record::from(text),
        exact,
        originals
            .iter()
            .map(|(original, score)| (Record::from(*original), float(*score)))
            .collect(),
    )
}

fn sample() -> DeduplicationResult {
    DeduplicationResult::new(
        vec![Record::from("a"), Record::from("b")],
        vec![
            duplicate("x", false, &[("a", 0.9), ("b", 0.7)]),
            duplicate("y", false, &[("a", 0.6)]),
            duplicate("x", true, &[("a", 1.0)]),
        ],
        float(0.5),
        None,
    )
}

#[test]
fn raising_a_threshold_in_steps_is_raising_it_at_once() {
    let mut steps = sample();
    steps.rethreshold(float(0.65)).unwrap();
    steps.rethreshold(float(0.95)).unwrap();
    let mut once = sample();
    once.rethreshold(float(0.95)).unwrap();
    assert_eq!(steps.filtered, once.filtered);
    assert_eq!(once.filtered, vec![duplicate("x", true, &[("a", 1.0)])]);
    assert_eq!(steps.selected.len(), 4);
    assert_eq!(once.selected.len() + once.filtered.len(), 5);
    assert_eq!(once.threshold, float(0.95));
    assert_eq!(
        once.rethreshold(float(0.5)),
        Err(SemHashError::ThresholdTooSmall)
    );
}

#[test]
fn errors_have_texts() {
    let column = "c".to_string();
    let record = "{}".to_string();
    let texts: Vec<(SemHashError, &str)> = vec![
        (SemHashError::EmptyRecords, "records must not be empty"),
        (
            SemHashError::ColumnsRequired,
            "Columns must be specified when passing dictionaries.",
        ),
        (
            SemHashError::MixedRecordTypes { expected: "dicts" },
            "All records must be dicts.",
        ),
        (
            SemHashError::OriginallyNotStrings,
            "Records were not originally strings, but you passed strings.",
        ),
        (
            SemHashError::MissingColumn { column: column.clone() },
            "Missing column 'c'",
        ),
        (
            SemHashError::NoneValue { column, record },
            "Column 'c' has None value in record {}",
        ),
        (SemHashError::InvalidEmbeddings("x".to_string()), "x"),
        (SemHashError::EncodeError("y".to_string()), "y"),
        (
            SemHashError::ThresholdTooSmall,
            "Threshold is smaller than the given value.",
        ),
        (
            SemHashError::InvalidPercentage { name: "share" },
            "share must be between 0 and 1",
        ),
        (SemHashError::Message("z".to_string()), "z"),
    ];
    for (error, text) in texts {
        assert_eq!(error.to_string(), text);
    }
}

#[test]
fn the_least_similar_pairs_come_first() {
    let pairs = sample().get_least_similar_from_duplicates(3);
    let scores: Vec<Float32> = pairs.iter().map(|pair| pair.2).collect();
    assert_eq!(scores, vec![float(0.6), float(0.7), float(0.9)]);
    assert_eq!(pairs[0].0, Record::from("y"));
    assert_eq!(pairs[0].1, Record::from("a"));
    assert_eq!(sample().get_least_similar_from_duplicates(99).len(), 4);
    assert!(sample().get_least_similar_from_duplicates(0).is_empty());
}

#[test]
fn a_record_is_listed_once_with_its_last_score() {
    let mut result = sample();
    let selection = result.selected_with_duplicates().to_vec();
    assert_eq!(selection.len(), 2);
    assert_eq!(
        selection[0].duplicates,
        vec![(Record::from("x"), float(1.0)), (Record::from("y"), float(0.6))]
    );
    assert_eq!(selection[1].duplicates, vec![(Record::from("x"), float(0.7))]);
    assert_eq!(result.selected_with_duplicates().to_vec(), selection);
}

#[test]
fn shares_are_counted() {
    let result = sample();
    assert_eq!(result.duplicate_ratio(), Ratio { part: 3, whole: 5 });
    assert_eq!(result.exact_duplicate_ratio(), Ratio { part: 1, whole: 5 });
    assert_eq!(result.selected_texts(), Some(vec!["a".to_string(), "b".to_string()]));
    let empty = DeduplicationResult::new(Vec::new(), Vec::new(), float(0.5), None);
    assert_eq!(empty.duplicate_ratio(), Ratio { part: 0, whole: 1 });
    assert_eq!(empty.exact_duplicate_ratio(), Ratio { part: 0, whole: 1 });
    let filter = FilterResult::new(
        vec![Record::from("a")],
        vec![Record::from("b"), Record::from("c")],
        Vec::new(),
        Vec::new(),
    );
    assert_eq!(filter.filter_ratio(), Ratio { part: 2, whole: 3 });
    assert_eq!(filter.selected_ratio(), Ratio { part: 1, whole: 3 });
    assert_eq!(filter.clone(), filter);
}

#[test]
fn a_duplicate_drops_originals_below_a_threshold() {
    let mut d = duplicate("x", false, &[("a", 0.9), ("b", f32::NAN), ("c", 0.5)]);
    d.rethreshold_in_place(float(0.5));
    assert_eq!(d, duplicate("x", false, &[("a", 0.9), ("c", 0.5)]));
    d.rethreshold_in_place(float(f32::NAN));
    assert!(d.duplicates.is_empty());
}
