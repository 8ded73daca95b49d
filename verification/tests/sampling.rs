use semhash_rs::index::validate_query_dims;
use semhash_rs::representatives::validate_outlier_percentage;
use semhash_rs::strategy::closest_similarity;
use semhash_rs::{
    CandidateLimit, DeduplicationResult, DictRecord, DuplicateRecord, Embeddings, Encoder,
    FilterResult, Float32, RankedDiversification, Ratio, Record, Result, SemHash, SemHashOptions,
    Strategy, Value,
};
use std::sync::Arc;

type Instance = SemHash<dyn Encoder>;

#[derive(Debug)]
struct ToyEncoder;

impl Encoder for ToyEncoder {
    fn encode(&self, inputs: &[Value]) -> Result<Embeddings> {
        Ok(inputs.iter().map(embed_value).collect())
    }
}

fn float(x: f32) -> Float32 {
    Float32 { bits: x.to_bits() }
}

fn number(x: Float32) -> f32 {
    f32::from_bits(x.bits)
}

fn floats(values: &[f32]) -> Vec<Float32> {
    values.iter().copied().map(float).collect()
}

fn ratio(r: Ratio) -> f32 {
    r.part as f32 / r.whole as f32
}

fn normalized(vector: &[f32]) -> Vec<f32> {
    let norm = vector.iter().map(|v| v * v).sum::<f32>().sqrt();
    if norm > 0.0 {
        vector.iter().map(|v| v / norm).collect()
    } else {
        vector.to_vec()
    }
}

const FRUITS: &[&str] = &[
    "apple",
    "banana",
    "cherry",
    "strawberry",
    "blueberry",
    "raspberry",
    "blackberry",
    "peach",
    "plum",
    "grape",
    "mango",
    "papaya",
    "pineapple",
    "watermelon",
    "orange",
    "lemon",
    "lime",
    "tangerine",
    "kiwi",
    "fig",
    "apricot",
    "grapefruit",
    "pomegranate",
];

const VEHICLES: &[&str] = &["car", "bicycle", "motorcycle", "plane"];

fn embed_value(value: &Value) -> Vec<Float32> {
    let text = value.as_string_lossy().to_lowercase();
    if FRUITS.contains(&text.as_str()) {
        floats(&[1.0, 0.0, 0.0])
    } else if VEHICLES.contains(&text.as_str()) {
        floats(&[0.0, 1.0, 0.0])
    } else if text.contains("dangerous") || text.contains("risky") || text.contains("safe") {
        floats(&[0.95, 0.05, 0.0])
    } else if text.contains("ganondorf") || text.contains("ganon") || text.contains("hyrule") {
        floats(&[0.0, 0.95, 0.05])
    } else if text.contains("link") || text.contains("hero") {
        floats(&[0.9, 0.1, 0.0])
    } else if text.contains("zelda") || text.contains("princess") {
        floats(&[0.1, 0.9, 0.0])
    } else {
        floats(&[0.0, 0.0, 1.0])
    }
}

fn model() -> Arc<dyn Encoder> {
    Arc::new(ToyEncoder)
}

fn options() -> SemHashOptions<dyn Encoder> {
    SemHashOptions::default()
}

fn fit(records: Vec<Record>, options: SemHashOptions<dyn Encoder>) -> Result<Instance> {
    SemHash::from_records(records, options, model())
}

fn rec(pairs: &[(&str, Value)]) -> Record {
    let mut map = DictRecord::new();
    for (key, value) in pairs {
        map.insert((*key).to_string(), value.clone());
    }
    Record::Dict(map)
}

fn text_records(values: &[&str]) -> Vec<Record> {
    values.iter().copied().map(Record::from).collect()
}

fn similarities(queries: &Embeddings, vectors: &Embeddings) -> Embeddings {
    let unit = |row: &Vec<Float32>| -> Vec<f32> {
        normalized(&row.iter().copied().map(number).collect::<Vec<f32>>())
    };
    let corpus: Vec<Vec<f32>> = vectors.iter().map(unit).collect();
    queries
        .iter()
        .map(|query| {
            let query = unit(query);
            corpus
                .iter()
                .map(|row| float(query.iter().zip(row).map(|(a, b)| a * b).sum::<f32>()))
                .collect()
        })
        .collect()
}

fn compare(s: &Instance, queries: &Embeddings) -> Result<Embeddings> {
    validate_query_dims(queries, s.index.dimensions())?;
    Ok(similarities(queries, &s.index.vectors))
}

fn deduplicate(s: &Instance, records: Vec<Record>, threshold: f32) -> Result<DeduplicationResult> {
    let pending = s.prepare_deduplication(records)?;
    let rows = compare(s, &pending.embeddings)?;
    s.deduplicate(pending, &rows, float(threshold))
}

fn means(lists: &[Vec<Float32>]) -> Vec<Float32> {
    lists
        .iter()
        .map(|list| {
            if list.is_empty() {
                float(0.0)
            } else {
                float(list.iter().copied().map(number).sum::<f32>() / list.len() as f32)
            }
        })
        .collect()
}

fn rank(s: &Instance, records: Vec<Record>) -> Result<FilterResult> {
    let (dicts, embeddings) = s.prepare_ranking(records)?;
    let rows = compare(s, &embeddings)?;
    let scores = means(&s.ranking_similarities(&embeddings, &rows)?);
    Ok(s.rank_by_average_similarity(&dicts, &scores))
}

fn self_scores(s: &Instance) -> Result<Vec<Float32>> {
    let rows = compare(s, &s.index.vectors)?;
    Ok(means(&s.self_ranking_similarities(&rows)?))
}

fn filter_outliers(s: &Instance, records: Vec<Record>, percentage: f32) -> Result<FilterResult> {
    validate_outlier_percentage(float(percentage))?;
    let ranking = rank(s, records)?;
    s.filter_outliers(ranking, float(percentage))
}

fn cosine(a: &[Float32], b: &[Float32]) -> f32 {
    let a: Vec<f32> = a.iter().copied().map(number).collect();
    let b: Vec<f32> = b.iter().copied().map(number).collect();
    let dot: f32 = a.iter().zip(&b).map(|(x, y)| x * y).sum();
    let norms = a.iter().map(|x| x * x).sum::<f32>().sqrt()
        * b.iter().map(|x| x * x).sum::<f32>().sqrt();
    if norms == 0.0 {
        0.0
    } else {
        dot / norms
    }
}

fn run_rounds(mut d: RankedDiversification) -> FilterResult {
    while !d.choice.is_complete() {
        let diversity = number(d.choice.diversity);
        let objectives: Vec<Float32> = d
            .choice
            .remaining
            .iter()
            .map(|candidate| {
                let close: Vec<Float32> = d
                    .choice
                    .selected
                    .iter()
                    .map(|chosen| float(cosine(&d.embeddings[*candidate], &d.embeddings[*chosen])))
                    .collect();
                let relevance = number(d.relevance[*candidate]);
                float(
                    (1.0 - diversity) * relevance - diversity * number(closest_similarity(&close)),
                )
            })
            .collect();
        d.choice.advance(&objectives);
    }
    d.finish()
}

fn self_find_representative(
    s: &mut Instance,
    size: usize,
    limit: CandidateLimit,
    diversity: f32,
) -> Result<FilterResult> {
    let scores = self_scores(s)?;
    let started = s.self_find_representative(&scores, size, limit, float(diversity), Strategy::MMR)?;
    Ok(run_rounds(started))
}

fn find_representative(
    s: &Instance,
    records: Vec<Record>,
    size: usize,
    limit: CandidateLimit,
    diversity: f32,
) -> Result<FilterResult> {
    let ranking = rank(s, records)?;
    let started = s.find_representative(ranking, size, limit, float(diversity), Strategy::MMR)?;
    Ok(run_rounds(started))
}

fn self_filter_outliers(s: &mut Instance, percentage: f32) -> Result<FilterResult> {
    let scores = self_scores(s)?;
    s.self_filter_outliers(&scores, float(percentage))
}

fn dict_record_text(record: &Record) -> String {
    record
        .as_dict()
        .and_then(|record| record.get("text"))
        .map(Value::as_string_lossy)
        .expect("expected text field")
}

fn message<T>(result: Result<T>) -> String {
    match result {
        Ok(_) => panic!("expected an error"),
        Err(e) => e.to_string(),
    }
}

#[test]
fn representative_and_outlier_results_match_reference_oracles() {
    let train = text_records(&[
        "apple",
        "banana",
        "cherry",
        "strawberry",
        "blueberry",
        "raspberry",
        "blackberry",
        "peach",
        "plum",
        "grape",
        "mango",
        "papaya",
        "pineapple",
        "watermelon",
        "orange",
        "lemon",
        "lime",
        "tangerine",
        "car",
        "bicycle",
    ]);
    let test = text_records(&[
        "apple",
        "banana",
        "kiwi",
        "fig",
        "apricot",
        "grapefruit",
        "pomegranate",
        "motorcycle",
        "plane",
    ]);
    let mut semhash = fit(train, options().model(model())).unwrap();

    let self_representative =
        self_find_representative(&mut semhash, 3, CandidateLimit::Value(5), 0.5).unwrap();
    let mut self_selected: Vec<String> = self_representative
        .selected
        .iter()
        .map(dict_record_text)
        .collect();
    self_selected.sort();
    assert_eq!(self_selected, vec!["apple", "banana", "cherry"]);

    let representative =
        find_representative(&semhash, test.clone(), 3, CandidateLimit::Value(5), 0.5).unwrap();
    let mut selected: Vec<String> = representative
        .selected
        .iter()
        .map(dict_record_text)
        .collect();
    selected.sort();
    assert_eq!(selected, vec!["apple", "banana", "kiwi"]);

    let self_outliers = self_filter_outliers(&mut semhash, 0.1).unwrap();
    let mut self_filtered: Vec<String> = self_outliers
        .filtered
        .iter()
        .map(dict_record_text)
        .collect();
    self_filtered.sort();
    assert_eq!(self_filtered, vec!["bicycle", "car"]);

    let outliers = filter_outliers(&semhash, test, 0.2).unwrap();
    let mut filtered: Vec<String> = outliers.filtered.iter().map(dict_record_text).collect();
    filtered.sort();
    assert_eq!(filtered, vec!["motorcycle", "plane"]);
}

#[test]
fn deduplicate_edge_cases_match_reference_errors() {
    let semhash = fit(
        text_records(&["1", "2", "3"]),
        options().model(model()),
    )
    .unwrap();

    let result = deduplicate(
        &semhash,
        vec![rec(&[("text", 1.into())]), rec(&[("text", 4.into())])],
        0.95,
    )
    .unwrap();
    assert_eq!(result.selected.len() + result.filtered.len(), 2);

    let err = message(deduplicate(
        &semhash,
        vec![
            rec(&[("text", "cherry".into())]),
            rec(&[("text", Value::Null)]),
        ],
        0.95,
    ));
    assert!(err.contains("has None value"));

    let err = message(deduplicate(&semhash, Vec::new(), 0.95));
    assert_eq!(err, "records must not be empty");

    let semhash_dict = fit(
        vec![rec(&[("col", "a".into())]), rec(&[("col", "b".into())])],
        options().columns(vec!["col".to_string()]).model(model()),
    )
    .unwrap();

    let err = message(deduplicate(&semhash_dict, text_records(&["x", "y"]), 0.95));
    assert_eq!(
        err,
        "Records were not originally strings, but you passed strings."
    );

    let err = message(deduplicate(
        &semhash,
        vec![Record::from("a"), rec(&[("text", "b".into())])],
        0.95,
    ));
    assert_eq!(err, "All records must be all strings.");

    let err = message(deduplicate(
        &semhash_dict,
        vec![rec(&[("col", "a".into())]), Record::from("b")],
        0.95,
    ));
    assert_eq!(err, "All records must be all dictionaries.");
}

#[test]
fn selected_with_duplicates_cache_invalidation_matches_reference() {
    let mut result = DeduplicationResult::new(
        vec![Record::from("original")],
        vec![
            DuplicateRecord::new(
                Record::from("duplicate_1"),
                false,
                vec![(Record::from("original"), float(0.9))],
            ),
            DuplicateRecord::new(
                Record::from("duplicate_2"),
                false,
                vec![(Record::from("original"), float(0.8))],
            ),
            DuplicateRecord::new(
                Record::from("duplicate_3"),
                false,
                vec![(Record::from("original"), float(0.7))],
            ),
        ],
        float(0.7),
        None,
    );

    let before = result.selected_with_duplicates().to_vec();
    assert_eq!(before[0].duplicates.len(), 3);

    result.rethreshold(float(0.85)).unwrap();

    let after = result.selected_with_duplicates().to_vec();
    assert_eq!(after[0].duplicates.len(), 1);
    assert_eq!(after[0].duplicates[0].0, Record::from("duplicate_1"));
    assert_ne!(before, after);
}

#[test]
fn empty_filter_result_matches_reference_ratios() {
    let result = FilterResult::new(Vec::new(), Vec::new(), Vec::new(), Vec::new());
    assert_eq!(ratio(result.filter_ratio()), 0.0);
    assert_eq!(ratio(result.selected_ratio()), 1.0);
}

#[test]
fn a_kept_ranking_is_returned_whatever_the_scores() {
    let train = text_records(&["apple", "banana", "car"]);
    let mut semhash = fit(train, options()).unwrap();
    assert!(!semhash.has_ranking());
    let scores = self_scores(&semhash).unwrap();
    let first = semhash.self_rank_by_average_similarity(&scores);
    assert!(semhash.has_ranking());
    let again = semhash.self_rank_by_average_similarity(&floats(&[9.0, 8.0, 7.0]));
    assert_eq!(first, again);
    assert_eq!(
        first.selected.iter().map(dict_record_text).collect::<Vec<_>>(),
        vec!["apple", "banana", "car"]
    );
    assert_eq!(first.scores_selected, floats(&[0.5, 0.5, 0.0]));
}

#[test]
fn equal_scores_rank_in_the_order_of_the_records() {
    let semhash = fit(text_records(&["apple"]), options()).unwrap();
    let (dicts, _) = semhash
        .prepare_ranking(text_records(&["a", "b", "c", "d"]))
        .unwrap();
    let ranking = semhash.rank_by_average_similarity(&dicts, &floats(&[0.5, 1.0, 0.5, 1.0]));
    assert_eq!(
        ranking.selected.iter().map(dict_record_text).collect::<Vec<_>>(),
        vec!["b", "d", "a", "c"]
    );
    assert_eq!(ranking.scores_selected, floats(&[1.0, 1.0, 0.5, 0.5]));
    assert!(ranking.filtered.is_empty());
}

#[test]
fn raising_the_threshold_agrees_with_deduplicating_anew() {
    let semhash = fit(text_records(&["apple", "car", "link", "zelda"]), options()).unwrap();
    let records = text_records(&["apple", "banana", "hero", "princess", "plane", "nothing"]);
    let mut raised = deduplicate(&semhash, records.clone(), 0.1).unwrap();
    raised.rethreshold(float(0.995)).unwrap();
    let anew = deduplicate(&semhash, records, 0.995).unwrap();
    assert_eq!(raised.filtered, anew.filtered);
    let texts = |result: &DeduplicationResult| {
        let mut texts = result.selected_texts().unwrap();
        texts.sort();
        texts
    };
    assert_eq!(texts(&raised), texts(&anew));
    assert_eq!(raised.selected.len() + raised.filtered.len(), 6);
}

#[test]
fn records_of_the_instance_are_exact_duplicates() {
    let texts = ["apple", "car", "apple", "link"];
    let semhash = fit(text_records(&texts), options()).unwrap();
    let result = deduplicate(&semhash, text_records(&texts), 0.9).unwrap();
    assert!(result.selected.is_empty());
    assert_eq!(result.filtered.len(), 4);
    assert!(result.filtered.iter().all(|d| d.exact));
    assert_eq!(result.filtered[0].duplicates.len(), 2);
    assert_eq!(result.filtered[0].duplicates[0].1, float(1.0));
}

#[test]
fn outliers_of_the_extreme_shares() {
    let semhash = fit(text_records(&["apple", "banana", "car"]), options()).unwrap();
    let records = text_records(&["apple", "plane", "kiwi"]);
    let none = filter_outliers(&semhash, records.clone(), 0.0).unwrap();
    assert_eq!(none.selected.len(), 3);
    assert!(none.filtered.is_empty() && none.scores_filtered.is_empty());
    let all = filter_outliers(&semhash, records.clone(), 1.0).unwrap();
    assert!(all.selected.is_empty());
    assert_eq!(all.filtered.len(), 3);
    let some = filter_outliers(&semhash, records, 0.01).unwrap();
    assert_eq!(some.filtered.len(), 1);
    assert_eq!(dict_record_text(&some.filtered[0]), "plane");
    assert_eq!(
        message(filter_outliers(&semhash, Vec::new(), -0.5)),
        "outlier_percentage must be between 0 and 1"
    );
    assert!(filter_outliers(&semhash, Vec::new(), f32::NAN).is_err());
}

#[test]
fn candidates_are_chosen_or_left() {
    let mut semhash = fit(
        text_records(&["apple", "banana", "car", "zelda", "link"]),
        options(),
    )
    .unwrap();
    let result = self_find_representative(&mut semhash, 3, CandidateLimit::Value(4), 1.0).unwrap();
    assert_eq!(result.selected.len(), 3);
    assert_eq!(result.filtered.len(), 1);
    assert_eq!(result.scores_selected.len(), 3);
    assert_eq!(result.scores_filtered.len(), 1);
    let mut texts: Vec<String> = result
        .selected
        .iter()
        .chain(&result.filtered)
        .map(dict_record_text)
        .collect();
    texts.sort();
    texts.dedup();
    assert_eq!(texts.len(), 4);

    let empty = FilterResult::new(Vec::new(), Vec::new(), Vec::new(), Vec::new());
    let started = semhash
        .diversify_ranked(empty, 10, 3, float(0.5), Strategy::DPP)
        .unwrap();
    let result = run_rounds(started);
    assert!(result.selected.is_empty() && result.filtered.is_empty());
}
