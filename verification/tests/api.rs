use semhash_rs::index::validate_query_dims;
use semhash_rs::records::prepare_records;
use semhash_rs::representatives::validate_outlier_percentage;
use semhash_rs::strategy::closest_similarity;
use semhash_rs::{
    coerce_value, compute_candidate_limit, compute_candidate_limit_default, CandidateLimit,
    DeduplicationResult, DictRecord, DuplicateRecord, Embeddings, Encoder, FilterResult, Float32,
    HashingEncoder, RankedDiversification, Ratio, Record, Result, SemHash, SemHashOptions,
    Strategy, Value,
};
use std::sync::Arc;

type Instance = SemHash<dyn Encoder>;

#[derive(Debug)]
struct ToyEncoder;

impl Encoder for ToyEncoder {
    fn encode(&self, inputs: &[Value]) -> Result<Embeddings> {
        Ok(inputs.iter().map(embed_value).collect())
    }
}

fn float(x: f32) -> Float32 {
    Float32 { bits: x.to_bits() }
}

fn number(x: Float32) -> f32 {
    f32::from_bits(x.bits)
}

fn floats(values: &[f32]) -> Vec<Float32> {
    values.iter().copied().map(float).collect()
}

fn ratio(r: Ratio) -> f32 {
    r.part as f32 / r.whole as f32
}

fn normalized(vector: &[f32]) -> Vec<f32> {
    let norm = vector.iter().map(|v| v * v).sum::<f32>().sqrt();
    if norm > 0.0 {
        vector.iter().map(|v| v / norm).collect()
    } else {
        vector.to_vec()
    }
}

fn embed_value(value: &Value) -> Vec<Float32> {
    let text = value.as_string_lossy().to_lowercase();
    if [
        "apple",
        "banana",
        "cherry",
        "strawberry",
        "blueberry",
        "raspberry",
        "blackberry",
        "peach",
        "plum",
        "grape",
        "mango",
        "papaya",
        "pineapple",
        "watermelon",
        "orange",
        "lemon",
        "lime",
        "tangerine",
        "kiwi",
        "fig",
        "apricot",
        "grapefruit",
        "pomegranate",
    ]
    .contains(&text.as_str())
    {
        floats(&[1.0, 0.0, 0.0])
    } else if ["car", "bicycle", "motorcycle", "plane"].contains(&text.as_str()) {
        floats(&[0.0, 1.0, 0.0])
    } else if text.contains("dangerous") || text.contains("risky") || text.contains("safe") {
        floats(&[0.95, 0.05, 0.0])
    } else if text.contains("ganondorf") || text.contains("ganon") || text.contains("hyrule") {
        floats(&[0.0, 0.95, 0.05])
    } else if text.contains("link") || text.contains("hero") {
        floats(&[0.9, 0.1, 0.0])
    } else if text.contains("zelda") || text.contains("princess") {
        floats(&[0.1, 0.9, 0.0])
    } else {
        let counts = HashingEncoder::new(3)
            .counts(std::slice::from_ref(value))
            .remove(0);
        let counts: Vec<f32> = counts.into_iter().map(|count| count as f32).collect();
        floats(&normalized(&counts))
    }
}

fn model() -> Arc<dyn Encoder> {
    Arc::new(ToyEncoder)
}

fn options() -> SemHashOptions<dyn Encoder> {
    SemHashOptions::default()
}

fn fit(records: Vec<Record>, options: SemHashOptions<dyn Encoder>) -> Result<Instance> {
    SemHash::from_records(records, options, model())
}

fn rec(pairs: &[(&str, Value)]) -> Record {
    let mut map = DictRecord::new();
    for (key, value) in pairs {
        map.insert((*key).to_string(), value.clone());
    }
    Record::Dict(map)
}

fn text_records(values: &[&str]) -> Vec<Record> {
    values.iter().copied().map(Record::from).collect()
}

fn similarities(queries: &Embeddings, vectors: &Embeddings) -> Embeddings {
    let unit = |row: &Vec<Float32>| -> Vec<f32> {
        normalized(&row.iter().copied().map(number).collect::<Vec<f32>>())
    };
    let corpus: Vec<Vec<f32>> = vectors.iter().map(unit).collect();
    queries
        .iter()
        .map(|query| {
            let query = unit(query);
            corpus
                .iter()
                .map(|row| float(query.iter().zip(row).map(|(a, b)| a * b).sum::<f32>()))
                .collect()
        })
        .collect()
}

fn compare(s: &Instance, queries: &Embeddings) -> Result<Embeddings> {
    validate_query_dims(queries, s.index.dimensions())?;
    Ok(similarities(queries, &s.index.vectors))
}

fn deduplicate(s: &Instance, records: Vec<Record>, threshold: f32) -> Result<DeduplicationResult> {
    let pending = s.prepare_deduplication(records)?;
    let rows = compare(s, &pending.embeddings)?;
    s.deduplicate(pending, &rows, float(threshold))
}

fn self_deduplicate(s: &Instance, threshold: f32) -> Result<DeduplicationResult> {
    let rows = compare(s, &s.index.vectors)?;
    s.self_deduplicate(&rows, float(threshold))
}

fn means(lists: &[Vec<Float32>]) -> Vec<Float32> {
    lists
        .iter()
        .map(|list| {
            if list.is_empty() {
                float(0.0)
            } else {
                float(list.iter().copied().map(number).sum::<f32>() / list.len() as f32)
            }
        })
        .collect()
}

fn rank(s: &Instance, records: Vec<Record>) -> Result<FilterResult> {
    let (dicts, embeddings) = s.prepare_ranking(records)?;
    let rows = compare(s, &embeddings)?;
    let scores = means(&s.ranking_similarities(&embeddings, &rows)?);
    Ok(s.rank_by_average_similarity(&dicts, &scores))
}

fn self_scores(s: &Instance) -> Result<Vec<Float32>> {
    let rows = compare(s, &s.index.vectors)?;
    Ok(means(&s.self_ranking_similarities(&rows)?))
}

fn filter_outliers(s: &Instance, records: Vec<Record>, percentage: f32) -> Result<FilterResult> {
    validate_outlier_percentage(float(percentage))?;
    let ranking = rank(s, records)?;
    s.filter_outliers(ranking, float(percentage))
}

fn cosine(a: &[Float32], b: &[Float32]) -> f32 {
    let a: Vec<f32> = a.iter().copied().map(number).collect();
    let b: Vec<f32> = b.iter().copied().map(number).collect();
    let dot: f32 = a.iter().zip(&b).map(|(x, y)| x * y).sum();
    let norms = a.iter().map(|x| x * x).sum::<f32>().sqrt()
        * b.iter().map(|x| x * x).sum::<f32>().sqrt();
    if norms == 0.0 {
        0.0
    } else {
        dot / norms
    }
}

fn run_rounds(mut d: RankedDiversification) -> FilterResult {
    while !d.choice.is_complete() {
        let diversity = number(d.choice.diversity);
        let objectives: Vec<Float32> = d
            .choice
            .remaining
            .iter()
            .map(|candidate| {
                let close: Vec<Float32> = d
                    .choice
                    .selected
                    .iter()
                    .map(|chosen| float(cosine(&d.embeddings[*candidate], &d.embeddings[*chosen])))
                    .collect();
                let relevance = number(d.relevance[*candidate]);
                float(
                    (1.0 - diversity) * relevance - diversity * number(closest_similarity(&close)),
                )
            })
            .collect();
        d.choice.advance(&objectives);
    }
    d.finish()
}

fn self_find_representative(
    s: &mut Instance,
    size: usize,
    limit: CandidateLimit,
    diversity: f32,
) -> Result<FilterResult> {
    let scores = self_scores(s)?;
    let started = s.self_find_representative(&scores, size, limit, float(diversity), Strategy::MMR)?;
    Ok(run_rounds(started))
}

#[test]
fn deduplication_scoring_and_rethreshold() {
    let mut d = DeduplicationResult::new(
        vec![Record::from("a"), Record::from("b"), Record::from("c")],
        vec![
            DuplicateRecord::new(
                Record::from("d"),
                false,
                vec![
                    (Record::from("x"), float(0.9)),
                    (Record::from("y"), float(0.8)),
                ],
            ),
            DuplicateRecord::new(Record::from("e"), true, vec![(Record::from("z"), float(0.8))]),
        ],
        float(0.8),
        None,
    );
    assert!((ratio(d.duplicate_ratio()) - 0.4).abs() < 1e-6);
    assert!((ratio(d.exact_duplicate_ratio()) - 0.2).abs() < 1e-6);
    assert_eq!(
        number(d.get_least_similar_from_duplicates(1)[0].2),
        0.8
    );

    d.rethreshold(float(0.85)).unwrap();
    assert_eq!(d.filtered.len(), 1);
    assert_eq!(d.selected.len(), 4);
    assert!(d.rethreshold(float(0.80)).is_err());
}

#[test]
fn selected_with_duplicates_is_cached_and_deduped() {
    let selected = rec(&[("id", 0.into()), ("text", "hello".into())]);
    let filtered = rec(&[("id", 1.into()), ("text", "hello".into())]);
    let selected_record = selected.clone();
    let filtered_record = filtered.clone();

    let mut d = DeduplicationResult::new(
        vec![selected],
        vec![
            DuplicateRecord::new(
                filtered.clone(),
                false,
                vec![(selected_record.clone(), float(0.95))],
            ),
            DuplicateRecord::new(filtered, false, vec![(selected_record, float(0.90))]),
        ],
        float(0.8),
        Some(vec!["text".to_string()]),
    );

    let items = d.selected_with_duplicates().to_vec();
    assert_eq!(items.len(), 1);
    assert_eq!(items[0].duplicates.len(), 1);
    assert_eq!(items[0].duplicates[0].0, filtered_record);
}

#[test]
fn from_records_rejects_dicts_without_columns_and_preserves_order() {
    let records = vec![rec(&[("text", "hello".into())])];
    assert!(fit(records, options().model(model())).is_err());

    let semhash = fit(
        text_records(&["zebra", "apple", "zebra", "banana", "apple", "cherry"]),
        options().model(model()),
    )
    .unwrap();
    let firsts: Vec<String> = semhash
        .index
        .items
        .iter()
        .map(|bucket| bucket[0].get("text").unwrap().as_string_lossy())
        .collect();
    assert_eq!(firsts, vec!["zebra", "apple", "banana", "cherry"]);
}

#[test]
fn single_dataset_deduplication_with_exact_and_semantic_duplicates() {
    let texts = text_records(&[
        "It's dangerous to go alone!",
        "It's dangerous to go alone!",
        "It's risky to go alone!",
    ]);
    let semhash = fit(texts, options().model(model())).unwrap();
    let result = self_deduplicate(&semhash, 0.7).unwrap();
    assert_eq!(
        result.selected_texts().unwrap(),
        vec!["It's dangerous to go alone!"]
    );
    assert_eq!(result.filtered.len(), 2);
}

#[test]
fn cross_dataset_deduplication() {
    let train = text_records(&[
        "It's dangerous to go alone!",
        "It's a secret to everybody.",
        "Ganondorf has invaded Hyrule!",
    ]);
    let semhash = fit(train, options().model(model())).unwrap();
    let test = text_records(&[
        "It's dangerous to go alone!",
        "It's risky to go alone!",
        "Ganondorf has attacked Hyrule!",
    ]);
    let result = deduplicate(&semhash, test, 0.7).unwrap();
    assert!(result.selected.is_empty());
    assert_eq!(result.filtered.len(), 3);
}

#[test]
fn multi_column_records_preserve_non_embedding_fields() {
    let records = vec![
        rec(&[
            ("id", 0.into()),
            ("text", "triforce".into()),
            ("metadata", "game1".into()),
        ]),
        rec(&[
            ("id", 1.into()),
            ("text", "master sword".into()),
            ("metadata", "game2".into()),
        ]),
        rec(&[
            ("id", 2.into()),
            ("text", "hylian shield".into()),
            ("metadata", "game3".into()),
        ]),
    ];
    let semhash = fit(
        records,
        options().columns(vec!["text".to_string()]).model(model()),
    )
    .unwrap();
    let result = self_deduplicate(&semhash, 0.99).unwrap();
    assert_eq!(result.selected.len(), 3);
    for record in result.selected {
        let map = record.as_dict().unwrap();
        assert!(map.contains_key("id"));
        assert!(map.contains_key("metadata"));
    }
}

#[test]
fn outlier_filtering_and_ratios() {
    let train = text_records(&["apple", "banana", "cherry", "car", "bicycle"]);
    let semhash = fit(train, options().model(model())).unwrap();
    let test = text_records(&["apple", "banana", "kiwi", "motorcycle", "plane"]);
    let result = filter_outliers(&semhash, test, 0.4).unwrap();
    assert_eq!(result.filtered.len(), 2);
    assert!((ratio(result.filter_ratio()) - 0.4).abs() < 1e-6);
    assert!((ratio(result.selected_ratio()) - 0.6).abs() < 1e-6);
    assert!(filter_outliers(&semhash, Vec::new(), 1.5).is_err());
}

#[test]
fn representative_sampling_handles_auto_and_explicit_limits() {
    let train = text_records(&["apple", "banana", "cherry", "car", "bicycle"]);
    let mut semhash = fit(train, options().model(model())).unwrap();
    let result = self_find_representative(&mut semhash, 2, CandidateLimit::Auto, 0.5).unwrap();
    assert_eq!(result.selected.len(), 2);

    let result = self_find_representative(&mut semhash, 2, CandidateLimit::Value(3), 0.0).unwrap();
    assert_eq!(result.selected.len(), 2);
}

#[test]
fn from_embeddings_keeps_first_occurrence_embedding() {
    let records = text_records(&["apple", "banana", "apple", "cherry"]);
    let embeddings = vec![
        floats(&[0.0]),
        floats(&[1.0]),
        floats(&[2.0]),
        floats(&[3.0]),
    ];
    let semhash = SemHash::from_embeddings(embeddings, records, model(), options()).unwrap();
    assert_eq!(
        semhash.index.vectors,
        vec![floats(&[0.0]), floats(&[1.0]), floats(&[3.0])]
    );
}

#[test]
fn utility_functions_match_python_semantics() {
    assert_eq!(coerce_value(&42.into()), Value::String("42".into()));
    assert_eq!(coerce_value(&true.into()), Value::String("True".into()));
    assert_eq!(compute_candidate_limit_default(1000, 10), 100);
    assert_eq!(compute_candidate_limit_default(50, 10), 50);
    assert_eq!(compute_candidate_limit(20_000, 10, float(0.1), 100, 1000), 1000);

    let prepared = prepare_records(&text_records(&["hello", "world"]), None).unwrap();
    assert!(prepared.2);
    assert_eq!(prepared.1, vec!["text".to_string()]);
}
