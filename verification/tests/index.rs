use semhash_rs::index::validate_query_dims;
use semhash_rs::{Backend, DictRecord, DocScores, Embeddings, Float32, Index, SemHashError, Value};

fn float(x: f32) -> Float32 {
    Float32 { bits: x.to_bits() }
}

fn row(values: &[f32]) -> Vec<Float32> {
    values.iter().copied().map(float).collect()
}

fn named(name: &str) -> DictRecord {
    let mut map = DictRecord::new();
    map.insert("text".to_string(), Value::from(name));
    map
}

fn index_of(buckets: &[&[&str]]) -> Index {
    let vectors: Embeddings = buckets.iter().map(|_| row(&[1.0, 0.0])).collect();
    let items = buckets
        .iter()
        .map(|bucket| bucket.iter().map(|name| named(name)).collect())
        .collect();
    Index::new(vectors, items, Backend::Exact).unwrap()
}

fn names(found: &DocScores) -> Vec<(String, f32)> {
    found
        .iter()
        .map(|(record, score)| {
            (
                record.get("text").unwrap().as_string_lossy(),
                f32::from_bits(score.bits),
            )
        })
        .collect()
}

fn expected(pairs: &[(&str, f32)]) -> Vec<(String, f32)> {
    pairs
        .iter()
        .map(|(name, score)| (name.to_string(), *score))
        .collect()
}

#[test]
fn a_threshold_query_lists_buckets_from_the_most_similar_down() {
    let index = index_of(&[&["a", "b"], &["c"], &["d"], &["e"]]);
    let queries = vec![row(&[1.0, 0.0]), row(&[0.0, 1.0])];
    let similarities = vec![row(&[0.5, 0.9, 0.4, 0.5]), row(&[0.1, f32::NAN, 0.2, 0.3])];
    let found = index
        .query_threshold(&queries, &similarities, float(0.5))
        .unwrap();
    assert_eq!(
        names(&found[0]),
        expected(&[("c", 0.9), ("a", 0.5), ("b", 0.5), ("e", 0.5)])
    );
    assert!(found[1].is_empty());

    let higher = index
        .query_threshold(&queries, &similarities, float(0.6))
        .unwrap();
    assert_eq!(higher[0][..], found[0][..1]);
}

#[test]
fn a_threshold_query_takes_a_hundred_neighbors() {
    let names: Vec<String> = (0..150).map(|i| i.to_string()).collect();
    let buckets: Vec<Vec<&str>> = names.iter().map(|name| vec![name.as_str()]).collect();
    let buckets: Vec<&[&str]> = buckets.iter().map(Vec::as_slice).collect();
    let index = index_of(&buckets);
    let similarities = vec![(0..150).map(|i| float(i as f32 / 150.0)).collect()];
    let found = index
        .query_threshold(&vec![row(&[1.0, 1.0])], &similarities, float(0.0))
        .unwrap();
    assert_eq!(found[0].len(), 100);
    assert_eq!(found[0][0].0, named("149"));
    assert_eq!(found[0][99].0, named("50"));
}

#[test]
fn nearest_neighbors_leave_the_query_out() {
    let index = index_of(&[&["a"], &["b"], &["c"]]);
    let queries = vec![row(&[1.0, 0.0]); 4];
    let similarities = vec![row(&[0.9, 0.2, 0.9]); 4];
    let with = index.query_top_k(&queries, &similarities, 2, false).unwrap();
    assert_eq!(with[0], (vec![0, 2], row(&[0.9, 0.9])));
    let without = index.query_top_k(&queries, &similarities, 5, true).unwrap();
    assert_eq!(without[0], (vec![2, 1], row(&[0.9, 0.2])));
    assert_eq!(without[1], (vec![0, 2], row(&[0.9, 0.9])));
    assert_eq!(without[3].0, vec![0, 2, 1]);
    let none = index.query_top_k(&queries, &similarities, 0, false).unwrap();
    assert_eq!(none[0], (Vec::new(), Vec::new()));
}

#[test]
fn the_highest_similarities_come_lowest_first() {
    let index = index_of(&[&["a"], &["b"], &["c"], &["d"]]);
    let queries = vec![row(&[1.0, 0.0]); 2];
    let similarities = vec![row(&[0.3, 0.9, 0.1, 0.5]); 2];
    let lists = index
        .top_k_similarities(&queries, &similarities, 3, false)
        .unwrap();
    assert_eq!(lists[0], row(&[0.3, 0.5, 0.9]));
    let lists = index
        .top_k_similarities(&queries, &similarities, 100, true)
        .unwrap();
    assert_eq!(lists[0], row(&[0.1, 0.5, 0.9]));
    assert_eq!(lists[1], row(&[0.1, 0.3, 0.5]));

    let single = index_of(&[&["a"]]);
    let lists = single
        .top_k_similarities(&vec![row(&[1.0, 0.0])], &vec![row(&[1.0])], 100, true)
        .unwrap();
    assert_eq!(lists, vec![Vec::new()]);
}

#[test]
fn an_empty_index_answers_nothing() {
    let index = Index::from_vectors_and_items(Vec::new(), Vec::new(), Backend::default()).unwrap();
    assert_eq!(index.backend, Backend::Usearch);
    assert_eq!(index.dimensions(), 0);
    let queries = vec![row(&[1.0])];
    assert_eq!(
        index.query_threshold(&queries, &Vec::new(), float(0.0)),
        Ok(Vec::new())
    );
    assert_eq!(index.query_top_k(&queries, &Vec::new(), 3, false), Ok(Vec::new()));
    assert_eq!(
        index.top_k_similarities(&queries, &Vec::new(), 3, true),
        Ok(Vec::new())
    );
}

#[test]
fn shapes_that_do_not_fit_are_refused() {
    let invalid = |text: &str| SemHashError::InvalidEmbeddings(text.to_string());
    assert_eq!(
        Index::new(vec![row(&[1.0])], Vec::new(), Backend::Flat),
        Err(invalid("Number of embeddings (1) must match number of records (0)"))
    );
    assert_eq!(
        Index::new(vec![Vec::new()], vec![vec![named("a")]], Backend::Hnsw),
        Err(invalid("embeddings must be a 2D array with non-empty rows"))
    );
    assert_eq!(
        Index::new(
            vec![row(&[1.0]), row(&[1.0, 2.0])],
            vec![vec![named("a")], vec![named("b")]],
            Backend::Exact
        ),
        Err(invalid("embeddings must be a rectangular 2D array"))
    );
    let index = index_of(&[&["a"]]);
    assert_eq!(
        index.query_threshold(&vec![row(&[1.0])], &Vec::new(), float(0.0)),
        Err(invalid("embeddings must have 2 columns, got 1"))
    );
    assert_eq!(
        validate_query_dims(&vec![row(&[1.0])], 2),
        Err(invalid("embeddings must have 2 columns, got 1"))
    );
    assert_eq!(validate_query_dims(&vec![row(&[1.0])], 1), Ok(()));
    assert_eq!(validate_query_dims(&Vec::new(), 5), Ok(()));
}

#[test]
fn the_similarities_of_the_nearest_are_the_highest() {
    let index = index_of(&[&["a"], &["b"], &["c"], &["d"]]);
    let queries = vec![row(&[1.0, 0.0]); 4];
    let similarities = vec![
        row(&[1.0, 0.5, -0.5, 0.5]),
        row(&[0.25, 1.0, 0.75, 0.5]),
        row(&[-0.5, 0.75, 1.0, 0.0]),
        row(&[0.5, 0.5, 0.5, 1.0]),
    ];
    for in_index in [false, true] {
        for k in 0..6 {
            let found = index
                .query_top_k(&queries, &similarities, k, in_index)
                .unwrap();
            let lists = index
                .top_k_similarities(&queries, &similarities, k, in_index)
                .unwrap();
            for (neighbors, list) in found.iter().zip(&lists) {
                let falling: Vec<Float32> = list.iter().rev().copied().collect();
                assert_eq!(neighbors.1, falling);
            }
        }
    }
}
