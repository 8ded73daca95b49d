use semhash_rs::strategy::closest_similarity;
use semhash_rs::{diversify, DiversifyResult, Float32, SemHashError, Strategy};

fn float(x: f32) -> Float32 {
    Float32 { bits: x.to_bits() }
}

fn row(values: &[f32]) -> Vec<Float32> {
    values.iter().copied().map(float).collect()
}

#[test]
fn strategies_are_found_by_name() {
    assert_eq!(Strategy::parse("mmr"), Ok(Strategy::MMR));
    assert_eq!("Msd".parse(), Ok(Strategy::MSD));
    assert_eq!("DPP".parse(), Ok(Strategy::DPP));
    assert_eq!("cover".parse(), Ok(Strategy::COVER));
    assert_eq!("sSd".parse(), Ok(Strategy::SSD));
    assert_eq!(
        "maß".parse::<Strategy>(),
        Err(SemHashError::Message(
            "Unknown diversification strategy: MAß".to_string()
        ))
    );
    assert_eq!(Strategy::default(), Strategy::MMR);
}

#[test]
fn the_most_relevant_candidate_is_chosen_first() {
    let embeddings = vec![row(&[1.0]); 4];
    let choice = diversify(
        &embeddings,
        &row(&[0.1, 0.7, 0.7, 0.2]),
        3,
        Strategy::COVER,
        float(7.0),
    )
    .unwrap();
    assert_eq!(choice.selected, vec![1]);
    assert_eq!(choice.selection_scores, row(&[0.7]));
    assert_eq!(choice.remaining, vec![0, 2, 3]);
    assert_eq!(choice.wanted, 3);
    assert_eq!(choice.diversity, float(1.0));
    assert!(!choice.is_complete());
}

#[test]
fn rounds_choose_the_highest_objective() {
    let embeddings = vec![row(&[1.0]); 5];
    let mut choice = diversify(
        &embeddings,
        &row(&[5.0, 4.0, 3.0, 2.0, 1.0]),
        9,
        Strategy::MMR,
        float(-1.0),
    )
    .unwrap();
    assert_eq!(choice.wanted, 5);
    assert_eq!(choice.diversity, float(0.0));
    choice.advance(&row(&[0.5, 0.9, f32::NAN, 0.9]));
    assert_eq!(choice.selected, vec![0, 2]);
    choice.advance(&row(&[f32::NEG_INFINITY, f32::NAN, f32::NEG_INFINITY]));
    assert_eq!(choice.selected, vec![0, 2, 1]);
    choice.advance(&row(&[-3.0, -2.0]));
    assert!(!choice.is_complete());
    choice.advance(&row(&[-2.5]));
    assert!(choice.is_complete());
    assert_eq!(
        choice.into_result(),
        DiversifyResult {
            indices: vec![0, 2, 1, 4, 3],
            selection_scores: row(&[5.0, 0.9, f32::NEG_INFINITY, -2.0, -2.5]),
        }
    );
}

#[test]
fn nothing_to_choose_is_complete() {
    let choice = diversify(&Vec::new(), &[], 3, Strategy::SSD, float(0.5)).unwrap();
    assert!(choice.is_complete());
    assert!(choice.into_result().indices.is_empty());
    let choice = diversify(&vec![row(&[1.0])], &row(&[1.0]), 0, Strategy::MSD, float(0.5)).unwrap();
    assert!(choice.is_complete());
    assert!(choice.into_result().indices.is_empty());
}

#[test]
fn scores_have_to_match_the_embeddings() {
    assert_eq!(
        diversify(&vec![row(&[1.0])], &row(&[1.0, 2.0]), 1, Strategy::MMR, float(0.5)).err(),
        Some(SemHashError::InvalidEmbeddings(
            "Number of embeddings (1) must match number of scores (2)".to_string()
        ))
    );
}

#[test]
fn the_closest_similarity_is_the_highest() {
    assert_eq!(closest_similarity(&row(&[0.1, 0.8, f32::NAN, 0.3])), float(0.8));
    assert_eq!(closest_similarity(&row(&[f32::NAN])), float(f32::NEG_INFINITY));
    assert_eq!(closest_similarity(&[]), float(f32::NEG_INFINITY));
}
