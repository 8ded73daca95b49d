use semhash_rs::text::{is_white_space, split_words};
use semhash_rs::{HashingEncoder, Value};

fn fnv1a64(bytes: &[u8]) -> u64 {
    let mut hash = 0xcbf29ce484222325_u64;
    for byte in bytes {
        hash ^= u64::from(*byte);
        hash = hash.wrapping_mul(0x100000001b3);
    }
    hash
}

fn expected(features: &[&str], dimension: usize) -> Vec<i32> {
    let mut counts = vec![0; dimension];
    for feature in features {
        let hash = fnv1a64(feature.as_bytes());
        counts[(hash % dimension as u64) as usize] += if hash >> 63 == 0 { 1 } else { -1 };
    }
    counts
}

#[test]
fn words_and_their_runs_are_counted() {
    let encoder = HashingEncoder::new(16);
    let counts = encoder.counts(&[Value::from("hello\tÄb")]);
    assert_eq!(
        counts,
        vec![expected(
            &["hello", "hel", "ell", "llo", "hell", "ello", "hello", "äb"],
            16
        )]
    );
}

#[test]
fn case_and_kind_of_white_space_do_not_matter() {
    let encoder = HashingEncoder::new(32);
    let counts = encoder.counts(&[
        Value::from("Große WÖRTER"),
        Value::from("große\u{3000}wörter"),
        Value::from("große wörter\n"),
        Value::from("großewörter"),
    ]);
    assert_eq!(counts[0], counts[1]);
    assert_eq!(counts[0], counts[2]);
    assert_ne!(counts[0], counts[3]);
}

#[test]
fn a_text_without_words_is_one_feature() {
    let encoder = HashingEncoder::new(8);
    let counts = encoder.counts(&[Value::from(" \t"), Value::from("")]);
    assert_eq!(counts[0], expected(&[" \t"], 8));
    assert_eq!(counts[1], expected(&[""], 8));
}

#[test]
fn an_encoder_has_at_least_one_dimension() {
    assert_eq!(HashingEncoder::new(0).dimension(), 1);
    assert_eq!(HashingEncoder::new(7).dimension(), 7);
    assert_eq!(HashingEncoder::default().dimension(), 128);
    assert_eq!(
        HashingEncoder::new(0).counts(&[Value::from(12)]),
        vec![expected(&["12"], 1)]
    );
}

#[test]
fn the_order_of_words_does_not_matter() {
    let encoder = HashingEncoder::new(64);
    let counts = encoder.counts(&[
        Value::from("Red  fox jumps red"),
        Value::from("\u{2003}jumps RED\nred\u{85}Fox "),
        Value::from("red fox jumps"),
    ]);
    assert_eq!(counts[0], counts[1]);
    assert_ne!(counts[0], counts[2]);
    assert_eq!(counts[1], encoder.counts(&[Value::from("fox jumps red red")])[0]);
    assert!(counts.iter().all(|row| row.len() == 64));
}

#[test]
fn white_space_is_that_of_the_standard_library() {
    for c in '\0'..=char::MAX {
        assert_eq!(is_white_space(c), c.is_whitespace(), "{c:?}");
    }
}

#[test]
fn white_space_separates_words() {
    let words = |text: &str| -> Vec<String> {
        split_words(text)
            .into_iter()
            .map(|word| word.into_iter().collect())
            .collect()
    };
    let (s, t) = (" ab c", "d\te ");
    let joined = format!("{s}\u{3000}{t}");
    assert_eq!(words(&joined), [words(s), words(t)].concat());
    assert_eq!(words(&joined), vec!["ab", "c", "d", "e"]);
}
