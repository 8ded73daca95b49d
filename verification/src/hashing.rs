//! A deterministic encoder that needs no model: it counts hashed words and character grams.

use crate::rendering;
use crate::text;
use crate::text::{split_words, to_lowercase};
use crate::value::{Value, ValueView};
use vstd::prelude::*;
use vstd::seq_lib::*;
use vstd::string::*;
use vstd::utf8::*;

verus! {

// ---------------------------------------------------------------------------------------------
// The hash of a feature

/// One step of the 64-bit FNV-1a hash.
pub open spec fn fnv_step(hash: u64, byte: u8) -> u64 {
    (((hash ^ (byte as u64)) * 0x100000001b3) % 0x1_0000_0000_0000_0000) as u64
}

/// The 64-bit FNV-1a hash of a byte sequence.
pub open spec fn fnv(bytes: Seq<u8>) -> u64
    decreases bytes.len(),
{
    if bytes.len() == 0 {
        0xcbf29ce484222325
    } else {
        fnv_step(fnv(bytes.drop_last()), bytes.last())
    }
}

/// The 64-bit FNV-1a hash.
pub fn fnv1a64(bytes: &[u8]) -> (hash: u64)
    ensures
        hash == fnv(bytes@),
{
    let mut hash: u64 = 0xcbf29ce484222325;
    let mut i: usize = 0;
    while i < bytes.len()
        invariant
            i <= bytes.len(),
            hash == fnv(bytes@.take(i as int)),
        decreases bytes.len() - i,
    {
        assert(bytes@.take(i + 1).drop_last() =~= bytes@.take(i as int));
        hash = (hash ^ (bytes[i] as u64)).wrapping_mul(0x100000001b3);
        i = i + 1;
    }
    assert(bytes@.take(i as int) =~= bytes@);
    hash
}

// ---------------------------------------------------------------------------------------------
// The features of a text

/// The runs of `window` neighbouring characters of a word.
pub open spec fn grams(word: Seq<char>, window: nat) -> Seq<Seq<char>> {
    if word.len() >= window {
        Seq::new(
            (word.len() - window + 1) as nat,
            |i: int| word.subrange(i, i + window),
        )
    } else {
        seq![]
    }
}

/// The features of a word: the word itself, and its runs of three, four and five characters.
pub open spec fn word_features(word: Seq<char>) -> Seq<Seq<char>> {
    seq![word] + grams(word, 3) + grams(word, 4) + grams(word, 5)
}

/// The features of several words.
pub open spec fn words_features(words: Seq<Seq<char>>) -> Seq<Seq<char>>
    decreases words.len(),
{
    if words.len() == 0 {
        seq![]
    } else {
        words_features(words.drop_last()) + word_features(words.last())
    }
}

/// The features of a text with the given words: those of its words, or the text itself where it
/// has none.
pub open spec fn features_of(s: Seq<char>, words: Seq<Seq<char>>) -> Seq<Seq<char>> {
    if words.len() == 0 {
        seq![s]
    } else {
        words_features(words)
    }
}

/// The features of a text.
pub open spec fn text_features(s: Seq<char>) -> Seq<Seq<char>> {
    features_of(s, text::words(s))
}

// ---------------------------------------------------------------------------------------------
// Counting

/// The largest count that is told apart from the next: beyond it, single-precision numbers
/// cannot be counted up by one.
pub const COUNT_LIMIT: i32 = 0x100_0000;

/// A count one up, where it is below the limit.
pub open spec fn counted_up(n: i32) -> i32 {
    if n < COUNT_LIMIT {
        (n + 1) as i32
    } else {
        n
    }
}

/// A count one down, where it is above the limit.
pub open spec fn counted_down(n: i32) -> i32 {
    if n > -COUNT_LIMIT {
        (n - 1) as i32
    } else {
        n
    }
}

/// The counts after one more feature: its hash picks the place and, by its highest bit, whether
/// to count up or down.
pub open spec fn counted(counts: Seq<i32>, feature: Seq<char>) -> Seq<i32> {
    let hash = fnv(encode_utf8(feature));
    let place = (hash as usize) as int % counts.len() as int;
    counts.update(
        place,
        if hash < 0x8000_0000_0000_0000 {
            counted_up(counts[place])
        } else {
            counted_down(counts[place])
        },
    )
}

/// The counts of a list of features, from zero.
pub open spec fn feature_counts(features: Seq<Seq<char>>, dimension: nat) -> Seq<i32>
    decreases features.len(),
{
    if features.len() == 0 {
        Seq::new(dimension, |i: int| 0i32)
    } else {
        counted(feature_counts(features.drop_last(), dimension), features.last())
    }
}

/// The counts of a value: those of its text in lower case.
pub open spec fn value_counts(v: ValueView, dimension: nat) -> Seq<i32> {
    feature_counts(text_features(text::lowercase(rendering::lossy_text(v))), dimension)
}

/// There are as many counts as dimensions, each within the limit.
pub proof fn feature_counts_bounded(features: Seq<Seq<char>>, dimension: nat)
    requires
        dimension > 0,
    ensures
        feature_counts(features, dimension).len() == dimension,
        forall|i: int|
            0 <= i < dimension ==> -COUNT_LIMIT <= #[trigger] feature_counts(features, dimension)[i]
                <= COUNT_LIMIT,
    decreases features.len(),
{
    if features.len() > 0 {
        feature_counts_bounded(features.drop_last(), dimension);
    }
}

fn add_hashed_feature(bytes: &[u8], counts: &mut Vec<i32>, Ghost(feature): Ghost<Seq<char>>)
    requires
        bytes@ == encode_utf8(feature),
        old(counts).len() > 0,
    ensures
        final(counts)@ == counted(old(counts)@, feature),
        final(counts).len() == old(counts).len(),
{
    let hash: u64 = fnv1a64(bytes);
    let place: usize = (hash as usize) % counts.len();
    let count: i32 = counts[place];
    let next: i32 = if hash < 0x8000_0000_0000_0000 {
        if count < COUNT_LIMIT {
            count + 1
        } else {
            count
        }
    } else if count > -COUNT_LIMIT {
        count - 1
    } else {
        count
    };
    counts.set(place, next);
    assert(counts@ =~= counted(old(counts)@, feature));
}

/// Counts the run of characters from `from` to `to`.
fn add_run(word: &Vec<char>, from: usize, to: usize, counts: &mut Vec<i32>)
    requires
        from <= to <= word.len(),
        old(counts).len() > 0,
    ensures
        final(counts)@ == counted(old(counts)@, word@.subrange(from as int, to as int)),
        final(counts).len() == old(counts).len(),
{
    let mut run = String::new();
    let mut i: usize = from;
    assert(run@ =~= word@.subrange(from as int, from as int));
    while i < to
        invariant
            from <= i <= to <= word.len(),
            run@ == word@.subrange(from as int, i as int),
        decreases to - i,
    {
        run.push(word[i]);
        assert(run@ =~= word@.subrange(from as int, i + 1));
        i = i + 1;
    }
    add_hashed_feature(run.as_str().as_bytes(), counts, Ghost(run@));
}

/// Counting features one after the other is counting them all.
proof fn lemma_counts_push(features: Seq<Seq<char>>, feature: Seq<char>, dimension: nat)
    ensures
        feature_counts(features.push(feature), dimension) == counted(
            feature_counts(features, dimension),
            feature,
        ),
{
    assert(features.push(feature).drop_last() =~= features);
}

/// Counts the runs of `window` characters of a word.
fn add_grams(
    word: &Vec<char>,
    window: usize,
    counts: &mut Vec<i32>,
    Ghost(before): Ghost<Seq<Seq<char>>>,
    Ghost(dimension): Ghost<nat>,
)
    requires
        0 < window,
        dimension > 0,
        old(counts)@ == feature_counts(before, dimension),
    ensures
        final(counts)@ == feature_counts(before + grams(word@, window as nat), dimension),
{
    let ghost all = grams(word@, window as nat);
    if word.len() < window {
        assert(before + all =~= before);
        return;
    }
    let last: usize = word.len() - window;
    let mut i: usize = 0;
    assert(before + all.take(0) =~= before);
    while i <= last
        invariant
            window <= word.len(),
            last == word.len() - window,
            i <= last + 1,
            0 < window,
            dimension > 0,
            all == grams(word@, window as nat),
            counts@ == feature_counts(before + all.take(i as int), dimension),
        decreases last + 1 - i,
    {
        proof {
            feature_counts_bounded(before + all.take(i as int), dimension);
        }
        add_run(word, i, i + window, counts);
        proof {
            lemma_counts_push(before + all.take(i as int), all[i as int], dimension);
            assert((before + all.take(i as int)).push(all[i as int]) =~= before + all.take(i + 1));
        }
        i = i + 1;
    }
    assert(all.take(i as int) =~= all);
}

/// Encoder used when no model is supplied.
#[derive(Debug)]
pub struct HashingEncoder {
    dimension: usize,
}

impl HashingEncoder {
    /// The number of counts per value.
    pub closed spec fn size(&self) -> nat {
        self.dimension as nat
    }

    #[verifier::type_invariant]
    spec fn has_dimensions(self) -> bool {
        self.dimension > 0
    }

    /// An encoder with the given number of dimensions, but at least one.
    pub fn new(dimension: usize) -> (r: Self)
        ensures
            r.size() == if dimension == 0 {
                1
            } else {
                dimension as nat
            },
    {
        HashingEncoder {
            dimension: if dimension == 0 {
                1
            } else {
                dimension
            },
        }
    }

    /// The number of dimensions.
    pub fn dimension(&self) -> (r: usize)
        ensures
            r == self.size(),
            r > 0,
    {
        proof {
            use_type_invariant(self);
        }
        self.dimension
    }

    /// Counts the hashed features of a text in lower case.
    pub fn count_text(&self, s: &str) -> (counts: Vec<i32>)
        ensures
            counts@ == feature_counts(text_features(s@), self.size()),
    {
        let words = split_words(s);
        self.count_words(s, &words)
    }

    /// Counts the hashed features of a text in lower case with the given words.
    pub fn count_words(&self, s: &str, words: &Vec<Vec<char>>) -> (counts: Vec<i32>)
        ensures
            counts@ == feature_counts(features_of(s@, words.deep_view()), self.size()),
    {
        let dimension: usize = self.dimension();
        let ghost dim = dimension as nat;
        let mut counts: Vec<i32> = Vec::new();
        counts.resize(dimension, 0);
        assert(counts@ =~= feature_counts(seq![], dim));
        let ghost ws = words.deep_view();
        if words.len() == 0 {
            proof {
                lemma_counts_push(seq![], s@, dim);
                assert(Seq::<Seq<char>>::empty().push(s@) =~= seq![s@]);
            }
            add_hashed_feature(s.as_bytes(), &mut counts, Ghost(s@));
            return counts;
        }
        let mut i: usize = 0;
        assert(words_features(ws.take(0)) =~= seq![]);
        while i < words.len()
            invariant
                i <= words.len(),
                ws == words.deep_view(),
                dim > 0,
                counts@ == feature_counts(words_features(ws.take(i as int)), dim),
            decreases words.len() - i,
        {
            let ghost before = words_features(ws.take(i as int));
            let word = &words[i];
            let ghost w = word@;
            assert(word.deep_view() =~= w);
            proof {
                feature_counts_bounded(before, dim);
            }
            add_run(word, 0, word.len(), &mut counts);
            proof {
                assert(w.subrange(0, w.len() as int) =~= w);
                lemma_counts_push(before, w, dim);
            }
            add_grams(word, 3, &mut counts, Ghost(before.push(w)), Ghost(dim));
            add_grams(word, 4, &mut counts, Ghost(before.push(w) + grams(w, 3)), Ghost(dim));
            add_grams(
                word,
                5,
                &mut counts,
                Ghost(before.push(w) + grams(w, 3) + grams(w, 4)),
                Ghost(dim),
            );
            proof {
                assert(before.push(w) + grams(w, 3) + grams(w, 4) + grams(w, 5) =~= before
                    + word_features(w));
                assert(ws.take(i + 1).drop_last() =~= ws.take(i as int));
                assert(ws.take(i + 1).last() == ws[i as int]);
                assert(ws[i as int] == word.deep_view());
            }
            i = i + 1;
        }
        assert(ws.take(i as int) =~= ws);
        counts
    }

    /// Counts the hashed features of each value. Scaled to unit length, each list of counts is
    /// the embedding of its value.
    pub fn counts(&self, inputs: &[Value]) -> (r: Vec<Vec<i32>>)
        ensures
            r.len() == inputs.len(),
            forall|i: int|
                0 <= i < inputs.len() ==> (#[trigger] r@[i])@ == value_counts(
                    inputs@[i].deep_view(),
                    self.size(),
                ),
    {
        let mut out: Vec<Vec<i32>> = Vec::new();
        let mut i: usize = 0;
        while i < inputs.len()
            invariant
                i <= inputs.len(),
                out.len() == i,
                forall|j: int|
                    0 <= j < i ==> (#[trigger] out@[j])@ == value_counts(
                        inputs@[j].deep_view(),
                        self.size(),
                    ),
            decreases inputs.len() - i,
        {
            let raw = inputs[i].as_string_lossy();
            let lower = to_lowercase(raw.as_str());
            out.push(self.count_text(lower.as_str()));
            i = i + 1;
        }
        out
    }
}

impl Clone for HashingEncoder {
    fn clone(&self) -> (r: Self)
        ensures
            r.size() == self.size(),
    {
        HashingEncoder::new(self.dimension())
    }
}

impl Default for HashingEncoder {
    fn default() -> (r: Self)
        ensures
            r.size() == 128,
    {
        HashingEncoder::new(128)
    }
}

// ---------------------------------------------------------------------------------------------
// Laws

/// The place of a feature among `dimension` counts.
pub open spec fn feature_place(feature: Seq<char>, dimension: nat) -> int {
    (fnv(encode_utf8(feature)) as usize) as int % dimension as int
}

/// What a feature adds at a place where nothing is held back at the limit.
pub open spec fn feature_weight(feature: Seq<char>, place: int, dimension: nat) -> int {
    if feature_place(feature, dimension) != place {
        0
    } else if fnv(encode_utf8(feature)) < 0x8000_0000_0000_0000 {
        1
    } else {
        -1
    }
}

/// What features add up to at a place where nothing is held back at the limit.
pub open spec fn tally(features: Seq<Seq<char>>, place: int, dimension: nat) -> int
    decreases features.len(),
{
    if features.len() == 0 {
        0
    } else {
        tally(features.drop_last(), place, dimension) + feature_weight(
            features.last(),
            place,
            dimension,
        )
    }
}

/// Whether no count goes beyond the limit while the features are counted one by one.
pub open spec fn within_limit(features: Seq<Seq<char>>, dimension: nat) -> bool {
    forall|n: int, place: int|
        0 <= n <= features.len() && 0 <= place < dimension ==> -COUNT_LIMIT <= #[trigger] tally(
            features.take(n),
            place,
            dimension,
        ) <= COUNT_LIMIT
}

/// Where no count goes beyond the limit, each is what the features add up to at its place.
pub proof fn counts_are_tallies(features: Seq<Seq<char>>, dimension: nat, place: int)
    requires
        0 <= place < dimension,
        within_limit(features, dimension),
    ensures
        feature_counts(features, dimension)[place] == tally(features, place, dimension),
    decreases features.len(),
{
    if features.len() > 0 {
        let init = features.drop_last();
        assert(within_limit(init, dimension)) by {
            assert forall|n: int, q: int| 0 <= n <= init.len() && 0 <= q < dimension implies
                -COUNT_LIMIT <= #[trigger] tally(init.take(n), q, dimension) <= COUNT_LIMIT by {
                assert(init.take(n) =~= features.take(n));
            }
        }
        counts_are_tallies(init, dimension, place);
        feature_counts_bounded(init, dimension);
        assert(features.take(features.len() as int) =~= features);
        assert(-COUNT_LIMIT <= tally(features, place, dimension) <= COUNT_LIMIT) by {
            let n = features.len() as int;
            assert(-COUNT_LIMIT <= tally(features.take(n), place, dimension) <= COUNT_LIMIT);
        }
    }
}

/// As many features as the limit or fewer never go beyond it.
pub proof fn few_features_are_within_limit(features: Seq<Seq<char>>, dimension: nat)
    requires
        features.len() <= COUNT_LIMIT,
    ensures
        within_limit(features, dimension),
{
    assert forall|n: int, place: int| 0 <= n <= features.len() && 0 <= place < dimension implies
        -COUNT_LIMIT <= #[trigger] tally(features.take(n), place, dimension) <= COUNT_LIMIT by {
        lemma_tally_bounded(features.take(n), place, dimension);
    }
}

proof fn lemma_tally_bounded(features: Seq<Seq<char>>, place: int, dimension: nat)
    ensures
        -features.len() <= tally(features, place, dimension) <= features.len(),
    decreases features.len(),
{
    if features.len() > 0 {
        lemma_tally_bounded(features.drop_last(), place, dimension);
    }
}

/// A feature can be taken out anywhere.
proof fn lemma_tally_remove(features: Seq<Seq<char>>, k: int, place: int, dimension: nat)
    requires
        0 <= k < features.len(),
    ensures
        tally(features, place, dimension) == tally(features.remove(k), place, dimension)
            + feature_weight(features[k], place, dimension),
    decreases features.len(),
{
    let rest = features.remove(k);
    if k == features.len() - 1 {
        assert(rest =~= features.drop_last());
    } else {
        lemma_tally_remove(features.drop_last(), k, place, dimension);
        assert(rest.drop_last() =~= features.drop_last().remove(k));
        assert(rest.last() == features.last());
    }
}

proof fn lemma_tally_unordered(
    a: Seq<Seq<char>>,
    b: Seq<Seq<char>>,
    place: int,
    dimension: nat,
)
    requires
        a.to_multiset() == b.to_multiset(),
    ensures
        tally(a, place, dimension) == tally(b, place, dimension),
    decreases a.len(),
{
    broadcast use group_to_multiset_ensures;

    assert(a.len() == a.to_multiset().len());
    assert(b.len() == b.to_multiset().len());
    if a.len() > 0 {
        let k = lemma_last_elsewhere(a, b);
        lemma_tally_unordered(a.drop_last(), b.remove(k), place, dimension);
        lemma_tally_remove(b, k, place, dimension);
    }
}

/// The last item of a list stands somewhere in a rearrangement of it, and the rest of the one is a
/// rearrangement of the rest of the other.
proof fn lemma_last_elsewhere(a: Seq<Seq<char>>, b: Seq<Seq<char>>) -> (k: int)
    requires
        a.to_multiset() == b.to_multiset(),
        a.len() > 0,
    ensures
        0 <= k < b.len(),
        b[k] == a.last(),
        a.drop_last().to_multiset() == b.remove(k).to_multiset(),
{
    broadcast use group_to_multiset_ensures;

    let x = a.last();
    assert(a.contains(a[a.len() - 1]));
    assert(b.to_multiset().count(x) > 0);
    assert(b.contains(x));
    let k = choose|k: int| 0 <= k < b.len() && b[k] == x;
    assert(a.drop_last().push(x) =~= a);
    assert(a.drop_last().to_multiset() =~= b.remove(k).to_multiset());
    k
}

/// The order of features does not matter to their counts, as long as none goes beyond the limit.
pub proof fn counts_ignore_order(a: Seq<Seq<char>>, b: Seq<Seq<char>>, dimension: nat)
    requires
        dimension > 0,
        a.to_multiset() == b.to_multiset(),
        within_limit(a, dimension),
        within_limit(b, dimension),
    ensures
        feature_counts(a, dimension) == feature_counts(b, dimension),
{
    feature_counts_bounded(a, dimension);
    feature_counts_bounded(b, dimension);
    assert forall|place: int| 0 <= place < dimension implies feature_counts(a, dimension)[place]
        == feature_counts(b, dimension)[place] by {
        counts_are_tallies(a, dimension, place);
        counts_are_tallies(b, dimension, place);
        lemma_tally_unordered(a, b, place, dimension);
    }
    assert(feature_counts(a, dimension) =~= feature_counts(b, dimension));
}

/// A word can be taken out anywhere.
proof fn lemma_features_remove(words: Seq<Seq<char>>, k: int)
    requires
        0 <= k < words.len(),
    ensures
        words_features(words).to_multiset() == words_features(words.remove(k)).to_multiset().add(
            word_features(words[k]).to_multiset(),
        ),
    decreases words.len(),
{
    let init = words.drop_last();
    let rest = words.remove(k);
    lemma_multiset_commutative(words_features(init), word_features(words.last()));
    if k == words.len() - 1 {
        assert(rest =~= init);
    } else {
        lemma_features_remove(init, k);
        assert(rest.drop_last() =~= init.remove(k));
        assert(rest.last() == words.last());
        lemma_multiset_commutative(words_features(rest.drop_last()), word_features(rest.last()));
        assert(words_features(words).to_multiset() =~= words_features(rest).to_multiset().add(
            word_features(words[k]).to_multiset(),
        ));
    }
}

/// Words in another order have the same features, in another order.
pub proof fn features_ignore_word_order(a: Seq<Seq<char>>, b: Seq<Seq<char>>)
    requires
        a.to_multiset() == b.to_multiset(),
    ensures
        words_features(a).to_multiset() == words_features(b).to_multiset(),
    decreases a.len(),
{
    broadcast use group_to_multiset_ensures;

    assert(a.len() == a.to_multiset().len());
    assert(b.len() == b.to_multiset().len());
    if a.len() > 0 {
        let k = lemma_last_elsewhere(a, b);
        features_ignore_word_order(a.drop_last(), b.remove(k));
        lemma_features_remove(b, k);
        lemma_multiset_commutative(words_features(a.drop_last()), word_features(a.last()));
    }
}

/// Case, spacing and the order of words do not matter to the counts of a value: two values whose
/// texts in lower case have the same words, at least one and each as often, have the same counts,
/// as long as none goes beyond the limit. There are as many counts as dimensions.
pub proof fn counts_ignore_case_spacing_and_order(v: ValueView, w: ValueView, dimension: nat)
    requires
        dimension > 0,
        ({
            let a = text::lowercase(rendering::lossy_text(v));
            let b = text::lowercase(rendering::lossy_text(w));
            &&& text::words(a).len() > 0
            &&& text::words(a).to_multiset() == text::words(b).to_multiset()
            &&& within_limit(text_features(a), dimension)
            &&& within_limit(text_features(b), dimension)
        }),
    ensures
        value_counts(v, dimension) == value_counts(w, dimension),
        value_counts(v, dimension).len() == dimension,
{
    broadcast use group_to_multiset_ensures;

    let a = text::lowercase(rendering::lossy_text(v));
    let b = text::lowercase(rendering::lossy_text(w));
    assert(text::words(a).len() == text::words(a).to_multiset().len());
    assert(text::words(b).len() == text::words(b).to_multiset().len());
    features_ignore_word_order(text::words(a), text::words(b));
    counts_ignore_order(text_features(a), text_features(b), dimension);
    feature_counts_bounded(text_features(a), dimension);
}

} // verus!
