//! Diversification: a greedy choice of candidates that are relevant and unlike each other.
//!
//! The first candidate chosen is the most relevant one. From then on each round weighs the
//! remaining candidates anew. The caller computes their objectives; this module chooses.

use crate::error;
use crate::error::{ErrorView, Result, SemHashError};
use crate::features::Embeddings;
use crate::float;
use crate::float::Float32;
use crate::ranking;
use crate::text;
use crate::text::{push_decimal, to_ascii_upper};
use vstd::prelude::*;
use vstd::seq_lib::*;
use vstd::string::*;

verus! {

/// Diversification strategies. All of them balance relevance against similarity to what was
/// chosen before, in the same greedy way.
#[derive(Clone, Copy, Debug, PartialEq, Eq, Hash, Structural)]
pub enum Strategy {
    MMR,
    MSD,
    DPP,
    COVER,
    SSD,
}

impl Default for Strategy {
    fn default() -> (r: Self)
        ensures
            r == Strategy::MMR,
    {
        Strategy::MMR
    }
}

impl DeepView for Strategy {
    type V = Strategy;

    open spec fn deep_view(&self) -> Strategy {
        *self
    }
}

/// The strategy with a name, in any case of its letters.
pub open spec fn strategy_outcome(name: Seq<char>) -> std::result::Result<Strategy, ErrorView> {
    let upper = text::ascii_upper(name);
    if upper == "MMR"@ {
        Ok(Strategy::MMR)
    } else if upper == "MSD"@ {
        Ok(Strategy::MSD)
    } else if upper == "DPP"@ {
        Ok(Strategy::DPP)
    } else if upper == "COVER"@ {
        Ok(Strategy::COVER)
    } else if upper == "SSD"@ {
        Ok(Strategy::SSD)
    } else {
        Err(ErrorView::Message("Unknown diversification strategy: "@ + upper))
    }
}

impl Strategy {
    /// The strategy with a name, in any case of its letters.
    pub fn parse(value: &str) -> (r: Result<Strategy>)
        ensures
            error::outcome(r) == strategy_outcome(value@),
    {
        let upper = to_ascii_upper(value);
        if upper == "MMR".to_owned() {
            Ok(Strategy::MMR)
        } else if upper == "MSD".to_owned() {
            Ok(Strategy::MSD)
        } else if upper == "DPP".to_owned() {
            Ok(Strategy::DPP)
        } else if upper == "COVER".to_owned() {
            Ok(Strategy::COVER)
        } else if upper == "SSD".to_owned() {
            Ok(Strategy::SSD)
        } else {
            let mut message = "Unknown diversification strategy: ".to_owned();
            message.append(upper.as_str());
            Err(SemHashError::Message(message))
        }
    }
}

impl std::str::FromStr for Strategy {
    type Err = SemHashError;

    fn from_str(value: &str) -> (r: Result<Self>)
        ensures
            error::outcome(r) == strategy_outcome(value@),
    {
        Strategy::parse(value)
    }
}

/// Result returned by a diversification.
#[derive(Clone, Debug, PartialEq)]
pub struct DiversifyResult {
    pub indices: Vec<usize>,
    pub selection_scores: Vec<Float32>,
}

/// A diversification under way: what was chosen, in the order of choice and each with the
/// objective it was chosen for, and what remains to choose from.
#[derive(Clone, Debug, PartialEq)]
pub struct Diversification {
    pub selected: Vec<usize>,
    pub selection_scores: Vec<Float32>,
    pub remaining: Vec<usize>,
    /// How many candidates are to be chosen in all.
    pub wanted: usize,
    /// The weight of diversity against relevance, between zero and one.
    pub diversity: Float32,
}

/// What a diversification is.
#[verifier::ext_equal]
pub struct DiversificationView {
    pub selected: Seq<usize>,
    pub selection_scores: Seq<Float32>,
    pub remaining: Seq<usize>,
    pub wanted: usize,
    pub diversity: Float32,
}

impl DeepView for Diversification {
    type V = DiversificationView;

    open spec fn deep_view(&self) -> DiversificationView {
        DiversificationView {
            selected: self.selected@,
            selection_scores: self.selection_scores@,
            remaining: self.remaining@,
            wanted: self.wanted,
            diversity: self.diversity,
        }
    }
}

// ---------------------------------------------------------------------------------------------
// The first choice

/// The position of the highest of some numbers, and the first of these where several are equal.
pub open spec fn top_position(numbers: Seq<Float32>) -> int
    decreases numbers.len(),
{
    if numbers.len() <= 1 {
        0
    } else {
        let top = top_position(numbers.drop_last());
        if numbers.last().total() > numbers[top].total() {
            numbers.len() - 1
        } else {
            top
        }
    }
}

/// What is wrong where there is not one score for each embedding.
pub open spec fn score_count_text(embeddings: nat, scores: nat) -> Seq<char> {
    "Number of embeddings ("@ + text::decimal(embeddings) + ") must match number of scores ("@
        + text::decimal(scores) + ")"@
}

/// The start of a diversification: nothing where nothing is to be chosen, else the most relevant
/// candidate.
pub open spec fn started(scores: Seq<Float32>, k: nat, diversity: Float32) -> DiversificationView {
    if scores.len() == 0 || k == 0 {
        DiversificationView {
            selected: seq![],
            selection_scores: seq![],
            remaining: ranking::all_positions(scores.len()),
            wanted: 0,
            diversity: float::clamped_to_unit(diversity),
        }
    } else {
        let first = top_position(scores);
        DiversificationView {
            selected: seq![first as usize],
            selection_scores: seq![scores[first]],
            remaining: ranking::all_positions(scores.len()).remove(first),
            wanted: if k <= scores.len() {
                k as usize
            } else {
                scores.len() as usize
            },
            diversity: float::clamped_to_unit(diversity),
        }
    }
}

/// The start of a diversification, or that the scores do not match the embeddings.
pub open spec fn start_outcome(
    embeddings: nat,
    scores: Seq<Float32>,
    k: nat,
    diversity: Float32,
) -> std::result::Result<DiversificationView, ErrorView> {
    if embeddings != scores.len() {
        Err(ErrorView::InvalidEmbeddings(score_count_text(embeddings, scores.len())))
    } else {
        Ok(started(scores, k, diversity))
    }
}

// ---------------------------------------------------------------------------------------------
// The rounds

/// Which of the candidates is chosen, by its place in their list, and its objective: the highest
/// objective, and the first candidate that has it. Where no objective is above negative infinity,
/// the first candidate is chosen, for negative infinity.
pub open spec fn choice(candidates: Seq<usize>, objectives: Seq<Float32>, n: int) -> (int, Float32)
    decreases n,
{
    if n <= 0 {
        (0, float::float_negative_infinity())
    } else {
        let (place, score) = choice(candidates, objectives, n - 1);
        let objective = objectives[n - 1];
        if score.below(objective) || (objective.equals(score) && candidates[n - 1]
            < candidates[place]) {
            (n - 1, objective)
        } else {
            (place, score)
        }
    }
}

/// A diversification after one more round with the given objectives.
pub open spec fn advanced(d: DiversificationView, objectives: Seq<Float32>) -> DiversificationView {
    let (place, score) = choice(d.remaining, objectives, d.remaining.len() as int);
    DiversificationView {
        selected: d.selected.push(d.remaining[place]),
        selection_scores: d.selection_scores.push(score),
        remaining: d.remaining.remove(place),
        wanted: d.wanted,
        diversity: d.diversity,
    }
}

/// Whether enough was chosen, or nothing remains to choose from.
pub open spec fn complete(d: DiversificationView) -> bool {
    d.selected.len() >= d.wanted || d.remaining.len() == 0
}

/// A diversification after rounds with the given objectives, one list of them for each round.
pub open spec fn after_rounds(d: DiversificationView, rounds: Seq<Seq<Float32>>) -> DiversificationView
    decreases rounds.len(),
{
    if rounds.len() == 0 {
        d
    } else {
        advanced(after_rounds(d, rounds.drop_last()), rounds.last())
    }
}

/// Starts to diversify candidates: `k` of them are to be chosen, by their scores and by how
/// similar their embeddings are.
pub fn diversify(
    embeddings: &Embeddings,
    scores: &[Float32],
    k: usize,
    strategy: Strategy,
    diversity: Float32,
) -> (r: Result<Diversification>)
    ensures
        error::outcome(r) == start_outcome(embeddings.len() as nat, scores@, k as nat, diversity),
{
    if embeddings.len() != scores.len() {
        let mut message = "Number of embeddings (".to_owned();
        push_decimal(&mut message, embeddings.len() as u64);
        message.append(") must match number of scores (");
        push_decimal(&mut message, scores.len() as u64);
        message.append(")");
        return Err(SemHashError::InvalidEmbeddings(message));
    }
    match strategy {
        Strategy::MMR
        | Strategy::MSD
        | Strategy::DPP
        | Strategy::COVER
        | Strategy::SSD => Ok(start_greedy(scores, k, diversity.clamp_to_unit())),
    }
}

fn start_greedy(scores: &[Float32], k: usize, diversity: Float32) -> (r: Diversification)
    ensures
        r.deep_view() == (DiversificationView {
            diversity,
            ..started(scores@, k as nat, diversity)
        }),
{
    let mut remaining: Vec<usize> = Vec::new();
    let mut first: usize = 0;
    let mut i: usize = 0;
    while i < scores.len()
        invariant
            i <= scores.len(),
            remaining@ == ranking::all_positions(i as nat),
            first == top_position(scores@.take(i as int)),
            first < i || i == 0,
        decreases scores.len() - i,
    {
        assert(scores@.take(i + 1).drop_last() =~= scores@.take(i as int));
        remaining.push(i);
        if i > 0 && scores[i].total_key() > scores[first].total_key() {
            first = i;
        }
        i = i + 1;
        assert(remaining@ =~= ranking::all_positions(i as nat));
    }
    assert(scores@.take(scores.len() as int) =~= scores@);
    let mut selected: Vec<usize> = Vec::new();
    let mut selection_scores: Vec<Float32> = Vec::new();
    let mut wanted: usize = 0;
    if scores.len() > 0 && k > 0 {
        selected.push(first);
        selection_scores.push(scores[first]);
        let _ = remaining.remove(first);
        wanted = if k <= scores.len() {
            k
        } else {
            scores.len()
        };
    }
    let r = Diversification { selected, selection_scores, remaining, wanted, diversity };
    assert(r.deep_view() =~= DiversificationView {
        diversity,
        ..started(scores@, k as nat, diversity)
    });
    r
}

/// How similar a candidate is to the most similar of those that were chosen.
pub open spec fn closest(similarities: Seq<Float32>) -> Float32
    decreases similarities.len(),
{
    if similarities.len() == 0 {
        float::float_negative_infinity()
    } else {
        let front = closest(similarities.drop_last());
        if front.below(similarities.last()) {
            similarities.last()
        } else {
            front
        }
    }
}

/// How similar a candidate is to the most similar of those that were chosen, given its
/// similarity to each of them. What is not a number does not count.
pub fn closest_similarity(similarities: &[Float32]) -> (r: Float32)
    ensures
        r == closest(similarities@),
{
    let mut r = Float32::negative_infinity();
    let mut i: usize = 0;
    while i < similarities.len()
        invariant
            i <= similarities.len(),
            r == closest(similarities@.take(i as int)),
        decreases similarities.len() - i,
    {
        assert(similarities@.take(i + 1).drop_last() =~= similarities@.take(i as int));
        if r.is_below(similarities[i]) {
            r = similarities[i];
        }
        i = i + 1;
    }
    assert(similarities@.take(similarities.len() as int) =~= similarities@);
    r
}

impl Diversification {
    /// Whether enough was chosen, or nothing remains to choose from.
    pub fn is_complete(&self) -> (r: bool)
        ensures
            r == complete(self.deep_view()),
    {
        self.selected.len() >= self.wanted || self.remaining.len() == 0
    }

    /// Chooses one more candidate, given the objective of each that remains.
    pub fn advance(&mut self, objectives: &[Float32])
        requires
            !complete(old(self).deep_view()),
            objectives.len() == old(self).remaining.len(),
        ensures
            final(self).deep_view() == advanced(old(self).deep_view(), objectives@),
    {
        let ghost candidates = self.remaining@;
        let mut place: usize = 0;
        let mut score = Float32::negative_infinity();
        let mut i: usize = 0;
        while i < objectives.len()
            invariant
                i <= objectives.len(),
                objectives.len() == candidates.len(),
                candidates == self.remaining@,
                candidates.len() > 0,
                *self == *old(self),
                place < candidates.len(),
                (place as int, score) == choice(candidates, objectives@, i as int),
            decreases objectives.len() - i,
        {
            let objective = objectives[i];
            if score.is_below(objective) || (objective == score && self.remaining[i]
                < self.remaining[place]) {
                place = i;
                score = objective;
            }
            i = i + 1;
        }
        let chosen = self.remaining.remove(place);
        self.selected.push(chosen);
        self.selection_scores.push(score);
    }

    /// What was chosen.
    pub fn into_result(self) -> (r: DiversifyResult)
        ensures
            r.indices@ == self.selected@,
            r.selection_scores@ == self.selection_scores@,
    {
        DiversifyResult { indices: self.selected, selection_scores: self.selection_scores }
    }
}

// ---------------------------------------------------------------------------------------------
// Laws

/// A diversification of `n` candidates: each of them was chosen or remains, once; the remaining
/// ones are in their order; each chosen one has an objective.
pub open spec fn sound(d: DiversificationView, n: nat) -> bool {
    &&& d.wanted <= n <= usize::MAX
    &&& d.selected.len() <= d.wanted
    &&& d.selected.to_multiset().add(d.remaining.to_multiset()) == ranking::all_positions(
        n,
    ).to_multiset()
    &&& d.selection_scores.len() == d.selected.len()
    &&& forall|i: int, j: int|
        #![trigger d.remaining[i], d.remaining[j]]
        0 <= i < j < d.remaining.len() ==> d.remaining[i] < d.remaining[j]
}

/// The highest number is at the position of the highest number, and all before it are lower.
pub proof fn top_position_is_top(numbers: Seq<Float32>)
    requires
        numbers.len() > 0,
    ensures
        0 <= top_position(numbers) < numbers.len(),
        forall|i: int|
            0 <= i < numbers.len() ==> (#[trigger] numbers[i]).total() <= numbers[top_position(
                numbers,
            )].total(),
        forall|i: int|
            0 <= i < top_position(numbers) ==> (#[trigger] numbers[i]).total()
                < numbers[top_position(numbers)].total(),
    decreases numbers.len(),
{
    if numbers.len() > 1 {
        let init = numbers.drop_last();
        top_position_is_top(init);
        let top = top_position(numbers);
        assert forall|i: int| 0 <= i < numbers.len() implies (#[trigger] numbers[i]).total()
            <= numbers[top].total() by {
            if i < init.len() {
                assert(init[i] == numbers[i]);
            }
        }
        assert forall|i: int| 0 <= i < top implies (#[trigger] numbers[i]).total()
            < numbers[top].total() by {
            assert(init[i] == numbers[i]);
        }
    }
}

/// A diversification starts out sound, and wants as many candidates as were asked for, or all
/// there are.
pub proof fn start_is_sound(scores: Seq<Float32>, k: nat, diversity: Float32)
    requires
        scores.len() <= usize::MAX,
    ensures
        sound(started(scores, k, diversity), scores.len()),
        started(scores, k, diversity).wanted == if k <= scores.len() {
            k
        } else {
            scores.len()
        },
{
    broadcast use group_to_multiset_ensures;

    let n = scores.len();
    let d = started(scores, k, diversity);
    let all = ranking::all_positions(n);
    if n == 0 || k == 0 {
        assert(d.selected.to_multiset().add(d.remaining.to_multiset()) =~= all.to_multiset());
    } else {
        top_position_is_top(scores);
        let first = top_position(scores);
        assert(all[first] == first as usize);
        assert(all.contains(all[first]));
        assert(d.selected =~= Seq::<usize>::empty().push(first as usize));
        assert(d.selected.to_multiset().add(d.remaining.to_multiset()) =~= all.to_multiset());
    }
}

proof fn lemma_choice_in(candidates: Seq<usize>, objectives: Seq<Float32>, n: int)
    requires
        0 < candidates.len(),
        0 <= n <= candidates.len(),
    ensures
        0 <= choice(candidates, objectives, n).0 < candidates.len(),
        choice(candidates, objectives, n).0 < n || n == 0 || choice(candidates, objectives, n).0
            == 0,
    decreases n,
{
    if n > 0 {
        lemma_choice_in(candidates, objectives, n - 1);
    }
}

/// A round keeps a diversification sound: one more candidate is chosen, and no other changes.
pub proof fn advance_is_sound(d: DiversificationView, objectives: Seq<Float32>, n: nat)
    requires
        sound(d, n),
        !complete(d),
        objectives.len() == d.remaining.len(),
    ensures
        sound(advanced(d, objectives), n),
        d.selected.is_prefix_of(advanced(d, objectives).selected),
        d.selection_scores.is_prefix_of(advanced(d, objectives).selection_scores),
        advanced(d, objectives).selected.len() == d.selected.len() + 1,
{
    broadcast use group_to_multiset_ensures;

    let e = advanced(d, objectives);
    let place = choice(d.remaining, objectives, d.remaining.len() as int).0;
    lemma_choice_in(d.remaining, objectives, d.remaining.len() as int);
    let chosen = d.remaining[place];
    assert(d.remaining.contains(chosen));
    assert(d.remaining.to_multiset().count(chosen) > 0);
    assert(e.selected.to_multiset().add(e.remaining.to_multiset())
        =~= d.selected.to_multiset().add(d.remaining.to_multiset()));
    assert forall|i: int, j: int|
        #![trigger e.remaining[i], e.remaining[j]]
        0 <= i < j < e.remaining.len() implies e.remaining[i] < e.remaining[j] by {
        let a = if i < place {
            i
        } else {
            i + 1
        };
        let b = if j < place {
            j
        } else {
            j + 1
        };
        assert(e.remaining[i] == d.remaining[a] && e.remaining[j] == d.remaining[b]);
    }
    assert(e.selected.take(d.selected.len() as int) =~= d.selected);
    assert(e.selection_scores.take(d.selection_scores.len() as int) =~= d.selection_scores);
}

/// A sound diversification has chosen each candidate at most once, and only candidates; when it
/// is complete, it has chosen as many as were wanted.
pub proof fn selection_is_distinct(d: DiversificationView, n: nat)
    requires
        sound(d, n),
    ensures
        d.selected.no_duplicates(),
        forall|i: int| 0 <= i < d.selected.len() ==> (#[trigger] d.selected[i]) < n,
        complete(d) ==> d.selected.len() == d.wanted,
{
    broadcast use group_to_multiset_ensures;

    let all = ranking::all_positions(n);
    assert(all.no_duplicates());
    all.lemma_multiset_has_no_duplicates();
    let m = d.selected.to_multiset();
    let rest = d.remaining.to_multiset();
    assert forall|x: usize| m.contains(x) implies m.count(x) == 1 by {
        assert(m.add(rest).count(x) == m.count(x) + rest.count(x));
        assert(all.to_multiset().contains(x));
    }
    d.selected.lemma_multiset_has_no_duplicates_conv();
    assert forall|i: int| 0 <= i < d.selected.len() implies (#[trigger] d.selected[i]) < n by {
        let x = d.selected[i];
        assert(d.selected.contains(x));
        assert(m.count(x) > 0);
        assert(all.to_multiset().count(x) > 0);
        assert(all.contains(x));
        let k = choose|k: int| 0 <= k < all.len() && all[k] == x;
        assert(all[k] == k as usize);
    }
    assert(m.add(rest).len() == m.len() + rest.len());
    assert(all.len() == n);
}

/// Whether an objective is one that a candidate can be chosen for.
pub open spec fn eligible(objective: Float32) -> bool {
    float::float_negative_infinity().below(objective)
}

/// Where some objective is above negative infinity, the chosen candidate has the highest, and is
/// the first that has it. Otherwise it is the first of all.
pub proof fn choice_is_highest(candidates: Seq<usize>, objectives: Seq<Float32>, n: int)
    requires
        0 <= n <= candidates.len(),
        candidates.len() == objectives.len() > 0,
        forall|i: int, j: int|
            #![trigger candidates[i], candidates[j]]
            0 <= i < j < candidates.len() ==> candidates[i] < candidates[j],
    ensures
        ({
            let (place, score) = choice(candidates, objectives, n);
            &&& (exists|i: int| 0 <= i < n && #[trigger] eligible(objectives[i])) ==> {
                &&& 0 <= place < n
                &&& score == objectives[place]
                &&& eligible(score)
                &&& forall|i: int| 0 <= i < n ==> !score.below(#[trigger] objectives[i])
                &&& forall|i: int|
                    0 <= i < place ==> !(#[trigger] objectives[i]).reaches(score)
            }
            &&& !(exists|i: int| 0 <= i < n && #[trigger] eligible(objectives[i])) ==> place == 0
                && score == float::float_negative_infinity()
        }),
    decreases n,
{
    if n > 0 {
        choice_is_highest(candidates, objectives, n - 1);
        lemma_choice_in(candidates, objectives, n - 1);
        let (front_place, front_score) = choice(candidates, objectives, n - 1);
        let (place, score) = choice(candidates, objectives, n);
        let last = objectives[n - 1];
        if front_place < n - 1 {
            assert(candidates[front_place] < candidates[n - 1]);
        }
        if exists|i: int| 0 <= i < n - 1 && #[trigger] eligible(objectives[i]) {
            let w = choose|i: int| 0 <= i < n - 1 && #[trigger] eligible(objectives[i]);
            assert(0 <= w < n && eligible(objectives[w]));
            assert forall|i: int| 0 <= i < n implies !score.below(#[trigger] objectives[i]) by {
                if i < n - 1 {
                    assert(!front_score.below(objectives[i]));
                }
            }
            assert forall|i: int| 0 <= i < place implies !(#[trigger] objectives[i]).reaches(
                score,
            ) by {
                assert(!front_score.below(objectives[i]));
            }
        } else if eligible(last) {
            assert(0 <= n - 1 < n && eligible(objectives[n - 1]));
            assert(place == n - 1);
            assert forall|i: int| 0 <= i < n implies !score.below(#[trigger] objectives[i]) by {
                if i < n - 1 {
                    assert(!eligible(objectives[i]));
                }
            }
            assert forall|i: int| 0 <= i < place implies !(#[trigger] objectives[i]).reaches(
                score,
            ) by {
                assert(!eligible(objectives[i]));
            }
        } else {
            assert(!(exists|i: int| 0 <= i < n && #[trigger] eligible(objectives[i]))) by {
                assert forall|i: int| 0 <= i < n implies !(#[trigger] eligible(
                    objectives[i],
                )) by {
                    if i < n - 1 {
                        assert(!(0 <= i < n - 1 && eligible(objectives[i])));
                    }
                }
            }
        }
    }
}

/// A strategy is found under its name in any case of its letters.
pub proof fn strategy_ignores_case(a: Seq<char>, b: Seq<char>)
    requires
        text::ascii_upper(a) == text::ascii_upper(b),
    ensures
        strategy_outcome(a) == strategy_outcome(b),
{
}

/// Whether rounds can be played one after the other: each finds the choice not complete, and has
/// an objective for each candidate that remains.
pub open spec fn playable(d: DiversificationView, rounds: Seq<Seq<Float32>>) -> bool
    decreases rounds.len(),
{
    rounds.len() == 0 || {
        let before = after_rounds(d, rounds.drop_last());
        &&& playable(d, rounds.drop_last())
        &&& !complete(before)
        &&& rounds.last().len() == before.remaining.len()
    }
}

/// Each round chooses one more candidate, never one that was chosen before, and what was chosen
/// stays chosen, in the order of choice.
pub proof fn rounds_choose_one_each(
    scores: Seq<Float32>,
    k: nat,
    diversity: Float32,
    rounds: Seq<Seq<Float32>>,
)
    requires
        scores.len() <= usize::MAX,
        playable(started(scores, k, diversity), rounds),
    ensures
        ({
            let start = started(scores, k, diversity);
            let end = after_rounds(start, rounds);
            &&& sound(end, scores.len())
            &&& end.wanted == start.wanted
            &&& end.selected.len() == start.selected.len() + rounds.len()
            &&& start.selected.is_prefix_of(end.selected)
            &&& end.selected.no_duplicates()
        }),
    decreases rounds.len(),
{
    let start = started(scores, k, diversity);
    start_is_sound(scores, k, diversity);
    if rounds.len() > 0 {
        rounds_choose_one_each(scores, k, diversity, rounds.drop_last());
        let before = after_rounds(start, rounds.drop_last());
        let end = after_rounds(start, rounds);
        advance_is_sound(before, rounds.last(), scores.len());
        assert(end.selected.take(start.selected.len() as int) =~= before.selected.take(
            start.selected.len() as int,
        ));
    }
    selection_is_distinct(after_rounds(start, rounds), scores.len());
}

/// No similarity is above the closest one.
pub proof fn closest_is_highest(similarities: Seq<Float32>)
    ensures
        forall|i: int|
            0 <= i < similarities.len() ==> !closest(similarities).below(
                #[trigger] similarities[i],
            ),
    decreases similarities.len(),
{
    if similarities.len() > 0 {
        let init = similarities.drop_last();
        closest_is_highest(init);
        lemma_closest_is_a_number(init);
        assert forall|i: int| 0 <= i < similarities.len() implies !closest(similarities).below(
            #[trigger] similarities[i],
        ) by {
            if i < init.len() {
                assert(init[i] == similarities[i]);
            }
        }
    }
}

proof fn lemma_closest_is_a_number(similarities: Seq<Float32>)
    ensures
        !closest(similarities).nan(),
    decreases similarities.len(),
{
    if similarities.len() > 0 {
        lemma_closest_is_a_number(similarities.drop_last());
    }
}

} // verus!
