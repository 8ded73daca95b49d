//! Representative and outlying records: ranking by similarity, and what to keep of a ranking.

use crate::datamodels::{FilterResult, FilterView};
use crate::error::{ErrorView, Result, SemHashError};
use crate::float;
use crate::float::Float32;
use crate::index;
use crate::ranking;
use crate::ranking::sort_positions;
use crate::scaling;
use crate::scaling::scale;
use crate::utils;
use crate::utils::compute_candidate_limit_default;
use crate::value::{DictRecord, DictView, Record, RecordView};
use vstd::prelude::*;

verus! {

/// Candidate limit used by representative sampling.
#[derive(Clone, Copy, Debug, PartialEq, Eq, Structural)]
pub enum CandidateLimit {
    Auto,
    Value(usize),
}

impl Default for CandidateLimit {
    fn default() -> (r: Self)
        ensures
            r == CandidateLimit::Auto,
    {
        CandidateLimit::Auto
    }
}

impl From<usize> for CandidateLimit {
    fn from(value: usize) -> (r: Self) {
        CandidateLimit::Value(value)
    }
}

impl vstd::std_specs::convert::FromSpecImpl<usize> for CandidateLimit {
    open spec fn obeys_from_spec() -> bool {
        true
    }

    open spec fn from_spec(value: usize) -> Self {
        CandidateLimit::Value(value)
    }
}

/// How many candidates a limit stands for.
pub open spec fn limit_of(limit: CandidateLimit, ranked: nat, selection_size: nat) -> nat {
    match limit {
        CandidateLimit::Auto => utils::candidate_limit(
            ranked,
            selection_size,
            ranked / 10,
            100,
            1000,
        ),
        CandidateLimit::Value(value) => value as nat,
    }
}

impl CandidateLimit {
    /// How many candidates the limit stands for.
    pub fn resolve(self, ranked: usize, selection_size: usize) -> (r: usize)
        ensures
            r == limit_of(self, ranked as nat, selection_size as nat),
    {
        match self {
            CandidateLimit::Auto => compute_candidate_limit_default(ranked, selection_size),
            CandidateLimit::Value(value) => value,
        }
    }
}

// ---------------------------------------------------------------------------------------------
// Ranking

/// How many records have a score.
pub open spec fn scored_count(records: nat, scores: nat) -> nat {
    if records <= scores {
        records
    } else {
        scores
    }
}

/// The positions of some scores, the highest score first.
pub open spec fn score_order(scores: Seq<Float32>) -> Seq<usize> {
    ranking::ranked(index::falling_keys(scores), ranking::all_positions(scores.len()))
}

/// Records ranked by their scores, the highest first; where scores are equal, in their order.
pub open spec fn ranked_view(records: Seq<DictView>, scores: Seq<Float32>) -> FilterView {
    let n = scored_count(records.len(), scores.len());
    let order = score_order(scores.take(n as int));
    FilterView {
        selected: Seq::new(n, |i: int| RecordView::Dict(records[order[i] as int])),
        filtered: seq![],
        scores_selected: Seq::new(n, |i: int| scores[order[i] as int]),
        scores_filtered: seq![],
    }
}

pub(crate) proof fn lemma_score_order(scores: Seq<Float32>)
    requires
        scores.len() <= usize::MAX,
    ensures
        score_order(scores).len() == scores.len(),
        score_order(scores).no_duplicates(),
        score_order(scores).to_multiset() == ranking::all_positions(scores.len()).to_multiset(),
        forall|i: int|
            0 <= i < scores.len() ==> (#[trigger] score_order(scores)[i]) < scores.len(),
{
    let keys = index::falling_keys(scores);
    let all = ranking::all_positions(scores.len());
    let order = score_order(scores);
    ranking::ranked_is_sorted(keys, all);
    ranking::ranked_no_duplicates(keys, all);
    assert forall|i: int| 0 <= i < scores.len() implies (#[trigger] order[i]) < scores.len() by {
        assert(order.contains(order[i]));
        ranking::ranked_contains(keys, all, order[i]);
        let j = choose|j: int| 0 <= j < all.len() && all[j] == order[i];
        assert(all[j] == j as usize);
    }
}

/// Ranks records by their scores.
pub fn rank_by_scores(records: &Vec<DictRecord>, scores: &Vec<Float32>) -> (r: FilterResult)
    ensures
        r.deep_view() == ranked_view(records.deep_view(), scores@),
{
    let ghost ds = records.deep_view();
    let count: usize = if records.len() <= scores.len() {
        records.len()
    } else {
        scores.len()
    };
    let ghost used = scores@.take(count as int);
    let mut keys: Vec<i64> = Vec::new();
    let mut positions: Vec<usize> = Vec::new();
    let mut i: usize = 0;
    while i < count
        invariant
            i <= count <= scores.len(),
            used == scores@.take(count as int),
            keys.len() == i,
            positions@ == ranking::all_positions(i as nat),
            forall|j: int| 0 <= j < i ==> #[trigger] keys@[j] == index::falling_keys(used)[j],
        decreases count - i,
    {
        keys.push(-scores[i].total_key());
        positions.push(i);
        i = i + 1;
        assert(positions@ =~= ranking::all_positions(i as nat));
    }
    assert(keys@ =~= index::falling_keys(used));
    let order = sort_positions(&keys, positions);
    proof {
        lemma_score_order(used);
    }
    let mut selected: Vec<Record> = Vec::new();
    let mut scores_selected: Vec<Float32> = Vec::new();
    let ghost expected = ranked_view(ds, scores@);
    let mut k: usize = 0;
    while k < count
        invariant
            k <= count,
            count <= records.len(),
            count <= scores.len(),
            count == order.len(),
            ds == records.deep_view(),
            order@ == score_order(used),
            forall|j: int| 0 <= j < count ==> (#[trigger] order@[j]) < count,
            selected.len() == k,
            scores_selected.len() == k,
            forall|j: int|
                0 <= j < k ==> (#[trigger] selected@[j]).deep_view() == RecordView::Dict(
                    ds[order@[j] as int],
                ),
            forall|j: int|
                0 <= j < k ==> #[trigger] scores_selected@[j] == scores@[order@[j] as int],
        decreases count - k,
    {
        let at: usize = order[k];
        assert(ds[at as int] == records@[at as int].deep_view());
        selected.push(Record::Dict(records[at].clone()));
        scores_selected.push(scores[at]);
        k = k + 1;
    }
    assert(selected.deep_view() =~= expected.selected);
    assert(scores_selected@ =~= expected.scores_selected);
    let r = FilterResult::new(selected, Vec::new(), scores_selected, Vec::new());
    assert(r.deep_view().filtered =~= seq![]);
    assert(r.deep_view().scores_filtered =~= seq![]);
    r
}

/// The first record of each bucket that has one.
pub open spec fn first_records(items: Seq<Seq<DictView>>) -> Seq<DictView>
    decreases items.len(),
{
    if items.len() == 0 {
        seq![]
    } else {
        let rest = first_records(items.drop_last());
        if items.last().len() == 0 {
            rest
        } else {
            rest.push(items.last()[0])
        }
    }
}

/// The first record of each bucket that has one.
pub fn list_first_records(items: &Vec<Vec<DictRecord>>) -> (r: Vec<DictRecord>)
    ensures
        r.deep_view() == first_records(items.deep_view()),
{
    let ghost gs = items.deep_view();
    let mut out: Vec<DictRecord> = Vec::new();
    let mut i: usize = 0;
    assert(out.deep_view() =~= seq![]);
    while i < items.len()
        invariant
            i <= items.len(),
            gs == items.deep_view(),
            out.deep_view() == first_records(gs.take(i as int)),
        decreases items.len() - i,
    {
        assert(gs.take(i + 1).drop_last() =~= gs.take(i as int));
        assert(gs[i as int] == items@[i as int].deep_view());
        if items[i].len() > 0 {
            let ghost before = out.deep_view();
            out.push(items[i][0].clone());
            assert(out.deep_view() =~= before.push(gs[i as int][0]));
        }
        i = i + 1;
    }
    assert(gs.take(items.len() as int) =~= gs);
    out
}

// ---------------------------------------------------------------------------------------------
// Outliers

/// What is wrong with a percentage that is none.
pub open spec fn percentage_flaw() -> ErrorView {
    ErrorView::InvalidPercentage { name: "outlier_percentage"@ }
}

/// Checks that a percentage of outliers lies between zero and one.
pub fn validate_outlier_percentage(outlier_percentage: Float32) -> (r: Result<()>)
    ensures
        r is Ok <==> float::in_unit_range(outlier_percentage),
        r matches Err(e) ==> e.deep_view() == percentage_flaw(),
{
    if outlier_percentage.is_at_least(Float32::zero()) && Float32::one().is_at_least(
        outlier_percentage,
    ) {
        Ok(())
    } else {
        Err(SemHashError::InvalidPercentage { name: "outlier_percentage" })
    }
}

/// Where the outliers of `n` ranked records begin.
pub open spec fn outliers_begin(n: nat, outlier_percentage: Float32) -> nat {
    let count = scaling::scaled(n, outlier_percentage, true);
    if count >= n {
        0
    } else {
        (n - count) as nat
    }
}

/// A ranking without its outliers: the records that rank last are filtered.
pub open spec fn outliers_split(ranking: FilterView, outlier_percentage: Float32) -> FilterView {
    let n = ranking.selected.len();
    let at = outliers_begin(n, outlier_percentage) as int;
    if scaling::scaled(n, outlier_percentage, true) == 0 {
        FilterView {
            selected: ranking.selected,
            filtered: seq![],
            scores_selected: ranking.scores_selected,
            scores_filtered: seq![],
        }
    } else {
        FilterView {
            selected: ranking.selected.take(at),
            filtered: ranking.selected.skip(at),
            scores_selected: ranking.scores_selected.take(at),
            scores_filtered: ranking.scores_selected.skip(at),
        }
    }
}

/// Filters the outliers of a ranking: the given share of the records, rounded up, from those
/// that rank last.
pub fn split_outliers(ranking: FilterResult, outlier_percentage: Float32) -> (r: FilterResult)
    requires
        scaling::scaled(ranking.selected.len() as nat, outlier_percentage, true) == 0
            || ranking.scores_selected.len() >= outliers_begin(
            ranking.selected.len() as nat,
            outlier_percentage,
        ),
    ensures
        r.deep_view() == outliers_split(ranking.deep_view(), outlier_percentage),
{
    let ghost rs = ranking.selected.deep_view();
    let ghost expected = outliers_split(ranking.deep_view(), outlier_percentage);
    let count: usize = scale(ranking.selected.len(), outlier_percentage, true);
    let mut selected = ranking.selected;
    let mut scores_selected = ranking.scores_selected;
    let mut filtered: Vec<Record> = Vec::new();
    let mut scores_filtered: Vec<Float32> = Vec::new();
    assert(filtered.deep_view() =~= seq![]);
    if count > 0 {
        let split_at: usize = if count >= selected.len() {
            0
        } else {
            selected.len() - count
        };
        filtered = selected.split_off(split_at);
        scores_filtered = scores_selected.split_off(split_at);
        assert(selected.deep_view() =~= rs.take(split_at as int));
        assert(filtered.deep_view() =~= rs.skip(split_at as int));
        assert(scores_selected@ =~= ranking.scores_selected@.take(split_at as int));
        assert(scores_filtered@ =~= ranking.scores_selected@.skip(split_at as int));
    }
    let r = FilterResult::new(selected, filtered, scores_selected, scores_filtered);
    assert(r.deep_view().scores_filtered =~= expected.scores_filtered);
    r
}

/// What filtering the outliers of a ranking comes to.
pub open spec fn outliers_outcome(
    ranking: FilterView,
    outlier_percentage: Float32,
) -> std::result::Result<FilterView, ErrorView> {
    if float::in_unit_range(outlier_percentage) {
        Ok(outliers_split(ranking, outlier_percentage))
    } else {
        Err(percentage_flaw())
    }
}

// ---------------------------------------------------------------------------------------------
// Candidates and what was chosen of them

/// The candidates of a ranking: the records that rank first.
pub open spec fn candidates_of(ranking: FilterView, limit: nat) -> Seq<RecordView> {
    ranking::at_most(ranking.selected, limit)
}

/// Those of the first `n` items whose positions are not listed.
pub open spec fn not_chosen<T>(items: Seq<T>, chosen: Seq<usize>, n: int) -> Seq<T>
    decreases n,
{
    if n <= 0 {
        seq![]
    } else {
        let rest = not_chosen(items, chosen, n - 1);
        if chosen.contains((n - 1) as usize) {
            rest
        } else {
            rest.push(items[n - 1])
        }
    }
}

/// The candidates that were chosen, in the order of choice, and those that were not.
pub open spec fn chosen_view(
    candidates: Seq<RecordView>,
    relevance: Seq<Float32>,
    indices: Seq<usize>,
    selection_scores: Seq<Float32>,
) -> FilterView {
    FilterView {
        selected: Seq::new(indices.len(), |i: int| candidates[indices[i] as int]),
        filtered: not_chosen(candidates, indices, candidates.len() as int),
        scores_selected: selection_scores,
        scores_filtered: not_chosen(relevance, indices, relevance.len() as int),
    }
}

/// Which positions below `n` are listed.
fn mark_chosen(indices: &Vec<usize>, n: usize) -> (marks: Vec<bool>)
    requires
        forall|i: int| 0 <= i < indices.len() ==> (#[trigger] indices@[i]) < n,
    ensures
        marks.len() == n,
        forall|p: int|
            0 <= p < n ==> #[trigger] marks@[p] == indices@.contains(p as usize),
{
    let mut marks: Vec<bool> = Vec::new();
    let mut k: usize = 0;
    while k < n
        invariant
            k <= n,
            marks.len() == k,
            forall|p: int| 0 <= p < k ==> !(#[trigger] marks@[p]),
        decreases n - k,
    {
        marks.push(false);
        k = k + 1;
    }
    let mut i: usize = 0;
    assert(indices@.take(0) =~= seq![]);
    while i < indices.len()
        invariant
            i <= indices.len(),
            marks.len() == n,
            forall|i: int| 0 <= i < indices.len() ==> (#[trigger] indices@[i]) < n,
            forall|p: int|
                0 <= p < n ==> #[trigger] marks@[p] == indices@.take(i as int).contains(p as usize),
        decreases indices.len() - i,
    {
        let at: usize = indices[i];
        let ghost before = indices@.take(i as int);
        let ghost after = indices@.take(i + 1);
        assert(after =~= before.push(at));
        let ghost old_marks = marks@;
        marks.set(at, true);
        assert forall|p: int| 0 <= p < n implies #[trigger] marks@[p] == after.contains(
            p as usize,
        ) by {
            assert(old_marks[p] == before.contains(p as usize));
            if before.contains(p as usize) {
                let j = choose|j: int| 0 <= j < before.len() && before[j] == p as usize;
                assert(after[j] == p as usize);
            }
            if p == at {
                assert(after[i as int] == p as usize);
            } else if after.contains(p as usize) {
                let j = choose|j: int| 0 <= j < after.len() && after[j] == p as usize;
                assert(before[j] == p as usize);
            }
        }
        i = i + 1;
    }
    assert(indices@.take(indices.len() as int) =~= indices@);
    marks
}

/// Tells the candidates that were chosen from those that were not.
pub fn collect_chosen(
    candidates: &Vec<Record>,
    relevance: &Vec<Float32>,
    indices: &Vec<usize>,
    selection_scores: Vec<Float32>,
) -> (r: FilterResult)
    requires
        candidates.len() == relevance.len(),
        forall|i: int| 0 <= i < indices.len() ==> (#[trigger] indices@[i]) < candidates.len(),
    ensures
        r.deep_view() == chosen_view(
            candidates.deep_view(),
            relevance@,
            indices@,
            selection_scores@,
        ),
{
    let ghost cs = candidates.deep_view();
    let ghost expected = chosen_view(cs, relevance@, indices@, selection_scores@);
    let mut selected: Vec<Record> = Vec::new();
    let mut i: usize = 0;
    while i < indices.len()
        invariant
            i <= indices.len(),
            selected.len() == i,
            cs == candidates.deep_view(),
            forall|i: int|
                0 <= i < indices.len() ==> (#[trigger] indices@[i]) < candidates.len(),
            forall|j: int|
                0 <= j < i ==> (#[trigger] selected@[j]).deep_view() == cs[indices@[j] as int],
        decreases indices.len() - i,
    {
        let at: usize = indices[i];
        assert(cs[at as int] == candidates@[at as int].deep_view());
        selected.push(candidates[at].clone());
        i = i + 1;
    }
    assert(selected.deep_view() =~= expected.selected);
    let marks = mark_chosen(indices, candidates.len());
    let mut filtered: Vec<Record> = Vec::new();
    let mut scores_filtered: Vec<Float32> = Vec::new();
    let mut p: usize = 0;
    assert(filtered.deep_view() =~= seq![]);
    while p < candidates.len()
        invariant
            p <= candidates.len(),
            cs == candidates.deep_view(),
            marks.len() == candidates.len() == relevance.len(),
            forall|p: int|
                0 <= p < candidates.len() ==> #[trigger] marks@[p] == indices@.contains(p as usize),
            filtered.deep_view() == not_chosen(cs, indices@, p as int),
            scores_filtered@ == not_chosen(relevance@, indices@, p as int),
        decreases candidates.len() - p,
    {
        assert(marks@[p as int] == indices@.contains(p as usize));
        if !marks[p] {
            let ghost before = filtered.deep_view();
            assert(cs[p as int] == candidates@[p as int].deep_view());
            filtered.push(candidates[p].clone());
            scores_filtered.push(relevance[p]);
            assert(filtered.deep_view() =~= before.push(cs[p as int]));
        }
        p = p + 1;
    }
    FilterResult::new(selected, filtered, selection_scores, scores_filtered)
}

} // verus!
