//! Laws of rankings, of outliers, and of what is chosen of candidates.

use crate::datamodels::FilterView;
use crate::float;
use crate::float::Float32;
use crate::index;
use crate::ranking;
use crate::records;
use crate::representatives;
use crate::scaling;
use crate::value::{DictView, RecordView};
use vstd::prelude::*;
use vstd::seq_lib::*;

verus! {

/// A ranking goes from the highest score down, and records with equal scores stay in the order in
/// which they were passed.
pub proof fn ranking_falls_and_is_stable(scores: Seq<Float32>, i: int, j: int)
    requires
        scores.len() <= usize::MAX,
        0 <= i < j < scores.len(),
    ensures
        ({
            let order = representatives::score_order(scores);
            let (a, b) = (order[i], order[j]);
            scores[a as int].total() > scores[b as int].total() || (scores[a as int].total()
                == scores[b as int].total() && a < b)
        }),
{
    let keys = index::falling_keys(scores);
    let all = ranking::all_positions(scores.len());
    let order = representatives::score_order(scores);
    ranking::ranked_is_sorted(keys, all);
    representatives::lemma_score_order(scores);
    assert(order[i] < scores.len() && order[j] < scores.len());
    assert(order[i] != order[j]);
    assert(ranking::precedes(keys, order[i], order[j]));
}

/// The items at the positions of an arrangement of all positions are a rearrangement of the items.
proof fn lemma_rearranged<T>(items: Seq<T>, order: Seq<usize>)
    requires
        items.len() <= usize::MAX,
        order.to_multiset() == ranking::all_positions(items.len()).to_multiset(),
    ensures
        Seq::new(order.len(), |i: int| items[order[i] as int]).to_multiset() == items.to_multiset(),
        order.len() == items.len(),
    decreases items.len(),
{
    broadcast use group_to_multiset_ensures;

    let all = ranking::all_positions(items.len());
    let moved = Seq::new(order.len(), |i: int| items[order[i] as int]);
    assert(order.len() == order.to_multiset().len());
    assert(all.len() == all.to_multiset().len());
    if items.len() == 0 {
        assert(moved =~= items);
    } else {
        let n = items.len();
        let last = (n - 1) as usize;
        let init = items.drop_last();
        assert(all[n - 1] == last);
        assert(all.contains(last));
        assert(order.to_multiset().count(last) > 0);
        assert(order.contains(last));
        let k = choose|k: int| 0 <= k < order.len() && order[k] == last;
        let rest = order.remove(k);
        assert(all.drop_last() =~= ranking::all_positions(init.len()));
        assert(all.drop_last().push(last) =~= all);
        assert(rest.to_multiset() =~= ranking::all_positions(init.len()).to_multiset());
        lemma_rearranged(init, rest);
        let moved_rest = Seq::new(rest.len(), |i: int| init[rest[i] as int]);
        assert(moved.remove(k) =~= moved_rest) by {
            assert forall|i: int| 0 <= i < rest.len() implies moved.remove(k)[i] == moved_rest[i] by {
                let p = rest[i];
                assert(rest.contains(p));
                assert(rest.to_multiset().count(p) > 0);
                assert(ranking::all_positions(init.len()).contains(p));
                let q = choose|q: int|
                    0 <= q < init.len() && ranking::all_positions(init.len())[q] == p;
                assert(p == q as usize);
            }
        }
        assert(moved.contains(moved[k]));
        assert(moved.to_multiset().count(items.last()) > 0);
        assert(moved.to_multiset() =~= moved_rest.to_multiset().insert(items.last()));
        assert(init.push(items.last()) =~= items);
    }
}

/// A ranking holds the records that have a score, each once, with their scores.
pub proof fn ranking_keeps_records(records: Seq<DictView>, scores: Seq<Float32>)
    requires
        records.len() <= usize::MAX,
        scores.len() <= usize::MAX,
    ensures
        ({
            let n = representatives::scored_count(records.len(), scores.len()) as int;
            let r = representatives::ranked_view(records, scores);
            &&& r.selected.to_multiset() == records::as_records(records.take(n)).to_multiset()
            &&& r.scores_selected.to_multiset() == scores.take(n).to_multiset()
            &&& r.selected.len() == r.scores_selected.len() == n
        }),
{
    let n = representatives::scored_count(records.len(), scores.len()) as int;
    let used = scores.take(n);
    let r = representatives::ranked_view(records, scores);
    let order = representatives::score_order(used);
    let given = records::as_records(records.take(n));
    representatives::lemma_score_order(used);
    lemma_rearranged(given, order);
    lemma_rearranged(used, order);
    assert(r.selected =~= Seq::new(order.len(), |i: int| given[order[i] as int]));
    assert(r.scores_selected =~= Seq::new(order.len(), |i: int| used[order[i] as int]));
}

/// Filtering outliers cuts a ranking in two: what stays, followed by what is filtered, is the
/// ranking, and so it is with the scores.
pub proof fn outliers_cut_the_ranking(ranking: FilterView, outlier_percentage: Float32)
    requires
        ranking.selected.len() == ranking.scores_selected.len(),
    ensures
        ({
            let r = representatives::outliers_split(ranking, outlier_percentage);
            &&& r.selected + r.filtered == ranking.selected
            &&& r.scores_selected + r.scores_filtered == ranking.scores_selected
            &&& r.selected.len() == r.scores_selected.len()
            &&& r.filtered.len() == r.scores_filtered.len()
        }),
{
    let r = representatives::outliers_split(ranking, outlier_percentage);
    assert(r.selected + r.filtered =~= ranking.selected);
    assert(r.scores_selected + r.scores_filtered =~= ranking.scores_selected);
}

/// How many outliers there are: the given share of all, rounded up, and never more than all.
/// None where the share is zero, at least one where it is not, and all where it is one and their
/// number has no more bits than a significand holds.
pub proof fn outlier_counts(ranking: FilterView, outlier_percentage: Float32)
    requires
        ranking.selected.len() <= usize::MAX,
        float::in_unit_range(outlier_percentage),
    ensures
        ({
            let n = ranking.selected.len();
            let filtered = representatives::outliers_split(
                ranking,
                outlier_percentage,
            ).filtered.len();
            let count = scaling::scaled(n, outlier_percentage, true);
            &&& filtered == if count <= n {
                count
            } else {
                n
            }
            &&& outlier_percentage.equals(float::float_zero()) ==> filtered == 0
            &&& n > 0 && !outlier_percentage.equals(float::float_zero()) ==> filtered > 0
            &&& n < 0x100_0000 ==> filtered == count
            &&& n < 0x100_0000 && outlier_percentage.equals(float::float_one()) ==> filtered == n
        }),
{
    let n = ranking.selected.len();
    let p = outlier_percentage;
    if p.equals(float::float_zero()) {
        if !p.negative() {
            assert(p == Float32 { bits: 0 });
            scaling::scaled_by_zero(n, true);
        }
    } else if n > 0 {
        scaling::scaled_up_is_positive(n, p);
    }
    if n < 0x100_0000 {
        scaling::scaled_within_count(n, p, true);
    }
}

/// The outliers of a ranking that falls in its scores have scores no higher than any record that
/// stays.
pub proof fn outliers_rank_last(
    ranking: FilterView,
    outlier_percentage: Float32,
    i: int,
    j: int,
)
    requires
        ranking.selected.len() == ranking.scores_selected.len(),
        forall|a: int, b: int|
            #![trigger ranking.scores_selected[a], ranking.scores_selected[b]]
            0 <= a < b < ranking.scores_selected.len() ==> ranking.scores_selected[a].total()
                >= ranking.scores_selected[b].total(),
        ({
            let r = representatives::outliers_split(ranking, outlier_percentage);
            0 <= i < r.scores_selected.len() && 0 <= j < r.scores_filtered.len()
        }),
    ensures
        ({
            let r = representatives::outliers_split(ranking, outlier_percentage);
            r.scores_selected[i].total() >= r.scores_filtered[j].total()
        }),
{
    let r = representatives::outliers_split(ranking, outlier_percentage);
    let at = representatives::outliers_begin(ranking.selected.len(), outlier_percentage) as int;
    assert(r.scores_selected[i] == ranking.scores_selected[i]);
    assert(r.scores_filtered[j] == ranking.scores_selected[at + j]);
}

proof fn lemma_not_chosen<T>(items: Seq<T>, chosen: Seq<usize>, n: int)
    requires
        0 <= n <= items.len() <= usize::MAX,
        chosen.no_duplicates(),
        forall|i: int| 0 <= i < chosen.len() ==> (#[trigger] chosen[i]) < n,
    ensures
        representatives::not_chosen(items, chosen, n).to_multiset().add(
            Seq::new(chosen.len(), |i: int| items[chosen[i] as int]).to_multiset(),
        ) == items.take(n).to_multiset(),
    decreases n,
{
    broadcast use group_to_multiset_ensures;

    let left = representatives::not_chosen(items, chosen, n);
    let picked = Seq::new(chosen.len(), |i: int| items[chosen[i] as int]);
    if n == 0 {
        if chosen.len() > 0 {
            assert(chosen[0] < 0);
        }
        assert(picked =~= seq![]);
        assert(items.take(0) =~= seq![]);
        assert(left.to_multiset().add(picked.to_multiset()) =~= items.take(n).to_multiset());
    } else {
        let last = (n - 1) as usize;
        assert(items.take(n) =~= items.take(n - 1).push(items[n - 1]));
        if chosen.contains(last) {
            let k = choose|k: int| 0 <= k < chosen.len() && chosen[k] == last;
            let rest = chosen.remove(k);
            assert forall|i: int| 0 <= i < rest.len() implies (#[trigger] rest[i]) < n - 1 by {
                let from = if i < k {
                    i
                } else {
                    i + 1
                };
                assert(rest[i] == chosen[from]);
                assert(chosen[from] != chosen[k]);
            }
            lemma_not_chosen(items, rest, n - 1);
            let picked_rest = Seq::new(rest.len(), |i: int| items[rest[i] as int]);
            assert(picked.remove(k) =~= picked_rest);
            assert(picked.contains(picked[k]));
            assert(picked.to_multiset().count(items[n - 1]) > 0);
            assert(picked.to_multiset() =~= picked_rest.to_multiset().insert(items[n - 1]));
            lemma_not_chosen_agrees(items, chosen, rest, n - 1);
            assert(left.to_multiset().add(picked.to_multiset()) =~= items.take(n).to_multiset());
        } else {
            assert forall|i: int| 0 <= i < chosen.len() implies (#[trigger] chosen[i]) < n - 1 by {
                if chosen[i] == last {
                    assert(chosen.contains(last));
                }
            }
            lemma_not_chosen(items, chosen, n - 1);
            assert(left.to_multiset().add(picked.to_multiset()) =~= items.take(n).to_multiset());
        }
    }
}

proof fn lemma_not_chosen_agrees<T>(items: Seq<T>, a: Seq<usize>, b: Seq<usize>, n: int)
    requires
        0 <= n <= usize::MAX,
        exists|k: int| 0 <= k < a.len() && #[trigger] a[k] >= n && b == a.remove(k),
    ensures
        representatives::not_chosen(items, a, n) == representatives::not_chosen(items, b, n),
    decreases n,
{
    if n > 0 {
        let k = choose|k: int| 0 <= k < a.len() && #[trigger] a[k] >= n && b == a.remove(k);
        assert(a[k] >= n - 1);
        lemma_not_chosen_agrees(items, a, b, n - 1);
        let p = (n - 1) as usize;
        if a.contains(p) {
            let i = choose|i: int| 0 <= i < a.len() && a[i] == p;
            if i < k {
                assert(b[i] == p);
            } else {
                assert(b[i - 1] == p);
            }
        }
        if b.contains(p) {
            let i = choose|i: int| 0 <= i < b.len() && b[i] == p;
            if i < k {
                assert(a[i] == p);
            } else {
                assert(a[i + 1] == p);
            }
        }
    }
}

/// Choosing from candidates loses none and invents none: each is selected or filtered, once.
pub proof fn choosing_keeps_candidates(
    candidates: Seq<RecordView>,
    relevance: Seq<Float32>,
    indices: Seq<usize>,
    selection_scores: Seq<Float32>,
)
    requires
        candidates.len() == relevance.len() <= usize::MAX,
        indices.no_duplicates(),
        forall|i: int| 0 <= i < indices.len() ==> (#[trigger] indices[i]) < candidates.len(),
    ensures
        ({
            let r = representatives::chosen_view(candidates, relevance, indices, selection_scores);
            &&& r.selected.to_multiset().add(r.filtered.to_multiset()) == candidates.to_multiset()
            &&& r.selected.len() == indices.len()
            &&& r.selected.len() + r.filtered.len() == candidates.len()
            &&& r.scores_filtered.len() == r.filtered.len()
        }),
{
    broadcast use group_to_multiset_ensures;

    let r = representatives::chosen_view(candidates, relevance, indices, selection_scores);
    let n = candidates.len() as int;
    lemma_not_chosen(candidates, indices, n);
    lemma_not_chosen(relevance, indices, n);
    assert(candidates.take(n) =~= candidates);
    assert(relevance.take(n) =~= relevance);
    let picked = Seq::new(indices.len(), |i: int| relevance[indices[i] as int]);
    assert(r.selected.to_multiset().add(r.filtered.to_multiset()) =~= candidates.to_multiset());
    assert(r.selected.to_multiset().add(r.filtered.to_multiset()).len() == r.selected.len()
        + r.filtered.len());
    assert(r.scores_filtered.to_multiset().add(picked.to_multiset()).len()
        == r.scores_filtered.len() + picked.len());
}

} // verus!
