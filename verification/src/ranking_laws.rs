//! Laws of rankings and of the choice of representative records, in terms of the records, their
//! scores, and the limits that were asked for.

use crate::datamodels::FilterView;
use crate::error::ErrorView;
use crate::features::{Encoder, MatrixView};
use crate::float;
use crate::float::Float32;
use crate::neighbor_laws;
use crate::ranking;
use crate::representatives;
use crate::representatives::CandidateLimit;
use crate::sampling_laws;
use crate::semhash;
use crate::semhash::{RankedView, SemHashView};
use crate::strategy;
use crate::strategy::DiversificationView;
use crate::sublists;
use crate::utils;
use crate::value::{DictView, RecordView};
use vstd::prelude::*;
use vstd::seq_lib::*;

verus! {

// ---------------------------------------------------------------------------------------------
// Rankings

/// Whether a ranking goes through the first `n` records and scores in an order: each of them once,
/// the highest score first, and the earlier record where scores are equal.
pub open spec fn ranks_in(
    r: FilterView,
    records: Seq<DictView>,
    scores: Seq<Float32>,
    n: nat,
    order: Seq<int>,
) -> bool {
    &&& order.len() == n
    &&& order.no_duplicates()
    &&& forall|i: int| 0 <= i < n ==> 0 <= #[trigger] order[i] < n
    &&& forall|p: int| 0 <= p < n ==> #[trigger] order.contains(p)
    &&& forall|i: int, j: int|
        #![trigger order[i], order[j]]
        0 <= i < j < n ==> neighbor_laws::outranks(scores, order[i], order[j])
    &&& r.selected == order.map_values(|p: int| RecordView::Dict(records[p]))
    &&& r.scores_selected == order.map_values(|p: int| scores[p])
    &&& r.filtered.len() == 0
    &&& r.scores_filtered.len() == 0
}

/// A ranking lists each record that has a score, with its own score: the highest score first, and
/// the earlier record where scores are equal. Nothing is filtered.
pub proof fn what_a_ranking_is(records: Seq<DictView>, scores: Seq<Float32>) -> (order: Seq<int>)
    requires
        records.len() <= usize::MAX,
        scores.len() <= usize::MAX,
    ensures
        ranks_in(
            representatives::ranked_view(records, scores),
            records,
            scores,
            if records.len() <= scores.len() {
                records.len()
            } else {
                scores.len()
            },
            order,
        ),
{
    broadcast use group_to_multiset_ensures;

    let n = if records.len() <= scores.len() {
        records.len()
    } else {
        scores.len()
    };
    let used = scores.take(n as int);
    let r = representatives::ranked_view(records, scores);
    let at = representatives::score_order(used);
    let all = ranking::all_positions(n);
    let order = Seq::new(at.len(), |i: int| at[i] as int);
    representatives::lemma_score_order(used);
    assert forall|p: int| 0 <= p < n implies #[trigger] order.contains(p) by {
        assert(all[p] == p as usize);
        assert(all.contains(p as usize));
        assert(at.to_multiset().count(p as usize) > 0);
        assert(at.contains(p as usize));
        let i = choose|i: int| 0 <= i < at.len() && at[i] == p as usize;
        assert(order[i] == p);
    }
    assert forall|i: int| 0 <= i < n implies 0 <= #[trigger] order[i] < n by {
        assert(at[i] < used.len());
    }
    assert forall|i: int, j: int|
        #![trigger order[i], order[j]]
        0 <= i < j < n implies neighbor_laws::outranks(scores, order[i], order[j]) by {
        sampling_laws::ranking_falls_and_is_stable(used, i, j);
        assert(at[i] < used.len() && at[j] < used.len());
    }
    assert(order.no_duplicates()) by {
        assert forall|i: int, j: int| 0 <= i < order.len() && 0 <= j < order.len() && i
            != j implies order[i] != order[j] by {
            assert(at[i] != at[j]);
        }
    }
    assert(r.selected =~= order.map_values(|p: int| RecordView::Dict(records[p])));
    assert(r.scores_selected =~= order.map_values(|p: int| scores[p]));
    order
}

/// The first records are those of the groups that have any, one for each and in order.
pub proof fn first_records_are_one_for_each_group(items: Seq<Seq<DictView>>)
    ensures
        representatives::first_records(items) == sublists::those(
            items.map_values(|item: Seq<DictView>| item[0]),
            |p: int| items[p].len() > 0,
        ),
        (forall|p: int| 0 <= p < items.len() ==> (#[trigger] items[p]).len() > 0)
            ==> representatives::first_records(items) == items.map_values(
            |item: Seq<DictView>| item[0],
        ),
    decreases items.len(),
{
    let firsts = items.map_values(|item: Seq<DictView>| item[0]);
    let keep = |p: int| items[p].len() > 0;
    if items.len() == 0 {
        assert(representatives::first_records(items) =~= sublists::those(firsts, keep));
        assert(representatives::first_records(items) =~= firsts);
    } else {
        let init = items.drop_last();
        first_records_are_one_for_each_group(init);
        let init_firsts = init.map_values(|item: Seq<DictView>| item[0]);
        let init_keep = |p: int| init[p].len() > 0;
        assert(firsts.drop_last() =~= init_firsts);
        assert forall|p: int| 0 <= p < init.len() implies #[trigger] init_keep(p) == keep(p) by {
            assert(init[p] == items[p]);
        }
        sublists::lemma_those_agree(init_firsts, init_keep, keep);
        assert(keep(items.len() - 1) == (items.last().len() > 0));
        assert(representatives::first_records(items) =~= sublists::those(firsts, keep));
        if forall|p: int| 0 <= p < items.len() ==> (#[trigger] items[p]).len() > 0 {
            assert forall|p: int| 0 <= p < init.len() implies (#[trigger] init[p]).len() > 0 by {
                assert(init[p] == items[p]);
            }
            assert(items[items.len() - 1].len() > 0);
            assert(representatives::first_records(items) =~= firsts);
        }
    }
}

/// The ranking of an instance has one entry for each of its groups: the first record of the group
/// with the score of the group, the highest score first.
pub proof fn what_the_ranking_of_an_instance_is(s: SemHashView, scores: Seq<Float32>) -> (order: Seq<
    int,
>)
    requires
        s.ranking is None,
        s.items.len() <= usize::MAX,
        scores.len() == s.items.len(),
        forall|p: int| 0 <= p < s.items.len() ==> (#[trigger] s.items[p]).len() > 0,
    ensures
        ranks_in(
            semhash::self_ranking(s, scores),
            s.items.map_values(|item: Seq<DictView>| item[0]),
            scores,
            s.items.len(),
            order,
        ),
        forall|p: int|
            #![trigger s.items[p]]
            0 <= p < s.items.len() ==> exists|i: int|
                {
                    &&& 0 <= i < s.items.len()
                    &&& #[trigger] semhash::self_ranking(s, scores).selected[i] == RecordView::Dict(
                        s.items[p][0],
                    )
                    &&& semhash::self_ranking(s, scores).scores_selected[i] == scores[p]
                },
{
    first_records_are_one_for_each_group(s.items);
    let firsts = s.items.map_values(|item: Seq<DictView>| item[0]);
    let order = what_a_ranking_is(firsts, scores);
    let r = semhash::self_ranking(s, scores);
    assert forall|p: int|
        #![trigger s.items[p]]
        0 <= p < s.items.len() implies exists|i: int|
        {
            &&& 0 <= i < s.items.len()
            &&& #[trigger] r.selected[i] == RecordView::Dict(s.items[p][0])
            &&& r.scores_selected[i] == scores[p]
        } by {
        assert(order.contains(p));
        let i = choose|i: int| 0 <= i < order.len() && order[i] == p;
        assert(r.selected[i] == RecordView::Dict(s.items[p][0]));
        assert(r.scores_selected[i] == scores[p]);
    }
    order
}

// ---------------------------------------------------------------------------------------------
// Candidates

/// The smaller of two numbers.
pub open spec fn smaller(a: nat, b: nat) -> nat {
    if a <= b {
        a
    } else {
        b
    }
}

/// The larger of two numbers.
pub open spec fn larger(a: nat, b: nat) -> nat {
    if a <= b {
        b
    } else {
        a
    }
}

/// A candidate limit is the largest of the share, the selection size and the minimum, as long as
/// there are so many and the maximum allows it; else it is the smaller of these two.
pub proof fn what_a_candidate_limit_is(
    total: nat,
    selection_size: nat,
    part: nat,
    min_candidates: nat,
    max_candidates: nat,
)
    ensures
        ({
            let limit = utils::candidate_limit(
                total,
                selection_size,
                part,
                min_candidates,
                max_candidates,
            );
            let allowed = smaller(total, max_candidates);
            &&& limit <= allowed
            &&& limit < allowed ==> limit >= part && limit >= selection_size && limit
                >= min_candidates && (limit == part || limit == selection_size || limit
                == min_candidates)
            &&& limit == allowed ==> part >= allowed || selection_size >= allowed || min_candidates
                >= allowed
        }),
{
}

/// The automatic limit is a tenth of the ranked records, but at least the selection size and at least
/// a hundred, at most a thousand, and at most all. Where there are a hundred or fewer, all of them are
/// candidates. An explicit limit stands for itself.
pub proof fn what_a_limit_stands_for(ranked: nat, selection_size: nat, value: usize)
    ensures
        representatives::limit_of(CandidateLimit::Auto, ranked, selection_size) == smaller(
            smaller(larger(larger(ranked / 10, selection_size), 100), 1000),
            ranked,
        ),
        ranked <= 100 ==> representatives::limit_of(CandidateLimit::Auto, ranked, selection_size)
            == ranked,
        representatives::limit_of(CandidateLimit::Value(value), ranked, selection_size) == value,
{
}

/// How many candidates there are.
pub open spec fn candidate_count(limit: CandidateLimit, ranked: nat, selection_size: nat) -> nat {
    match limit {
        CandidateLimit::Auto => smaller(
            smaller(larger(larger(ranked / 10, selection_size), 100), 1000),
            ranked,
        ),
        CandidateLimit::Value(value) => smaller(value as nat, ranked),
    }
}

/// The candidates are the records that rank first, with their scores, as many as the limit stands
/// for, and nothing is chosen but among them.
pub proof fn candidates_rank_first<E: Encoder + ?Sized>(
    model: &E,
    columns: Seq<Seq<char>>,
    ranking: FilterView,
    limit: CandidateLimit,
    k: nat,
    diversity: Float32,
    d: RankedView,
)
    requires
        ranking.selected.len() == ranking.scores_selected.len() <= usize::MAX,
        semhash::diversification_started(
            model,
            columns,
            ranking,
            representatives::limit_of(limit, ranking.selected.len(), k),
            k,
            diversity,
            Ok::<RankedView, ErrorView>(d),
        ),
    ensures
        ({
            let m = candidate_count(limit, ranking.selected.len(), k) as int;
            &&& d.candidates == ranking.selected.take(m)
            &&& d.relevance == ranking.scores_selected.take(m)
            &&& d.embeddings.len() == m
            &&& d.choice == strategy::started(d.relevance, k, diversity)
        }),
{
    let m = candidate_count(limit, ranking.selected.len(), k) as int;
    let n = representatives::limit_of(limit, ranking.selected.len(), k);
    what_a_limit_stands_for(ranking.selected.len(), k, 0);
    match limit {
        CandidateLimit::Auto => {},
        CandidateLimit::Value(value) => {
            what_a_limit_stands_for(ranking.selected.len(), k, value);
        },
    }
    let candidates = representatives::candidates_of(ranking, n);
    assert(candidates =~= ranking.selected.take(m));
    let relevance = ranking.scores_selected.take(m);
    if candidates.len() == 0 {
        assert(ranking.selected.take(m) =~= seq![]);
        assert(relevance =~= seq![]);
    } else {
        let dicts = crate::records::candidates_outcome(candidates, columns)->Ok_0;
        assert(semhash::started_with(
            model,
            columns,
            candidates,
            relevance,
            dicts,
            k,
            diversity,
            Ok::<RankedView, ErrorView>(d),
        ));
        let embeddings = choose|embeddings: std::result::Result<MatrixView, ErrorView>| #[trigger]
            crate::features::featurized(model, dicts, columns, embeddings) && Ok::<
                RankedView,
                ErrorView,
            >(d) == semhash::ranked_start(candidates, relevance, embeddings, k, diversity);
        assert(embeddings is Ok);
    }
}

// ---------------------------------------------------------------------------------------------
// Choosing

/// The first candidate that is chosen is the most relevant one, the earliest where several are, and
/// it is listed with its relevance; all others remain. Nothing is chosen where nothing is to be. The
/// weight of diversity is brought between zero and one.
pub proof fn what_is_chosen_first(scores: Seq<Float32>, k: nat, diversity: Float32)
    requires
        scores.len() <= usize::MAX,
    ensures
        ({
            let d = strategy::started(scores, k, diversity);
            &&& d.wanted == smaller(k, scores.len())
            &&& d.wanted == 0 ==> d.selected.len() == 0 && d.selection_scores.len() == 0
            &&& d.wanted > 0 ==> {
                let first = d.selected[0] as int;
                &&& d.selected.len() == 1
                &&& 0 <= first < scores.len()
                &&& d.selection_scores == seq![scores[first]]
                &&& forall|i: int|
                    0 <= i < scores.len() && i != first ==> #[trigger] neighbor_laws::outranks(
                        scores,
                        first,
                        i,
                    )
                &&& d.remaining == ranking::all_positions(scores.len()).remove(first)
            }
            &&& !diversity.nan() ==> float::in_unit_range(d.diversity)
            &&& diversity.nan() || float::in_unit_range(diversity) ==> d.diversity == diversity
            &&& diversity.below(float::float_zero()) ==> d.diversity == float::float_zero()
            &&& float::float_one().below(diversity) ==> d.diversity == float::float_one()
        }),
{
    let d = strategy::started(scores, k, diversity);
    float::clamping_lands_in_the_unit_range(diversity);
    if scores.len() > 0 && k > 0 {
        strategy::top_position_is_top(scores);
        let first = strategy::top_position(scores);
        assert forall|i: int|
            0 <= i < scores.len() && i != first implies #[trigger] neighbor_laws::outranks(
            scores,
            first,
            i,
        ) by {
            assert(scores[i].total() <= scores[first].total());
        }
    }
}

/// A round chooses the remaining candidate with the highest objective, the earliest where several
/// have it, and lists it with that objective; all others remain, in order, and what was chosen before
/// stays. Where no objective is above negative infinity, it chooses the first that remains.
pub proof fn what_a_round_chooses(d: DiversificationView, objectives: Seq<Float32>, n: nat) -> (place:
    int)
    requires
        strategy::sound(d, n),
        !strategy::complete(d),
        objectives.len() == d.remaining.len(),
    ensures
        ({
            let e = strategy::advanced(d, objectives);
            let some = exists|i: int|
                0 <= i < objectives.len() && float::float_negative_infinity().below(
                    #[trigger] objectives[i],
                );
            &&& 0 <= place < d.remaining.len()
            &&& e.selected == d.selected.push(d.remaining[place])
            &&& e.remaining == d.remaining.remove(place)
            &&& e.wanted == d.wanted
            &&& e.diversity == d.diversity
            &&& e.selection_scores.len() == d.selection_scores.len() + 1
            &&& e.selection_scores.drop_last() == d.selection_scores
            &&& some ==> {
                &&& e.selection_scores.last() == objectives[place]
                &&& forall|i: int|
                    0 <= i < objectives.len() ==> !objectives[place].below(
                        #[trigger] objectives[i],
                    )
                &&& forall|i: int|
                    0 <= i < place ==> !(#[trigger] objectives[i]).reaches(objectives[place])
            }
            &&& !some ==> place == 0 && e.selection_scores.last()
                == float::float_negative_infinity()
        }),
{
    let e = strategy::advanced(d, objectives);
    let m = d.remaining.len() as int;
    strategy::choice_is_highest(d.remaining, objectives, m);
    let (place, score) = strategy::choice(d.remaining, objectives, m);
    assert(e.selection_scores.drop_last() =~= d.selection_scores);
    if exists|i: int| 0 <= i < m && float::float_negative_infinity().below(#[trigger] objectives[i]) {
        let w = choose|i: int|
            0 <= i < m && float::float_negative_infinity().below(#[trigger] objectives[i]);
        assert(strategy::eligible(objectives[w]));
    } else {
        assert forall|i: int| 0 <= i < m implies !(#[trigger] strategy::eligible(
            objectives[i],
        )) by {
            assert(!float::float_negative_infinity().below(objectives[i]));
        }
    }
    place
}

/// The closest similarity is one of the similarities, or negative infinity where none is above it.
pub proof fn closest_is_one_of_them(similarities: Seq<Float32>)
    ensures
        similarities.contains(strategy::closest(similarities)) || strategy::closest(similarities)
            == float::float_negative_infinity(),
        !strategy::closest(similarities).nan(),
        forall|i: int|
            0 <= i < similarities.len() ==> !strategy::closest(similarities).below(
                #[trigger] similarities[i],
            ),
    decreases similarities.len(),
{
    strategy::closest_is_highest(similarities);
    if similarities.len() > 0 {
        let init = similarities.drop_last();
        closest_is_one_of_them(init);
        if init.contains(strategy::closest(init)) {
            let i = choose|i: int| 0 <= i < init.len() && init[i] == strategy::closest(init);
            assert(similarities[i] == strategy::closest(init));
        }
        assert(similarities[similarities.len() - 1] == similarities.last());
    }
}

proof fn lemma_not_chosen<T>(items: Seq<T>, indices: Seq<usize>, n: int)
    requires
        0 <= n <= items.len() <= usize::MAX,
    ensures
        representatives::not_chosen(items, indices, n) == sublists::those(
            items.take(n),
            |p: int| !indices.contains(p as usize),
        ),
    decreases n,
{
    let left = |p: int| !indices.contains(p as usize);
    if n > 0 {
        lemma_not_chosen(items, indices, n - 1);
        assert(items.take(n).drop_last() =~= items.take(n - 1));
        assert(left(n - 1) == !indices.contains((n - 1) as usize));
    }
    assert(representatives::not_chosen(items, indices, n) =~= sublists::those(items.take(n), left));
}

/// What is reported of candidates: those that were chosen, in the order of choice and with the
/// objectives they were chosen for, and all others in their order, with their relevance.
pub proof fn what_is_reported_of_candidates(
    candidates: Seq<RecordView>,
    relevance: Seq<Float32>,
    indices: Seq<usize>,
    selection_scores: Seq<Float32>,
)
    requires
        candidates.len() == relevance.len() <= usize::MAX,
    ensures
        ({
            let r = representatives::chosen_view(candidates, relevance, indices, selection_scores);
            &&& r.selected == indices.map_values(|p: usize| candidates[p as int])
            &&& r.scores_selected == selection_scores
            &&& r.filtered == sublists::those(
                candidates,
                |p: int| !indices.contains(p as usize),
            )
            &&& r.scores_filtered == sublists::those(
                relevance,
                |p: int| !indices.contains(p as usize),
            )
        }),
{
    let r = representatives::chosen_view(candidates, relevance, indices, selection_scores);
    let n = candidates.len() as int;
    lemma_not_chosen(candidates, indices, n);
    lemma_not_chosen(relevance, indices, n);
    assert(candidates.take(n) =~= candidates);
    assert(relevance.take(n) =~= relevance);
    assert(r.selected =~= indices.map_values(|p: usize| candidates[p as int]));
}

/// However the rounds go, as many representatives are selected as were asked for, or all candidates;
/// and the selected and the filtered records together are the candidates: the records that rank first,
/// as many as the limit stands for.
pub proof fn representatives_and_the_rest_are_the_candidates<E: Encoder + ?Sized>(
    model: &E,
    columns: Seq<Seq<char>>,
    ranking: FilterView,
    limit: CandidateLimit,
    k: nat,
    diversity: Float32,
    d: RankedView,
    rounds: Seq<Seq<Float32>>,
)
    requires
        ranking.selected.len() == ranking.scores_selected.len() <= usize::MAX,
        semhash::diversification_started(
            model,
            columns,
            ranking,
            representatives::limit_of(limit, ranking.selected.len(), k),
            k,
            diversity,
            Ok::<RankedView, ErrorView>(d),
        ),
        strategy::playable(d.choice, rounds),
        strategy::complete(strategy::after_rounds(d.choice, rounds)),
    ensures
        ({
            let end = strategy::after_rounds(d.choice, rounds);
            let m = candidate_count(limit, ranking.selected.len(), k);
            let r = representatives::chosen_view(
                d.candidates,
                d.relevance,
                end.selected,
                end.selection_scores,
            );
            &&& r.selected.len() == smaller(k, m)
            &&& r.scores_selected.len() == r.selected.len()
            &&& r.filtered.len() == m - r.selected.len()
            &&& r.selected.to_multiset().add(r.filtered.to_multiset()) == ranking.selected.take(
                m as int,
            ).to_multiset()
        }),
{
    candidates_rank_first(model, columns, ranking, limit, k, diversity, d);
    let m = candidate_count(limit, ranking.selected.len(), k);
    let end = strategy::after_rounds(d.choice, rounds);
    strategy::rounds_choose_one_each(d.relevance, k, diversity, rounds);
    strategy::selection_is_distinct(end, m);
    strategy::start_is_sound(d.relevance, k, diversity);
    sampling_laws::choosing_keeps_candidates(
        d.candidates,
        d.relevance,
        end.selected,
        end.selection_scores,
    );
}

} // verus!
