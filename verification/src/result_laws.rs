//! Laws of deduplication results: what raising a threshold keeps, which pairs are the least similar,
//! and which duplicates are listed with a selected record.

use crate::datamodels;
use crate::datamodels::{DeduplicationView, DuplicateView};
use crate::float::Float32;
use crate::ranking;
use crate::records;
use crate::rendering;
use crate::sublists;
use crate::utils;
use crate::value::RecordView;
use vstd::prelude::*;

verus! {

// ---------------------------------------------------------------------------------------------
// Raising a threshold

/// Whether a duplicate has an original that reaches a threshold.
pub open spec fn has_original(d: DuplicateView, threshold: Float32) -> bool {
    exists|j: int|
        0 <= j < d.duplicates.len() && (#[trigger] d.duplicates[j]).1.reaches(threshold)
}

/// The originals that reach a threshold, in order.
pub open spec fn originals_at(duplicates: Seq<(RecordView, Float32)>, threshold: Float32) -> Seq<
    (RecordView, Float32),
> {
    duplicates.filter(|o: (RecordView, Float32)| o.1.reaches(threshold))
}

proof fn lemma_retained(duplicates: Seq<(RecordView, Float32)>, threshold: Float32)
    ensures
        datamodels::retained(duplicates, threshold) == originals_at(duplicates, threshold),
        datamodels::retained(duplicates, threshold).len() > 0 <==> exists|j: int|
            0 <= j < duplicates.len() && (#[trigger] duplicates[j]).1.reaches(threshold),
    decreases duplicates.len(),
{
    reveal(Seq::filter);
    if duplicates.len() > 0 {
        let init = duplicates.drop_last();
        lemma_retained(init, threshold);
        assert(duplicates[duplicates.len() - 1] == duplicates.last());
        if exists|j: int|
            0 <= j < duplicates.len() && (#[trigger] duplicates[j]).1.reaches(threshold) {
            let j = choose|j: int|
                0 <= j < duplicates.len() && (#[trigger] duplicates[j]).1.reaches(threshold);
            if j < init.len() {
                assert(init[j].1.reaches(threshold));
            }
        }
        if exists|j: int| 0 <= j < init.len() && (#[trigger] init[j]).1.reaches(threshold) {
            let j = choose|j: int| 0 <= j < init.len() && (#[trigger] init[j]).1.reaches(threshold);
            assert(duplicates[j].1.reaches(threshold));
        }
    }
    assert(datamodels::retained(duplicates, threshold) =~= originals_at(duplicates, threshold));
}

proof fn lemma_filtered_at(filtered: Seq<DuplicateView>, threshold: Float32)
    ensures
        ({
            let keep = |i: int| has_original(filtered[i], threshold);
            let gone = |i: int| !has_original(filtered[i], threshold);
            &&& datamodels::still_filtered(filtered, threshold) == sublists::those(
                filtered.map_values(
                    |d: DuplicateView|
                        DuplicateView {
                            record: d.record,
                            exact: d.exact,
                            duplicates: originals_at(d.duplicates, threshold),
                        },
                ),
                keep,
            )
            &&& datamodels::released(filtered, threshold) == sublists::those(
                filtered.map_values(|d: DuplicateView| d.record),
                gone,
            )
        }),
    decreases filtered.len(),
{
    let keep = |i: int| has_original(filtered[i], threshold);
    let gone = |i: int| !has_original(filtered[i], threshold);
    let cut = |d: DuplicateView|
        DuplicateView {
            record: d.record,
            exact: d.exact,
            duplicates: originals_at(d.duplicates, threshold),
        };
    let record = |d: DuplicateView| d.record;
    if filtered.len() > 0 {
        let init = filtered.drop_last();
        let n = filtered.len() - 1;
        lemma_filtered_at(init, threshold);
        let init_keep = |i: int| has_original(init[i], threshold);
        let init_gone = |i: int| !has_original(init[i], threshold);
        assert(filtered.map_values(cut).drop_last() =~= init.map_values(cut));
        assert(filtered.map_values(record).drop_last() =~= init.map_values(record));
        assert forall|i: int| 0 <= i < n implies #[trigger] init_keep(i) == keep(i) by {
            assert(init[i] == filtered[i]);
        }
        assert forall|i: int| 0 <= i < n implies #[trigger] init_gone(i) == gone(i) by {
            assert(init[i] == filtered[i]);
        }
        sublists::lemma_those_agree(init.map_values(cut), init_keep, keep);
        sublists::lemma_those_agree(init.map_values(record), init_gone, gone);
        lemma_retained(filtered.last().duplicates, threshold);
        assert(keep(n) == has_original(filtered.last(), threshold));
        assert(gone(n) == !has_original(filtered.last(), threshold));
    }
    assert(datamodels::still_filtered(filtered, threshold) =~= sublists::those(
        filtered.map_values(cut),
        keep,
    ));
    assert(datamodels::released(filtered, threshold) =~= sublists::those(
        filtered.map_values(record),
        gone,
    ));
}

/// Raising the threshold leaves each duplicate the originals that reach it, in order. A duplicate that
/// keeps none is selected, after what was selected before; every other stays filtered, in order, and
/// is as exact as it was.
pub proof fn what_raising_a_threshold_does(d: DeduplicationView, threshold: Float32)
    ensures
        ({
            let r = datamodels::rethresholded(d, threshold);
            &&& r.selected == d.selected + sublists::those(
                d.filtered.map_values(|f: DuplicateView| f.record),
                |i: int| !has_original(d.filtered[i], threshold),
            )
            &&& r.filtered == sublists::those(
                d.filtered.map_values(
                    |f: DuplicateView|
                        DuplicateView {
                            record: f.record,
                            exact: f.exact,
                            duplicates: originals_at(f.duplicates, threshold),
                        },
                ),
                |i: int| has_original(d.filtered[i], threshold),
            )
            &&& r.threshold == threshold
            &&& r.columns == d.columns
        }),
{
    lemma_filtered_at(d.filtered, threshold);
    let r = datamodels::rethresholded(d, threshold);
    let fs = d.filtered;
    let records = fs.map_values(|f: DuplicateView| f.record);
    sublists::lemma_those_agree(
        records,
        |i: int| !has_original(fs[i], threshold),
        |i: int| !has_original(d.filtered[i], threshold),
    );
    assert(r.filtered == datamodels::still_filtered(fs, threshold));
}

// ---------------------------------------------------------------------------------------------
// Pairs

/// The pair of a duplicate and one of its originals.
pub open spec fn pair_at(filtered: Seq<DuplicateView>, f: int, j: int) -> (
    RecordView,
    RecordView,
    Float32,
) {
    (filtered[f].record, filtered[f].duplicates[j].0, filtered[f].duplicates[j].1)
}

/// Whether a place is in a list of places.
pub open spec fn has_place(at: Seq<(int, int)>, f: int, j: int) -> bool {
    exists|i: int| 0 <= i < at.len() && (#[trigger] at[i]).0 == f && at[i].1 == j
}

/// The pairs are those of each duplicate with each of its originals, in their order and nothing else.
pub proof fn pairs_are_duplicates_with_originals(filtered: Seq<DuplicateView>) -> (at: Seq<(int, int)>)
    ensures
        at.len() == datamodels::all_pairs(filtered).len(),
        forall|i: int|
            0 <= i < at.len() ==> {
                let (f, j) = #[trigger] at[i];
                &&& 0 <= f < filtered.len()
                &&& 0 <= j < filtered[f].duplicates.len()
                &&& datamodels::all_pairs(filtered)[i] == pair_at(filtered, f, j)
            },
        forall|a: int, b: int|
            #![trigger at[a], at[b]]
            0 <= a < b < at.len() ==> at[a].0 < at[b].0 || (at[a].0 == at[b].0 && at[a].1
                < at[b].1),
        forall|f: int, j: int|
            #![trigger has_place(at, f, j)]
            0 <= f < filtered.len() && 0 <= j < filtered[f].duplicates.len() ==> has_place(
                at,
                f,
                j,
            ),
    decreases filtered.len(),
{
    if filtered.len() == 0 {
        seq![]
    } else {
        let n = filtered.len() - 1;
        let init = filtered.drop_last();
        let before = pairs_are_duplicates_with_originals(init);
        let last = Seq::new(filtered.last().duplicates.len(), |j: int| (n, j));
        let at = before + last;
        let pairs = datamodels::all_pairs(filtered);
        assert forall|i: int| 0 <= i < at.len() implies {
            let (f, j) = #[trigger] at[i];
            &&& 0 <= f < filtered.len()
            &&& 0 <= j < filtered[f].duplicates.len()
            &&& pairs[i] == pair_at(filtered, f, j)
        } by {
            if i < before.len() {
                assert(at[i] == before[i]);
                assert(init[before[i].0] == filtered[before[i].0]);
            } else {
                assert(at[i] == last[i - before.len()]);
            }
        }
        assert forall|a: int, b: int|
            #![trigger at[a], at[b]]
            0 <= a < b < at.len() implies at[a].0 < at[b].0 || (at[a].0 == at[b].0 && at[a].1
            < at[b].1) by {
            if b < before.len() {
                assert(at[a] == before[a] && at[b] == before[b]);
            } else if a < before.len() {
                assert(at[a] == before[a]);
            }
        }
        assert forall|f: int, j: int|
            #![trigger has_place(at, f, j)]
            0 <= f < filtered.len() && 0 <= j < filtered[f].duplicates.len() implies has_place(
            at,
            f,
            j,
        ) by {
            if f < n {
                assert(init[f] == filtered[f]);
                assert(pair_at(init, f, j) == pair_at(filtered, f, j));
                assert(has_place(before, f, j));
                let i = choose|i: int|
                    0 <= i < before.len() && (#[trigger] before[i]).0 == f && before[i].1 == j;
                assert(at[i] == before[i]);
            } else {
                assert(at[before.len() + j] == last[j]);
            }
        }
        at
    }
}

/// Whether one pair comes before another: by the lower score, and by the earlier place where scores
/// are equal.
pub open spec fn less_similar(
    pairs: Seq<(RecordView, RecordView, Float32)>,
    a: int,
    b: int,
) -> bool {
    pairs[a].2.total() < pairs[b].2.total() || (pairs[a].2.total() == pairs[b].2.total() && a < b)
}

/// The least similar pairs are pairs of the list, no place twice, the lowest score first and the
/// earlier pair where scores are equal. As many are listed as were asked for, or all, and none that is
/// left out comes before one that is listed.
pub proof fn what_the_least_similar_are(pairs: Seq<(RecordView, RecordView, Float32)>, n: nat) -> (order:
    Seq<int>)
    requires
        pairs.len() <= usize::MAX,
    ensures
        datamodels::least_similar(pairs, n) == order.map_values(|p: int| pairs[p]),
        order.len() == if pairs.len() <= n {
            pairs.len()
        } else {
            n
        },
        forall|i: int| 0 <= i < order.len() ==> 0 <= #[trigger] order[i] < pairs.len(),
        forall|i: int, j: int|
            #![trigger order[i], order[j]]
            0 <= i < j < order.len() ==> less_similar(pairs, order[i], order[j]),
        forall|p: int, i: int|
            #![trigger order.contains(p), order[i]]
            0 <= p < pairs.len() && !order.contains(p) && 0 <= i < order.len() ==> less_similar(
                pairs,
                order[i],
                p,
            ),
{
    let keys = datamodels::pair_keys(pairs);
    let all = ranking::all_positions(pairs.len());
    let ranked = ranking::ranked(keys, all);
    let best = ranking::best(keys, all, n);
    let order = Seq::new(best.len(), |i: int| best[i] as int);
    ranking::ranked_is_sorted(keys, all);
    ranking::ranked_no_duplicates(keys, all);
    assert forall|i: int| 0 <= i < ranked.len() implies (#[trigger] ranked[i]) < pairs.len() by {
        assert(ranked.contains(ranked[i]));
        ranking::ranked_contains(keys, all, ranked[i]);
        let k = choose|k: int| 0 <= k < all.len() && all[k] == ranked[i];
        assert(all[k] == k as usize);
    }
    assert forall|i: int, j: int|
        #![trigger ranked[i], ranked[j]]
        0 <= i < j < ranked.len() implies less_similar(pairs, ranked[i] as int, ranked[j] as int) by {
        assert(ranked[i] != ranked[j]);
        assert(ranking::precedes(keys, ranked[i], ranked[j]));
        assert(ranked[i] < pairs.len() && ranked[j] < pairs.len());
    }
    assert forall|i: int, j: int|
        #![trigger order[i], order[j]]
        0 <= i < j < order.len() implies less_similar(pairs, order[i], order[j]) by {
        assert(order[i] == ranked[i] && order[j] == ranked[j]);
    }
    assert forall|i: int| 0 <= i < order.len() implies 0 <= #[trigger] order[i] < pairs.len() by {
        assert(order[i] == ranked[i]);
    }
    assert forall|p: int, i: int|
        #![trigger order.contains(p), order[i]]
        0 <= p < pairs.len() && !order.contains(p) && 0 <= i < order.len() implies less_similar(
        pairs,
        order[i],
        p,
    ) by {
        assert(all[p] == p as usize);
        assert(all.contains(p as usize));
        ranking::ranked_contains(keys, all, p as usize);
        let k = choose|k: int| 0 <= k < ranked.len() && ranked[k] == p as usize;
        if k < order.len() {
            assert(order[k] == p);
        }
        assert(order[i] == ranked[i]);
    }
    assert(datamodels::least_similar(pairs, n) =~= order.map_values(|p: int| pairs[p]));
    order
}

// ---------------------------------------------------------------------------------------------
// Selected records with their duplicates

/// Whether a pair counts for a selected record: its original is found under the same key.
pub open spec fn counts_for(
    pair: (RecordView, RecordView, Float32),
    selected: RecordView,
    columns: Option<Seq<Seq<char>>>,
) -> bool {
    utils::selection_key(pair.1, columns) == utils::selection_key(selected, columns)
}

proof fn lemma_found_under(
    pairs: Seq<(RecordView, RecordView, Float32)>,
    columns: Option<Seq<Seq<char>>>,
    selected: RecordView,
)
    ensures
        datamodels::found_under(pairs, columns, utils::selection_key(selected, columns))
            == sublists::those(
            pairs.map_values(|p: (RecordView, RecordView, Float32)| (p.0, p.2)),
            |i: int| counts_for(pairs[i], selected, columns),
        ),
    decreases pairs.len(),
{
    let key = utils::selection_key(selected, columns);
    let cut = |p: (RecordView, RecordView, Float32)| (p.0, p.2);
    let keep = |i: int| counts_for(pairs[i], selected, columns);
    if pairs.len() > 0 {
        let init = pairs.drop_last();
        lemma_found_under(init, columns, selected);
        let init_keep = |i: int| counts_for(init[i], selected, columns);
        assert(pairs.map_values(cut).drop_last() =~= init.map_values(cut));
        assert forall|i: int| 0 <= i < init.len() implies #[trigger] init_keep(i) == keep(i) by {
            assert(init[i] == pairs[i]);
        }
        sublists::lemma_those_agree(init.map_values(cut), init_keep, keep);
        assert(keep(pairs.len() - 1) == counts_for(pairs.last(), selected, columns));
    }
    assert(datamodels::found_under(pairs, columns, key) =~= sublists::those(
        pairs.map_values(cut),
        keep,
    ));
}

/// The representation of a scored record.
pub open spec fn text_of(s: (RecordView, Float32)) -> Seq<char> {
    rendering::record_canonical_text(s.0)
}

/// Whether an item is the last of a list with its record.
pub open spec fn is_last(list: Seq<(RecordView, Float32)>, k: int) -> bool {
    &&& 0 <= k < list.len()
    &&& forall|m: int| k < m < list.len() ==> text_of(#[trigger] list[m]) != text_of(list[k])
}

/// Whether every item of a list is the last one of another with its record.
pub open spec fn as_they_were_last(
    list: Seq<(RecordView, Float32)>,
    out: Seq<(RecordView, Float32)>,
) -> bool {
    forall|i: int|
        #![trigger out[i]]
        0 <= i < out.len() ==> exists|k: int| #[trigger] is_last(list, k) && list[k] == out[i]
}

/// Whether a record is in a list.
pub open spec fn has_text(list: Seq<(RecordView, Float32)>, text: Seq<char>) -> bool {
    exists|i: int| 0 <= i < list.len() && text_of(#[trigger] list[i]) == text
}

/// Whether every record of a list is in another.
pub open spec fn all_are_in(list: Seq<(RecordView, Float32)>, out: Seq<(RecordView, Float32)>) -> bool {
    forall|k: int|
        #![trigger list[k]]
        0 <= k < list.len() ==> has_text(out, text_of(list[k]))
}

/// Whether no record is in a list twice.
pub open spec fn none_twice(out: Seq<(RecordView, Float32)>) -> bool {
    forall|i: int, j: int|
        #![trigger out[i], out[j]]
        0 <= i < j < out.len() ==> text_of(out[i]) != text_of(out[j])
}

/// Whether records are in the order in which they are first in another list: before the first place
/// of each stand all that come before it.
pub open spec fn as_they_were_first(
    list: Seq<(RecordView, Float32)>,
    out: Seq<(RecordView, Float32)>,
) -> bool {
    forall|i: int, j: int, b: int|
        #![trigger out[i], out[j], list.take(b)]
        0 <= i < j < out.len() && 0 <= b < list.len() && text_of(list[b]) == text_of(out[j])
            ==> has_text(list.take(b), text_of(out[i]))
}

/// Whether a list has each record of another once, as it was last, in the order in which they were
/// first. Records are the same if their representations are.
pub open spec fn once_each(list: Seq<(RecordView, Float32)>, out: Seq<(RecordView, Float32)>) -> bool {
    &&& as_they_were_last(list, out)
    &&& all_are_in(list, out)
    &&& none_twice(out)
    &&& as_they_were_first(list, out)
}

/// One more item: it takes the place of its record, or a place of its own.
proof fn lemma_deduped_step(list: Seq<(RecordView, Float32)>) -> (p: int)
    requires
        list.len() > 0,
        none_twice(datamodels::deduped(list.drop_last())),
    ensures
        ({
            let before = datamodels::deduped(list.drop_last());
            let out = datamodels::deduped(list);
            &&& 0 <= p < out.len()
            &&& out[p] == list.last()
            &&& out.len() == before.len() || (out.len() == before.len() + 1 && p == before.len())
            &&& out.len() == before.len() <==> has_text(before, text_of(list.last()))
            &&& forall|i: int|
                0 <= i < before.len() && i != p ==> #[trigger] out[i] == before[i] && text_of(
                    out[i],
                ) != text_of(list.last())
            &&& p < before.len() ==> text_of(before[p]) == text_of(list.last())
        }),
{
    let before = datamodels::deduped(list.drop_last());
    let out = datamodels::deduped(list);
    let text = text_of(list.last());
    if datamodels::listed_as(before, text) {
        let p = datamodels::place_of(before, text);
        assert(text_of(before[p]) == text);
        assert(has_text(before, text));
        assert forall|i: int| 0 <= i < before.len() && i != p implies #[trigger] out[i] == before[i]
            && text_of(out[i]) != text by {
            if i < p {
                assert(text_of(before[i]) != text_of(before[p]));
            } else {
                assert(text_of(before[p]) != text_of(before[i]));
            }
        }
        p
    } else {
        assert forall|i: int| 0 <= i < before.len() implies text_of(#[trigger] before[i])
            != text by {}
        assert(!has_text(before, text));
        before.len() as int
    }
}

proof fn lemma_none_twice(list: Seq<(RecordView, Float32)>)
    ensures
        none_twice(datamodels::deduped(list)),
    decreases list.len(),
{
    if list.len() > 0 {
        let before = datamodels::deduped(list.drop_last());
        let out = datamodels::deduped(list);
        lemma_none_twice(list.drop_last());
        let p = lemma_deduped_step(list);
        assert forall|i: int, j: int|
            #![trigger out[i], out[j]]
            0 <= i < j < out.len() implies text_of(out[i]) != text_of(out[j]) by {
            if i != p && j != p {
                assert(out[i] == before[i] && out[j] == before[j]);
            }
        }
    }
}

proof fn lemma_all_are_in(list: Seq<(RecordView, Float32)>)
    ensures
        all_are_in(list, datamodels::deduped(list)),
    decreases list.len(),
{
    if list.len() > 0 {
        let init = list.drop_last();
        let before = datamodels::deduped(init);
        let out = datamodels::deduped(list);
        lemma_all_are_in(init);
        lemma_none_twice(init);
        let p = lemma_deduped_step(list);
        assert forall|k: int|
            #![trigger list[k]]
            0 <= k < list.len() implies has_text(out, text_of(list[k])) by {
            if k < init.len() {
                assert(init[k] == list[k]);
                assert(has_text(before, text_of(init[k])));
                let i = choose|i: int|
                    0 <= i < before.len() && text_of(#[trigger] before[i]) == text_of(init[k]);
                if i == p {
                    assert(text_of(out[p]) == text_of(list[k]));
                } else {
                    assert(out[i] == before[i]);
                }
            } else {
                assert(text_of(out[p]) == text_of(list[k]));
            }
        }
    }
}

proof fn lemma_as_they_were_last(list: Seq<(RecordView, Float32)>)
    ensures
        as_they_were_last(list, datamodels::deduped(list)),
    decreases list.len(),
{
    if list.len() > 0 {
        let init = list.drop_last();
        let n = list.len() - 1;
        let before = datamodels::deduped(init);
        let out = datamodels::deduped(list);
        lemma_as_they_were_last(init);
        lemma_none_twice(init);
        let p = lemma_deduped_step(list);
        assert forall|i: int|
            #![trigger out[i]]
            0 <= i < out.len() implies exists|k: int| #[trigger]
            is_last(list, k) && list[k] == out[i] by {
            if i == p {
                assert(is_last(list, n) && list[n] == out[i]);
            } else {
                assert(out[i] == before[i]);
                let k = choose|k: int| #[trigger] is_last(init, k) && init[k] == before[i];
                assert forall|m: int| k < m < list.len() implies text_of(#[trigger] list[m])
                    != text_of(list[k]) by {
                    if m < n {
                        assert(init[m] == list[m]);
                    }
                }
                assert(is_last(list, k) && list[k] == out[i]);
            }
        }
    }
}

/// What is listed was there.
proof fn lemma_listed_was_there(list: Seq<(RecordView, Float32)>, i: int)
    requires
        0 <= i < datamodels::deduped(list).len(),
    ensures
        has_text(list, text_of(datamodels::deduped(list)[i])),
{
    lemma_as_they_were_last(list);
    let out = datamodels::deduped(list);
    let k = choose|k: int| #[trigger] is_last(list, k) && list[k] == out[i];
    assert(text_of(list[k]) == text_of(out[i]));
}

proof fn lemma_as_they_were_first(list: Seq<(RecordView, Float32)>)
    ensures
        as_they_were_first(list, datamodels::deduped(list)),
    decreases list.len(),
{
    if list.len() > 0 {
        let init = list.drop_last();
        let n = list.len() - 1;
        let before = datamodels::deduped(init);
        let out = datamodels::deduped(list);
        lemma_as_they_were_first(init);
        lemma_all_are_in(init);
        lemma_none_twice(init);
        let p = lemma_deduped_step(list);
        assert forall|i: int, j: int, b: int|
            #![trigger out[i], out[j], list.take(b)]
            0 <= i < j < out.len() && 0 <= b < list.len() && text_of(list[b]) == text_of(
                out[j],
            ) implies has_text(list.take(b), text_of(out[i])) by {
            assert(i < before.len());
            assert(text_of(out[i]) == text_of(before[i]));
            if b == n {
                lemma_listed_was_there(init, i);
                assert(list.take(b) =~= init);
            } else {
                assert(init[b] == list[b]);
                assert(has_text(before, text_of(init[b])));
                assert(j < before.len()) by {
                    if j == before.len() {
                        assert(p == j);
                        assert(text_of(init[b]) == text_of(list.last()));
                    }
                }
                assert(text_of(out[j]) == text_of(before[j]));
                assert(has_text(init.take(b), text_of(before[i])));
                assert(init.take(b) =~= list.take(b));
            }
        }
    }
}

proof fn lemma_deduped(list: Seq<(RecordView, Float32)>)
    ensures
        once_each(list, datamodels::deduped(list)),
{
    lemma_as_they_were_last(list);
    lemma_all_are_in(list);
    lemma_none_twice(list);
    lemma_as_they_were_first(list);
}

/// What is listed with a selected record: the duplicates one of whose originals is found under its
/// key, each once, with the score of the last such original, in the order in which they were first
/// filtered. The selected records are listed in their order.
pub proof fn what_is_listed_with_a_selected_record(d: DeduplicationView, i: int)
    requires
        0 <= i < d.selected.len(),
    ensures
        datamodels::selection_of(d).len() == d.selected.len(),
        datamodels::selection_of(d)[i].record == d.selected[i],
        ({
            let pairs = datamodels::all_pairs(d.filtered);
            once_each(
                sublists::those(
                    pairs.map_values(|p: (RecordView, RecordView, Float32)| (p.0, p.2)),
                    |k: int| counts_for(pairs[k], d.selected[i], d.columns),
                ),
                datamodels::selection_of(d)[i].duplicates,
            )
        }),
{
    let pairs = datamodels::all_pairs(d.filtered);
    let selected = d.selected[i];
    lemma_found_under(pairs, d.columns, selected);
    let found = datamodels::found_under(
        pairs,
        d.columns,
        utils::selection_key(selected, d.columns),
    );
    lemma_deduped(found);
    sublists::lemma_those_agree(
        pairs.map_values(|p: (RecordView, RecordView, Float32)| (p.0, p.2)),
        |k: int| counts_for(pairs[k], selected, d.columns),
        |k: int| counts_for(pairs[k], d.selected[i], d.columns),
    );
}

// ---------------------------------------------------------------------------------------------
// Results as texts

/// A record as a text: a text is one already, and a dictionary becomes a line of its columns.
pub open spec fn as_line(r: RecordView, columns: Seq<Seq<char>>) -> RecordView {
    match r {
        RecordView::Text(s) => RecordView::Text(s),
        RecordView::Dict(d) => RecordView::Text(utils::dict_text(d, columns)),
    }
}

/// Turning a result into texts turns each of its records into a text where it stands, and keeps its
/// marks, similarities, threshold and columns.
pub proof fn results_become_texts_in_place(d: DeduplicationView, columns: Seq<Seq<char>>)
    ensures
        ({
            let r = records::stringed_result(d, columns);
            &&& r.selected == d.selected.map_values(|s: RecordView| as_line(s, columns))
            &&& r.filtered.len() == d.filtered.len()
            &&& forall|i: int|
                0 <= i < d.filtered.len() ==> (#[trigger] r.filtered[i]).record == as_line(
                    d.filtered[i].record,
                    columns,
                ) && r.filtered[i].exact == d.filtered[i].exact && r.filtered[i].duplicates
                    == d.filtered[i].duplicates.map_values(
                    |f: (RecordView, Float32)| (as_line(f.0, columns), f.1),
                )
            &&& r.threshold == d.threshold
            &&& r.columns == d.columns
        }),
{
    let r = records::stringed_result(d, columns);
    assert(r.selected =~= d.selected.map_values(|s: RecordView| as_line(s, columns)));
    assert forall|i: int| 0 <= i < d.filtered.len() implies (#[trigger] r.filtered[i]).duplicates
        == d.filtered[i].duplicates.map_values(
        |f: (RecordView, Float32)| (as_line(f.0, columns), f.1),
    ) by {
        assert(r.filtered[i].duplicates =~= d.filtered[i].duplicates.map_values(
            |f: (RecordView, Float32)| (as_line(f.0, columns), f.1),
        ));
    }
}

// ---------------------------------------------------------------------------------------------
// Shares

/// The shares of two parts that make up a whole have that whole, and their counts add up to it. Of
/// nothing, one share is all of one and the other none of it.
pub proof fn shares_of_a_whole_add_up(a: int, b: int)
    requires
        0 <= a,
        0 <= b,
        a + b <= u128::MAX,
    ensures
        ({
            let first = datamodels::share(a, a + b, 0);
            let second = datamodels::share(b, a + b, 1);
            &&& first.part + second.part == first.whole
            &&& first.whole == second.whole > 0
            &&& first.part == a
            &&& a + b > 0 ==> first.whole == a + b && second.part == b
            &&& a + b == 0 ==> first.whole == 1 && second.part == 1
        }),
{
}

} // verus!
