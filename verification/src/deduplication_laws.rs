//! Laws of deduplication: no record is lost, what is selected is new, and raising the threshold of
//! a result is the same as deduplicating at the higher threshold.

use crate::datamodels;
use crate::datamodels::{DeduplicationView, DuplicateView};
use crate::deduplication;
use crate::deduplication::Progress;
use crate::float;
use crate::float::Float32;
use crate::index;
use crate::ranking;
use crate::record_laws;
use crate::records;
use crate::value::{DictView, RecordView};
use vstd::multiset::Multiset;
use vstd::prelude::*;
use vstd::seq_lib::*;

verus! {

// ---------------------------------------------------------------------------------------------
// No record is lost

/// Telling records that found something from those that did not loses no record and invents none.
pub proof fn sorting_out_keeps_records(
    records: Seq<DictView>,
    results: Seq<Seq<(DictView, Float32)>>,
    n: int,
)
    requires
        0 <= n <= records.len(),
    ensures
        deduplication::dissimilar(records, results, n).to_multiset().add(
            datamodels::filtered_records(
                deduplication::similar(records, results, n),
            ).to_multiset(),
        ) == records::as_records(records.take(n)).to_multiset(),
        deduplication::dissimilar(records, results, n).len() + deduplication::similar(
            records,
            results,
            n,
        ).len() == n,
    decreases n,
{
    broadcast use group_to_multiset_ensures;

    let selected = deduplication::dissimilar(records, results, n);
    let filtered = deduplication::similar(records, results, n);
    let given = records::as_records(records.take(n));
    if n == 0 {
        assert(datamodels::filtered_records(filtered) =~= seq![]);
        assert(given =~= seq![]);
        assert(selected.to_multiset().add(datamodels::filtered_records(filtered).to_multiset())
            =~= given.to_multiset());
    } else {
        sorting_out_keeps_records(records, results, n - 1);
        let before = deduplication::similar(records, results, n - 1);
        let record = RecordView::Dict(records[n - 1]);
        assert(given =~= records::as_records(records.take(n - 1)).push(record));
        if filtered.len() > before.len() {
            assert(datamodels::filtered_records(filtered) =~= datamodels::filtered_records(
                before,
            ).push(record));
        }
        assert(selected.to_multiset().add(datamodels::filtered_records(filtered).to_multiset())
            =~= given.to_multiset());
    }
}

proof fn lemma_bucket_duplicates(item: Seq<DictView>, n: int)
    requires
        1 <= n <= item.len(),
    ensures
        datamodels::filtered_records(deduplication::bucket_duplicates(item, n))
            == records::as_records(item.subrange(1, n)),
    decreases n,
{
    let found = datamodels::filtered_records(deduplication::bucket_duplicates(item, n));
    if n == 1 {
        assert(found =~= records::as_records(item.subrange(1, n)));
    } else {
        lemma_bucket_duplicates(item, n - 1);
        let before = datamodels::filtered_records(deduplication::bucket_duplicates(item, n - 1));
        assert(found =~= before.push(RecordView::Dict(item[n - 1])));
        assert(found =~= records::as_records(item.subrange(1, n)));
    }
}

/// All records that are known after some buckets.
pub open spec fn records_known(p: Progress) -> Multiset<RecordView> {
    p.selected.to_multiset().add(datamodels::filtered_records(p.filtered).to_multiset())
}

proof fn lemma_with_bucket(
    p: Progress,
    item: Seq<DictView>,
    found: Seq<(DictView, Float32)>,
    columns: Seq<Seq<char>>,
)
    requires
        deduplication::with_bucket(p, item, found, columns) is Ok,
    ensures
        records_known(deduplication::with_bucket(p, item, found, columns)->Ok_0)
            == records_known(p).add(records::as_records(item).to_multiset()),
{
    broadcast use group_to_multiset_ensures;

    let q = deduplication::with_bucket(p, item, found, columns)->Ok_0;
    let given = records::as_records(item);
    if item.len() == 0 {
        assert(given =~= seq![]);
        assert(records_known(q) =~= records_known(p).add(given.to_multiset()));
    } else {
        let record = RecordView::Dict(item[0]);
        let extra = deduplication::bucket_duplicates(item, item.len() as int);
        let rest = datamodels::filtered_records(extra);
        lemma_bucket_duplicates(item, item.len() as int);
        let kept = datamodels::filtered_records(p.filtered);
        assert(datamodels::filtered_records(p.filtered + extra) =~= kept + rest);
        lemma_multiset_commutative(kept, rest);
        assert(given =~= seq![record] + rest);
        lemma_multiset_commutative(seq![record], rest);
        assert(seq![record] =~= Seq::<RecordView>::empty().push(record));
        assert(given.to_multiset() =~= rest.to_multiset().insert(record));
        if q.filtered.len() > (p.filtered + extra).len() {
            assert(datamodels::filtered_records(q.filtered) =~= (kept + rest).push(record));
            assert(records_known(q) =~= records_known(p).add(given.to_multiset()));
        } else {
            assert(q.filtered == p.filtered + extra);
            assert(q.selected == p.selected.push(record));
            assert(records_known(q) =~= records_known(p).add(given.to_multiset()));
        }
    }
}

/// Deduplicating the records of an index among themselves loses no record and invents none: each
/// record of each bucket is selected or filtered, once.
pub proof fn buckets_keep_records(
    items: Seq<Seq<DictView>>,
    results: Seq<Seq<(DictView, Float32)>>,
    columns: Seq<Seq<char>>,
    n: int,
)
    requires
        0 <= n <= items.len(),
        deduplication::with_buckets(items, results, columns, n) is Ok,
    ensures
        records_known(deduplication::with_buckets(items, results, columns, n)->Ok_0)
            == records::as_records(record_laws::flattened(items.take(n))).to_multiset(),
        ({
            let p = deduplication::with_buckets(items, results, columns, n)->Ok_0;
            p.selected.len() + p.filtered.len() == record_laws::flattened(items.take(n)).len()
        }),
    decreases n,
{
    broadcast use group_to_multiset_ensures;

    let p = deduplication::with_buckets(items, results, columns, n)->Ok_0;
    let all = record_laws::flattened(items.take(n));
    let given = records::as_records(all);
    if n == 0 {
        assert(given =~= seq![]);
        assert(datamodels::filtered_records(p.filtered) =~= seq![]);
        assert(records_known(p) =~= given.to_multiset());
    } else {
        buckets_keep_records(items, results, columns, n - 1);
        let before = deduplication::with_buckets(items, results, columns, n - 1)->Ok_0;
        lemma_with_bucket(before, items[n - 1], results[n - 1], columns);
        assert(items.take(n).drop_last() =~= items.take(n - 1));
        let front = record_laws::flattened(items.take(n - 1));
        assert(given =~= records::as_records(front) + records::as_records(items[n - 1]));
        lemma_multiset_commutative(records::as_records(front), records::as_records(items[n - 1]));
        assert(records_known(p) =~= given.to_multiset());
    }
    given.to_multiset_ensures();
    p.selected.to_multiset_ensures();
    datamodels::filtered_records(p.filtered).to_multiset_ensures();
    assert(records_known(p).len() == given.len());
}

// ---------------------------------------------------------------------------------------------
// What is selected is new

/// Whether some similarity reaches a threshold.
pub open spec fn reaches_any(row: Seq<Float32>, threshold: Float32) -> bool {
    exists|p: int| 0 <= p < row.len() && (#[trigger] row[p]).reaches(threshold)
}

/// Those of the first `n` records of which no similarity reaches a threshold.
pub open spec fn out_of_reach(
    records: Seq<DictView>,
    rows: Seq<Seq<Float32>>,
    threshold: Float32,
    n: int,
) -> Seq<RecordView>
    decreases n,
{
    if n <= 0 {
        seq![]
    } else {
        let rest = out_of_reach(records, rows, threshold, n - 1);
        if reaches_any(rows[n - 1], threshold) {
            rest
        } else {
            rest.push(RecordView::Dict(records[n - 1]))
        }
    }
}

/// The results of queries with the given similarities.
pub open spec fn results_of(
    items: Seq<Seq<DictView>>,
    rows: Seq<Seq<Float32>>,
    threshold: Float32,
) -> Seq<Seq<(DictView, Float32)>> {
    Seq::new(rows.len(), |q: int| index::doc_scores(items, rows[q], threshold))
}

/// Whether rows are similarities to the vectors of an index with these buckets, none of which is
/// empty.
pub open spec fn comparable(items: Seq<Seq<DictView>>, rows: Seq<Seq<Float32>>) -> bool {
    &&& items.len() <= usize::MAX
    &&& forall|p: int| 0 <= p < items.len() ==> (#[trigger] items[p]).len() > 0
    &&& forall|q: int| 0 <= q < rows.len() ==> (#[trigger] rows[q]).len() == items.len()
}

/// A record is selected exactly if none of its similarities reaches the threshold.
pub proof fn selected_are_out_of_reach(
    records: Seq<DictView>,
    items: Seq<Seq<DictView>>,
    rows: Seq<Seq<Float32>>,
    threshold: Float32,
    n: int,
)
    requires
        comparable(items, rows),
        0 <= n <= rows.len(),
    ensures
        deduplication::dissimilar(records, results_of(items, rows, threshold), n) == out_of_reach(
            records,
            rows,
            threshold,
            n,
        ),
    decreases n,
{
    if n > 0 {
        selected_are_out_of_reach(records, items, rows, threshold, n - 1);
        assert(rows[n - 1].len() == items.len());
        index::nothing_found_iff_none_reaches(items, rows[n - 1], threshold);
    }
}

// ---------------------------------------------------------------------------------------------
// Raising the threshold

/// The items that satisfy a condition that holds of a first part only, among the first `m`.
proof fn lemma_filter_of_prefix(s: Seq<usize>, pred: spec_fn(usize) -> bool, m: nat)
    requires
        forall|i: int, j: int|
            #![trigger s[i], s[j]]
            0 <= i < j < s.len() && pred(s[j]) ==> pred(s[i]),
    ensures
        ranking::at_most(s, m).filter(pred) == ranking::at_most(s.filter(pred), m),
    decreases s.len(),
{
    reveal(Seq::filter);
    index::lemma_filter_prefix(s, pred);
    if s.len() > m {
        let init = s.drop_last();
        assert forall|i: int, j: int|
            #![trigger init[i], init[j]]
            0 <= i < j < init.len() && pred(init[j]) implies pred(init[i]) by {
            assert(init[i] == s[i] && init[j] == s[j]);
        }
        lemma_filter_of_prefix(init, pred, m);
        assert(ranking::at_most(init, m) =~= s.take(m as int));
        if pred(s.last()) {
            assert forall|i: int| 0 <= i < init.len() implies pred(#[trigger] init[i]) by {
                assert(init[i] == s[i] && s[s.len() - 1] == s.last());
            }
            index::lemma_filter_all(init, pred);
            assert(s.filter(pred) =~= s);
            assert(ranking::at_most(init.filter(pred), m) =~= ranking::at_most(s.filter(pred), m));
        }
    }
}

/// The neighbors at a higher threshold are those at a lower one that reach it.
proof fn lemma_neighbors_higher(row: Seq<Float32>, low: Float32, high: Float32)
    requires
        row.len() <= usize::MAX,
        high.reaches(low),
    ensures
        index::neighbors(row, high) == index::neighbors(row, low).filter(
            |p: usize| row[p as int].reaches(high),
        ),
{
    let keys = index::falling_keys(row);
    let lower = index::reaching(row, low);
    let pred = |p: usize| row[p as int].reaches(high);
    let all = ranking::ranked(keys, lower);
    index::lemma_ranked_reaching(row, low, high);
    lemma_filter_of_prefix(all, pred, index::NEIGHBOR_LIMIT as nat);
}

proof fn lemma_retained_concat(
    a: Seq<(RecordView, Float32)>,
    b: Seq<(RecordView, Float32)>,
    threshold: Float32,
)
    ensures
        datamodels::retained(a + b, threshold) == datamodels::retained(a, threshold)
            + datamodels::retained(b, threshold),
    decreases b.len(),
{
    if b.len() == 0 {
        assert(a + b =~= a);
        assert(datamodels::retained(a, threshold) + datamodels::retained(b, threshold)
            =~= datamodels::retained(a, threshold));
    } else {
        lemma_retained_concat(a, b.drop_last(), threshold);
        assert((a + b).drop_last() =~= a + b.drop_last());
        assert(datamodels::retained(a + b, threshold) =~= datamodels::retained(a, threshold)
            + datamodels::retained(b, threshold));
    }
}

/// Scored records that all reach a threshold are retained, and none where none does.
proof fn lemma_retained_uniform(s: Seq<(RecordView, Float32)>, threshold: Float32, reaches: bool)
    requires
        forall|i: int| 0 <= i < s.len() ==> (#[trigger] s[i]).1.reaches(threshold) == reaches,
    ensures
        datamodels::retained(s, threshold) == if reaches {
            s
        } else {
            seq![]
        },
    decreases s.len(),
{
    if s.len() > 0 {
        let init = s.drop_last();
        assert forall|i: int| 0 <= i < init.len() implies (#[trigger] init[i]).1.reaches(threshold)
            == reaches by {
            assert(init[i] == s[i]);
        }
        lemma_retained_uniform(init, threshold, reaches);
        assert(s[s.len() - 1].1.reaches(threshold) == reaches);
        assert(init.push(s.last()) =~= s);
    }
}

proof fn lemma_retained_expanded(
    items: Seq<Seq<DictView>>,
    row: Seq<Float32>,
    positions: Seq<usize>,
    threshold: Float32,
)
    ensures
        datamodels::retained(
            records::as_scored_records(index::expanded(items, row, positions)),
            threshold,
        ) == records::as_scored_records(
            index::expanded(
                items,
                row,
                positions.filter(|p: usize| row[p as int].reaches(threshold)),
            ),
        ),
    decreases positions.len(),
{
    reveal(Seq::filter);
    let pred = |p: usize| row[p as int].reaches(threshold);
    let all = index::expanded(items, row, positions);
    let kept = index::expanded(items, row, positions.filter(pred));
    if positions.len() == 0 {
        assert(records::as_scored_records(all) =~= seq![]);
        assert(records::as_scored_records(kept) =~= seq![]);
    } else {
        let init = positions.drop_last();
        let p = positions.last() as int;
        lemma_retained_expanded(items, row, init, threshold);
        let front = index::expanded(items, row, init);
        let bucket = index::scored_bucket(items[p], row[p]);
        let scored = records::as_scored_records(bucket);
        assert(records::as_scored_records(all) =~= records::as_scored_records(front) + scored);
        lemma_retained_concat(records::as_scored_records(front), scored, threshold);
        lemma_retained_uniform(scored, threshold, row[p].reaches(threshold));
        let filtered = init.filter(pred);
        let kept_front = index::expanded(items, row, filtered);
        if pred(positions.last()) {
            assert(positions.filter(pred) == filtered.push(positions.last()));
            assert(filtered.push(positions.last()).drop_last() =~= filtered);
            assert(records::as_scored_records(kept) =~= records::as_scored_records(kept_front)
                + scored);
        } else {
            assert(positions.filter(pred) == filtered);
            assert(datamodels::retained(records::as_scored_records(all), threshold)
                =~= records::as_scored_records(kept));
        }
    }
}

/// What a query found at a lower threshold, cut down to a higher one, is what it finds at the
/// higher one.
pub proof fn found_cut_down(
    items: Seq<Seq<DictView>>,
    row: Seq<Float32>,
    low: Float32,
    high: Float32,
)
    requires
        row.len() <= usize::MAX,
        high.reaches(low),
    ensures
        datamodels::retained(
            records::as_scored_records(index::doc_scores(items, row, low)),
            high,
        ) == records::as_scored_records(index::doc_scores(items, row, high)),
{
    lemma_neighbors_higher(row, low, high);
    lemma_retained_expanded(items, row, index::neighbors(row, low), high);
}

proof fn lemma_still_filtered_concat(a: Seq<DuplicateView>, b: Seq<DuplicateView>, t: Float32)
    ensures
        datamodels::still_filtered(a + b, t) == datamodels::still_filtered(a, t)
            + datamodels::still_filtered(b, t),
        datamodels::released(a + b, t) == datamodels::released(a, t) + datamodels::released(b, t),
    decreases b.len(),
{
    if b.len() == 0 {
        assert(a + b =~= a);
        assert(datamodels::still_filtered(a, t) + datamodels::still_filtered(b, t)
            =~= datamodels::still_filtered(a, t));
        assert(datamodels::released(a, t) + datamodels::released(b, t) =~= datamodels::released(
            a,
            t,
        ));
    } else {
        lemma_still_filtered_concat(a, b.drop_last(), t);
        assert((a + b).drop_last() =~= a + b.drop_last());
        assert(datamodels::still_filtered(a + b, t) =~= datamodels::still_filtered(a, t)
            + datamodels::still_filtered(b, t));
        assert(datamodels::released(a + b, t) =~= datamodels::released(a, t)
            + datamodels::released(b, t));
    }
}

/// Exact duplicates stay duplicates at every threshold that an exact match reaches.
proof fn lemma_exact_stay(ds: Seq<(DictView, Seq<DictView>)>, t: Float32)
    requires
        float::float_one().reaches(t),
        forall|i: int| 0 <= i < ds.len() ==> (#[trigger] ds[i]).1.len() > 0,
    ensures
        datamodels::still_filtered(deduplication::exact_duplicates(ds), t)
            == deduplication::exact_duplicates(ds),
        datamodels::released(deduplication::exact_duplicates(ds), t) == Seq::<RecordView>::empty(),
    decreases ds.len(),
{
    let all = deduplication::exact_duplicates(ds);
    if ds.len() > 0 {
        let init = ds.drop_last();
        assert forall|i: int| 0 <= i < init.len() implies (#[trigger] init[i]).1.len() > 0 by {
            assert(init[i] == ds[i]);
        }
        lemma_exact_stay(init, t);
        assert(all.drop_last() =~= deduplication::exact_duplicates(init));
        let last = all.last();
        assert(last == deduplication::exact_duplicate(ds[ds.len() - 1]));
        lemma_retained_uniform(last.duplicates, t, true);
        assert(datamodels::still_filtered(all, t) =~= all);
    } else {
        assert(all =~= seq![]);
    }
}

/// The similar records at a lower threshold, cut down to a higher one.
proof fn lemma_similar_cut_down(
    records: Seq<DictView>,
    items: Seq<Seq<DictView>>,
    rows: Seq<Seq<Float32>>,
    low: Float32,
    high: Float32,
    n: int,
)
    requires
        0 <= n <= rows.len(),
        high.reaches(low),
        items.len() <= usize::MAX,
        forall|q: int| 0 <= q < rows.len() ==> (#[trigger] rows[q]).len() == items.len(),
    ensures
        ({
            let at_low = deduplication::similar(records, results_of(items, rows, low), n);
            let kept = deduplication::dissimilar(records, results_of(items, rows, low), n);
            &&& datamodels::still_filtered(at_low, high) == deduplication::similar(
                records,
                results_of(items, rows, high),
                n,
            )
            &&& kept.to_multiset().add(datamodels::released(at_low, high).to_multiset())
                == deduplication::dissimilar(
                records,
                results_of(items, rows, high),
                n,
            ).to_multiset()
        }),
    decreases n,
{
    broadcast use group_to_multiset_ensures;

    let lows = results_of(items, rows, low);
    let highs = results_of(items, rows, high);
    let at_low = deduplication::similar(records, lows, n);
    let kept = deduplication::dissimilar(records, lows, n);
    let goal = deduplication::dissimilar(records, highs, n);
    if n == 0 {
        assert(kept.to_multiset().add(datamodels::released(at_low, high).to_multiset())
            =~= goal.to_multiset());
    } else {
        lemma_similar_cut_down(records, items, rows, low, high, n - 1);
        let row = rows[n - 1];
        assert(row.len() == items.len());
        found_cut_down(items, row, low, high);
        let found = index::doc_scores(items, row, low);
        let left = index::doc_scores(items, row, high);
        assert(lows[n - 1] == found && highs[n - 1] == left);
        let before = deduplication::similar(records, lows, n - 1);
        let retained = datamodels::retained(records::as_scored_records(found), high);
        assert(retained.len() == left.len());
        if found.len() == 0 {
            assert(records::as_scored_records(found) =~= seq![]);
            assert(left.len() == 0);
        } else {
            assert(at_low.drop_last() =~= before);
            assert(at_low.last().duplicates == records::as_scored_records(found));
        }
        assert(kept.to_multiset().add(datamodels::released(at_low, high).to_multiset())
            =~= goal.to_multiset());
    }
}

/// Raising the threshold of a deduplication result gives what deduplicating at the higher
/// threshold gives: the same duplicates with the same originals in the same order, and the same
/// selected records. This holds up to the score of an exact match.
pub proof fn raising_the_threshold_is_deduplicating_anew(
    records: Seq<DictView>,
    exact: Seq<(DictView, Seq<DictView>)>,
    items: Seq<Seq<DictView>>,
    rows: Seq<Seq<Float32>>,
    columns: Option<Seq<Seq<char>>>,
    low: Float32,
    high: Float32,
)
    requires
        comparable(items, rows),
        records.len() == rows.len(),
        forall|i: int| 0 <= i < exact.len() ==> (#[trigger] exact[i]).1.len() > 0,
        high.reaches(low),
        float::float_one().reaches(high),
    ensures
        ({
            let raised = datamodels::rethresholded(
                deduplicated(records, exact, items, rows, columns, low),
                high,
            );
            let anew = deduplicated(records, exact, items, rows, columns, high);
            &&& raised.filtered == anew.filtered
            &&& raised.selected.to_multiset() == anew.selected.to_multiset()
            &&& raised.threshold == anew.threshold
            &&& raised.columns == anew.columns
        }),
{
    broadcast use group_to_multiset_ensures;

    let n = records.len() as int;
    let lows = results_of(items, rows, low);
    let first = deduplication::exact_duplicates(exact);
    let rest = deduplication::similar(records, lows, n);
    let kept = deduplication::dissimilar(records, lows, n);
    lemma_exact_stay(exact, high);
    lemma_still_filtered_concat(first, rest, high);
    lemma_similar_cut_down(records, items, rows, low, high, n);
    let gone = datamodels::released(rest, high);
    assert(datamodels::released(first + rest, high) =~= gone);
    lemma_multiset_commutative(kept, gone);
}

/// A deduplication result in dictionary records, given the similarities of the records.
pub open spec fn deduplicated(
    records: Seq<DictView>,
    exact: Seq<(DictView, Seq<DictView>)>,
    items: Seq<Seq<DictView>>,
    rows: Seq<Seq<Float32>>,
    columns: Option<Seq<Seq<char>>>,
    threshold: Float32,
) -> DeduplicationView {
    let results = results_of(items, rows, threshold);
    let n = records.len() as int;
    DeduplicationView {
        selected: deduplication::dissimilar(records, results, n),
        filtered: deduplication::exact_duplicates(exact) + deduplication::similar(
            records,
            results,
            n,
        ),
        threshold,
        columns,
    }
}

// ---------------------------------------------------------------------------------------------
// Text

proof fn lemma_stringed_retained(
    s: Seq<(RecordView, Float32)>,
    columns: Seq<Seq<char>>,
    t: Float32,
)
    ensures
        datamodels::retained(records::stringed_scored(s, columns), t) == records::stringed_scored(
            datamodels::retained(s, t),
            columns,
        ),
    decreases s.len(),
{
    let mapped = records::stringed_scored(s, columns);
    if s.len() == 0 {
        assert(mapped =~= seq![]);
        assert(records::stringed_scored(datamodels::retained(s, t), columns) =~= seq![]);
    } else {
        lemma_stringed_retained(s.drop_last(), columns, t);
        assert(mapped.drop_last() =~= records::stringed_scored(s.drop_last(), columns));
        assert(datamodels::retained(mapped, t) =~= records::stringed_scored(
            datamodels::retained(s, t),
            columns,
        ));
    }
}

spec fn stringed_duplicates(ds: Seq<DuplicateView>, columns: Seq<Seq<char>>) -> Seq<DuplicateView> {
    Seq::new(ds.len(), |i: int| records::stringed_duplicate(ds[i], columns))
}

proof fn lemma_stringed_filtered(ds: Seq<DuplicateView>, columns: Seq<Seq<char>>, t: Float32)
    ensures
        datamodels::still_filtered(stringed_duplicates(ds, columns), t) == stringed_duplicates(
            datamodels::still_filtered(ds, t),
            columns,
        ),
        datamodels::released(stringed_duplicates(ds, columns), t) == records::stringed_records(
            datamodels::released(ds, t),
            columns,
        ),
    decreases ds.len(),
{
    let mapped = stringed_duplicates(ds, columns);
    if ds.len() == 0 {
        assert(mapped =~= seq![]);
        assert(stringed_duplicates(datamodels::still_filtered(ds, t), columns) =~= seq![]);
        assert(records::stringed_records(datamodels::released(ds, t), columns) =~= seq![]);
    } else {
        lemma_stringed_filtered(ds.drop_last(), columns, t);
        assert(mapped.drop_last() =~= stringed_duplicates(ds.drop_last(), columns));
        lemma_stringed_retained(ds.last().duplicates, columns, t);
        assert(datamodels::still_filtered(mapped, t) =~= stringed_duplicates(
            datamodels::still_filtered(ds, t),
            columns,
        ));
        assert(datamodels::released(mapped, t) =~= records::stringed_records(
            datamodels::released(ds, t),
            columns,
        ));
    }
}

/// A result can be turned into text before or after its threshold is raised.
pub proof fn raising_the_threshold_of_text(
    d: DeduplicationView,
    columns: Seq<Seq<char>>,
    threshold: Float32,
)
    ensures
        datamodels::rethresholded(records::stringed_result(d, columns), threshold)
            == records::stringed_result(datamodels::rethresholded(d, threshold), columns),
{
    let s = records::stringed_result(d, columns);
    let r = datamodels::rethresholded(d, threshold);
    assert(s.filtered =~= stringed_duplicates(d.filtered, columns));
    lemma_stringed_filtered(d.filtered, columns, threshold);
    assert(records::stringed_result(r, columns).filtered =~= stringed_duplicates(
        r.filtered,
        columns,
    ));
    assert(records::stringed_result(r, columns).selected =~= s.selected
        + records::stringed_records(datamodels::released(d.filtered, threshold), columns));
}

} // verus!
