//! Laws of an instance: what holds from building it to the results that it gives.

use crate::datamodels;
use crate::datamodels::DeduplicationView;
use crate::deduplication;
use crate::deduplication_laws;
use crate::error::ErrorView;
use crate::features;
use crate::features::{Encoder, MatrixView};
use crate::float;
use crate::float::Float32;
use crate::index;
use crate::index::Backend;
use crate::record_laws;
use crate::records;
use crate::semhash;
use crate::semhash::{PendingView, SemHashView};
use crate::utils;
use crate::value::{DictView, RecordView};
use vstd::prelude::*;
use vstd::seq_lib::*;

verus! {

// ---------------------------------------------------------------------------------------------
// Building

/// Whether every record of some groups has every column.
pub open spec fn complete_items(items: Seq<Seq<DictView>>, columns: Seq<Seq<char>>) -> bool {
    forall|p: int, i: int|
        #![trigger items[p][i]]
        0 <= p < items.len() && 0 <= i < items[p].len() ==> utils::first_missing(
            items[p][i],
            columns,
        ) is None
}

/// What every instance is when it was built from records: it holds at least one group, no group is
/// empty, every record has every column, no two groups have the same key, and it keeps no ranking
/// yet.
pub open spec fn well_built(s: SemHashView) -> bool {
    &&& semhash::fitted(s)
    &&& s.items.len() > 0
    &&& forall|p: int| 0 <= p < s.items.len() ==> (#[trigger] s.items[p]).len() > 0
    &&& complete_items(s.items, s.columns)
    &&& forall|p: int, q: int|
        #![trigger s.items[p], s.items[q]]
        0 <= p < q < s.items.len() ==> utils::key_of(s.items[p][0], s.columns) != utils::key_of(
            s.items[q][0],
            s.columns,
        )
    &&& s.ranking is None
}

proof fn lemma_missing_at(records: Seq<DictView>, columns: Seq<Seq<char>>, i: int)
    requires
        records::first_missing_of(records, columns) is None,
        0 <= i < records.len(),
    ensures
        utils::first_missing(records[i], columns) is None,
    decreases records.len(),
{
    if i > 0 {
        lemma_missing_at(records.drop_first(), columns, i - 1);
    }
}

proof fn lemma_bucket_from(
    records: Seq<DictView>,
    columns: Seq<Seq<char>>,
    key: DictView,
    i: int,
)
    requires
        0 <= i < records::bucket(records, columns, key).len(),
    ensures
        records.contains(records::bucket(records, columns, key)[i]),
    decreases records.len(),
{
    let rest = records::bucket(records.drop_last(), columns, key);
    let found = records::bucket(records, columns, key)[i];
    if i < rest.len() {
        lemma_bucket_from(records.drop_last(), columns, key, i);
        let k = choose|k: int| 0 <= k < records.len() - 1 && records.drop_last()[k] == found;
        assert(records[k] == found);
    } else {
        assert(records[records.len() - 1] == found);
    }
}

proof fn lemma_groups_complete(records: Seq<DictView>, columns: Seq<Seq<char>>)
    requires
        records::first_missing_of(records, columns) is None,
    ensures
        complete_items(records::groups(records, columns), columns),
{
    let items = records::groups(records, columns);
    let keys = records::distinct(records::keys_of(records, columns));
    assert forall|p: int, i: int|
        #![trigger items[p][i]]
        0 <= p < items.len() && 0 <= i < items[p].len() implies utils::first_missing(
        items[p][i],
        columns,
    ) is None by {
        lemma_bucket_from(records, columns, keys[p], i);
        let k = choose|k: int| 0 <= k < records.len() && records[k] == items[p][i];
        lemma_missing_at(records, columns, k);
    }
}

/// What an instance that was fitted to prepared records is.
proof fn lemma_fitted(
    prepared: (Seq<DictView>, Seq<Seq<char>>, bool),
    vectors: std::result::Result<MatrixView, ErrorView>,
    backend: Backend,
)
    requires
        prepared.0.len() > 0,
        prepared.0.len() <= usize::MAX,
        records::first_missing_of(prepared.0, prepared.1) is None,
        semhash::fit_outcome(prepared, vectors, backend) is Ok,
    ensures
        ({
            let s = semhash::fit_outcome(prepared, vectors, backend)->Ok_0;
            &&& well_built(s)
            &&& record_laws::flattened(s.items).len() == prepared.0.len()
        }),
{
    let items = records::groups(prepared.0, prepared.1);
    let keys = records::keys_of(prepared.0, prepared.1);
    records::lemma_groups_nonempty(prepared.0, prepared.1);
    lemma_groups_complete(prepared.0, prepared.1);
    record_laws::groups_hold_the_records(prepared.0, prepared.1);
    records::lemma_distinct(keys);
    assert(keys.contains(keys[0]));
    assert(records::distinct(keys).len() > 0);
    lemma_distinct_shorter(keys);
    assert forall|p: int, q: int|
        #![trigger items[p], items[q]]
        0 <= p < q < items.len() implies utils::key_of(items[p][0], prepared.1) != utils::key_of(
        items[q][0],
        prepared.1,
    ) by {
        record_laws::groups_agree_by_key(prepared.0, prepared.1, p, 0, q, 0);
    }
}

proof fn lemma_distinct_shorter(s: Seq<DictView>)
    ensures
        records::distinct(s).len() <= s.len(),
    decreases s.len(),
{
    if s.len() > 0 {
        lemma_distinct_shorter(s.drop_last());
    }
}

/// Whatever the model replies, an instance that could be built from records is in order, and
/// holds all of them.
pub proof fn built_instances_are_in_order<E: Encoder + ?Sized>(
    model: &E,
    records: Seq<RecordView>,
    columns: Option<Seq<Seq<char>>>,
    backend: Backend,
    s: SemHashView,
)
    requires
        record_laws::sorted_records(records),
        records.len() <= usize::MAX,
        semhash::built(model, records, columns, backend, Ok::<SemHashView, ErrorView>(s)),
    ensures
        well_built(s),
        record_laws::flattened(s.items).len() == records.len(),
        s.was_string == (records[0] is Text),
        s.was_string ==> s.columns == seq!["text"@],
        s.backend == backend,
{
    let prepared = records::prepare_outcome(records, columns)->Ok_0;
    record_laws::prepared_records_are_complete(records, columns);
    let grouped = records::group_outcome(prepared.0, prepared.1)->Ok_0;
    assert(semhash::fit_with(
        model,
        grouped.0,
        prepared,
        backend,
        Ok::<SemHashView, ErrorView>(s),
    ));
    let vectors = choose|vectors: std::result::Result<MatrixView, ErrorView>| #[trigger]
        features::featurized(model, grouped.0, prepared.1, vectors) && Ok::<SemHashView, ErrorView>(
            s,
        ) == semhash::fit_outcome(prepared, vectors, backend);
    lemma_fitted(prepared, vectors, backend);
}

/// An instance that was built from embeddings is in order, and holds all records.
pub proof fn embedded_instances_are_in_order(
    embeddings: MatrixView,
    records: Seq<RecordView>,
    columns: Option<Seq<Seq<char>>>,
    backend: Backend,
)
    requires
        record_laws::sorted_records(records),
        records.len() <= usize::MAX,
        semhash::embedded_outcome(embeddings, records, columns, backend) is Ok,
    ensures
        ({
            let s = semhash::embedded_outcome(embeddings, records, columns, backend)->Ok_0;
            &&& well_built(s)
            &&& record_laws::flattened(s.items).len() == records.len()
            &&& s.was_string == (records[0] is Text)
            &&& s.backend == backend
        }),
{
    let prepared = records::prepare_outcome(records, columns)->Ok_0;
    record_laws::prepared_records_are_complete(records, columns);
    let keys = records::keys_of(prepared.0, prepared.1);
    lemma_fitted(
        prepared,
        Ok(semhash::rows_at(embeddings, records::first_positions(keys))),
        backend,
    );
}

// ---------------------------------------------------------------------------------------------
// Deduplication

/// The vectors of a fitted instance can be compared with each other.
pub(crate) proof fn lemma_own_queries(s: SemHashView)
    requires
        semhash::fitted(s),
        s.vectors.len() > 0,
        s.vectors[0].len() <= usize::MAX,
    ensures
        index::query_outcome(s.vectors, s.vectors) is Ok,
{
}

proof fn lemma_found_complete(
    items: Seq<Seq<DictView>>,
    row: Seq<Float32>,
    threshold: Float32,
    columns: Seq<Seq<char>>,
)
    requires
        complete_items(items, columns),
        row.len() == items.len() <= usize::MAX,
    ensures
        records::first_missing_of(
            deduplication::found_records(index::doc_scores(items, row, threshold)),
            columns,
        ) is None,
{
    let found = index::doc_scores(items, row, threshold);
    let rows = deduplication::found_records(found);
    let order = index::neighbors(row, threshold);
    index::lemma_neighbors_in(row, threshold);
    assert forall|k: int| 0 <= k < rows.len() implies utils::first_missing(
        #[trigger] rows[k],
        columns,
    ) is None by {
        let at = index::lemma_expanded_from(items, row, order, k);
        let p = order[at.0] as int;
        assert(items[p][at.1] == rows[k]);
    }
    record_laws::lemma_none_missing(rows, columns);
}

proof fn lemma_buckets_succeed(
    items: Seq<Seq<DictView>>,
    rows: MatrixView,
    threshold: Float32,
    columns: Seq<Seq<char>>,
    n: int,
)
    requires
        complete_items(items, columns),
        items.len() <= usize::MAX,
        0 <= n <= rows.len(),
        forall|q: int| 0 <= q < rows.len() ==> (#[trigger] rows[q]).len() == items.len(),
    ensures
        deduplication::with_buckets(
            items,
            deduplication_laws::results_of(items, rows, threshold),
            columns,
            n,
        ) is Ok,
    decreases n,
{
    if n > 0 {
        lemma_buckets_succeed(items, rows, threshold, columns, n - 1);
        assert(rows[n - 1].len() == items.len());
        lemma_found_complete(items, rows[n - 1], threshold, columns);
    }
}

/// Deduplicating the records of an instance that was built from records succeeds at every
/// threshold, and every record that the instance was built from is selected or filtered, once.
pub proof fn self_deduplication_keeps_records(
    s: SemHashView,
    similarities: MatrixView,
    threshold: Float32,
)
    requires
        well_built(s),
        s.vectors[0].len() <= usize::MAX,
        index::similarity_rows(s.vectors, s.vectors, similarities),
    ensures
        semhash::self_deduplicate_outcome(s, similarities, threshold) is Ok,
        ({
            let d = semhash::self_deduplicate_outcome(s, similarities, threshold)->Ok_0;
            &&& d.selected.len() + d.filtered.len() == record_laws::flattened(s.items).len()
            &&& !s.was_string ==> datamodels::records_in(d) == records::as_records(
                record_laws::flattened(s.items),
            ).to_multiset()
        }),
{
    lemma_own_queries(s);
    let results = index::threshold_outcome(
        s.vectors,
        s.items,
        s.vectors,
        similarities,
        threshold,
    )->Ok_0;
    assert(results =~= deduplication_laws::results_of(s.items, similarities, threshold));
    let n = s.items.len() as int;
    lemma_buckets_succeed(s.items, similarities, threshold, s.columns, n);
    deduplication_laws::buckets_keep_records(s.items, results, s.columns, n);
    assert(s.items.take(n) =~= s.items);
}

/// Whether a pending deduplication goes with an instance: it has an embedding for each record, in
/// the shape of the instance's vectors, and every exact duplicate has an original.
pub open spec fn pending_for(s: SemHashView, pending: PendingView) -> bool {
    &&& pending.embeddings.len() == pending.records.len()
    &&& index::query_outcome(s.vectors, pending.embeddings) is Ok
    &&& forall|i: int|
        0 <= i < pending.exact_duplicates.len() ==> (
        #[trigger] pending.exact_duplicates[i]).1.len() > 0
}

/// Whatever the model replies, a deduplication that could be prepared holds every record that was
/// passed, with an original for each exact duplicate and an embedding for each other record.
pub proof fn prepared_deduplications_hold_the_records<E: Encoder + ?Sized>(
    model: &E,
    s: SemHashView,
    records: Seq<RecordView>,
    pending: PendingView,
)
    requires
        semhash::deduplication_prepared(
            model,
            s,
            records,
            Ok::<PendingView, ErrorView>(pending),
        ),
    ensures
        pending.records.len() + pending.exact_duplicates.len() == records.len(),
        pending.embeddings.len() == pending.records.len(),
        forall|i: int|
            0 <= i < pending.exact_duplicates.len() ==> (
            #[trigger] pending.exact_duplicates[i]).1.len() > 0,
{
    let dicts = records::validate_outcome(records, s.columns, s.was_string)->Ok_0;
    let split = records::removal_outcome(dicts, s.columns, Some(s.items))->Ok_0;
    assert(semhash::pending_with(
        model,
        s.columns,
        split.0,
        split.1,
        Ok::<PendingView, ErrorView>(pending),
    ));
    record_laws::removal_keeps_records(dicts, s.columns, Some(s.items));
    assert(dicts.len() == records.len());
    let embeddings = choose|embeddings: std::result::Result<MatrixView, ErrorView>| #[trigger]
        features::featurized(model, split.0, s.columns, embeddings) && Ok::<PendingView, ErrorView>(
            pending,
        ) == semhash::pending_outcome(split.0, split.1, embeddings);
    assert(pending.embeddings.len() == split.0.len()) by {
        if split.0.len() > 0 {
            let replies = choose|replies: Seq<std::result::Result<MatrixView, ErrorView>>| #[trigger]
                features::replies_of(model, split.0, s.columns, replies) && embeddings
                    == features::features_outcome(split.0, s.columns, replies);
            assert(embeddings == features::features_outcome(split.0, s.columns, replies));
        }
    }
    assert forall|i: int| 0 <= i < pending.exact_duplicates.len() implies (
    #[trigger] pending.exact_duplicates[i]).1.len() > 0 by {
        record_laws::duplicates_share_a_key(dicts, s.columns, Some(s.items), i);
    }
}

/// What deduplicating comes to, in dictionary records and then in those of the instance.
pub(crate) proof fn lemma_deduplicated(
    s: SemHashView,
    pending: PendingView,
    similarities: MatrixView,
    threshold: Float32,
)
    requires
        well_built(s),
        pending_for(s, pending),
        index::similarity_rows(s.vectors, pending.embeddings, similarities),
    ensures
        ({
            let d = deduplication_laws::deduplicated(
                pending.records,
                pending.exact_duplicates,
                s.items,
                similarities,
                Some(s.columns),
                threshold,
            );
            semhash::deduplicate_outcome(s, pending, similarities, threshold) == Ok::<
                DeduplicationView,
                ErrorView,
            >(
                if s.was_string {
                    records::stringed_result(d, s.columns)
                } else {
                    d
                },
            )
        }),
{
    let d = deduplication_laws::deduplicated(
        pending.records,
        pending.exact_duplicates,
        s.items,
        similarities,
        Some(s.columns),
        threshold,
    );
    let results = deduplication_laws::results_of(s.items, similarities, threshold);
    if pending.records.len() == 0 {
        assert(d.filtered =~= deduplication::exact_duplicates(pending.exact_duplicates));
    } else {
        let found = index::threshold_outcome(
            s.vectors,
            s.items,
            pending.embeddings,
            similarities,
            threshold,
        )->Ok_0;
        assert(found =~= results);
    }
}

/// Deduplicating against an instance succeeds, and every record that was passed is selected or
/// filtered, once. The selected ones are those of which no similarity reaches the threshold.
pub proof fn deduplication_keeps_records(
    s: SemHashView,
    pending: PendingView,
    similarities: MatrixView,
    threshold: Float32,
)
    requires
        well_built(s),
        pending_for(s, pending),
        index::similarity_rows(s.vectors, pending.embeddings, similarities),
    ensures
        semhash::deduplicate_outcome(s, pending, similarities, threshold) is Ok,
        ({
            let d = semhash::deduplicate_outcome(s, pending, similarities, threshold)->Ok_0;
            let n = pending.records.len() as int;
            let new = deduplication_laws::out_of_reach(pending.records, similarities, threshold, n);
            &&& d.selected.len() + d.filtered.len() == pending.records.len()
                + pending.exact_duplicates.len()
            &&& d.selected == if s.was_string {
                records::stringed_records(new, s.columns)
            } else {
                new
            }
        }),
{
    let n = pending.records.len() as int;
    lemma_deduplicated(s, pending, similarities, threshold);
    let results = deduplication_laws::results_of(s.items, similarities, threshold);
    deduplication_laws::sorting_out_keeps_records(pending.records, results, n);
    deduplication_laws::selected_are_out_of_reach(
        pending.records,
        s.items,
        similarities,
        threshold,
        n,
    );
}

/// Equal collections of records are equal collections of texts.
proof fn lemma_stringed_multiset(a: Seq<RecordView>, b: Seq<RecordView>, columns: Seq<Seq<char>>)
    requires
        a.to_multiset() == b.to_multiset(),
    ensures
        records::stringed_records(a, columns).to_multiset() == records::stringed_records(
            b,
            columns,
        ).to_multiset(),
    decreases a.len(),
{
    broadcast use group_to_multiset_ensures;

    let ta = records::stringed_records(a, columns);
    let tb = records::stringed_records(b, columns);
    assert(a.len() == a.to_multiset().len());
    assert(b.len() == b.to_multiset().len());
    if a.len() == 0 {
        assert(ta =~= tb);
    } else {
        let x = a.last();
        let init = a.drop_last();
        assert(a.contains(a[a.len() - 1]));
        assert(b.to_multiset().count(x) > 0);
        assert(b.contains(x));
        let k = choose|k: int| 0 <= k < b.len() && b[k] == x;
        let rest = b.remove(k);
        assert(init.push(x) =~= a);
        assert(init.to_multiset() =~= rest.to_multiset());
        lemma_stringed_multiset(init, rest, columns);
        let y = records::stringed(x, columns);
        assert(ta =~= records::stringed_records(init, columns).push(y));
        assert(tb.remove(k) =~= records::stringed_records(rest, columns));
        assert(tb.contains(tb[k]));
        assert(tb.to_multiset().count(y) > 0);
        assert(tb.to_multiset() =~= records::stringed_records(rest, columns).to_multiset().insert(
            y,
        ));
    }
}

/// Raising the threshold of a deduplication result gives what deduplicating the same records at
/// the higher threshold gives, up to the order of the selected records. This holds up to the score
/// of an exact match.
pub proof fn rethresholding_agrees_with_deduplicating(
    s: SemHashView,
    pending: PendingView,
    similarities: MatrixView,
    low: Float32,
    high: Float32,
)
    requires
        well_built(s),
        pending_for(s, pending),
        index::similarity_rows(s.vectors, pending.embeddings, similarities),
        high.reaches(low),
        float::float_one().reaches(high),
    ensures
        ({
            let at_low = semhash::deduplicate_outcome(s, pending, similarities, low);
            let at_high = semhash::deduplicate_outcome(s, pending, similarities, high);
            let raised = datamodels::rethresholded(at_low->Ok_0, high);
            &&& at_low is Ok && at_high is Ok
            &&& raised.filtered == at_high->Ok_0.filtered
            &&& raised.selected.to_multiset() == at_high->Ok_0.selected.to_multiset()
            &&& raised.threshold == at_high->Ok_0.threshold
            &&& raised.columns == at_high->Ok_0.columns
        }),
{
    let columns = Some(s.columns);
    let exact = pending.exact_duplicates;
    lemma_deduplicated(s, pending, similarities, low);
    lemma_deduplicated(s, pending, similarities, high);
    deduplication_laws::raising_the_threshold_is_deduplicating_anew(
        pending.records,
        exact,
        s.items,
        similarities,
        columns,
        low,
        high,
    );
    if s.was_string {
        let d = deduplication_laws::deduplicated(
            pending.records,
            exact,
            s.items,
            similarities,
            columns,
            low,
        );
        let e = deduplication_laws::deduplicated(
            pending.records,
            exact,
            s.items,
            similarities,
            columns,
            high,
        );
        let raised = datamodels::rethresholded(d, high);
        deduplication_laws::raising_the_threshold_of_text(d, s.columns, high);
        lemma_stringed_multiset(raised.selected, e.selected, s.columns);
    }
}

// ---------------------------------------------------------------------------------------------
// Rankings

/// A ranking that an instance keeps is returned from then on, whatever the scores.
pub proof fn kept_ranking_is_returned(s: SemHashView, scores: Seq<Float32>, later: Seq<Float32>)
    ensures
        semhash::self_ranking(
            semhash::keeping(s, semhash::self_ranking(s, scores)),
            later,
        ) == semhash::self_ranking(s, scores),
{
}

/// Keeping a ranking leaves an instance in order.
pub proof fn keeping_a_ranking_is_harmless(s: SemHashView, scores: Seq<Float32>)
    requires
        semhash::fitted(s),
    ensures
        semhash::fitted(semhash::keeping(s, semhash::self_ranking(s, scores))),
{
}

} // verus!
