//! Laws of what an instance answers, in terms of the records that it was given and of their
//! similarities.

use crate::datamodels;
use crate::datamodels::DuplicateView;
use crate::deduplication;
use crate::deduplication_laws;
use crate::error::ErrorView;
use crate::features;
use crate::features::{Encoder, MatrixView};
use crate::float::Float32;
use crate::grouping_laws;
use crate::index;
use crate::index::Backend;
use crate::record_laws;
use crate::records;
use crate::self_deduplication_laws;
use crate::semhash;
use crate::semhash::{PendingView, SemHashView};
use crate::semhash_laws;
use crate::sublists;
use crate::utils;
use crate::value::{DictView, RecordView};
use vstd::prelude::*;

verus! {

// ---------------------------------------------------------------------------------------------
// Building

/// Whether every record of a group has the key of its first.
pub open spec fn keyed_items(items: Seq<Seq<DictView>>, columns: Seq<Seq<char>>) -> bool {
    forall|p: int, i: int|
        #![trigger items[p][i]]
        0 <= p < items.len() && 0 <= i < items[p].len() ==> utils::key_of(items[p][i], columns)
            == utils::key_of(items[p][0], columns)
}

/// Whether an instance holds the groups of some rows: every row in one group with all that have its
/// key, the groups in the order of their first rows, which stand at the given places.
pub open spec fn holds_groups_of(s: SemHashView, rows: Seq<DictView>, firsts: Seq<int>) -> bool {
    &&& firsts.len() == s.items.len()
    &&& forall|p: int|
        0 <= p < firsts.len() ==> 0 <= (#[trigger] firsts[p]) < rows.len() && s.items[p]
            == grouping_laws::with_key_of(rows, s.columns, firsts[p])
    &&& forall|p: int, i: int|
        #![trigger firsts[p], rows[i]]
        0 <= p < firsts.len() && 0 <= i < firsts[p] ==> utils::key_of(rows[i], s.columns)
            != utils::key_of(rows[firsts[p]], s.columns)
    &&& forall|p: int, q: int|
        #![trigger firsts[p], firsts[q]]
        0 <= p < q < firsts.len() ==> firsts[p] < firsts[q]
    &&& forall|i: int|
        #![trigger rows[i]]
        0 <= i < rows.len() ==> exists|p: int|
            0 <= p < firsts.len() && utils::key_of(rows[#[trigger] firsts[p]], s.columns)
                == utils::key_of(rows[i], s.columns)
}

proof fn lemma_keyed(s: SemHashView, rows: Seq<DictView>, firsts: Seq<int>)
    requires
        holds_groups_of(s, rows, firsts),
    ensures
        keyed_items(s.items, s.columns),
{
    assert forall|p: int, i: int|
        #![trigger s.items[p][i]]
        0 <= p < s.items.len() && 0 <= i < s.items[p].len() implies utils::key_of(
        s.items[p][i],
        s.columns,
    ) == utils::key_of(s.items[p][0], s.columns) by {
        let at = firsts[p];
        let keep = |k: int|
            utils::key_of(rows[k], s.columns) == utils::key_of(rows[at], s.columns);
        assert(s.items[p] == sublists::those(rows, keep));
        let places = sublists::those_are_the_kept(rows, keep);
        assert(keep(places[i]) && keep(places[0]));
    }
}

proof fn lemma_holds_groups(s: SemHashView, rows: Seq<DictView>) -> (firsts: Seq<int>)
    requires
        rows.len() <= usize::MAX,
        s.items == records::groups(rows, s.columns),
    ensures
        holds_groups_of(s, rows, firsts),
        keyed_items(s.items, s.columns),
        records::heads(s.items) == firsts.map_values(|i: int| rows[i]),
        records::first_positions(records::keys_of(rows, s.columns)) == firsts.map_values(
            |i: int| i as usize,
        ),
{
    let firsts = grouping_laws::groups_are_the_records_by_key(rows, s.columns);
    assert(records::heads(s.items) =~= firsts.map_values(|i: int| rows[i]));
    assert(records::first_positions(records::keys_of(rows, s.columns)) =~= firsts.map_values(
        |i: int| i as usize,
    ));
    lemma_keyed(s, rows, firsts);
    firsts
}

/// An instance that was built from records holds the groups of what the records become, and the
/// vector of each group is what the model makes of its first record.
pub proof fn instances_hold_the_groups<E: Encoder + ?Sized>(
    model: &E,
    records: Seq<RecordView>,
    columns: Option<Seq<Seq<char>>>,
    backend: Backend,
    s: SemHashView,
) -> (firsts: Seq<int>)
    requires
        records.len() <= usize::MAX,
        semhash::built(model, records, columns, backend, Ok::<SemHashView, ErrorView>(s)),
    ensures
        records::prepare_outcome(records, columns) is Ok,
        ({
            let (rows, names, was_string) = records::prepare_outcome(records, columns)->Ok_0;
            &&& rows.len() == records.len()
            &&& s.columns == names
            &&& s.was_string == was_string
            &&& s.backend == backend
            &&& s.ranking is None
            &&& holds_groups_of(s, rows, firsts)
            &&& s.vectors.len() == s.items.len()
            &&& features::featurized(
                model,
                firsts.map_values(|i: int| rows[i]),
                names,
                Ok::<MatrixView, ErrorView>(s.vectors),
            )
        }),
        keyed_items(s.items, s.columns),
{
    let prepared = records::prepare_outcome(records, columns)->Ok_0;
    let rows = prepared.0;
    grouping_laws::what_prepared_records_are(records, columns);
    let grouped = records::group_outcome(rows, prepared.1)->Ok_0;
    assert(semhash::fit_with(
        model,
        grouped.0,
        prepared,
        backend,
        Ok::<SemHashView, ErrorView>(s),
    ));
    let vectors = choose|vectors: std::result::Result<MatrixView, ErrorView>| #[trigger]
        features::featurized(model, grouped.0, prepared.1, vectors) && Ok::<SemHashView, ErrorView>(
            s,
        ) == semhash::fit_outcome(prepared, vectors, backend);
    let firsts = lemma_holds_groups(s, rows);
    assert(vectors == Ok::<MatrixView, ErrorView>(s.vectors));
    firsts
}

proof fn lemma_rows_at(m: MatrixView, places: Seq<int>)
    requires
        forall|p: int| 0 <= p < places.len() ==> 0 <= #[trigger] places[p] <= usize::MAX,
    ensures
        semhash::rows_at(m, places.map_values(|i: int| i as usize)) == places.map_values(
            |i: int| m[i],
        ),
{
    assert(semhash::rows_at(m, places.map_values(|i: int| i as usize)) =~= places.map_values(
        |i: int| m[i],
    ));
}

/// An instance that was built from embeddings holds the groups of what the records become, and the
/// vector of each group is the embedding of its first record.
pub proof fn embedded_instances_hold_the_groups(
    embeddings: MatrixView,
    records: Seq<RecordView>,
    columns: Option<Seq<Seq<char>>>,
    backend: Backend,
) -> (firsts: Seq<int>)
    requires
        records.len() <= usize::MAX,
        semhash::embedded_outcome(embeddings, records, columns, backend) is Ok,
    ensures
        records::prepare_outcome(records, columns) is Ok,
        ({
            let s = semhash::embedded_outcome(embeddings, records, columns, backend)->Ok_0;
            let (rows, names, was_string) = records::prepare_outcome(records, columns)->Ok_0;
            &&& rows.len() == records.len() == embeddings.len()
            &&& s.columns == names
            &&& s.was_string == was_string
            &&& s.backend == backend
            &&& s.ranking is None
            &&& holds_groups_of(s, rows, firsts)
            &&& s.vectors == firsts.map_values(|i: int| embeddings[i])
            &&& keyed_items(s.items, s.columns)
        }),
{
    let s = semhash::embedded_outcome(embeddings, records, columns, backend)->Ok_0;
    let prepared = records::prepare_outcome(records, columns)->Ok_0;
    let rows = prepared.0;
    grouping_laws::what_prepared_records_are(records, columns);
    let firsts = lemma_holds_groups(s, rows);
    lemma_rows_at(embeddings, firsts);
    firsts
}

// ---------------------------------------------------------------------------------------------
// Records against an instance

/// A record as an instance shows it: as text where the instance was built from text.
pub open spec fn shown(s: SemHashView, d: DictView) -> RecordView {
    if s.was_string {
        RecordView::Text(utils::dict_text(d, s.columns))
    } else {
        RecordView::Dict(d)
    }
}

/// Scored records as an instance shows them.
pub open spec fn shown_found(s: SemHashView, found: Seq<(DictView, Float32)>) -> Seq<
    (RecordView, Float32),
> {
    found.map_values(|f: (DictView, Float32)| (shown(s, f.0), f.1))
}

/// Records as an instance shows them, each with the score one.
pub open spec fn shown_in_full(s: SemHashView, originals: Seq<DictView>) -> Seq<
    (RecordView, Float32),
> {
    originals.map_values(|d: DictView| (shown(s, d), Float32 { bits: 0x3f80_0000 }))
}

/// The reports of exact duplicates.
pub open spec fn exact_reports(s: SemHashView, exact: Seq<(DictView, Seq<DictView>)>) -> Seq<
    DuplicateView,
> {
    exact.map_values(
        |e: (DictView, Seq<DictView>)|
            DuplicateView {
                record: shown(s, e.0),
                exact: true,
                duplicates: shown_in_full(s, e.1),
            },
    )
}

/// The reports of records that are similar to what the instance holds: one for each, to choose from.
pub open spec fn similar_reports(
    s: SemHashView,
    records: Seq<DictView>,
    similarities: MatrixView,
    threshold: Float32,
) -> Seq<DuplicateView> {
    Seq::new(
        records.len(),
        |q: int|
            DuplicateView {
                record: shown(s, records[q]),
                exact: false,
                duplicates: shown_found(
                    s,
                    index::doc_scores(s.items, similarities[q], threshold),
                ),
            },
    )
}

proof fn lemma_dissimilar(
    records: Seq<DictView>,
    items: Seq<Seq<DictView>>,
    rows: MatrixView,
    threshold: Float32,
    n: int,
)
    requires
        deduplication_laws::comparable(items, rows),
        0 <= n <= rows.len(),
        n <= records.len(),
    ensures
        ({
            let results = deduplication_laws::results_of(items, rows, threshold);
            let near = |q: int| deduplication_laws::reaches_any(rows[q], threshold);
            let far = |q: int| !deduplication_laws::reaches_any(rows[q], threshold);
            &&& deduplication::dissimilar(records, results, n) == sublists::those(
                Seq::new(n as nat, |q: int| RecordView::Dict(records[q])),
                far,
            )
            &&& deduplication::similar(records, results, n) == sublists::those(
                Seq::new(
                    n as nat,
                    |q: int|
                        DuplicateView {
                            record: RecordView::Dict(records[q]),
                            exact: false,
                            duplicates: records::as_scored_records(results[q]),
                        },
                ),
                near,
            )
        }),
    decreases n,
{
    let results = deduplication_laws::results_of(items, rows, threshold);
    let near = |q: int| deduplication_laws::reaches_any(rows[q], threshold);
    let far = |q: int| !deduplication_laws::reaches_any(rows[q], threshold);
    let plain = Seq::new(n as nat, |q: int| RecordView::Dict(records[q]));
    let reports = Seq::new(
        n as nat,
        |q: int|
            DuplicateView {
                record: RecordView::Dict(records[q]),
                exact: false,
                duplicates: records::as_scored_records(results[q]),
            },
    );
    if n > 0 {
        lemma_dissimilar(records, items, rows, threshold, n - 1);
        let init_plain = Seq::new((n - 1) as nat, |q: int| RecordView::Dict(records[q]));
        let init_reports = Seq::new(
            (n - 1) as nat,
            |q: int|
                DuplicateView {
                    record: RecordView::Dict(records[q]),
                    exact: false,
                    duplicates: records::as_scored_records(results[q]),
                },
        );
        assert(plain.drop_last() =~= init_plain);
        assert(reports.drop_last() =~= init_reports);
        assert(rows[n - 1].len() == items.len());
        index::nothing_found_iff_none_reaches(items, rows[n - 1], threshold);
        assert(far(n - 1) == (results[n - 1].len() == 0));
        assert(near(n - 1) == (results[n - 1].len() != 0));
    }
    assert(deduplication::dissimilar(records, results, n) =~= sublists::those(plain, far));
    assert(deduplication::similar(records, results, n) =~= sublists::those(reports, near));
}

/// What deduplicating records against an instance reports: records of which no similarity reaches the
/// threshold are selected, in order; the exact duplicates come first among the filtered, marked as
/// exact and with the score one for each record of their group; then the other records, in order and
/// not marked as exact, with what their queries found.
pub proof fn what_deduplication_reports(
    s: SemHashView,
    pending: PendingView,
    similarities: MatrixView,
    threshold: Float32,
)
    requires
        semhash_laws::well_built(s),
        semhash_laws::pending_for(s, pending),
        index::similarity_rows(s.vectors, pending.embeddings, similarities),
    ensures
        semhash::deduplicate_outcome(s, pending, similarities, threshold) is Ok,
        ({
            let d = semhash::deduplicate_outcome(s, pending, similarities, threshold)->Ok_0;
            &&& d.selected == sublists::those(
                pending.records.map_values(|r: DictView| shown(s, r)),
                |q: int| !deduplication_laws::reaches_any(similarities[q], threshold),
            )
            &&& d.filtered == exact_reports(s, pending.exact_duplicates) + sublists::those(
                similar_reports(s, pending.records, similarities, threshold),
                |q: int| deduplication_laws::reaches_any(similarities[q], threshold),
            )
            &&& d.threshold == threshold
            &&& d.columns == Some(s.columns)
        }),
{
    semhash_laws::lemma_deduplicated(s, pending, similarities, threshold);
    let n = pending.records.len() as int;
    let items = s.items;
    let results = deduplication_laws::results_of(items, similarities, threshold);
    let near = |q: int| deduplication_laws::reaches_any(similarities[q], threshold);
    let far = |q: int| !deduplication_laws::reaches_any(similarities[q], threshold);
    lemma_dissimilar(pending.records, items, similarities, threshold, n);
    let plain = deduplication_laws::deduplicated(
        pending.records,
        pending.exact_duplicates,
        items,
        similarities,
        Some(s.columns),
        threshold,
    );
    let d = semhash::deduplicate_outcome(s, pending, similarities, threshold)->Ok_0;
    let as_dicts = Seq::new(n as nat, |q: int| RecordView::Dict(pending.records[q]));
    let reports = Seq::new(
        n as nat,
        |q: int|
            DuplicateView {
                record: RecordView::Dict(pending.records[q]),
                exact: false,
                duplicates: records::as_scored_records(results[q]),
            },
    );
    let shown_records = pending.records.map_values(|r: DictView| shown(s, r));
    let shown_similar = similar_reports(s, pending.records, similarities, threshold);
    let exact = deduplication::exact_duplicates(pending.exact_duplicates);
    if s.was_string {
        let as_text = |r: RecordView| records::stringed(r, s.columns);
        let as_text_report = |r: DuplicateView| records::stringed_duplicate(r, s.columns);
        sublists::lemma_those_mapped(as_dicts, far, as_text);
        sublists::lemma_those_mapped(reports, near, as_text_report);
        assert(as_dicts.map_values(as_text) =~= shown_records);
        assert(d.selected =~= sublists::those(as_dicts, far).map_values(as_text));
        assert forall|q: int| 0 <= q < n implies reports.map_values(as_text_report)[q]
            == shown_similar[q] by {
            lemma_shown_found(s, results[q]);
        }
        assert(reports.map_values(as_text_report) =~= shown_similar);
        assert(exact.map_values(as_text_report) =~= exact_reports(s, pending.exact_duplicates)) by {
            assert forall|i: int| 0 <= i < exact.len() implies exact.map_values(as_text_report)[i]
                == exact_reports(s, pending.exact_duplicates)[i] by {
                lemma_shown_in_full(s, pending.exact_duplicates[i].1);
            }
        }
        assert(d.filtered =~= plain.filtered.map_values(as_text_report));
        assert(d.filtered =~= exact.map_values(as_text_report) + sublists::those(
            reports,
            near,
        ).map_values(as_text_report));
    } else {
        assert(as_dicts =~= shown_records);
        assert forall|q: int| 0 <= q < n implies reports[q] == shown_similar[q] by {
            lemma_shown_found(s, results[q]);
        }
        assert(reports =~= shown_similar);
        assert(exact =~= exact_reports(s, pending.exact_duplicates)) by {
            assert forall|i: int| 0 <= i < exact.len() implies exact[i] == exact_reports(
                s,
                pending.exact_duplicates,
            )[i] by {
                lemma_shown_in_full(s, pending.exact_duplicates[i].1);
            }
        }
    }
}

proof fn lemma_shown_found(s: SemHashView, found: Seq<(DictView, Float32)>)
    ensures
        s.was_string ==> records::stringed_scored(records::as_scored_records(found), s.columns)
            == shown_found(s, found),
        !s.was_string ==> records::as_scored_records(found) == shown_found(s, found),
{
    if s.was_string {
        assert(records::stringed_scored(records::as_scored_records(found), s.columns)
            =~= shown_found(s, found));
    } else {
        assert(records::as_scored_records(found) =~= shown_found(s, found));
    }
}

proof fn lemma_shown_in_full(s: SemHashView, originals: Seq<DictView>)
    ensures
        s.was_string ==> records::stringed_scored(
            records::as_scored_records(records::fully_scored(originals)),
            s.columns,
        ) == shown_in_full(s, originals),
        !s.was_string ==> records::as_scored_records(records::fully_scored(originals))
            == shown_in_full(s, originals),
{
    if s.was_string {
        assert(records::stringed_scored(
            records::as_scored_records(records::fully_scored(originals)),
            s.columns,
        ) =~= shown_in_full(s, originals));
    } else {
        assert(records::as_scored_records(records::fully_scored(originals)) =~= shown_in_full(
            s,
            originals,
        ));
    }
}

/// What preparing a deduplication makes of the records: those whose key an instance holds are exact
/// duplicates, of the whole group that has their key, and the others are encoded, in order.
pub proof fn what_a_deduplication_prepares<E: Encoder + ?Sized>(
    model: &E,
    s: SemHashView,
    records: Seq<RecordView>,
    pending: PendingView,
)
    requires
        semhash::deduplication_prepared(
            model,
            s,
            records,
            Ok::<PendingView, ErrorView>(pending),
        ),
    ensures
        records::validate_outcome(records, s.columns, s.was_string) is Ok,
        ({
            let rows = records::validate_outcome(records, s.columns, s.was_string)->Ok_0;
            let exact = pending.exact_duplicates;
            &&& rows.len() == records.len()
            &&& pending.records == sublists::those(
                rows,
                |i: int|
                    !grouping_laws::known(
                        s.items,
                        s.columns,
                        utils::key_of(rows[i], s.columns),
                    ),
            )
            &&& exact.map_values(|e: (DictView, Seq<DictView>)| e.0) == sublists::those(
                rows,
                |i: int|
                    grouping_laws::known(
                        s.items,
                        s.columns,
                        utils::key_of(rows[i], s.columns),
                    ),
            )
            &&& forall|m: int|
                0 <= m < exact.len() ==> grouping_laws::originals_are(
                    s.items,
                    s.columns,
                    #[trigger] exact[m],
                )
            &&& features::featurized(
                model,
                pending.records,
                s.columns,
                Ok::<MatrixView, ErrorView>(pending.embeddings),
            )
        }),
{
    let rows = records::validate_outcome(records, s.columns, s.was_string)->Ok_0;
    let split = records::removal_outcome(rows, s.columns, Some(s.items))->Ok_0;
    grouping_laws::what_validated_records_are(records, s.columns, s.was_string);
    assert(semhash::pending_with(
        model,
        s.columns,
        split.0,
        split.1,
        Ok::<PendingView, ErrorView>(pending),
    ));
    let embeddings = choose|embeddings: std::result::Result<MatrixView, ErrorView>| #[trigger]
        features::featurized(model, split.0, s.columns, embeddings) && Ok::<PendingView, ErrorView>(
            pending,
        ) == semhash::pending_outcome(split.0, split.1, embeddings);
    assert(embeddings == Ok::<MatrixView, ErrorView>(pending.embeddings));
    grouping_laws::duplicates_are_the_known(rows, s.columns, s.items);
    assert(pending.exact_duplicates.map_values(|e: (DictView, Seq<DictView>)| e.0)
        =~= record_laws::matched_records(split.1));
}

/// Whether a record of an instance has a key.
pub open spec fn holds_key(s: SemHashView, key: DictView) -> bool {
    exists|p: int, i: int|
        #![trigger s.items[p][i]]
        0 <= p < s.items.len() && 0 <= i < s.items[p].len() && utils::key_of(
            s.items[p][i],
            s.columns,
        ) == key
}

/// How many duplicates are marked as exact.
pub open spec fn marked_exact(filtered: Seq<DuplicateView>) -> nat {
    filtered.filter(|d: DuplicateView| d.exact).len()
}

proof fn lemma_known_iff_held(s: SemHashView, key: DictView)
    requires
        semhash_laws::well_built(s),
        keyed_items(s.items, s.columns),
    ensures
        grouping_laws::known(s.items, s.columns, key) <==> holds_key(s, key),
{
    if grouping_laws::known(s.items, s.columns, key) {
        let p = choose|p: int|
            0 <= p < s.items.len() && (#[trigger] s.items[p]).len() > 0 && utils::key_of(
                s.items[p][0],
                s.columns,
            ) == key;
        assert(utils::key_of(s.items[p][0], s.columns) == key);
    }
    if holds_key(s, key) {
        let (p, i) = choose|p: int, i: int|
            #![trigger s.items[p][i]]
            0 <= p < s.items.len() && 0 <= i < s.items[p].len() && utils::key_of(
                s.items[p][i],
                s.columns,
            ) == key;
        assert(s.items[p].len() > 0);
    }
}

/// A filtered record is marked as exact exactly if the instance holds a record with its key, and as
/// many are marked so as were told apart when the deduplication was prepared. What is not marked, or
/// is selected, has a key that the instance does not hold.
pub proof fn exact_marks_are_for_held_keys<E: Encoder + ?Sized>(
    model: &E,
    s: SemHashView,
    records: Seq<RecordView>,
    pending: PendingView,
    similarities: MatrixView,
    threshold: Float32,
)
    requires
        semhash_laws::well_built(s),
        keyed_items(s.items, s.columns),
        semhash::deduplication_prepared(
            model,
            s,
            records,
            Ok::<PendingView, ErrorView>(pending),
        ),
        semhash_laws::pending_for(s, pending),
        index::similarity_rows(s.vectors, pending.embeddings, similarities),
    ensures
        ({
            let d = semhash::deduplicate_outcome(s, pending, similarities, threshold)->Ok_0;
            let rows = records::validate_outcome(records, s.columns, s.was_string)->Ok_0;
            &&& marked_exact(d.filtered) == pending.exact_duplicates.len()
            &&& marked_exact(d.filtered) == sublists::those(
                rows,
                |i: int| holds_key(s, utils::key_of(rows[i], s.columns)),
            ).len()
            &&& forall|f: int|
                #![trigger d.filtered[f]]
                0 <= f < d.filtered.len() ==> exists|i: int|
                    0 <= i < rows.len() && d.filtered[f].record == shown(s, #[trigger] rows[i])
                        && d.filtered[f].exact == holds_key(s, utils::key_of(rows[i], s.columns))
            &&& forall|k: int|
                #![trigger d.selected[k]]
                0 <= k < d.selected.len() ==> exists|i: int|
                    0 <= i < rows.len() && d.selected[k] == shown(s, #[trigger] rows[i])
                        && !holds_key(s, utils::key_of(rows[i], s.columns))
        }),
{
    what_deduplication_reports(s, pending, similarities, threshold);
    what_a_deduplication_prepares(model, s, records, pending);
    let d = semhash::deduplicate_outcome(s, pending, similarities, threshold)->Ok_0;
    let rows = records::validate_outcome(records, s.columns, s.was_string)->Ok_0;
    let exact = pending.exact_duplicates;
    let n = pending.records.len();
    let is_known = |i: int|
        grouping_laws::known(s.items, s.columns, utils::key_of(rows[i], s.columns));
    let is_new = |i: int|
        !grouping_laws::known(s.items, s.columns, utils::key_of(rows[i], s.columns));
    let held = |i: int| holds_key(s, utils::key_of(rows[i], s.columns));
    assert forall|i: int| 0 <= i < rows.len() implies #[trigger] is_known(i) == held(i) by {
        lemma_known_iff_held(s, utils::key_of(rows[i], s.columns));
    }
    sublists::lemma_those_agree(rows, is_known, held);
    let names = exact.map_values(|e: (DictView, Seq<DictView>)| e.0);
    assert(names.len() == exact.len());
    let known_places = sublists::those_are_the_kept(rows, is_known);
    let new_places = sublists::those_are_the_kept(rows, is_new);
    let near = |q: int| deduplication_laws::reaches_any(similarities[q], threshold);
    let far = |q: int| !deduplication_laws::reaches_any(similarities[q], threshold);
    let reports = similar_reports(s, pending.records, similarities, threshold);
    let near_places = sublists::those_are_the_kept(reports, near);
    let first = exact_reports(s, exact);
    let rest = sublists::those(reports, near);
    assert forall|f: int|
        #![trigger d.filtered[f]]
        0 <= f < d.filtered.len() implies exists|i: int|
        0 <= i < rows.len() && d.filtered[f].record == shown(s, #[trigger] rows[i])
            && d.filtered[f].exact == holds_key(s, utils::key_of(rows[i], s.columns)) by {
        if f < first.len() {
            let i = known_places[f];
            assert(names[f] == rows[i]);
            assert(is_known(i) == held(i));
            assert(d.filtered[f] == first[f]);
        } else {
            let q = near_places[f - first.len()];
            assert(d.filtered[f] == rest[f - first.len()]);
            assert(rest[f - first.len()] == reports[q]);
            let i = new_places[q];
            assert(pending.records[q] == rows[i]);
            assert(is_new(i) && is_known(i) == held(i));
        }
    }
    let shown_records = pending.records.map_values(|r: DictView| shown(s, r));
    let far_places = sublists::those_are_the_kept(shown_records, far);
    assert forall|k: int|
        #![trigger d.selected[k]]
        0 <= k < d.selected.len() implies exists|i: int|
        0 <= i < rows.len() && d.selected[k] == shown(s, #[trigger] rows[i]) && !holds_key(
            s,
            utils::key_of(rows[i], s.columns),
        ) by {
        let q = far_places[k];
        assert(d.selected[k] == shown_records[q]);
        let i = new_places[q];
        assert(pending.records[q] == rows[i]);
        assert(is_new(i) && is_known(i) == held(i));
    }
    assert forall|i: int| 0 <= i < rest.len() implies !(#[trigger] rest[i]).exact by {
        assert(rest[i] == reports[near_places[i]]);
    }
    lemma_marked_exact(first, rest);
}

/// Marks count as they come: all of a first part, and none of the rest.
proof fn lemma_marked_exact(first: Seq<DuplicateView>, rest: Seq<DuplicateView>)
    requires
        forall|i: int| 0 <= i < first.len() ==> (#[trigger] first[i]).exact,
        forall|i: int| 0 <= i < rest.len() ==> !(#[trigger] rest[i]).exact,
    ensures
        marked_exact(first + rest) == first.len(),
    decreases first.len() + rest.len(),
{
    reveal(Seq::filter);
    let all = first + rest;
    if rest.len() > 0 {
        let init = rest.drop_last();
        assert forall|i: int| 0 <= i < init.len() implies !(#[trigger] init[i]).exact by {
            assert(init[i] == rest[i]);
        }
        lemma_marked_exact(first, init);
        assert(all.drop_last() =~= first + init);
        assert(!rest[rest.len() - 1].exact);
        assert(all.last() == rest[rest.len() - 1]);
    } else if first.len() > 0 {
        let init = first.drop_last();
        assert forall|i: int| 0 <= i < init.len() implies (#[trigger] init[i]).exact by {
            assert(init[i] == first[i]);
        }
        lemma_marked_exact(init, rest);
        assert(all.drop_last() =~= init + rest);
        assert(first[first.len() - 1].exact);
        assert(all.last() == first[first.len() - 1]);
    }
}

/// The number of exact duplicates of a result is the number of those that are marked so.
pub proof fn exact_duplicates_are_counted(filtered: Seq<DuplicateView>)
    ensures
        datamodels::exact_count(filtered) == marked_exact(filtered),
    decreases filtered.len(),
{
    reveal(Seq::filter);
    if filtered.len() > 0 {
        exact_duplicates_are_counted(filtered.drop_last());
    }
}

// ---------------------------------------------------------------------------------------------
// The records of an instance against each other

/// A report as an instance shows it.
pub open spec fn shown_report(s: SemHashView, r: DuplicateView) -> DuplicateView {
    if s.was_string {
        records::stringed_duplicate(r, s.columns)
    } else {
        r
    }
}

/// What deduplicating the records of an instance among themselves reports: of the groups, those that
/// found nothing which an earlier group that stays had found too keep their first record, and every
/// other record is reported, group by group.
pub proof fn what_self_deduplication_reports(
    s: SemHashView,
    similarities: MatrixView,
    threshold: Float32,
    kept: Seq<bool>,
)
    requires
        semhash_laws::well_built(s),
        s.vectors[0].len() <= usize::MAX,
        index::similarity_rows(s.vectors, s.vectors, similarities),
        kept.len() == s.items.len(),
        self_deduplication_laws::one_of_each_cluster(
            kept,
            s.items,
            deduplication_laws::results_of(s.items, similarities, threshold),
            s.columns,
        ),
    ensures
        semhash::self_deduplicate_outcome(s, similarities, threshold) is Ok,
        ({
            let d = semhash::self_deduplicate_outcome(s, similarities, threshold)->Ok_0;
            &&& d.selected == sublists::those(
                s.items.map_values(|item: Seq<DictView>| shown(s, item[0])),
                |i: int| kept[i],
            )
            &&& d.filtered == self_deduplication_laws::group_reports(
                s.items,
                deduplication_laws::results_of(s.items, similarities, threshold),
                kept,
                kept.len() as int,
            ).map_values(|r: DuplicateView| shown_report(s, r))
            &&& d.threshold == threshold
            &&& d.columns == Some(s.columns)
        }),
{
    semhash_laws::self_deduplication_keeps_records(s, similarities, threshold);
    semhash_laws::lemma_own_queries(s);
    let results = deduplication_laws::results_of(s.items, similarities, threshold);
    let found = index::threshold_outcome(
        s.vectors,
        s.items,
        s.vectors,
        similarities,
        threshold,
    )->Ok_0;
    assert(found =~= results);
    let n = kept.len() as int;
    self_deduplication_laws::one_record_of_each_cluster_stays(s.items, results, s.columns, kept);
    let p = deduplication::with_buckets(s.items, results, s.columns, n)->Ok_0;
    let d = semhash::self_deduplicate_outcome(s, similarities, threshold)->Ok_0;
    let firsts = self_deduplication_laws::first_of_each(s.items, n);
    let keep = |i: int| kept[i];
    let shown_firsts = s.items.map_values(|item: Seq<DictView>| shown(s, item[0]));
    let show = |r: DuplicateView| shown_report(s, r);
    let reports = self_deduplication_laws::group_reports(s.items, results, kept, n);
    if s.was_string {
        let as_text = |r: RecordView| records::stringed(r, s.columns);
        sublists::lemma_those_mapped(firsts, keep, as_text);
        assert(firsts.map_values(as_text) =~= shown_firsts);
        assert(d.selected =~= p.selected.map_values(as_text));
        assert(d.filtered =~= reports.map_values(show));
    } else {
        assert(firsts =~= shown_firsts);
        assert(d.filtered =~= reports.map_values(show));
    }
}

/// Whether a group is similar to what an earlier group that stays is similar to.
pub open spec fn reaches_with_earlier(
    kept: Seq<bool>,
    similarities: MatrixView,
    threshold: Float32,
    i: int,
) -> bool {
    exists|j: int, g: int|
        #![trigger kept[j], similarities[j][g]]
        0 <= j < i && kept[j] && 0 <= g < similarities[j].len() && similarities[j][g].reaches(
            threshold,
        ) && similarities[i][g].reaches(threshold)
}

/// How many similarities of a row reach a threshold.
pub open spec fn reach_count(row: Seq<Float32>, threshold: Float32) -> nat {
    row.filter(|x: Float32| x.reaches(threshold)).len()
}

proof fn lemma_reach_count(row: Seq<Float32>, threshold: Float32)
    ensures
        index::reaching(row, threshold).len() == reach_count(row, threshold),
    decreases row.len(),
{
    reveal(Seq::filter);
    if row.len() > 0 {
        lemma_reach_count(row.drop_last(), threshold);
    }
}

/// Two groups share a find exactly if both are similar to some group.
proof fn lemma_share_by_similarity(
    s: SemHashView,
    similarities: MatrixView,
    threshold: Float32,
    i: int,
    j: int,
)
    requires
        semhash_laws::well_built(s),
        keyed_items(s.items, s.columns),
        0 <= i < similarities.len(),
        0 <= j < similarities.len(),
        similarities[i].len() == s.items.len(),
        similarities[j].len() == s.items.len(),
        reach_count(similarities[i], threshold) <= 100,
        reach_count(similarities[j], threshold) <= 100,
    ensures
        self_deduplication_laws::share_a_find(
            deduplication_laws::results_of(s.items, similarities, threshold),
            s.columns,
            i,
            j,
        ) <==> exists|g: int|
            #![trigger similarities[j][g]]
            0 <= g < s.items.len() && similarities[j][g].reaches(threshold)
                && similarities[i][g].reaches(threshold),
{
    let results = deduplication_laws::results_of(s.items, similarities, threshold);
    let a_row = similarities[i];
    let b_row = similarities[j];
    lemma_reach_count(a_row, threshold);
    lemma_reach_count(b_row, threshold);
    if self_deduplication_laws::share_a_find(results, s.columns, i, j) {
        let (a, b) = choose|a: int, b: int|
            #![trigger results[i][a], results[j][b]]
            0 <= a < results[i].len() && 0 <= b < results[j].len() && utils::key_of(
                results[i][a].0,
                s.columns,
            ) == utils::key_of(results[j][b].0, s.columns);
        let a_at = index::lemma_expanded_from(
            s.items,
            a_row,
            index::neighbors(a_row, threshold),
            a,
        );
        let b_at = index::lemma_expanded_from(
            s.items,
            b_row,
            index::neighbors(b_row, threshold),
            b,
        );
        index::lemma_neighbors_in(a_row, threshold);
        index::lemma_neighbors_in(b_row, threshold);
        let g = index::neighbors(a_row, threshold)[a_at.0] as int;
        let h = index::neighbors(b_row, threshold)[b_at.0] as int;
        assert(s.items[g][a_at.1] == results[i][a].0);
        assert(s.items[h][b_at.1] == results[j][b].0);
        assert(s.items[g].len() > 0 && s.items[h].len() > 0);
        assert(g == h);
        index::found_reach_threshold(s.items, a_row, threshold);
        index::found_reach_threshold(s.items, b_row, threshold);
        assert(index::doc_scores(s.items, a_row, threshold)[a].1 == a_row[g]);
        assert(index::doc_scores(s.items, b_row, threshold)[b].1 == b_row[h]);
        assert(similarities[j][g].reaches(threshold) && similarities[i][g].reaches(threshold));
    }
    if exists|g: int|
        #![trigger similarities[j][g]]
        0 <= g < s.items.len() && similarities[j][g].reaches(threshold)
            && similarities[i][g].reaches(threshold) {
        let g = choose|g: int|
            #![trigger similarities[j][g]]
            0 <= g < s.items.len() && similarities[j][g].reaches(threshold)
                && similarities[i][g].reaches(threshold);
        assert(s.items[g].len() > 0);
        index::found_is_complete(s.items, a_row, threshold, g, 0);
        index::found_is_complete(s.items, b_row, threshold, g, 0);
        let a = choose|a: int|
            0 <= a < results[i].len() && results[i][a] == (s.items[g][0], a_row[g]);
        let b = choose|b: int|
            0 <= b < results[j].len() && results[j][b] == (s.items[g][0], b_row[g]);
        assert(utils::key_of(results[i][a].0, s.columns) == utils::key_of(
            results[j][b].0,
            s.columns,
        ));
    }
}

/// One record of each cluster of similar groups stays: a group keeps its first record exactly if it
/// is similar to no group that an earlier group which keeps its own is similar to. This holds as long
/// as no group is similar to more groups than a query finds.
pub proof fn similar_groups_keep_one_record(
    s: SemHashView,
    similarities: MatrixView,
    threshold: Float32,
    kept: Seq<bool>,
)
    requires
        semhash_laws::well_built(s),
        keyed_items(s.items, s.columns),
        s.vectors[0].len() <= usize::MAX,
        index::similarity_rows(s.vectors, s.vectors, similarities),
        forall|q: int|
            0 <= q < similarities.len() ==> reach_count(#[trigger] similarities[q], threshold)
                <= 100,
        kept.len() == s.items.len(),
        forall|i: int|
            0 <= i < kept.len() ==> #[trigger] kept[i] == !reaches_with_earlier(
                kept,
                similarities,
                threshold,
                i,
            ),
    ensures
        semhash::self_deduplicate_outcome(s, similarities, threshold) is Ok,
        ({
            let d = semhash::self_deduplicate_outcome(s, similarities, threshold)->Ok_0;
            &&& d.selected == sublists::those(
                s.items.map_values(|item: Seq<DictView>| shown(s, item[0])),
                |i: int| kept[i],
            )
            &&& d.selected.len() + d.filtered.len() == record_laws::flattened(s.items).len()
        }),
{
    let results = deduplication_laws::results_of(s.items, similarities, threshold);
    semhash_laws::lemma_own_queries(s);
    assert forall|i: int| 0 <= i < kept.len() implies #[trigger] kept[i] == (s.items[i].len() > 0
        && !self_deduplication_laws::overlaps_earlier(kept, results, s.columns, i)) by {
        assert(s.items[i].len() > 0);
        assert(similarities[i].len() == s.items.len());
        if self_deduplication_laws::overlaps_earlier(kept, results, s.columns, i) {
            let j = choose|j: int|
                0 <= j < i && #[trigger] kept[j] && self_deduplication_laws::share_a_find(
                    results,
                    s.columns,
                    i,
                    j,
                );
            assert(similarities[j].len() == s.items.len());
            lemma_share_by_similarity(s, similarities, threshold, i, j);
            let g = choose|g: int|
                #![trigger similarities[j][g]]
                0 <= g < s.items.len() && similarities[j][g].reaches(threshold)
                    && similarities[i][g].reaches(threshold);
            assert(kept[j] && similarities[j][g].reaches(threshold));
            assert(reaches_with_earlier(kept, similarities, threshold, i));
        }
        if reaches_with_earlier(kept, similarities, threshold, i) {
            let (j, g) = choose|j: int, g: int|
                #![trigger kept[j], similarities[j][g]]
                0 <= j < i && kept[j] && 0 <= g < similarities[j].len()
                    && similarities[j][g].reaches(threshold) && similarities[i][g].reaches(
                    threshold,
                );
            assert(similarities[j].len() == s.items.len());
            lemma_share_by_similarity(s, similarities, threshold, i, j);
            assert(kept[j]);
        }
    }
    what_self_deduplication_reports(s, similarities, threshold, kept);
    semhash_laws::self_deduplication_keeps_records(s, similarities, threshold);
}

} // verus!
