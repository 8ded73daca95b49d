//! Laws of failures: which inputs are refused, and with what.

use crate::datamodels::FilterView;
use crate::error::ErrorView;
use crate::features;
use crate::features::{Encoder, MatrixView};
use crate::float::Float32;
use crate::grouping_laws;
use crate::index;
use crate::index::Backend;
use crate::number_laws;
use crate::record_laws;
use crate::records;
use crate::representatives;
use crate::semhash;
use crate::semhash::{PendingView, RankedView, SemHashView};
use crate::strategy;
use crate::utils;
use crate::value;
use crate::value::{DictView, RecordView, ValueView};
use vstd::prelude::*;

verus! {

/// Whether a dictionary has every column.
pub open spec fn has_all(d: DictView, columns: Seq<Seq<char>>) -> bool {
    forall|c: int| 0 <= c < columns.len() ==> value::dict_has(d, #[trigger] columns[c])
}

/// The column that is reported as missing from a dictionary is the first that it does not have.
pub proof fn first_missing_is_reported(d: DictView, columns: Seq<Seq<char>>) -> (at: int)
    ensures
        utils::first_missing(d, columns) is None <==> has_all(d, columns),
        utils::first_missing(d, columns) is Some ==> {
            &&& 0 <= at < columns.len()
            &&& utils::first_missing(d, columns) == Some(columns[at])
            &&& !value::dict_has(d, columns[at])
            &&& has_all(d, columns.take(at))
        },
    decreases columns.len(),
{
    if columns.len() == 0 {
        0
    } else if !value::dict_has(d, columns[0]) {
        0
    } else {
        let rest = columns.drop_first();
        let at = first_missing_is_reported(d, rest) + 1;
        if utils::first_missing(d, columns) is Some {
            assert(columns[at] == rest[at - 1]);
            assert forall|c: int| 0 <= c < columns.take(at).len() implies value::dict_has(
                d,
                #[trigger] columns.take(at)[c],
            ) by {
                if c > 0 {
                    assert(rest.take(at - 1)[c - 1] == columns[c]);
                }
            }
        } else {
            assert forall|c: int| 0 <= c < columns.len() implies value::dict_has(
                d,
                #[trigger] columns[c],
            ) by {
                if c > 0 {
                    assert(rest[c - 1] == columns[c]);
                }
            }
        }
        at
    }
}

/// Grouping reports the first column that is missing from the first record that misses one.
pub proof fn grouping_reports_the_first_missing(records: Seq<DictView>, columns: Seq<Seq<char>>) -> (at:
    int)
    ensures
        records::group_outcome(records, columns) is Ok <==> forall|i: int|
            0 <= i < records.len() ==> has_all(#[trigger] records[i], columns),
        records::group_outcome(records, columns) is Err ==> {
            &&& 0 <= at < records.len()
            &&& forall|i: int| 0 <= i < at ==> has_all(#[trigger] records[i], columns)
            &&& utils::first_missing(records[at], columns) is Some
            &&& records::group_outcome(records, columns)->Err_0 == (ErrorView::MissingColumn {
                column: utils::first_missing(records[at], columns)->0,
            })
        },
        records::removal_outcome(records, columns, None) is Ok <==> records::group_outcome(
            records,
            columns,
        ) is Ok,
        records::removal_outcome(records, columns, None) is Err ==> records::removal_outcome(
            records,
            columns,
            None,
        )->Err_0 == records::group_outcome(records, columns)->Err_0,
    decreases records.len(),
{
    if records.len() == 0 {
        0
    } else {
        first_missing_is_reported(records[0], columns);
        if utils::first_missing(records[0], columns) is Some {
            0
        } else {
            let rest = records.drop_first();
            let at = grouping_reports_the_first_missing(rest, columns) + 1;
            if records::first_missing_of(records, columns) is Some {
                assert(records[at] == rest[at - 1]);
                assert forall|i: int| 0 <= i < at implies has_all(#[trigger] records[i], columns) by {
                    if i > 0 {
                        assert(rest[i - 1] == records[i]);
                    }
                }
                first_missing_is_reported(records[at], columns);
            } else {
                assert forall|i: int| 0 <= i < records.len() implies has_all(
                    #[trigger] records[i],
                    columns,
                ) by {
                    if i > 0 {
                        assert(rest[i - 1] == records[i]);
                    }
                }
            }
            at
        }
    }
}

/// Whether a sequence of records holds a text.
pub open spec fn holds_text(records: Seq<RecordView>) -> bool {
    exists|i: int| 0 <= i < records.len() && (#[trigger] records[i]) is Text
}

/// Whether a sequence of records holds a dictionary.
pub open spec fn holds_dict(records: Seq<RecordView>) -> bool {
    exists|i: int| 0 <= i < records.len() && (#[trigger] records[i]) is Dict
}

/// The dictionaries among records that are all dictionaries.
pub open spec fn dictionaries(records: Seq<RecordView>) -> Seq<DictView> {
    records.map_values(|r: RecordView| r->Dict_0)
}

/// Records are refused where there are none, where texts and dictionaries are mixed, where
/// dictionaries come without columns, and where a dictionary has a flaw. What is told is the kind that
/// the first record has, or the first flaw.
pub proof fn which_records_are_refused(
    records: Seq<RecordView>,
    columns: Seq<Seq<char>>,
    was_string: bool,
)
    ensures
        records.len() > 0 && records[0] is Text && holds_dict(records) ==> {
            &&& records::prepare_outcome(records, None) == Err::<
                (Seq<DictView>, Seq<Seq<char>>, bool),
                ErrorView,
            >(ErrorView::MixedRecordTypes { expected: "strings"@ })
            &&& records::prepare_outcome(records, Some(columns)) == Err::<
                (Seq<DictView>, Seq<Seq<char>>, bool),
                ErrorView,
            >(ErrorView::MixedRecordTypes { expected: "strings"@ })
            &&& was_string ==> records::validate_outcome(records, columns, was_string) == Err::<
                Seq<DictView>,
                ErrorView,
            >(ErrorView::MixedRecordTypes { expected: "all strings"@ })
        },
        records.len() > 0 && records[0] is Dict ==> records::prepare_outcome(records, None) == Err::<
            (Seq<DictView>, Seq<Seq<char>>, bool),
            ErrorView,
        >(ErrorView::ColumnsRequired),
        records.len() > 0 && records[0] is Dict && holds_text(records) ==> {
            &&& records::prepare_outcome(records, Some(columns)) == Err::<
                (Seq<DictView>, Seq<Seq<char>>, bool),
                ErrorView,
            >(ErrorView::MixedRecordTypes { expected: "dicts"@ })
            &&& records::validate_outcome(records, columns, was_string) == Err::<
                Seq<DictView>,
                ErrorView,
            >(ErrorView::MixedRecordTypes { expected: "all dictionaries"@ })
        },
        records.len() > 0 && !holds_text(records) && records::rows_flaw(
            dictionaries(records),
            columns,
        ) is Some ==> {
            &&& records::prepare_outcome(records, Some(columns)) == Err::<
                (Seq<DictView>, Seq<Seq<char>>, bool),
                ErrorView,
            >(records::rows_flaw(dictionaries(records), columns)->0)
            &&& records::validate_outcome(records, columns, was_string) == Err::<
                Seq<DictView>,
                ErrorView,
            >(records::rows_flaw(dictionaries(records), columns)->0)
        },
{
    assert(dictionaries(records) =~= records::dicts_of(records));
    if records.len() > 0 {
        if records[0] is Text && holds_dict(records) {
            assert(!records::all_text(records));
        }
        if records[0] is Dict && holds_text(records) {
            assert(!records::all_dict(records));
        }
        if !holds_text(records) {
            assert forall|i: int| 0 <= i < records.len() implies (#[trigger] records[i]) is Dict by {
                assert(!(records[i] is Text));
            }
            assert(records[0] is Dict);
        }
    }
}

/// Candidates are encoded as they are, and a text as the value of the only column. With several columns
/// texts are refused.
pub proof fn how_candidates_are_encoded(records: Seq<RecordView>, columns: Seq<Seq<char>>)
    ensures
        records::candidates_outcome(records, columns) is Ok <==> columns.len() == 1 || !holds_text(
            records,
        ),
        records::candidates_outcome(records, columns) is Ok ==> {
            let rows = records::candidates_outcome(records, columns)->Ok_0;
            &&& rows.len() == records.len()
            &&& forall|i: int|
                0 <= i < rows.len() ==> #[trigger] rows[i] == match records[i] {
                    RecordView::Text(s) => seq![(columns[0], ValueView::String(s))],
                    RecordView::Dict(d) => d,
                }
        },
        records::candidates_outcome(records, columns) is Err ==> records::candidates_outcome(
            records,
            columns,
        )->Err_0 == ErrorView::Message(
            "Text candidates can only be featurized with a single column"@,
        ),
{
    if !holds_text(records) {
        assert forall|i: int| 0 <= i < records.len() implies (#[trigger] records[i]) is Dict by {
            assert(!(records[i] is Text));
        }
    } else {
        assert(!records::all_dict(records));
    }
}

/// Representatives are sought among candidates that were encoded as they are, or refused with what is
/// wrong with encoding them. Without candidates nothing is encoded.
pub proof fn what_representatives_are_sought_among<E: Encoder + ?Sized>(
    model: &E,
    columns: Seq<Seq<char>>,
    ranking: FilterView,
    limit: nat,
    k: nat,
    diversity: Float32,
    r: std::result::Result<RankedView, ErrorView>,
)
    requires
        ranking.selected.len() == ranking.scores_selected.len() <= usize::MAX,
        semhash::diversification_started(model, columns, ranking, limit, k, diversity, r),
    ensures
        ({
            let n = if limit <= ranking.selected.len() {
                limit
            } else {
                ranking.selected.len()
            };
            let candidates = ranking.selected.take(n as int);
            let rows = records::candidates_outcome(candidates, columns);
            &&& n == 0 ==> r is Ok && r->Ok_0.candidates.len() == 0
            &&& n > 0 && rows is Err ==> r == Err::<RankedView, ErrorView>(rows->Err_0)
            &&& n > 0 && rows is Ok ==> match r {
                Ok(d) => features::featurized(
                    model,
                    rows->Ok_0,
                    columns,
                    Ok::<MatrixView, ErrorView>(d.embeddings),
                ) && d.candidates == candidates,
                Err(e) => features::featurized(
                    model,
                    rows->Ok_0,
                    columns,
                    Err::<MatrixView, ErrorView>(e),
                ) || exists|m: MatrixView|
                    #[trigger] features::featurized(
                        model,
                        rows->Ok_0,
                        columns,
                        Ok::<MatrixView, ErrorView>(m),
                    ) && m.len() != n && e == ErrorView::InvalidEmbeddings(
                        strategy::score_count_text(m.len(), n),
                    ),
            }
        }),
{
    let candidates = representatives::candidates_of(ranking, limit);
    let relevance = ranking.scores_selected.take(candidates.len() as int);
    if limit >= ranking.selected.len() {
        assert(ranking.selected.take(ranking.selected.len() as int) =~= ranking.selected);
    }
    if candidates.len() > 0 && records::candidates_outcome(candidates, columns) is Ok {
        let dicts = records::candidates_outcome(candidates, columns)->Ok_0;
        let embeddings = choose|embeddings: std::result::Result<MatrixView, ErrorView>| #[trigger]
            features::featurized(model, dicts, columns, embeddings) && r == semhash::ranked_start(
                candidates,
                relevance,
                embeddings,
                k,
                diversity,
            );
        match embeddings {
            Err(e) => {
                assert(embeddings == Err::<MatrixView, ErrorView>(e));
            },
            Ok(m) => {
                assert(embeddings == Ok::<MatrixView, ErrorView>(m));
            },
        }
    }
}

/// Preparing fails where the records are refused, where one of them has no key, and where encoding
/// fails.
pub proof fn why_preparing_fails<E: Encoder + ?Sized>(
    model: &E,
    s: SemHashView,
    records: Seq<RecordView>,
    e: ErrorView,
)
    requires
        semhash::deduplication_prepared(model, s, records, Err::<PendingView, ErrorView>(e)),
    ensures
        ({
            let rows = records::validate_outcome(records, s.columns, s.was_string);
            &&& rows is Err ==> e == rows->Err_0
            &&& rows is Ok ==> {
                let rest = records::removal_outcome(rows->Ok_0, s.columns, Some(s.items));
                &&& rest is Err ==> e == rest->Err_0 && e is MissingColumn
                &&& rest is Ok ==> features::featurized(
                    model,
                    rest->Ok_0.0,
                    s.columns,
                    Err::<MatrixView, ErrorView>(e),
                )
            }
        }),
{
    let rows = records::validate_outcome(records, s.columns, s.was_string);
    if rows is Ok {
        let rest = records::removal_outcome(rows->Ok_0, s.columns, Some(s.items));
        if rest is Ok {
            let split = rest->Ok_0;
            let embeddings = choose|embeddings: std::result::Result<MatrixView, ErrorView>| #[trigger]
                features::featurized(model, split.0, s.columns, embeddings) && Err::<
                    PendingView,
                    ErrorView,
                >(e) == semhash::pending_outcome(split.0, split.1, embeddings);
            assert(embeddings == Err::<MatrixView, ErrorView>(e));
        }
    }
}

/// Whether embeddings have one row for each record, all of one length that is not zero.
pub open spec fn fitting(embeddings: MatrixView, n: nat) -> bool {
    &&& embeddings.len() == n
    &&& embeddings[0].len() > 0
    &&& forall|i: int|
        0 <= i < embeddings.len() ==> (#[trigger] embeddings[i]).len() == embeddings[0].len()
}

proof fn lemma_shape_fits(m: MatrixView, n: nat)
    requires
        n > 0,
    ensures
        features::shape_outcome(m, n, None) is Ok <==> fitting(m, n),
{
    assert(m.len() == n && features::rectangular(m) ==> forall|i: int|
        0 <= i < m.len() ==> (#[trigger] m[i]).len() == m[0].len());
}

proof fn lemma_first_rows_fit(embeddings: MatrixView, rows: Seq<DictView>, names: Seq<Seq<char>>)
    requires
        0 < rows.len() <= usize::MAX,
        fitting(embeddings, rows.len()),
    ensures
        features::shape_outcome(
            semhash::rows_at(embeddings, records::first_positions(records::keys_of(rows, names))),
            records::groups(rows, names).len(),
            None,
        ) is Ok,
{
    let places = records::first_positions(records::keys_of(rows, names));
    let m = semhash::rows_at(embeddings, places);
    let n = records::groups(rows, names).len();
    let width = embeddings[0].len();
    assert(places.len() == n && forall|p: int|
        0 <= p < m.len() ==> (#[trigger] m[p]).len() == width) by {
        let firsts = grouping_laws::groups_are_the_records_by_key(rows, names);
        assert forall|p: int| 0 <= p < m.len() implies (#[trigger] m[p]).len() == width by {
            assert(0 <= firsts[p] < rows.len());
            assert(places[p] == firsts[p]);
            assert(m[p] == embeddings[firsts[p]]);
        }
    }
    if n > 0 {
        assert(m[0].len() == width);
        lemma_shape_fits(m, n);
    }
}

/// An instance is built from embeddings where they fit the records and the records are not refused.
pub proof fn which_embeddings_are_accepted(
    embeddings: MatrixView,
    records: Seq<RecordView>,
    columns: Option<Seq<Seq<char>>>,
    backend: Backend,
)
    requires
        record_laws::sorted_records(records),
        records.len() <= usize::MAX,
    ensures
        semhash::embedded_outcome(embeddings, records, columns, backend) is Ok <==> fitting(
            embeddings,
            records.len(),
        ) && records::prepare_outcome(records, columns) is Ok,
        records.len() == 0 ==> semhash::embedded_outcome(embeddings, records, columns, backend)
            == Err::<SemHashView, ErrorView>(ErrorView::EmptyRecords),
        fitting(embeddings, records.len()) && records::prepare_outcome(records, columns) is Err
            ==> semhash::embedded_outcome(embeddings, records, columns, backend) == Err::<
            SemHashView,
            ErrorView,
        >(records::prepare_outcome(records, columns)->Err_0),
        records.len() > 0 && embeddings.len() > 0 && embeddings[0].len() > 0 && embeddings.len()
            != records.len() ==> semhash::embedded_outcome(embeddings, records, columns, backend)
            == Err::<SemHashView, ErrorView>(
            ErrorView::InvalidEmbeddings(
                features::row_count_text(embeddings.len(), records.len()),
            ),
        ),
        records.len() > 0 && (embeddings.len() == 0 || embeddings[0].len() == 0)
            ==> semhash::embedded_outcome(embeddings, records, columns, backend) == Err::<
            SemHashView,
            ErrorView,
        >(
            ErrorView::InvalidEmbeddings(
                "embeddings must be a 2D array, got an empty or 1D shape"@,
            ),
        ),
{
    if records.len() > 0 {
        lemma_shape_fits(embeddings, records.len());
        if fitting(embeddings, records.len()) && records::prepare_outcome(records, columns) is Ok {
            let prepared = records::prepare_outcome(records, columns)->Ok_0;
            record_laws::prepared_records_are_complete(records, columns);
            lemma_first_rows_fit(embeddings, prepared.0, prepared.1);
        }
    }
}

/// A query is refused where its vectors do not have the length of those that an instance holds, and
/// answered with nothing where it holds none.
pub proof fn which_queries_are_refused(
    vectors: MatrixView,
    items: Seq<Seq<DictView>>,
    queries: MatrixView,
    rows: MatrixView,
    threshold: Float32,
    k: nat,
    in_index: bool,
)
    ensures
        ({
            let found = index::threshold_outcome(vectors, items, queries, rows, threshold);
            let nearest = index::top_k_outcome(vectors, queries, rows, k, in_index);
            let highest = index::highest_outcome(vectors, queries, rows, k, in_index);
            let width = if vectors.len() == 0 {
                0usize
            } else {
                vectors[0].len() as usize
            };
            let shape = features::shape_outcome(queries, queries.len(), Some(width));
            &&& vectors.len() == 0 ==> {
                &&& found is Ok && found->Ok_0.len() == 0
                &&& nearest is Ok && nearest->Ok_0.len() == 0
                &&& highest is Ok && highest->Ok_0.len() == 0
            }
            &&& vectors.len() > 0 && shape is Err ==> {
                &&& found is Err && found->Err_0 == shape->Err_0
                &&& nearest is Err && nearest->Err_0 == shape->Err_0
                &&& highest is Err && highest->Err_0 == shape->Err_0
            }
            &&& vectors.len() > 0 && shape is Ok ==> {
                &&& found is Ok && found->Ok_0.len() == queries.len()
                &&& nearest is Ok && nearest->Ok_0.len() == queries.len()
                &&& highest is Ok && highest->Ok_0.len() == queries.len()
            }
        }),
{
}

/// Outliers are told apart for every percentage between zero and one, and for no other.
pub proof fn which_percentages_are_refused(ranking: FilterView, percentage: Float32)
    ensures
        representatives::outliers_outcome(ranking, percentage) is Ok <==> number_laws::is_number(
            percentage,
        ) && 0 <= number_laws::numeric_value(percentage) <= number_laws::numeric_value(
            Float32 { bits: 0x3f80_0000 },
        ),
        representatives::outliers_outcome(ranking, percentage) is Err
            ==> representatives::outliers_outcome(ranking, percentage)->Err_0 == (
        ErrorView::InvalidPercentage { name: "outlier_percentage"@ }),
{
    number_laws::what_the_named_numbers_are(percentage);
}

} // verus!
