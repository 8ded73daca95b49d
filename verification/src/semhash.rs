//! The main type: records with their vectors, and what can be asked of them.
//!
//! Similarities between vectors are computed by the caller. An operation that needs them comes in
//! two steps: the first returns what to compare with the vectors of the index, the second takes
//! the similarities.

use crate::datamodels::{DeduplicationResult, DeduplicationView, DuplicateRecord, DuplicateView};
use crate::datamodels::{FilterResult, FilterView};
use crate::deduplication;
use crate::deduplication::{list_exact_duplicates, sort_out, sort_out_buckets};
use crate::error;
use crate::error::{ErrorView, Result, SemHashError};
use crate::features;
use crate::features::{featurize, validate_embeddings_shape, Embeddings, Encoder, MatrixView};
use crate::float;
use crate::float::Float32;
use crate::index;
use crate::index::{Backend, Index};
use crate::ranking;
use crate::records;
use crate::records::{
    group_records_by_key, group_with_positions, map_deduplication_result_to_strings,
    prepare_records, records_to_dicts_for_featurize, remove_exact_duplicates,
    validate_if_strings, ExactDuplicates,
};
use crate::representatives;
use crate::representatives::{
    collect_chosen, list_first_records, rank_by_scores, split_outliers,
    validate_outlier_percentage, CandidateLimit,
};
use crate::scaling;
use crate::strategy;
use crate::strategy::{diversify, Diversification, DiversificationView, Strategy};
use crate::value::{DictRecord, DictView, Record, RecordView};
use std::sync::Arc;
use vstd::prelude::*;

verus! {

/// How many neighbors the average similarity of a record is taken over.
pub const RANKING_NEIGHBORS: usize = 100;

// ---------------------------------------------------------------------------------------------
// Options

/// Constructor options.
pub struct SemHashOptions<E: Encoder + ?Sized> {
    pub columns: Option<Vec<String>>,
    pub model: Option<Arc<E>>,
    pub ann_backend: Backend,
}

impl<E: Encoder + ?Sized> SemHashOptions<E> {
    /// The default options: no columns, no model, the default backend.
    pub fn new() -> (r: Self)
        ensures
            r.columns is None,
            r.model is None,
            r.ann_backend == Backend::Usearch,
    {
        SemHashOptions { columns: None, model: None, ann_backend: Backend::Usearch }
    }

    pub fn columns(self, columns: Vec<String>) -> (r: Self)
        ensures
            r == (SemHashOptions { columns: Some(columns), ..self }),
    {
        SemHashOptions { columns: Some(columns), model: self.model, ann_backend: self.ann_backend }
    }

    pub fn model(self, model: Arc<E>) -> (r: Self)
        ensures
            r == (SemHashOptions { model: Some(model), ..self }),
    {
        SemHashOptions { columns: self.columns, model: Some(model), ann_backend: self.ann_backend }
    }

    pub fn ann_backend(self, backend: Backend) -> (r: Self)
        ensures
            r == (SemHashOptions { ann_backend: backend, ..self }),
    {
        SemHashOptions { columns: self.columns, model: self.model, ann_backend: backend }
    }
}

impl<E: Encoder + ?Sized> Clone for SemHashOptions<E> {
    fn clone(&self) -> (r: Self)
        ensures
            r.columns.deep_view() == self.columns.deep_view(),
            r.model == self.model,
            r.ann_backend == self.ann_backend,
    {
        let columns: Option<Vec<String>> = match &self.columns {
            Some(columns) => Some(copy_texts(columns)),
            None => None,
        };
        let model: Option<Arc<E>> = match &self.model {
            Some(model) => Some(model.clone()),
            None => None,
        };
        SemHashOptions { columns, model, ann_backend: self.ann_backend }
    }
}

impl<E: Encoder + ?Sized> Default for SemHashOptions<E> {
    fn default() -> (r: Self)
        ensures
            r.columns is None,
            r.model is None,
            r.ann_backend == Backend::Usearch,
    {
        SemHashOptions::new()
    }
}

/// The model that options name, or else the one to fall back on.
pub open spec fn chosen_model<E: Encoder + ?Sized>(
    options: SemHashOptions<E>,
    fallback: Arc<E>,
) -> Arc<E> {
    match options.model {
        Some(model) => model,
        None => fallback,
    }
}

// ---------------------------------------------------------------------------------------------
// The instance

/// Records, grouped by exact match, with a vector for each group.
pub struct SemHash<E: Encoder + ?Sized> {
    pub index: Index,
    pub model: Arc<E>,
    pub columns: Vec<String>,
    was_string: bool,
    ranking_cache: Option<FilterResult>,
}

/// What an instance is, apart from its model.
pub struct SemHashView {
    pub vectors: MatrixView,
    pub items: Seq<Seq<DictView>>,
    pub backend: Backend,
    pub columns: Seq<Seq<char>>,
    pub was_string: bool,
    pub ranking: Option<FilterView>,
}

impl<E: Encoder + ?Sized> DeepView for SemHash<E> {
    type V = SemHashView;

    closed spec fn deep_view(&self) -> SemHashView {
        SemHashView {
            vectors: self.index.vectors.deep_view(),
            items: self.index.items.deep_view(),
            backend: self.index.backend,
            columns: self.columns.deep_view(),
            was_string: self.was_string,
            ranking: self.ranking_cache.deep_view(),
        }
    }
}

/// Whether an instance is in order: its index is well-formed, and a ranking that it keeps has a
/// score for each record.
pub open spec fn fitted(s: SemHashView) -> bool {
    &&& s.vectors.len() == s.items.len() <= usize::MAX
    &&& features::shape_outcome(s.vectors, s.items.len(), None) is Ok
    &&& s.ranking is Some ==> s.ranking->0.selected.len() == s.ranking->0.scores_selected.len()
}

/// A copy of a list of texts.
fn copy_texts(texts: &Vec<String>) -> (r: Vec<String>)
    ensures
        r.deep_view() == texts.deep_view(),
{
    let mut out: Vec<String> = Vec::new();
    let mut i: usize = 0;
    while i < texts.len()
        invariant
            i <= texts.len(),
            out.len() == i,
            forall|j: int| 0 <= j < i ==> (#[trigger] out@[j])@ == texts@[j]@,
        decreases texts.len() - i,
    {
        out.push(texts[i].clone());
        i = i + 1;
    }
    assert(out.deep_view() =~= texts.deep_view());
    out
}

// ---------------------------------------------------------------------------------------------
// Building an instance

/// An instance with the given vectors for the groups of the prepared records.
pub open spec fn fit_outcome(
    prepared: (Seq<DictView>, Seq<Seq<char>>, bool),
    vectors: std::result::Result<MatrixView, ErrorView>,
    backend: Backend,
) -> std::result::Result<SemHashView, ErrorView> {
    let items = records::groups(prepared.0, prepared.1);
    match vectors {
        Err(e) => Err(e),
        Ok(m) => match features::shape_outcome(m, items.len(), None) {
            Err(e) => Err(e),
            Ok(_) => Ok(
                SemHashView {
                    vectors: m,
                    items,
                    backend,
                    columns: prepared.1,
                    was_string: prepared.2,
                    ranking: None,
                },
            ),
        },
    }
}

/// Whether this is what an instance with vectors of the model comes to.
pub open spec fn fit_with<E: Encoder + ?Sized>(
    model: &E,
    firsts: Seq<DictView>,
    prepared: (Seq<DictView>, Seq<Seq<char>>, bool),
    backend: Backend,
    result: std::result::Result<SemHashView, ErrorView>,
) -> bool {
    exists|vectors: std::result::Result<MatrixView, ErrorView>| #[trigger]
        features::featurized(model, firsts, prepared.1, vectors) && result == fit_outcome(
            prepared,
            vectors,
            backend,
        )
}

/// Whether this is what building an instance from records comes to, for some replies of the
/// model: the first record of each group is encoded.
pub open spec fn built<E: Encoder + ?Sized>(
    model: &E,
    records: Seq<RecordView>,
    columns: Option<Seq<Seq<char>>>,
    backend: Backend,
    result: std::result::Result<SemHashView, ErrorView>,
) -> bool {
    match records::prepare_outcome(records, columns) {
        Err(e) => result == Err::<SemHashView, ErrorView>(e),
        Ok(prepared) => match records::group_outcome(prepared.0, prepared.1) {
            Err(e) => result == Err::<SemHashView, ErrorView>(e),
            Ok(grouped) => fit_with(model, grouped.0, prepared, backend, result),
        },
    }
}

/// The rows of a matrix at some positions.
pub open spec fn rows_at(m: MatrixView, positions: Seq<usize>) -> MatrixView {
    Seq::new(positions.len(), |i: int| m[positions[i] as int])
}

/// What building an instance from embeddings comes to: each group keeps the embedding of its
/// first record.
pub open spec fn embedded_outcome(
    embeddings: MatrixView,
    records: Seq<RecordView>,
    columns: Option<Seq<Seq<char>>>,
    backend: Backend,
) -> std::result::Result<SemHashView, ErrorView> {
    if records.len() == 0 {
        Err(ErrorView::EmptyRecords)
    } else if embeddings.len() == 0 || embeddings[0].len() == 0 {
        Err(
            ErrorView::InvalidEmbeddings(
                "embeddings must be a 2D array, got an empty or 1D shape"@,
            ),
        )
    } else {
        match features::shape_outcome(embeddings, records.len(), None) {
            Err(e) => Err(e),
            Ok(_) => match records::prepare_outcome(records, columns) {
                Err(e) => Err(e),
                Ok(prepared) => match records::first_missing_of(prepared.0, prepared.1) {
                    Some(column) => Err(ErrorView::MissingColumn { column }),
                    None => fit_outcome(
                        prepared,
                        Ok(
                            rows_at(
                                embeddings,
                                records::first_positions(
                                    records::keys_of(prepared.0, prepared.1),
                                ),
                            ),
                        ),
                        backend,
                    ),
                },
            },
        }
    }
}

/// Texts as records.
pub open spec fn text_records(texts: Seq<Seq<char>>) -> Seq<RecordView> {
    Seq::new(texts.len(), |i: int| RecordView::Text(texts[i]))
}

/// A copy of the rows of a matrix at some positions.
fn copy_rows(m: &Embeddings, positions: &Vec<usize>) -> (r: Embeddings)
    requires
        forall|i: int| 0 <= i < positions.len() ==> (#[trigger] positions@[i]) < m.len(),
    ensures
        r.deep_view() == rows_at(m.deep_view(), positions@),
{
    let mut out: Embeddings = Vec::new();
    let mut i: usize = 0;
    while i < positions.len()
        invariant
            i <= positions.len(),
            out.len() == i,
            forall|i: int| 0 <= i < positions.len() ==> (#[trigger] positions@[i]) < m.len(),
            forall|j: int|
                0 <= j < i ==> (#[trigger] out@[j]).deep_view() == m.deep_view()[positions@[j] as int],
        decreases positions.len() - i,
    {
        let at: usize = positions[i];
        assert(m.deep_view()[at as int] == m@[at as int].deep_view());
        out.push(crate::datamodels::copy_floats(&m[at]));
        assert(out@[i as int].deep_view() =~= m@[at as int].deep_view());
        i = i + 1;
    }
    assert(out.deep_view() =~= rows_at(m.deep_view(), positions@));
    out
}

proof fn lemma_first_positions(s: Seq<DictView>)
    ensures
        forall|i: int|
            0 <= i < records::first_positions(s).len() ==> (#[trigger] records::first_positions(
                s,
            )[i]) < s.len() || s.len() > usize::MAX,
    decreases s.len(),
{
    if s.len() > 0 {
        lemma_first_positions(s.drop_last());
        let rest = records::first_positions(s.drop_last());
        let all = records::first_positions(s);
        assert forall|i: int| 0 <= i < all.len() implies (#[trigger] all[i]) < s.len() || s.len()
            > usize::MAX by {
            if i < rest.len() {
                assert(all[i] == rest[i]);
            }
        }
    }
}

proof fn lemma_built<E: Encoder + ?Sized>(
    model: &E,
    records: Seq<RecordView>,
    columns: Option<Seq<Seq<char>>>,
    backend: Backend,
    prepared: (Seq<DictView>, Seq<Seq<char>>, bool),
    grouped: (Seq<DictView>, Seq<Seq<DictView>>),
    vectors: std::result::Result<MatrixView, ErrorView>,
)
    requires
        records::prepare_outcome(records, columns) == Ok::<
            (Seq<DictView>, Seq<Seq<char>>, bool),
            ErrorView,
        >(prepared),
        records::group_outcome(prepared.0, prepared.1) == Ok::<
            (Seq<DictView>, Seq<Seq<DictView>>),
            ErrorView,
        >(grouped),
        features::featurized(model, grouped.0, prepared.1, vectors),
    ensures
        built(model, records, columns, backend, fit_outcome(prepared, vectors, backend)),
{
    assert(fit_with(
        model,
        grouped.0,
        prepared,
        backend,
        fit_outcome(prepared, vectors, backend),
    ));
}

/// Groups prepared records.
fn group_prepared(prepared: &(Vec<DictRecord>, Vec<String>, bool)) -> (r: Result<
    (Vec<DictRecord>, Vec<Vec<DictRecord>>),
>)
    ensures
        error::outcome(r) == records::group_outcome(
            prepared.deep_view().0,
            prepared.deep_view().1,
        ),
{
    let dicts = prepared.0.as_slice();
    let columns = prepared.1.as_slice();
    assert(dicts.deep_view() =~= prepared.0.deep_view());
    assert(columns.deep_view() =~= prepared.1.deep_view());
    group_records_by_key(dicts, columns)
}

/// Encodes records.
fn featurize_prepared<E: Encoder + ?Sized>(
    dicts: &Vec<DictRecord>,
    columns: &Vec<String>,
    model: &E,
) -> (r: Result<Embeddings>)
    ensures
        features::featurized(
            model,
            dicts.deep_view(),
            columns.deep_view(),
            error::outcome(r),
        ),
{
    let listed = dicts.as_slice();
    let named = columns.as_slice();
    assert(listed.deep_view() =~= dicts.deep_view());
    assert(named.deep_view() =~= columns.deep_view());
    featurize(listed, named, model)
}

impl<E: Encoder + ?Sized> SemHash<E> {
    /// The model of the instance.
    pub closed spec fn encoder(&self) -> Arc<E> {
        self.model
    }

    fn fit(
        prepared: (Vec<DictRecord>, Vec<String>, bool),
        items: Vec<Vec<DictRecord>>,
        vectors: Embeddings,
        model: Arc<E>,
        backend: Backend,
    ) -> (r: Result<Self>)
        requires
            items.deep_view() == records::groups(
                prepared.0.deep_view(),
                prepared.1.deep_view(),
            ),
        ensures
            error::outcome(r) == fit_outcome(
                prepared.deep_view(),
                Ok(vectors.deep_view()),
                backend,
            ),
            r matches Ok(s) ==> s.encoder() == model && fitted(s.deep_view()),
    {
        match Index::from_vectors_and_items(vectors, items, backend) {
            Err(e) => Err(e),
            Ok(index) => {
                let r = SemHash {
                    index,
                    model,
                    columns: prepared.1,
                    was_string: prepared.2,
                    ranking_cache: None,
                };
                assert(r.deep_view() == fit_outcome(
                    prepared.deep_view(),
                    Ok(vectors.deep_view()),
                    backend,
                )->Ok_0);
                Ok(r)
            },
        }
    }

    /// Builds an instance from records. The model is that of the options, or else the given one.
    pub fn from_records(records: Vec<Record>, options: SemHashOptions<E>, fallback: Arc<E>) -> (r:
        Result<Self>)
        ensures
            built(
                &*chosen_model(options, fallback),
                records.deep_view(),
                options.columns.deep_view(),
                options.ann_backend,
                error::outcome(r),
            ),
            r matches Ok(s) ==> s.encoder() == chosen_model(options, fallback) && fitted(
                s.deep_view(),
            ),
    {
        let ghost chosen = chosen_model(options, fallback);
        let ghost rs = records.deep_view();
        let ghost cs = options.columns.deep_view();
        let listed = records.as_slice();
        assert(listed.deep_view() =~= rs);
        let prepared = match prepare_records(listed, options.columns) {
            Ok(prepared) => prepared,
            Err(e) => {
                return Err(e);
            },
        };
        let model: Arc<E> = match options.model {
            Some(model) => model,
            None => fallback,
        };
        let (firsts, items) = match group_prepared(&prepared) {
            Ok(grouped) => grouped,
            Err(e) => {
                return Err(e);
            },
        };
        let ghost pv = prepared.deep_view();
        let ghost gv = (firsts.deep_view(), items.deep_view());
        let vectors = match featurize_prepared(&firsts, &prepared.1, &*model) {
            Ok(vectors) => vectors,
            Err(e) => {
                proof {
                    lemma_built(&*chosen, rs, cs, options.ann_backend, pv, gv, Err(e.deep_view()));
                }
                return Err(e);
            },
        };
        proof {
            lemma_built(&*chosen, rs, cs, options.ann_backend, pv, gv, Ok(vectors.deep_view()));
        }
        SemHash::fit(prepared, items, vectors, model, options.ann_backend)
    }

    /// Builds an instance from texts with default options.
    pub fn from_texts(texts: Vec<String>, model: Arc<E>) -> (r: Result<Self>)
        ensures
            built(
                &*model,
                text_records(texts.deep_view()),
                None,
                Backend::Usearch,
                error::outcome(r),
            ),
            r matches Ok(s) ==> s.encoder() == model && fitted(s.deep_view()),
    {
        let ghost ts = texts.deep_view();
        let mut records: Vec<Record> = Vec::new();
        for text in it: texts
            invariant
                it.seq() == texts@,
                ts == texts.deep_view(),
                records.len() == it.index(),
                forall|j: int|
                    0 <= j < it.index() ==> (#[trigger] records@[j]).deep_view()
                        == RecordView::Text(ts[j]),
        {
            records.push(Record::Text(text));
        }
        assert(records.deep_view() =~= text_records(ts));
        SemHash::from_records(records, SemHashOptions::new(), model)
    }

    /// Builds an instance from embeddings that were computed before.
    pub fn from_embeddings(
        embeddings: Embeddings,
        records: Vec<Record>,
        model: Arc<E>,
        options: SemHashOptions<E>,
    ) -> (r: Result<Self>)
        ensures
            error::outcome(r) == embedded_outcome(
                embeddings.deep_view(),
                records.deep_view(),
                options.columns.deep_view(),
                options.ann_backend,
            ),
            r matches Ok(s) ==> s.encoder() == model && fitted(s.deep_view()),
    {
        if records.len() == 0 {
            return Err(SemHashError::EmptyRecords);
        }
        assert(embeddings.len() > 0 ==> embeddings.deep_view()[0].len() == embeddings@[0]@.len());
        if embeddings.len() == 0 || embeddings[0].len() == 0 {
            return Err(
                SemHashError::InvalidEmbeddings(
                    "embeddings must be a 2D array, got an empty or 1D shape".to_owned(),
                ),
            );
        }
        match validate_embeddings_shape(&embeddings, records.len(), None) {
            Ok(_) => {},
            Err(e) => {
                return Err(e);
            },
        }
        let listed = records.as_slice();
        assert(listed.deep_view() =~= records.deep_view());
        let prepared = match prepare_records(listed, options.columns) {
            Ok(prepared) => prepared,
            Err(e) => {
                return Err(e);
            },
        };
        let dicts = prepared.0.as_slice();
        let columns = prepared.1.as_slice();
        assert(dicts.deep_view() =~= prepared.0.deep_view());
        assert(columns.deep_view() =~= prepared.1.deep_view());
        let (items, positions) = match group_with_positions(dicts, columns) {
            Ok(grouped) => grouped,
            Err(e) => {
                return Err(e);
            },
        };
        proof {
            lemma_first_positions(records::keys_of(dicts.deep_view(), columns.deep_view()));
        }
        let vectors = copy_rows(&embeddings, &positions);
        SemHash::fit(prepared, items, vectors, model, options.ann_backend)
    }

    /// Whether the instance was built from text records.
    pub fn was_string(&self) -> (r: bool)
        ensures
            r == self.deep_view().was_string,
    {
        self.was_string
    }
}

// ---------------------------------------------------------------------------------------------
// Deduplication

/// Records on their way through deduplication: those that are no exact duplicates of what the
/// index holds, with their embeddings, and the exact duplicates.
#[derive(Clone, Debug, PartialEq)]
pub struct PendingDeduplication {
    pub records: Vec<DictRecord>,
    pub exact_duplicates: ExactDuplicates,
    pub embeddings: Embeddings,
}

/// What a pending deduplication is.
pub struct PendingView {
    pub records: Seq<DictView>,
    pub exact_duplicates: Seq<(DictView, Seq<DictView>)>,
    pub embeddings: MatrixView,
}

impl DeepView for PendingDeduplication {
    type V = PendingView;

    open spec fn deep_view(&self) -> PendingView {
        PendingView {
            records: self.records.deep_view(),
            exact_duplicates: self.exact_duplicates.deep_view(),
            embeddings: self.embeddings.deep_view(),
        }
    }
}

/// A pending deduplication with the given embeddings.
pub open spec fn pending_outcome(
    rest: Seq<DictView>,
    exact: Seq<(DictView, Seq<DictView>)>,
    embeddings: std::result::Result<MatrixView, ErrorView>,
) -> std::result::Result<PendingView, ErrorView> {
    match embeddings {
        Err(e) => Err(e),
        Ok(m) => Ok(PendingView { records: rest, exact_duplicates: exact, embeddings: m }),
    }
}

/// Whether this is what encoding the records that are no exact duplicates comes to.
pub open spec fn pending_with<E: Encoder + ?Sized>(
    model: &E,
    columns: Seq<Seq<char>>,
    rest: Seq<DictView>,
    exact: Seq<(DictView, Seq<DictView>)>,
    result: std::result::Result<PendingView, ErrorView>,
) -> bool {
    exists|embeddings: std::result::Result<MatrixView, ErrorView>| #[trigger]
        features::featurized(model, rest, columns, embeddings) && result == pending_outcome(
            rest,
            exact,
            embeddings,
        )
}

/// Whether this is what preparing a deduplication comes to, for some replies of the model: the
/// records are validated, told from exact duplicates, and encoded.
pub open spec fn deduplication_prepared<E: Encoder + ?Sized>(
    model: &E,
    s: SemHashView,
    records: Seq<RecordView>,
    result: std::result::Result<PendingView, ErrorView>,
) -> bool {
    match records::validate_outcome(records, s.columns, s.was_string) {
        Err(e) => result == Err::<PendingView, ErrorView>(e),
        Ok(dicts) => match records::removal_outcome(dicts, s.columns, Some(s.items)) {
            Err(e) => result == Err::<PendingView, ErrorView>(e),
            Ok(split) => pending_with(model, s.columns, split.0, split.1, result),
        },
    }
}

/// A deduplication result of an instance, in text where the instance was built from text.
pub open spec fn result_of(
    s: SemHashView,
    selected: Seq<RecordView>,
    filtered: Seq<DuplicateView>,
    threshold: Float32,
) -> DeduplicationView {
    let d = DeduplicationView { selected, filtered, threshold, columns: Some(s.columns) };
    if s.was_string {
        records::stringed_result(d, s.columns)
    } else {
        d
    }
}

/// What deduplicating records against an instance comes to, given their similarities: records
/// that found something similar are duplicates, and so are the exact ones, which come first.
pub open spec fn deduplicate_outcome(
    s: SemHashView,
    pending: PendingView,
    similarities: MatrixView,
    threshold: Float32,
) -> std::result::Result<DeduplicationView, ErrorView> {
    let exact = deduplication::exact_duplicates(pending.exact_duplicates);
    if pending.records.len() == 0 {
        Ok(result_of(s, seq![], exact, threshold))
    } else {
        match index::threshold_outcome(
            s.vectors,
            s.items,
            pending.embeddings,
            similarities,
            threshold,
        ) {
            Err(e) => Err(e),
            Ok(results) => {
                let n = deduplication::answered(pending.records.len(), results.len()) as int;
                Ok(
                    result_of(
                        s,
                        deduplication::dissimilar(pending.records, results, n),
                        exact + deduplication::similar(pending.records, results, n),
                        threshold,
                    ),
                )
            },
        }
    }
}

/// What deduplicating the records of an instance among themselves comes to, given the
/// similarities of its vectors.
pub open spec fn self_deduplicate_outcome(
    s: SemHashView,
    similarities: MatrixView,
    threshold: Float32,
) -> std::result::Result<DeduplicationView, ErrorView> {
    match index::threshold_outcome(s.vectors, s.items, s.vectors, similarities, threshold) {
        Err(e) => Err(e),
        Ok(results) => match deduplication::with_buckets(
            s.items,
            results,
            s.columns,
            deduplication::answered(s.items.len(), results.len()) as int,
        ) {
            Err(e) => Err(e),
            Ok(p) => Ok(result_of(s, p.selected, p.filtered, threshold)),
        },
    }
}

proof fn lemma_pending<E: Encoder + ?Sized>(
    model: &E,
    s: SemHashView,
    records: Seq<RecordView>,
    dicts: Seq<DictView>,
    split: (Seq<DictView>, Seq<(DictView, Seq<DictView>)>),
    embeddings: std::result::Result<MatrixView, ErrorView>,
)
    requires
        records::validate_outcome(records, s.columns, s.was_string) == Ok::<
            Seq<DictView>,
            ErrorView,
        >(dicts),
        records::removal_outcome(dicts, s.columns, Some(s.items)) == Ok::<
            (Seq<DictView>, Seq<(DictView, Seq<DictView>)>),
            ErrorView,
        >(split),
        features::featurized(model, split.0, s.columns, embeddings),
    ensures
        deduplication_prepared(
            model,
            s,
            records,
            pending_outcome(split.0, split.1, embeddings),
        ),
{
    assert(pending_with(
        model,
        s.columns,
        split.0,
        split.1,
        pending_outcome(split.0, split.1, embeddings),
    ));
}

impl<E: Encoder + ?Sized> SemHash<E> {
    /// Validates records against the instance.
    fn validate(&self, records: &Vec<Record>) -> (r: Result<Vec<DictRecord>>)
        ensures
            error::outcome(r) == records::validate_outcome(
                records.deep_view(),
                self.deep_view().columns,
                self.deep_view().was_string,
            ),
    {
        let listed = records.as_slice();
        let columns = self.columns.as_slice();
        assert(listed.deep_view() =~= records.deep_view());
        assert(columns.deep_view() =~= self.columns.deep_view());
        validate_if_strings(listed, columns, self.was_string)
    }

    /// Removes the exact duplicates of what the index holds.
    fn remove_known(&self, dicts: &Vec<DictRecord>) -> (r: Result<
        (Vec<DictRecord>, ExactDuplicates),
    >)
        ensures
            error::outcome(r) == records::removal_outcome(
                dicts.deep_view(),
                self.deep_view().columns,
                Some(self.deep_view().items),
            ),
    {
        let listed = dicts.as_slice();
        let columns = self.columns.as_slice();
        let items = self.index.items.as_slice();
        assert(listed.deep_view() =~= dicts.deep_view());
        assert(columns.deep_view() =~= self.columns.deep_view());
        assert(items.deep_view() =~= self.index.items.deep_view());
        let reference: Option<&[Vec<DictRecord>]> = Some(items);
        assert(reference.deep_view() == Some(self.deep_view().items));
        remove_exact_duplicates(listed, columns, reference)
    }

    /// Encodes records with the model of the instance.
    fn encode(&self, dicts: &Vec<DictRecord>) -> (r: Result<Embeddings>)
        ensures
            features::featurized(
                &*self.encoder(),
                dicts.deep_view(),
                self.deep_view().columns,
                error::outcome(r),
            ),
    {
        featurize_prepared(dicts, &self.columns, &*self.model)
    }

    /// A result of the instance, in text where it was built from text.
    fn present(
        &self,
        selected: Vec<Record>,
        filtered: Vec<DuplicateRecord>,
        threshold: Float32,
    ) -> (r: DeduplicationResult)
        ensures
            r.deep_view() == result_of(
                self.deep_view(),
                selected.deep_view(),
                filtered.deep_view(),
                threshold,
            ),
            r.cached() is None,
    {
        let result = DeduplicationResult::new(
            selected,
            filtered,
            threshold,
            Some(copy_texts(&self.columns)),
        );
        if self.was_string {
            let columns = self.columns.as_slice();
            assert(columns.deep_view() =~= self.columns.deep_view());
            map_deduplication_result_to_strings(result, columns)
        } else {
            result
        }
    }

    /// The first step of a deduplication: returns the records whose embeddings are to be compared
    /// with the vectors of the index.
    pub fn prepare_deduplication(&self, records: Vec<Record>) -> (r: Result<PendingDeduplication>)
        ensures
            deduplication_prepared(
                &*self.encoder(),
                self.deep_view(),
                records.deep_view(),
                error::outcome(r),
            ),
    {
        let dicts = match self.validate(&records) {
            Ok(dicts) => dicts,
            Err(e) => {
                return Err(e);
            },
        };
        let (rest, exact_duplicates) = match self.remove_known(&dicts) {
            Ok(split) => split,
            Err(e) => {
                return Err(e);
            },
        };
        let ghost split = (rest.deep_view(), exact_duplicates.deep_view());
        let reply = self.encode(&rest);
        proof {
            lemma_pending(
                &*self.encoder(),
                self.deep_view(),
                records.deep_view(),
                dicts.deep_view(),
                split,
                error::outcome(reply),
            );
        }
        match reply {
            Ok(embeddings) => Ok(
                PendingDeduplication { records: rest, exact_duplicates, embeddings },
            ),
            Err(e) => Err(e),
        }
    }

    /// Performs cross-dataset deduplication against the fitted index, given the similarities of
    /// the embeddings to the vectors of the index.
    pub fn deduplicate(
        &self,
        pending: PendingDeduplication,
        similarities: &Embeddings,
        threshold: Float32,
    ) -> (r: Result<DeduplicationResult>)
        requires
            fitted(self.deep_view()),
            index::similarity_rows(
                self.deep_view().vectors,
                pending.embeddings.deep_view(),
                similarities.deep_view(),
            ),
        ensures
            error::outcome(r) == deduplicate_outcome(
                self.deep_view(),
                pending.deep_view(),
                similarities.deep_view(),
                threshold,
            ),
            r matches Ok(d) ==> d.cached() is None,
    {
        let mut filtered = list_exact_duplicates(pending.exact_duplicates);
        if pending.records.len() == 0 {
            let selected: Vec<Record> = Vec::new();
            assert(selected.deep_view() =~= seq![]);
            return Ok(self.present(selected, filtered, threshold));
        }
        let results = match self.index.query_threshold(
            &pending.embeddings,
            similarities,
            threshold,
        ) {
            Ok(results) => results,
            Err(e) => {
                return Err(e);
            },
        };
        let ghost exact = filtered.deep_view();
        let (selected, mut similar) = sort_out(pending.records, &results);
        let ghost found = similar.deep_view();
        filtered.append(&mut similar);
        assert(filtered.deep_view() =~= exact + found);
        Ok(self.present(selected, filtered, threshold))
    }

    /// Deduplicates within the fitted dataset, given the similarities of the vectors of the index
    /// to each other.
    pub fn self_deduplicate(&self, similarities: &Embeddings, threshold: Float32) -> (r: Result<
        DeduplicationResult,
    >)
        requires
            fitted(self.deep_view()),
            index::similarity_rows(
                self.deep_view().vectors,
                self.deep_view().vectors,
                similarities.deep_view(),
            ),
        ensures
            error::outcome(r) == self_deduplicate_outcome(
                self.deep_view(),
                similarities.deep_view(),
                threshold,
            ),
            r matches Ok(d) ==> d.cached() is None,
    {
        let results = match self.index.query_threshold(
            &self.index.vectors,
            similarities,
            threshold,
        ) {
            Ok(results) => results,
            Err(e) => {
                return Err(e);
            },
        };
        let columns = self.columns.as_slice();
        assert(columns.deep_view() =~= self.columns.deep_view());
        match sort_out_buckets(&self.index.items, &results, columns) {
            Ok((selected, filtered)) => Ok(self.present(selected, filtered, threshold)),
            Err(e) => Err(e),
        }
    }
}

// ---------------------------------------------------------------------------------------------
// Ranking

/// Whether this is what preparing records for a ranking comes to, for some replies of the model:
/// the records are validated and encoded.
pub open spec fn ranking_prepared<E: Encoder + ?Sized>(
    model: &E,
    s: SemHashView,
    records: Seq<RecordView>,
    result: std::result::Result<(Seq<DictView>, MatrixView), ErrorView>,
) -> bool {
    match records::validate_outcome(records, s.columns, s.was_string) {
        Err(e) => result == Err::<(Seq<DictView>, MatrixView), ErrorView>(e),
        Ok(dicts) => encoded_with(model, s.columns, dicts, result),
    }
}

/// Whether this is what encoding records comes to: the records with their embeddings.
pub open spec fn encoded_with<E: Encoder + ?Sized>(
    model: &E,
    columns: Seq<Seq<char>>,
    dicts: Seq<DictView>,
    result: std::result::Result<(Seq<DictView>, MatrixView), ErrorView>,
) -> bool {
    exists|embeddings: std::result::Result<MatrixView, ErrorView>| #[trigger]
        features::featurized(model, dicts, columns, embeddings) && result == match embeddings {
            Err(e) => Err(e),
            Ok(m) => Ok((dicts, m)),
        }
}

/// The ranking of the records of an instance: the one that it keeps, or else by the given scores.
pub open spec fn self_ranking(s: SemHashView, scores: Seq<Float32>) -> FilterView {
    match s.ranking {
        Some(ranking) => ranking,
        None => representatives::ranked_view(
            representatives::first_records(s.items),
            scores,
        ),
    }
}

/// An instance that keeps a ranking.
pub open spec fn keeping(s: SemHashView, ranking: FilterView) -> SemHashView {
    SemHashView { ranking: Some(ranking), ..s }
}

/// Whether the outliers of a ranking can be filtered: there are scores for the records that stay.
pub open spec fn splittable(ranking: FilterView, outlier_percentage: Float32) -> bool {
    scaling::scaled(ranking.selected.len(), outlier_percentage, true) == 0
        || ranking.scores_selected.len() >= representatives::outliers_begin(
        ranking.selected.len(),
        outlier_percentage,
    )
}

impl<E: Encoder + ?Sized> SemHash<E> {
    /// The first step of a ranking: returns the records and the embeddings that are to be
    /// compared with the vectors of the index.
    pub fn prepare_ranking(&self, records: Vec<Record>) -> (r: Result<
        (Vec<DictRecord>, Embeddings),
    >)
        ensures
            ranking_prepared(
                &*self.encoder(),
                self.deep_view(),
                records.deep_view(),
                error::outcome(r),
            ),
    {
        let dicts = match self.validate(&records) {
            Ok(dicts) => dicts,
            Err(e) => {
                return Err(e);
            },
        };
        let ghost ds = dicts.deep_view();
        let reply = self.encode(&dicts);
        assert(features::featurized(
            &*self.encoder(),
            ds,
            self.deep_view().columns,
            error::outcome(reply),
        ));
        match reply {
            Ok(embeddings) => {
                let r: Result<(Vec<DictRecord>, Embeddings)> = Ok((dicts, embeddings));
                assert(encoded_with(
                    &*self.encoder(),
                    self.deep_view().columns,
                    ds,
                    error::outcome(r),
                ));
                r
            },
            Err(e) => {
                let r: Result<(Vec<DictRecord>, Embeddings)> = Err(e);
                assert(encoded_with(
                    &*self.encoder(),
                    self.deep_view().columns,
                    ds,
                    error::outcome(r),
                ));
                r
            },
        }
    }

    /// The second step of a ranking: the similarities of each record that its score is the mean
    /// of, given all its similarities to the vectors of the index.
    pub fn ranking_similarities(&self, embeddings: &Embeddings, similarities: &Embeddings) -> (r:
        Result<Vec<Vec<Float32>>>)
        requires
            fitted(self.deep_view()),
            index::similarity_rows(
                self.deep_view().vectors,
                embeddings.deep_view(),
                similarities.deep_view(),
            ),
        ensures
            error::outcome(r) == index::highest_outcome(
                self.deep_view().vectors,
                embeddings.deep_view(),
                similarities.deep_view(),
                RANKING_NEIGHBORS as nat,
                false,
            ),
    {
        self.index.top_k_similarities(embeddings, similarities, RANKING_NEIGHBORS, false)
    }

    /// The similarities of each vector of the index that the score of its record is the mean of,
    /// given the similarities of the vectors to each other.
    pub fn self_ranking_similarities(&self, similarities: &Embeddings) -> (r: Result<
        Vec<Vec<Float32>>,
    >)
        requires
            fitted(self.deep_view()),
            index::similarity_rows(
                self.deep_view().vectors,
                self.deep_view().vectors,
                similarities.deep_view(),
            ),
        ensures
            error::outcome(r) == index::highest_outcome(
                self.deep_view().vectors,
                self.deep_view().vectors,
                similarities.deep_view(),
                RANKING_NEIGHBORS as nat,
                true,
            ),
    {
        self.index.top_k_similarities(&self.index.vectors, similarities, RANKING_NEIGHBORS, true)
    }

    /// Ranks records by their average similarity to neighbors in the fitted index.
    pub fn rank_by_average_similarity(
        &self,
        records: &Vec<DictRecord>,
        scores: &Vec<Float32>,
    ) -> (r: FilterResult)
        ensures
            r.deep_view() == representatives::ranked_view(records.deep_view(), scores@),
    {
        rank_by_scores(records, scores)
    }

    /// Whether the instance keeps a ranking of its records, so that no scores are needed for one.
    pub fn has_ranking(&self) -> (r: bool)
        ensures
            r == (self.deep_view().ranking is Some),
    {
        self.ranking_cache.is_some()
    }

    /// Ranks the records of the fitted index by their average similarity to their neighbors, and
    /// keeps the ranking. A ranking that is kept already is returned as it is.
    pub fn self_rank_by_average_similarity(&mut self, scores: &Vec<Float32>) -> (r: FilterResult)
        ensures
            r.deep_view() == self_ranking(old(self).deep_view(), scores@),
            final(self).deep_view() == keeping(
                old(self).deep_view(),
                self_ranking(old(self).deep_view(), scores@),
            ),
            final(self).encoder() == old(self).encoder(),
    {
        if let Some(ranking) = &self.ranking_cache {
            return ranking.clone();
        }
        let firsts = list_first_records(&self.index.items);
        let ranking = rank_by_scores(&firsts, scores);
        self.ranking_cache = Some(ranking.clone());
        ranking
    }

    /// Filters the outliers of a ranking of records.
    pub fn filter_outliers(&self, ranking: FilterResult, outlier_percentage: Float32) -> (r: Result<
        FilterResult,
    >)
        requires
            float::in_unit_range(outlier_percentage) ==> splittable(
                ranking.deep_view(),
                outlier_percentage,
            ),
        ensures
            error::outcome(r) == representatives::outliers_outcome(
                ranking.deep_view(),
                outlier_percentage,
            ),
    {
        match validate_outlier_percentage(outlier_percentage) {
            Ok(_) => {
                assert(ranking.deep_view().selected.len() == ranking.selected.len());
                Ok(split_outliers(ranking, outlier_percentage))
            },
            Err(e) => Err(e),
        }
    }

    /// Filters the outliers of the fitted dataset.
    pub fn self_filter_outliers(&mut self, scores: &Vec<Float32>, outlier_percentage: Float32) -> (r:
        Result<FilterResult>)
        requires
            fitted(old(self).deep_view()),
        ensures
            error::outcome(r) == representatives::outliers_outcome(
                self_ranking(old(self).deep_view(), scores@),
                outlier_percentage,
            ),
            final(self).deep_view() == if float::in_unit_range(outlier_percentage) {
                keeping(old(self).deep_view(), self_ranking(old(self).deep_view(), scores@))
            } else {
                old(self).deep_view()
            },
            final(self).encoder() == old(self).encoder(),
    {
        match validate_outlier_percentage(outlier_percentage) {
            Ok(_) => {},
            Err(e) => {
                return Err(e);
            },
        }
        let ranking = self.self_rank_by_average_similarity(scores);
        assert(ranking.deep_view().selected.len() == ranking.selected.len());
        Ok(split_outliers(ranking, outlier_percentage))
    }
}

// ---------------------------------------------------------------------------------------------
// Representative records

/// Ranked candidates on their way through diversification.
#[derive(Clone, Debug, PartialEq)]
pub struct RankedDiversification {
    pub candidates: Vec<Record>,
    pub relevance: Vec<Float32>,
    pub embeddings: Embeddings,
    pub choice: Diversification,
}

/// What a diversification of ranked candidates is.
#[verifier::ext_equal]
pub struct RankedView {
    pub candidates: Seq<RecordView>,
    pub relevance: Seq<Float32>,
    pub embeddings: MatrixView,
    pub choice: DiversificationView,
}

impl DeepView for RankedDiversification {
    type V = RankedView;

    open spec fn deep_view(&self) -> RankedView {
        RankedView {
            candidates: self.candidates.deep_view(),
            relevance: self.relevance@,
            embeddings: self.embeddings.deep_view(),
            choice: self.choice.deep_view(),
        }
    }
}

/// The start of a diversification of candidates with the given embeddings.
pub open spec fn ranked_start(
    candidates: Seq<RecordView>,
    relevance: Seq<Float32>,
    embeddings: std::result::Result<MatrixView, ErrorView>,
    k: nat,
    diversity: Float32,
) -> std::result::Result<RankedView, ErrorView> {
    match embeddings {
        Err(e) => Err(e),
        Ok(m) => match strategy::start_outcome(m.len(), relevance, k, diversity) {
            Err(e) => Err(e),
            Ok(choice) => Ok(RankedView { candidates, relevance, embeddings: m, choice }),
        },
    }
}

/// Whether this is what encoding candidates and starting to choose comes to.
pub open spec fn started_with<E: Encoder + ?Sized>(
    model: &E,
    columns: Seq<Seq<char>>,
    candidates: Seq<RecordView>,
    relevance: Seq<Float32>,
    dicts: Seq<DictView>,
    k: nat,
    diversity: Float32,
    result: std::result::Result<RankedView, ErrorView>,
) -> bool {
    exists|embeddings: std::result::Result<MatrixView, ErrorView>| #[trigger]
        features::featurized(model, dicts, columns, embeddings) && result == ranked_start(
            candidates,
            relevance,
            embeddings,
            k,
            diversity,
        )
}

/// Whether this is what starting to diversify a ranking comes to, for some replies of the model:
/// the candidates are the records that rank first, up to the limit.
pub open spec fn diversification_started<E: Encoder + ?Sized>(
    model: &E,
    columns: Seq<Seq<char>>,
    ranking: FilterView,
    limit: nat,
    k: nat,
    diversity: Float32,
    result: std::result::Result<RankedView, ErrorView>,
) -> bool {
    let candidates = representatives::candidates_of(ranking, limit);
    let relevance = ranking.scores_selected.take(candidates.len() as int);
    if candidates.len() == 0 {
        result == Ok::<RankedView, ErrorView>(
            RankedView {
                candidates: seq![],
                relevance: seq![],
                embeddings: seq![],
                choice: strategy::started(seq![], k, diversity),
            },
        )
    } else {
        match records::candidates_outcome(candidates, columns) {
            Err(e) => result == Err::<RankedView, ErrorView>(e),
            Ok(dicts) => started_with(
                model,
                columns,
                candidates,
                relevance,
                dicts,
                k,
                diversity,
                result,
            ),
        }
    }
}

/// Whether a ranking has a score for each of its candidates.
pub open spec fn covers_candidates(ranking: FilterView, limit: nat) -> bool {
    ranking.scores_selected.len() >= representatives::candidates_of(ranking, limit).len()
}

impl RankedDiversification {
    /// The result: the candidates that were chosen, and those that were not.
    pub fn finish(self) -> (r: FilterResult)
        requires
            self.candidates.len() == self.relevance.len(),
            strategy::sound(self.choice.deep_view(), self.candidates.len() as nat),
        ensures
            r.deep_view() == representatives::chosen_view(
                self.candidates.deep_view(),
                self.relevance@,
                self.choice.selected@,
                self.choice.selection_scores@,
            ),
    {
        proof {
            strategy::selection_is_distinct(
                self.choice.deep_view(),
                self.candidates.len() as nat,
            );
            assert(self.choice.deep_view().selected == self.choice.selected@);
        }
        let chosen = self.choice.into_result();
        collect_chosen(&self.candidates, &self.relevance, &chosen.indices, chosen.selection_scores)
    }
}

impl<E: Encoder + ?Sized> SemHash<E> {
    /// Starts to diversify the top candidates of a ranking.
    pub fn diversify_ranked(
        &self,
        ranked_results: FilterResult,
        candidate_limit: usize,
        selection_size: usize,
        diversity: Float32,
        strategy: Strategy,
    ) -> (r: Result<RankedDiversification>)
        requires
            covers_candidates(ranked_results.deep_view(), candidate_limit as nat),
        ensures
            diversification_started(
                &*self.encoder(),
                self.deep_view().columns,
                ranked_results.deep_view(),
                candidate_limit as nat,
                selection_size as nat,
                diversity,
                error::outcome(r),
            ),
            r matches Ok(d) ==> d.candidates.len() == d.relevance.len() && strategy::sound(
                d.choice.deep_view(),
                d.candidates.len() as nat,
            ),
    {
        let ghost view = ranked_results.deep_view();
        let mut candidates = ranked_results.selected;
        let mut relevance = ranked_results.scores_selected;
        if candidates.len() > candidate_limit {
            candidates.truncate(candidate_limit);
        }
        let count: usize = candidates.len();
        relevance.truncate(count);
        let ghost cs = representatives::candidates_of(view, candidate_limit as nat);
        let ghost rel = view.scores_selected.take(count as int);
        assert(candidates.deep_view() =~= cs);
        assert(relevance@ =~= rel);
        let ghost columns_view = self.deep_view().columns;
        let columns = self.columns.as_slice();
        assert(columns.deep_view() =~= columns_view);
        let listed = candidates.as_slice();
        assert(listed.deep_view() =~= cs);
        if count == 0 {
            let embeddings: Embeddings = Vec::new();
            let scores = relevance.as_slice();
            assert(scores@ =~= seq![]);
            let choice = match diversify(&embeddings, scores, selection_size, strategy, diversity) {
                Ok(choice) => choice,
                Err(e) => {
                    assert(false);
                    return Err(e);
                },
            };
            proof {
                strategy::start_is_sound(scores@, selection_size as nat, diversity);
            }
            assert(candidates.deep_view() =~= seq![]);
            assert(embeddings.deep_view() =~= seq![]);
            assert(relevance@ =~= seq![]);
            return Ok(RankedDiversification { candidates, relevance, embeddings, choice });
        }
        let dicts = match records_to_dicts_for_featurize(listed, columns) {
            Ok(dicts) => dicts,
            Err(e) => {
                return Err(e);
            },
        };
        let ghost ds = dicts.deep_view();
        let reply = self.encode(&dicts);
        let ghost reply_view = error::outcome(reply);
        assert(features::featurized(&*self.encoder(), ds, columns_view, reply_view));
        let ghost result = ranked_start(cs, rel, reply_view, selection_size as nat, diversity);
        assert(started_with(
            &*self.encoder(),
            columns_view,
            cs,
            rel,
            ds,
            selection_size as nat,
            diversity,
            result,
        ));
        let embeddings = match reply {
            Ok(embeddings) => embeddings,
            Err(e) => {
                return Err(e);
            },
        };
        let scores = relevance.as_slice();
        assert(scores@ =~= rel);
        let choice = match diversify(&embeddings, scores, selection_size, strategy, diversity) {
            Ok(choice) => choice,
            Err(e) => {
                return Err(e);
            },
        };
        proof {
            strategy::start_is_sound(rel, selection_size as nat, diversity);
        }
        Ok(RankedDiversification { candidates, relevance, embeddings, choice })
    }

    /// Starts to find representative samples of a ranking of records.
    pub fn find_representative(
        &self,
        ranking: FilterResult,
        selection_size: usize,
        candidate_limit: CandidateLimit,
        diversity: Float32,
        strategy: Strategy,
    ) -> (r: Result<RankedDiversification>)
        requires
            covers_candidates(
                ranking.deep_view(),
                representatives::limit_of(
                    candidate_limit,
                    ranking.selected.len() as nat,
                    selection_size as nat,
                ),
            ),
        ensures
            diversification_started(
                &*self.encoder(),
                self.deep_view().columns,
                ranking.deep_view(),
                representatives::limit_of(
                    candidate_limit,
                    ranking.selected.len() as nat,
                    selection_size as nat,
                ),
                selection_size as nat,
                diversity,
                error::outcome(r),
            ),
            r matches Ok(d) ==> d.candidates.len() == d.relevance.len() && strategy::sound(
                d.choice.deep_view(),
                d.candidates.len() as nat,
            ),
    {
        let limit: usize = candidate_limit.resolve(ranking.selected.len(), selection_size);
        assert(ranking.deep_view().selected.len() == ranking.selected.len());
        self.diversify_ranked(ranking, limit, selection_size, diversity, strategy)
    }

    /// Starts to find representative samples of the fitted dataset.
    pub fn self_find_representative(
        &mut self,
        scores: &Vec<Float32>,
        selection_size: usize,
        candidate_limit: CandidateLimit,
        diversity: Float32,
        strategy: Strategy,
    ) -> (r: Result<RankedDiversification>)
        requires
            fitted(old(self).deep_view()),
        ensures
            ({
                let ranking = self_ranking(old(self).deep_view(), scores@);
                diversification_started(
                    &*old(self).encoder(),
                    old(self).deep_view().columns,
                    ranking,
                    representatives::limit_of(
                        candidate_limit,
                        ranking.selected.len(),
                        selection_size as nat,
                    ),
                    selection_size as nat,
                    diversity,
                    error::outcome(r),
                )
            }),
            r matches Ok(d) ==> d.candidates.len() == d.relevance.len() && strategy::sound(
                d.choice.deep_view(),
                d.candidates.len() as nat,
            ),
            final(self).deep_view() == keeping(
                old(self).deep_view(),
                self_ranking(old(self).deep_view(), scores@),
            ),
            final(self).encoder() == old(self).encoder(),
    {
        let ranking = self.self_rank_by_average_similarity(scores);
        assert(ranking.deep_view().selected.len() == ranking.selected.len());
        self.find_representative(ranking, selection_size, candidate_limit, diversity, strategy)
    }
}

} // verus!
