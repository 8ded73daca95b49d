//! The index: one vector for each bucket of exact duplicates, and what a query finds in it.
//!
//! A query is answered from its similarities to the vectors of the index, one row of them for
//! each query. The caller computes these; the index says which records they lead to.

use crate::error;
use crate::error::{ErrorView, Result};
use crate::features;
use crate::features::{validate_embeddings_shape, Embeddings, MatrixView};
use crate::float::Float32;
use crate::ranking;
use crate::ranking::trim_top_k;
use crate::value::{DictRecord, DictView};
use vstd::multiset::Multiset;
use vstd::prelude::*;
use vstd::relations::*;
use vstd::seq_lib::*;

verus! {

/// Backend selector. All variants search exactly, by cosine similarity.
#[derive(Clone, Copy, Debug, PartialEq, Eq, Hash, Structural)]
pub enum Backend {
    Usearch,
    Exact,
    Hnsw,
    Flat,
}

impl Default for Backend {
    fn default() -> (r: Self)
        ensures
            r == Backend::Usearch,
    {
        Backend::Usearch
    }
}

/// Top-k query result: index ids and cosine similarity scores.
pub type SingleQueryResult = (Vec<usize>, Vec<Float32>);

/// Threshold query document score.
pub type DocScore = (DictRecord, Float32);

/// Threshold query scores for one query.
pub type DocScores = Vec<DocScore>;

/// The most neighbors that a threshold query takes into account.
pub const NEIGHBOR_LIMIT: usize = 100;

/// A vector index that maps vectors to exact-duplicate record buckets.
#[derive(Clone, Debug, PartialEq)]
pub struct Index {
    pub vectors: Embeddings,
    pub items: Vec<Vec<DictRecord>>,
    pub backend: Backend,
}

// ---------------------------------------------------------------------------------------------
// The shape of an index and of its queries

/// The number of columns of a matrix, by its first row.
pub open spec fn width(m: MatrixView) -> usize {
    if m.len() == 0 {
        0
    } else {
        m[0].len() as usize
    }
}

impl Index {
    /// An index has a bucket for each of its vectors, and these are the rows of a matrix.
    pub open spec fn wf(&self) -> bool {
        &&& self.vectors.len() == self.items.len()
        &&& features::shape_outcome(self.vectors.deep_view(), self.items.len() as nat, None) is Ok
    }
}

/// Whether queries have the shape that an index of these vectors takes.
pub open spec fn query_outcome(vectors: MatrixView, queries: MatrixView) -> std::result::Result<
    usize,
    ErrorView,
> {
    features::shape_outcome(queries, queries.len(), Some(width(vectors)))
}

/// Whether the rows can be the similarities of queries to vectors: where the queries are
/// answered at all, there is one row for each query, and in it one number for each vector.
pub open spec fn similarity_rows(
    vectors: MatrixView,
    queries: MatrixView,
    rows: MatrixView,
) -> bool {
    vectors.len() > 0 && query_outcome(vectors, queries) is Ok ==> {
        &&& rows.len() == queries.len()
        &&& forall|q: int| 0 <= q < rows.len() ==> (#[trigger] rows[q]).len() == vectors.len()
    }
}

// ---------------------------------------------------------------------------------------------
// Neighbors

/// Keys by which positions rank from the highest number down.
pub open spec fn falling_keys(row: Seq<Float32>) -> Seq<i64> {
    Seq::new(row.len(), |i: int| (-row[i].total()) as i64)
}

/// The positions whose numbers reach a threshold.
pub open spec fn reaching(row: Seq<Float32>, threshold: Float32) -> Seq<usize>
    decreases row.len(),
{
    if row.len() == 0 {
        seq![]
    } else {
        let rest = reaching(row.drop_last(), threshold);
        if row.last().reaches(threshold) {
            rest.push((row.len() - 1) as usize)
        } else {
            rest
        }
    }
}

/// The positions that reach a threshold, the highest numbers first, and at most as many as a
/// query takes into account.
pub open spec fn neighbors(row: Seq<Float32>, threshold: Float32) -> Seq<usize> {
    ranking::best(falling_keys(row), reaching(row, threshold), NEIGHBOR_LIMIT as nat)
}

/// The records of a bucket, each with the score of the bucket.
pub open spec fn scored_bucket(bucket: Seq<DictView>, score: Float32) -> Seq<(DictView, Float32)> {
    Seq::new(bucket.len(), |i: int| (bucket[i], score))
}

/// The records of the buckets at some positions, each with the number at its position.
pub open spec fn expanded(
    items: Seq<Seq<DictView>>,
    row: Seq<Float32>,
    positions: Seq<usize>,
) -> Seq<(DictView, Float32)>
    decreases positions.len(),
{
    if positions.len() == 0 {
        seq![]
    } else {
        let p = positions.last() as int;
        expanded(items, row, positions.drop_last()) + scored_bucket(items[p], row[p])
    }
}

/// The records that a query finds at a threshold, given its similarities.
pub open spec fn doc_scores(
    items: Seq<Seq<DictView>>,
    row: Seq<Float32>,
    threshold: Float32,
) -> Seq<(DictView, Float32)> {
    expanded(items, row, neighbors(row, threshold))
}

/// The records that each query finds at a threshold; nothing at all in an empty index.
pub open spec fn threshold_outcome(
    vectors: MatrixView,
    items: Seq<Seq<DictView>>,
    queries: MatrixView,
    rows: MatrixView,
    threshold: Float32,
) -> std::result::Result<Seq<Seq<(DictView, Float32)>>, ErrorView> {
    if vectors.len() == 0 {
        Ok(seq![])
    } else {
        match query_outcome(vectors, queries) {
            Err(e) => Err(e),
            Ok(_) => Ok(Seq::new(queries.len(), |q: int| doc_scores(items, rows[q], threshold))),
        }
    }
}

/// The positions among which a query looks for neighbors: all, but for its own where the
/// queries are the vectors of the index.
pub open spec fn other_positions(n: nat, query: int, in_index: bool) -> Seq<usize> {
    if in_index && query < n {
        ranking::all_positions(n).remove(query)
    } else {
        ranking::all_positions(n)
    }
}

/// The `k` nearest neighbors of a query, with their similarities.
pub open spec fn nearest(row: Seq<Float32>, query: int, k: nat, in_index: bool) -> (
    Seq<usize>,
    Seq<Float32>,
) {
    let order = ranking::best(falling_keys(row), other_positions(row.len(), query, in_index), k);
    (order, Seq::new(order.len(), |i: int| row[order[i] as int]))
}

/// The `k` nearest neighbors of each query; nothing at all in an empty index.
pub open spec fn top_k_outcome(
    vectors: MatrixView,
    queries: MatrixView,
    rows: MatrixView,
    k: nat,
    in_index: bool,
) -> std::result::Result<Seq<(Seq<usize>, Seq<Float32>)>, ErrorView> {
    if vectors.len() == 0 {
        Ok(seq![])
    } else {
        match query_outcome(vectors, queries) {
            Err(e) => Err(e),
            Ok(_) => Ok(Seq::new(queries.len(), |q: int| nearest(rows[q], q, k, in_index))),
        }
    }
}

// ---------------------------------------------------------------------------------------------
// The highest similarities of a query

/// The number of leading items that are below a number.
pub open spec fn leading_below(best: Seq<Float32>, similarity: Float32) -> int
    decreases best.len(),
{
    if best.len() == 0 || !best[0].below(similarity) {
        0
    } else {
        1 + leading_below(best.drop_first(), similarity)
    }
}

/// A list with a number put in after the leading items that are below it.
pub open spec fn put_in(best: Seq<Float32>, similarity: Float32) -> Seq<Float32> {
    best.insert(leading_below(best, similarity), similarity)
}

/// A list of at most `take` numbers, lowest first, after one more number was offered to it.
pub open spec fn offered(best: Seq<Float32>, similarity: Float32, take: nat) -> Seq<Float32> {
    if best.len() < take {
        put_in(best, similarity)
    } else if best[0].reaches(similarity) {
        best
    } else {
        put_in(best.drop_first(), similarity)
    }
}

/// The `take` highest of some numbers, lowest first: what is left when they were offered one by
/// one.
pub open spec fn highest(numbers: Seq<Float32>, take: nat) -> Seq<Float32>
    decreases numbers.len(),
{
    if numbers.len() == 0 || take == 0 {
        seq![]
    } else {
        offered(highest(numbers.drop_last(), take), numbers.last(), take)
    }
}

/// The similarities of a query to the vectors of the index, but for its own where the queries
/// are those vectors.
pub open spec fn other_similarities(row: Seq<Float32>, query: int, in_index: bool) -> Seq<Float32> {
    if in_index && query < row.len() {
        row.remove(query)
    } else {
        row
    }
}

/// How many similarities go into a mean: `k`, or all other vectors of the index where they are
/// fewer.
pub open spec fn neighbor_count(vectors: nat, k: nat, in_index: bool) -> nat {
    let others: nat = if in_index && vectors > 0 {
        (vectors - 1) as nat
    } else {
        vectors
    };
    if k <= others {
        k
    } else {
        others
    }
}

/// The similarities of each query that go into its mean; nothing at all in an empty index.
pub open spec fn highest_outcome(
    vectors: MatrixView,
    queries: MatrixView,
    rows: MatrixView,
    k: nat,
    in_index: bool,
) -> std::result::Result<Seq<Seq<Float32>>, ErrorView> {
    if vectors.len() == 0 {
        Ok(seq![])
    } else {
        match query_outcome(vectors, queries) {
            Err(e) => Err(e),
            Ok(_) => Ok(
                Seq::new(
                    queries.len(),
                    |q: int|
                        highest(
                            other_similarities(rows[q], q, in_index),
                            neighbor_count(vectors.len(), k, in_index),
                        ),
                ),
            ),
        }
    }
}

// ---------------------------------------------------------------------------------------------
// Building and querying

/// Checks that queries have the expected number of columns.
pub fn validate_query_dims(vectors: &Embeddings, expected_cols: usize) -> (r: Result<()>)
    ensures
        match features::shape_outcome(
            vectors.deep_view(),
            vectors.len() as nat,
            Some(expected_cols),
        ) {
            Ok(_) => r is Ok,
            Err(e) => r is Err && r->Err_0.deep_view() == e,
        },
{
    match validate_embeddings_shape(vectors, vectors.len(), Some(expected_cols)) {
        Ok(_) => Ok(()),
        Err(e) => Err(e),
    }
}

fn keys_falling(row: &Vec<Float32>) -> (keys: Vec<i64>)
    ensures
        keys@ == falling_keys(row@),
{
    let mut keys: Vec<i64> = Vec::new();
    let mut i: usize = 0;
    while i < row.len()
        invariant
            i <= row.len(),
            keys@ == falling_keys(row@.take(i as int)),
        decreases row.len() - i,
    {
        keys.push(-row[i].total_key());
        i = i + 1;
        assert(keys@ =~= falling_keys(row@.take(i as int)));
    }
    assert(row@.take(row.len() as int) =~= row@);
    keys
}

pub(crate) proof fn lemma_reaching(row: Seq<Float32>, threshold: Float32)
    ensures
        forall|k: int|
            0 <= k < reaching(row, threshold).len() ==> (#[trigger] reaching(row, threshold)[k])
                < row.len() || row.len() > usize::MAX,
        reaching(row, threshold).len() <= row.len(),
    decreases row.len(),
{
    if row.len() > 0 {
        lemma_reaching(row.drop_last(), threshold);
        let rest = reaching(row.drop_last(), threshold);
        assert forall|k: int| 0 <= k < reaching(row, threshold).len() implies (
        #[trigger] reaching(row, threshold)[k]) < row.len() || row.len() > usize::MAX by {
            if k < rest.len() {
                assert(reaching(row, threshold)[k] == rest[k]);
            }
        }
    }
}

fn positions_reaching(row: &Vec<Float32>, threshold: Float32) -> (positions: Vec<usize>)
    ensures
        positions@ == reaching(row@, threshold),
{
    let mut positions: Vec<usize> = Vec::new();
    let mut i: usize = 0;
    while i < row.len()
        invariant
            i <= row.len(),
            positions@ == reaching(row@.take(i as int), threshold),
        decreases row.len() - i,
    {
        assert(row@.take(i + 1).drop_last() =~= row@.take(i as int));
        if row[i].is_at_least(threshold) {
            positions.push(i);
        }
        i = i + 1;
    }
    assert(row@.take(row.len() as int) =~= row@);
    positions
}

impl Index {
    pub fn new(vectors: Embeddings, items: Vec<Vec<DictRecord>>, backend: Backend) -> (r: Result<
        Self,
    >)
        ensures
            match features::shape_outcome(vectors.deep_view(), items.len() as nat, None) {
                Ok(_) => r is Ok && r->Ok_0 == (Index { vectors, items, backend })
                    && r->Ok_0.wf(),
                Err(e) => r is Err && r->Err_0.deep_view() == e,
            },
    {
        match validate_embeddings_shape(&vectors, items.len(), None) {
            Ok(_) => Ok(Index { vectors, items, backend }),
            Err(e) => Err(e),
        }
    }

    /// Loads the index from vectors and items.
    pub fn from_vectors_and_items(
        vectors: Embeddings,
        items: Vec<Vec<DictRecord>>,
        backend_type: Backend,
    ) -> (r: Result<Self>)
        ensures
            match features::shape_outcome(vectors.deep_view(), items.len() as nat, None) {
                Ok(_) => r is Ok && r->Ok_0 == (Index { vectors, items, backend: backend_type })
                    && r->Ok_0.wf(),
                Err(e) => r is Err && r->Err_0.deep_view() == e,
            },
    {
        Index::new(vectors, items, backend_type)
    }

    /// The number of columns of the vectors.
    pub fn dimensions(&self) -> (n: usize)
        ensures
            n == width(self.vectors.deep_view()),
    {
        if self.vectors.len() == 0 {
            0
        } else {
            assert(self.vectors.deep_view()[0].len() == self.vectors@[0]@.len());
            self.vectors[0].len()
        }
    }

    fn expand(&self, row: &Vec<Float32>, positions: &Vec<usize>) -> (found: DocScores)
        requires
            row.len() == self.items.len(),
            forall|k: int|
                0 <= k < positions.len() ==> (#[trigger] positions@[k]) < self.items.len(),
        ensures
            found.deep_view() == expanded(self.items.deep_view(), row@, positions@),
    {
        let ghost items = self.items.deep_view();
        let mut found: DocScores = Vec::new();
        let mut k: usize = 0;
        assert(found.deep_view() =~= seq![]);
        while k < positions.len()
            invariant
                k <= positions.len(),
                items == self.items.deep_view(),
                row.len() == self.items.len(),
                forall|k: int|
                    0 <= k < positions.len() ==> (#[trigger] positions@[k]) < self.items.len(),
                found.deep_view() == expanded(items, row@, positions@.take(k as int)),
            decreases positions.len() - k,
        {
            let p: usize = positions[k];
            let bucket = &self.items[p];
            let score = row[p];
            let ghost before = found.deep_view();
            let ghost whole = scored_bucket(items[p as int], score);
            assert(items[p as int] == bucket.deep_view());
            let mut i: usize = 0;
            assert(before + whole.take(0) =~= before);
            while i < bucket.len()
                invariant
                    i <= bucket.len(),
                    whole == scored_bucket(bucket.deep_view(), score),
                    found.deep_view() == before + whole.take(i as int),
                decreases bucket.len() - i,
            {
                let ghost so_far = found.deep_view();
                found.push((bucket[i].clone(), score));
                assert(found.deep_view() =~= so_far.push(whole[i as int]));
                i = i + 1;
                assert(found.deep_view() =~= before + whole.take(i as int));
            }
            assert(whole.take(bucket.len() as int) =~= whole);
            k = k + 1;
            assert(positions@.take(k as int).drop_last() =~= positions@.take(k - 1));
        }
        assert(positions@.take(positions.len() as int) =~= positions@);
        found
    }

    /// Queries the index with a cosine-similarity threshold, given the similarities of each
    /// query to the vectors of the index.
    pub fn query_threshold(
        &self,
        vectors: &Embeddings,
        similarities: &Embeddings,
        threshold: Float32,
    ) -> (r: Result<Vec<DocScores>>)
        requires
            self.wf(),
            similarity_rows(
                self.vectors.deep_view(),
                vectors.deep_view(),
                similarities.deep_view(),
            ),
        ensures
            error::outcome(r) == threshold_outcome(
                self.vectors.deep_view(),
                self.items.deep_view(),
                vectors.deep_view(),
                similarities.deep_view(),
                threshold,
            ),
    {
        let mut results: Vec<DocScores> = Vec::new();
        if self.vectors.len() == 0 {
            assert(results.deep_view() =~= seq![]);
            return Ok(results);
        }
        match validate_query_dims(vectors, self.dimensions()) {
            Ok(_) => {},
            Err(e) => {
                return Err(e);
            },
        }
        let ghost rows = similarities.deep_view();
        let ghost items = self.items.deep_view();
        let mut q: usize = 0;
        while q < similarities.len()
            invariant
                q <= similarities.len(),
                q == results.len(),
                rows == similarities.deep_view(),
                items == self.items.deep_view(),
                forall|i: int| 0 <= i < rows.len() ==> (#[trigger] rows[i]).len() == items.len(),
                forall|i: int|
                    0 <= i < q ==> (#[trigger] results@[i]).deep_view() == doc_scores(
                        items,
                        rows[i],
                        threshold,
                    ),
            decreases similarities.len() - q,
        {
            let row = &similarities[q];
            assert(rows[q as int] =~= row@);
            let keys = keys_falling(row);
            let positions = positions_reaching(row, threshold);
            proof {
                lemma_reaching(row@, threshold);
            }
            let order = trim_top_k(&keys, &positions, NEIGHBOR_LIMIT);
            proof {
                lemma_best_in(keys@, positions@, NEIGHBOR_LIMIT as nat, row.len());
            }
            results.push(self.expand(row, &order));
            q = q + 1;
        }
        assert(results.deep_view() =~= threshold_outcome(
            self.vectors.deep_view(),
            items,
            vectors.deep_view(),
            rows,
            threshold,
        )->Ok_0);
        Ok(results)
    }
}

/// The best of positions below a bound are below it too.
proof fn lemma_best_in(keys: Seq<i64>, positions: Seq<usize>, take: nat, bound: usize)
    requires
        forall|k: int| 0 <= k < positions.len() ==> #[trigger] positions[k] < bound,
    ensures
        forall|k: int|
            0 <= k < ranking::best(keys, positions, take).len() ==> (#[trigger] ranking::best(
                keys,
                positions,
                take,
            )[k]) < bound,
{
    let r = ranking::ranked(keys, positions);
    let b = ranking::best(keys, positions, take);
    assert forall|k: int| 0 <= k < b.len() implies (#[trigger] b[k]) < bound by {
        assert(b[k] == r[k]);
        assert(r.contains(r[k])) by {
            ranking::ranked_is_sorted(keys, positions);
        }
        ranking::ranked_contains(keys, positions, r[k]);
    }
}


fn positions_of_others(n: usize, query: usize, in_index: bool) -> (positions: Vec<usize>)
    ensures
        positions@ == other_positions(n as nat, query as int, in_index),
{
    let ghost skipping = in_index && query < n;
    let mut positions: Vec<usize> = Vec::new();
    let mut i: usize = 0;
    while i < n
        invariant
            i <= n,
            skipping == (in_index && query < n),
            positions@ == if skipping && i > query {
                ranking::all_positions(i as nat).remove(query as int)
            } else {
                ranking::all_positions(i as nat)
            },
        decreases n - i,
    {
        if !(in_index && i == query) {
            positions.push(i);
        }
        i = i + 1;
        assert(positions@ =~= if skipping && i > query {
            ranking::all_positions(i as nat).remove(query as int)
        } else {
            ranking::all_positions(i as nat)
        });
    }
    positions
}

/// Offers one more number to a list of at most `take` numbers, lowest first.
fn push_top_similarity(best: &mut Vec<Float32>, similarity: Float32, take: usize)
    requires
        take > 0,
        old(best).len() <= take,
    ensures
        final(best)@ == offered(old(best)@, similarity, take as nat),
        final(best).len() <= take,
{
    if best.len() >= take {
        if best[0].is_at_least(similarity) {
            return;
        }
        let _ = best.remove(0);
        assert(best@ =~= old(best)@.drop_first());
    }
    let ghost list = best@;
    let mut at: usize = 0;
    assert(list.skip(0) =~= list);
    while at < best.len() && best[at].is_below(similarity)
        invariant
            at <= best.len(),
            best@ == list,
            leading_below(list, similarity) == at + leading_below(list.skip(at as int), similarity),
        decreases best.len() - at,
    {
        assert(list.skip(at as int).drop_first() =~= list.skip(at + 1));
        at = at + 1;
    }
    best.insert(at, similarity);
}

impl Index {
    /// Queries the index with top-k nearest neighbors, given the similarities of each query to
    /// the vectors of the index.
    pub fn query_top_k(
        &self,
        vectors: &Embeddings,
        similarities: &Embeddings,
        k: usize,
        vectors_are_in_index: bool,
    ) -> (r: Result<Vec<SingleQueryResult>>)
        requires
            self.wf(),
            similarity_rows(
                self.vectors.deep_view(),
                vectors.deep_view(),
                similarities.deep_view(),
            ),
        ensures
            error::outcome(r) == top_k_outcome(
                self.vectors.deep_view(),
                vectors.deep_view(),
                similarities.deep_view(),
                k as nat,
                vectors_are_in_index,
            ),
    {
        let mut results: Vec<SingleQueryResult> = Vec::new();
        if self.vectors.len() == 0 {
            assert(results.deep_view() =~= seq![]);
            return Ok(results);
        }
        match validate_query_dims(vectors, self.dimensions()) {
            Ok(_) => {},
            Err(e) => {
                return Err(e);
            },
        }
        let ghost rows = similarities.deep_view();
        let mut q: usize = 0;
        while q < similarities.len()
            invariant
                q <= similarities.len(),
                q == results.len(),
                rows == similarities.deep_view(),
                forall|i: int|
                    0 <= i < q ==> (#[trigger] results@[i]).deep_view() == nearest(
                        rows[i],
                        i,
                        k as nat,
                        vectors_are_in_index,
                    ),
            decreases similarities.len() - q,
        {
            let row = &similarities[q];
            assert(rows[q as int] =~= row@);
            let keys = keys_falling(row);
            let positions = positions_of_others(row.len(), q, vectors_are_in_index);
            let order = trim_top_k(&keys, &positions, k);
            proof {
                lemma_best_in(keys@, positions@, k as nat, row.len());
            }
            let mut scores: Vec<Float32> = Vec::new();
            let mut i: usize = 0;
            while i < order.len()
                invariant
                    i <= order.len(),
                    i == scores.len(),
                    forall|j: int|
                        0 <= j < order.len() ==> (#[trigger] order@[j]) < row.len(),
                    forall|j: int|
                        0 <= j < i ==> #[trigger] scores@[j] == row@[order@[j] as int],
                decreases order.len() - i,
            {
                scores.push(row[order[i]]);
                i = i + 1;
            }
            proof {
                let expected = nearest(rows[q as int], q as int, k as nat, vectors_are_in_index);
                assert(order.deep_view() =~= expected.0);
                assert(scores.deep_view() =~= expected.1);
            }
            results.push((order, scores));
            q = q + 1;
        }
        assert(results.deep_view() =~= top_k_outcome(
            self.vectors.deep_view(),
            vectors.deep_view(),
            rows,
            k as nat,
            vectors_are_in_index,
        )->Ok_0);
        Ok(results)
    }

    /// The highest similarities of each query to the vectors of the index, lowest first: those
    /// whose mean says how close the query is to its top-k nearest neighbors. Where there are
    /// none, the mean is taken to be zero.
    pub fn top_k_similarities(
        &self,
        vectors: &Embeddings,
        similarities: &Embeddings,
        k: usize,
        vectors_are_in_index: bool,
    ) -> (r: Result<Vec<Vec<Float32>>>)
        requires
            self.wf(),
            similarity_rows(
                self.vectors.deep_view(),
                vectors.deep_view(),
                similarities.deep_view(),
            ),
        ensures
            error::outcome(r) == highest_outcome(
                self.vectors.deep_view(),
                vectors.deep_view(),
                similarities.deep_view(),
                k as nat,
                vectors_are_in_index,
            ),
    {
        let mut results: Vec<Vec<Float32>> = Vec::new();
        if self.vectors.len() == 0 {
            assert(results.deep_view() =~= seq![]);
            return Ok(results);
        }
        match validate_query_dims(vectors, self.dimensions()) {
            Ok(_) => {},
            Err(e) => {
                return Err(e);
            },
        }
        let others: usize = if vectors_are_in_index {
            self.vectors.len() - 1
        } else {
            self.vectors.len()
        };
        let take: usize = if k <= others {
            k
        } else {
            others
        };
        let ghost rows = similarities.deep_view();
        let mut q: usize = 0;
        while q < similarities.len()
            invariant
                q <= similarities.len(),
                q == results.len(),
                rows == similarities.deep_view(),
                forall|i: int|
                    0 <= i < q ==> (#[trigger] results@[i]).deep_view() == highest(
                        other_similarities(rows[i], i, vectors_are_in_index),
                        take as nat,
                    ),
            decreases similarities.len() - q,
        {
            let row = &similarities[q];
            assert(rows[q as int] =~= row@);
            let best = highest_of_others(row, q, vectors_are_in_index, take);
            assert(best.deep_view() =~= best@);
            results.push(best);
            q = q + 1;
        }
        assert(results.deep_view() =~= highest_outcome(
            self.vectors.deep_view(),
            vectors.deep_view(),
            rows,
            k as nat,
            vectors_are_in_index,
        )->Ok_0);
        Ok(results)
    }
}

fn highest_of_others(row: &Vec<Float32>, query: usize, in_index: bool, take: usize) -> (best: Vec<
    Float32,
>)
    ensures
        best@ == highest(other_similarities(row@, query as int, in_index), take as nat),
{
    let mut best: Vec<Float32> = Vec::new();
    if take == 0 {
        return best;
    }
    let ghost others = other_similarities(row@, query as int, in_index);
    let ghost mut seen: int = 0;
    let mut i: usize = 0;
    assert(others.take(0) =~= seq![]);
    while i < row.len()
        invariant
            i <= row.len(),
            take > 0,
            others == other_similarities(row@, query as int, in_index),
            seen == if in_index && query < i {
                i - 1
            } else {
                i as int
            },
            best.len() <= take,
            best@ == highest(others.take(seen), take as nat),
        decreases row.len() - i,
    {
        if !(in_index && i == query) {
            push_top_similarity(&mut best, row[i], take);
            proof {
                assert(others[seen] == row@[i as int]);
                assert(others.take(seen + 1).drop_last() =~= others.take(seen));
                seen = seen + 1;
            }
        }
        i = i + 1;
    }
    assert(others.take(seen) =~= others);
    best
}

/// Neighbors are positions of the row.
pub(crate) proof fn lemma_neighbors_in(row: Seq<Float32>, threshold: Float32)
    requires
        row.len() <= usize::MAX,
    ensures
        forall|k: int|
            0 <= k < neighbors(row, threshold).len() ==> (#[trigger] neighbors(row, threshold)[k])
                < row.len(),
{
    lemma_reaching(row, threshold);
    if row.len() > 0 || reaching(row, threshold).len() == 0 {
        lemma_best_in(
            falling_keys(row),
            reaching(row, threshold),
            NEIGHBOR_LIMIT as nat,
            row.len() as usize,
        );
    }
}

// ---------------------------------------------------------------------------------------------
// Laws of threshold queries

/// A position is among those that reach a threshold exactly if its number does.
pub(crate) proof fn lemma_reaching_contains(row: Seq<Float32>, threshold: Float32, p: int)
    requires
        0 <= p < row.len() <= usize::MAX,
    ensures
        reaching(row, threshold).contains(p as usize) <==> row[p].reaches(threshold),
    decreases row.len(),
{
    let front = row.drop_last();
    let rest = reaching(front, threshold);
    let all = reaching(row, threshold);
    lemma_reaching(front, threshold);
    if p < front.len() {
        lemma_reaching_contains(front, threshold, p);
        if rest.contains(p as usize) {
            let k = choose|k: int| 0 <= k < rest.len() && rest[k] == p as usize;
            assert(all[k] == p as usize);
        }
        if all.contains(p as usize) {
            let k = choose|k: int| 0 <= k < all.len() && all[k] == p as usize;
            assert(k < rest.len());
            assert(rest[k] == p as usize);
        }
    } else if row.last().reaches(threshold) {
        assert(all[all.len() - 1] == p as usize);
    } else if all.contains(p as usize) {
        let k = choose|k: int| 0 <= k < all.len() && all[k] == p as usize;
        assert(rest[k] == p as usize);
    }
}

/// No position is listed twice.
pub(crate) proof fn lemma_reaching_distinct(row: Seq<Float32>, threshold: Float32)
    requires
        row.len() <= usize::MAX,
    ensures
        reaching(row, threshold).no_duplicates(),
    decreases row.len(),
{
    if row.len() > 0 {
        lemma_reaching_distinct(row.drop_last(), threshold);
        lemma_reaching(row.drop_last(), threshold);
    }
}

/// What is found at a position is a record of a listed bucket, with the number of that bucket.
pub(crate) proof fn lemma_expanded_from(
    items: Seq<Seq<DictView>>,
    row: Seq<Float32>,
    positions: Seq<usize>,
    k: int,
) -> (at: (int, int))
    requires
        0 <= k < expanded(items, row, positions).len(),
    ensures
        0 <= at.0 < positions.len(),
        0 <= at.1 < items[positions[at.0] as int].len(),
        expanded(items, row, positions)[k] == (
            items[positions[at.0] as int][at.1],
            row[positions[at.0] as int],
        ),
    decreases positions.len(),
{
    let front = expanded(items, row, positions.drop_last());
    if k < front.len() {
        let at = lemma_expanded_from(items, row, positions.drop_last(), k);
        assert(positions[at.0] == positions.drop_last()[at.0]);
        at
    } else {
        (positions.len() - 1, k - front.len())
    }
}

/// Every record of a listed bucket is found, with the number of that bucket.
proof fn lemma_expanded_into(
    items: Seq<Seq<DictView>>,
    row: Seq<Float32>,
    positions: Seq<usize>,
    j: int,
    i: int,
)
    requires
        0 <= j < positions.len(),
        0 <= i < items[positions[j] as int].len(),
    ensures
        expanded(items, row, positions).contains(
            (items[positions[j] as int][i], row[positions[j] as int]),
        ),
    decreases positions.len(),
{
    let front = expanded(items, row, positions.drop_last());
    let all = expanded(items, row, positions);
    let found = (items[positions[j] as int][i], row[positions[j] as int]);
    if j < positions.len() - 1 {
        assert(positions.drop_last()[j] == positions[j]);
        lemma_expanded_into(items, row, positions.drop_last(), j, i);
        let k = choose|k: int| 0 <= k < front.len() && front[k] == found;
        assert(all[k] == found);
    } else {
        assert(all[front.len() + i] == found);
    }
}

/// Where the numbers fall from one listed position to the next, they fall over what is found.
proof fn lemma_expanded_falls(items: Seq<Seq<DictView>>, row: Seq<Float32>, positions: Seq<usize>)
    requires
        forall|i: int, j: int|
            #![trigger positions[i], positions[j]]
            0 <= i < j < positions.len() ==> row[positions[i] as int].total()
                >= row[positions[j] as int].total(),
    ensures
        forall|a: int, b: int|
            #![trigger expanded(items, row, positions)[a], expanded(items, row, positions)[b]]
            0 <= a < b < expanded(items, row, positions).len() ==> expanded(
                items,
                row,
                positions,
            )[a].1.total() >= expanded(items, row, positions)[b].1.total(),
    decreases positions.len(),
{
    if positions.len() > 0 {
        let init = positions.drop_last();
        assert forall|i: int, j: int|
            #![trigger init[i], init[j]]
            0 <= i < j < init.len() implies row[init[i] as int].total() >= row[init[j] as int].total()
            by {
            assert(init[i] == positions[i] && init[j] == positions[j]);
        }
        lemma_expanded_falls(items, row, init);
        let front = expanded(items, row, init);
        let all = expanded(items, row, positions);
        assert forall|a: int, b: int|
            #![trigger all[a], all[b]]
            0 <= a < b < all.len() implies all[a].1.total() >= all[b].1.total() by {
            if b < front.len() {
                assert(all[a] == front[a] && all[b] == front[b]);
            } else if a < front.len() {
                assert(all[a] == front[a]);
                let at = lemma_expanded_from(items, row, init, a);
                assert(init[at.0] == positions[at.0]);
                assert(positions[positions.len() - 1] == positions.last());
            }
        }
    }
}

/// The ranked positions of a row fall in their numbers.
pub(crate) proof fn lemma_ranked_falls(row: Seq<Float32>, positions: Seq<usize>, take: nat)
    requires
        forall|k: int| 0 <= k < positions.len() ==> #[trigger] positions[k] < row.len(),
    ensures
        ({
            let order = ranking::best(falling_keys(row), positions, take);
            forall|i: int, j: int|
                #![trigger order[i], order[j]]
                0 <= i < j < order.len() ==> row[order[i] as int].total()
                    >= row[order[j] as int].total()
        }),
{
    let keys = falling_keys(row);
    let order = ranking::best(keys, positions, take);
    let all = ranking::ranked(keys, positions);
    ranking::ranked_is_sorted(keys, positions);
    assert forall|i: int, j: int|
        #![trigger order[i], order[j]]
        0 <= i < j < order.len() implies row[order[i] as int].total()
        >= row[order[j] as int].total() by {
        assert(order[i] == all[i] && order[j] == all[j]);
        ranking::ranked_contains(keys, positions, all[i]);
        ranking::ranked_contains(keys, positions, all[j]);
        assert(all.contains(all[i]) && all.contains(all[j]));
        assert(all[i] == all[j] || ranking::precedes(keys, all[i], all[j]));
    }
}

/// Everything that a query finds reaches the threshold, the scores never rise from one record to
/// the next, and no bucket is listed twice.
pub proof fn found_reach_threshold(
    items: Seq<Seq<DictView>>,
    row: Seq<Float32>,
    threshold: Float32,
)
    requires
        row.len() == items.len() <= usize::MAX,
    ensures
        forall|k: int|
            #![trigger doc_scores(items, row, threshold)[k]]
            0 <= k < doc_scores(items, row, threshold).len() ==> doc_scores(
                items,
                row,
                threshold,
            )[k].1.reaches(threshold),
        forall|a: int, b: int|
            #![trigger doc_scores(items, row, threshold)[a], doc_scores(items, row, threshold)[b]]
            0 <= a < b < doc_scores(items, row, threshold).len() ==> doc_scores(
                items,
                row,
                threshold,
            )[a].1.total() >= doc_scores(items, row, threshold)[b].1.total(),
        neighbors(row, threshold).no_duplicates(),
{
    let keys = falling_keys(row);
    let positions = reaching(row, threshold);
    let order = neighbors(row, threshold);
    let all = ranking::ranked(keys, positions);
    lemma_reaching_distinct(row, threshold);
    ranking::ranked_no_duplicates(keys, positions);
    lemma_reaching(row, threshold);
    lemma_ranked_falls(row, positions, NEIGHBOR_LIMIT as nat);
    lemma_expanded_falls(items, row, order);
    assert forall|k: int|
        #![trigger doc_scores(items, row, threshold)[k]]
        0 <= k < doc_scores(items, row, threshold).len() implies doc_scores(
        items,
        row,
        threshold,
    )[k].1.reaches(threshold) by {
        let at = lemma_expanded_from(items, row, order, k);
        let p = order[at.0];
        assert(all[at.0] == p);
        assert(all.contains(p));
        ranking::ranked_contains(keys, positions, p);
        lemma_reaching_contains(row, threshold, p as int);
    }
}

/// A query finds every record of every bucket that reaches the threshold, with the score of the
/// bucket, as long as no more buckets reach it than a query takes into account.
pub proof fn found_is_complete(
    items: Seq<Seq<DictView>>,
    row: Seq<Float32>,
    threshold: Float32,
    p: int,
    i: int,
)
    requires
        row.len() == items.len() <= usize::MAX,
        reaching(row, threshold).len() <= NEIGHBOR_LIMIT,
        0 <= p < items.len(),
        0 <= i < items[p].len(),
        row[p].reaches(threshold),
    ensures
        doc_scores(items, row, threshold).contains((items[p][i], row[p])),
{
    let keys = falling_keys(row);
    let positions = reaching(row, threshold);
    let order = neighbors(row, threshold);
    lemma_reaching_contains(row, threshold, p);
    ranking::ranked_contains(keys, positions, p as usize);
    ranking::ranked_is_sorted(keys, positions);
    let j = choose|j: int| 0 <= j < order.len() && order[j] == p as usize;
    lemma_expanded_into(items, row, order, j, i);
}

/// A query finds nothing exactly if no vector of the index reaches the threshold.
pub proof fn nothing_found_iff_none_reaches(
    items: Seq<Seq<DictView>>,
    row: Seq<Float32>,
    threshold: Float32,
)
    requires
        row.len() == items.len() <= usize::MAX,
        forall|p: int| 0 <= p < items.len() ==> (#[trigger] items[p]).len() > 0,
    ensures
        doc_scores(items, row, threshold).len() == 0 <==> forall|p: int|
            0 <= p < row.len() ==> !(#[trigger] row[p]).reaches(threshold),
{
    let keys = falling_keys(row);
    let positions = reaching(row, threshold);
    let order = neighbors(row, threshold);
    let all = ranking::ranked(keys, positions);
    let found = doc_scores(items, row, threshold);
    lemma_reaching(row, threshold);
    ranking::ranked_is_sorted(keys, positions);
    if found.len() > 0 {
        let at = lemma_expanded_from(items, row, order, 0);
        let p = order[at.0];
        assert(all[at.0] == p);
        assert(all.contains(p));
        ranking::ranked_contains(keys, positions, p);
        lemma_reaching_contains(row, threshold, p as int);
    } else {
        assert forall|p: int| 0 <= p < row.len() implies !(#[trigger] row[p]).reaches(threshold) by {
            if row[p].reaches(threshold) {
                lemma_reaching_contains(row, threshold, p);
                assert(order.len() > 0);
                assert(order[0] == all[0]);
                assert(all.contains(all[0]));
                ranking::ranked_contains(keys, positions, all[0]);
                lemma_expanded_into(items, row, order, 0, 0);
            }
        }
    }
}

/// The positions that reach the higher of two thresholds are those of the lower that do.
proof fn lemma_reaching_higher(row: Seq<Float32>, low: Float32, high: Float32)
    requires
        high.reaches(low),
        row.len() <= usize::MAX,
    ensures
        reaching(row, high) == reaching(row, low).filter(|p: usize| row[p as int].reaches(high)),
    decreases row.len(),
{
    let pred = |p: usize| row[p as int].reaches(high);
    let lower = reaching(row, low);
    if row.len() == 0 {
        lemma_filter_empty(pred);
        assert(lower =~= Seq::<usize>::empty());
    } else {
        let front = row.drop_last();
        let front_pred = |p: usize| front[p as int].reaches(high);
        lemma_reaching_higher(front, low, high);
        lemma_reaching(front, low);
        let rest = reaching(front, low);
        lemma_filter_agrees(rest, front_pred, pred);
        if row.last().reaches(low) {
            lemma_filter_push(rest, pred, (row.len() - 1) as usize);
        }
    }
}

proof fn lemma_filter_empty(pred: spec_fn(usize) -> bool)
    ensures
        Seq::<usize>::empty().filter(pred) == Seq::<usize>::empty(),
{
    reveal(Seq::filter);
}

proof fn lemma_filter_push(s: Seq<usize>, pred: spec_fn(usize) -> bool, x: usize)
    ensures
        s.push(x).filter(pred) == if pred(x) {
            s.filter(pred).push(x)
        } else {
            s.filter(pred)
        },
{
    reveal(Seq::filter);
    assert(s.push(x).drop_last() =~= s);
}

proof fn lemma_filter_agrees(
    s: Seq<usize>,
    p: spec_fn(usize) -> bool,
    q: spec_fn(usize) -> bool,
)
    requires
        forall|i: int| 0 <= i < s.len() ==> p(#[trigger] s[i]) == q(s[i]),
    ensures
        s.filter(p) == s.filter(q),
    decreases s.len(),
{
    reveal(Seq::filter);
    if s.len() > 0 {
        assert forall|i: int| 0 <= i < s.drop_last().len() implies p(#[trigger] s.drop_last()[i])
            == q(s.drop_last()[i]) by {
            assert(s.drop_last()[i] == s[i]);
        }
        lemma_filter_agrees(s.drop_last(), p, q);
        assert(p(s[s.len() - 1]) == q(s[s.len() - 1]));
    }
}

/// Where the items that satisfy a condition all come first, they are a prefix.
pub(crate) proof fn lemma_filter_prefix(s: Seq<usize>, pred: spec_fn(usize) -> bool)
    requires
        forall|i: int, j: int|
            #![trigger s[i], s[j]]
            0 <= i < j < s.len() && pred(s[j]) ==> pred(s[i]),
    ensures
        s.filter(pred).is_prefix_of(s),
    decreases s.len(),
{
    reveal(Seq::filter);
    if s.len() > 0 {
        let init = s.drop_last();
        assert forall|i: int, j: int|
            #![trigger init[i], init[j]]
            0 <= i < j < init.len() && pred(init[j]) implies pred(init[i]) by {
            assert(init[i] == s[i] && init[j] == s[j]);
        }
        lemma_filter_prefix(init, pred);
        if pred(s.last()) {
            assert forall|i: int| 0 <= i < init.len() implies pred(#[trigger] init[i]) by {
                assert(init[i] == s[i] && s[s.len() - 1] == s.last());
            }
            lemma_filter_all(init, pred);
            assert(s.filter(pred) =~= s);
        }
    }
}

pub(crate) proof fn lemma_filter_all(s: Seq<usize>, pred: spec_fn(usize) -> bool)
    requires
        forall|i: int| 0 <= i < s.len() ==> pred(#[trigger] s[i]),
    ensures
        s.filter(pred) == s,
    decreases s.len(),
{
    reveal(Seq::filter);
    if s.len() > 0 {
        assert(pred(s[s.len() - 1]));
        assert forall|i: int| 0 <= i < s.drop_last().len() implies pred(
            #[trigger] s.drop_last()[i],
        ) by {
            assert(s.drop_last()[i] == s[i]);
        }
        lemma_filter_all(s.drop_last(), pred);
        assert(s.drop_last().push(s.last()) =~= s);
    }
}

/// Ranking and filtering can be done in either order.
proof fn lemma_ranked_filter(keys: Seq<i64>, positions: Seq<usize>, pred: spec_fn(usize) -> bool)
    ensures
        ranking::ranked(keys, positions.filter(pred)) == ranking::ranked(keys, positions).filter(
            pred,
        ),
{
    let all = ranking::ranked(keys, positions);
    ranking::ranked_is_sorted(keys, positions);
    lemma_filter_sorted(keys, all, pred);
    lemma_filter_multiset(all, pred);
    lemma_filter_multiset(positions, pred);
    assert(all.filter(pred).to_multiset() =~= positions.filter(pred).to_multiset());
    ranking::ranked_is_unique(keys, positions.filter(pred), all.filter(pred));
}

proof fn lemma_filter_multiset(s: Seq<usize>, pred: spec_fn(usize) -> bool)
    ensures
        s.filter(pred).to_multiset() == s.to_multiset().filter(pred),
    decreases s.len(),
{
    broadcast use group_to_multiset_ensures;

    reveal(Seq::filter);
    if s.len() == 0 {
        assert(s.to_multiset() =~= Multiset::empty());
        assert(s.filter(pred).to_multiset() =~= s.to_multiset().filter(pred));
    } else {
        let init = s.drop_last();
        lemma_filter_multiset(init, pred);
        assert(init.push(s.last()) =~= s);
        assert(s.to_multiset() =~= init.to_multiset().insert(s.last()));
        assert(s.filter(pred).to_multiset() =~= s.to_multiset().filter(pred));
    }
}

proof fn lemma_filter_sorted(keys: Seq<i64>, s: Seq<usize>, pred: spec_fn(usize) -> bool)
    requires
        forall|i: int, j: int|
            #![trigger s[i], s[j]]
            0 <= i < j < s.len() ==> s[i] == s[j] || ranking::precedes(keys, s[i], s[j]),
    ensures
        sorted_by(s.filter(pred), ranking::rank_order(keys)),
    decreases s.len(),
{
    let leq = ranking::rank_order(keys);
    reveal(Seq::filter);
    if s.len() > 0 {
        let init = s.drop_last();
        assert forall|i: int, j: int|
            #![trigger init[i], init[j]]
            0 <= i < j < init.len() implies init[i] == init[j] || ranking::precedes(
            keys,
            init[i],
            init[j],
        ) by {
            assert(init[i] == s[i] && init[j] == s[j]);
        }
        lemma_filter_sorted(keys, init, pred);
        let rest = init.filter(pred);
        if pred(s.last()) {
            let f = s.filter(pred);
            assert forall|i: int, j: int| 0 <= i < j < f.len() implies #[trigger] leq(f[i], f[j]) by {
                if j < rest.len() {
                    assert(leq(rest[i], rest[j]));
                } else {
                    init.lemma_filter_contains_rev(pred, rest[i]);
                    let k = choose|k: int| 0 <= k < init.len() && init[k] == rest[i];
                    assert(s[k] == rest[i] && s[s.len() - 1] == s.last());
                }
            }
        }
    }
}

/// Of the ranked positions that reach a lower threshold, those that reach a higher one come first,
/// and are the ranked positions that reach it.
pub(crate) proof fn lemma_ranked_reaching(row: Seq<Float32>, low: Float32, high: Float32)
    requires
        row.len() <= usize::MAX,
        high.reaches(low),
    ensures
        ({
            let keys = falling_keys(row);
            let all = ranking::ranked(keys, reaching(row, low));
            let pred = |p: usize| row[p as int].reaches(high);
            &&& ranking::ranked(keys, reaching(row, high)) == all.filter(pred)
            &&& forall|i: int, j: int|
                #![trigger all[i], all[j]]
                0 <= i < j < all.len() && pred(all[j]) ==> pred(all[i])
        }),
{
    let keys = falling_keys(row);
    let lower = reaching(row, low);
    let pred = |p: usize| row[p as int].reaches(high);
    let all = ranking::ranked(keys, lower);
    lemma_reaching(row, low);
    lemma_reaching_higher(row, low, high);
    lemma_ranked_filter(keys, lower, pred);
    ranking::ranked_is_sorted(keys, lower);
    assert forall|i: int, j: int|
        #![trigger all[i], all[j]]
        0 <= i < j < all.len() && pred(all[j]) implies pred(all[i]) by {
        ranking::ranked_contains(keys, lower, all[i]);
        ranking::ranked_contains(keys, lower, all[j]);
        assert(all.contains(all[i]) && all.contains(all[j]));
        lemma_reaching_contains(row, low, all[i] as int);
        assert(all[i] == all[j] || ranking::precedes(keys, all[i], all[j]));
    }
}

/// What a query finds at a higher threshold is the beginning of what it finds at a lower one.
pub proof fn higher_threshold_finds_beginning(
    items: Seq<Seq<DictView>>,
    row: Seq<Float32>,
    low: Float32,
    high: Float32,
)
    requires
        row.len() == items.len() <= usize::MAX,
        high.reaches(low),
    ensures
        doc_scores(items, row, high).is_prefix_of(doc_scores(items, row, low)),
{
    let keys = falling_keys(row);
    let lower = reaching(row, low);
    let pred = |p: usize| row[p as int].reaches(high);
    let all = ranking::ranked(keys, lower);
    lemma_ranked_reaching(row, low, high);
    lemma_filter_prefix(all, pred);
    let from = neighbors(row, low);
    let to = neighbors(row, high);
    assert(to.is_prefix_of(from)) by {
        assert(to =~= from.take(to.len() as int));
    }
    lemma_expanded_prefix(items, row, from, to.len());
    assert(from.take(to.len() as int) =~= to);
}

proof fn lemma_expanded_prefix(
    items: Seq<Seq<DictView>>,
    row: Seq<Float32>,
    positions: Seq<usize>,
    n: nat,
)
    requires
        n <= positions.len(),
    ensures
        expanded(items, row, positions.take(n as int)).is_prefix_of(
            expanded(items, row, positions),
        ),
    decreases positions.len(),
{
    if n == positions.len() {
        assert(positions.take(n as int) =~= positions);
    } else {
        lemma_expanded_prefix(items, row, positions.drop_last(), n);
        assert(positions.drop_last().take(n as int) =~= positions.take(n as int));
        let front = expanded(items, row, positions.drop_last());
        let short = expanded(items, row, positions.take(n as int));
        let all = expanded(items, row, positions);
        assert(all.take(short.len() as int) =~= front.take(short.len() as int));
    }
}

// ---------------------------------------------------------------------------------------------
// Laws of nearest neighbors

/// A query has as many neighbors as it asks for, or all there are; their similarities never
/// rise, no neighbor is listed twice, and a vector of the index is no neighbor of its own.
pub proof fn nearest_neighbors(row: Seq<Float32>, query: int, k: nat, in_index: bool)
    requires
        row.len() <= usize::MAX,
        0 <= query,
    ensures
        nearest(row, query, k, in_index).0.len() == neighbor_count(
            row.len(),
            k,
            in_index && query < row.len(),
        ),
        nearest(row, query, k, in_index).0.no_duplicates(),
        in_index && query < row.len() ==> !nearest(row, query, k, in_index).0.contains(
            query as usize,
        ),
        forall|i: int, j: int|
            #![trigger nearest(row, query, k, in_index).1[i], nearest(row, query, k, in_index).1[j]]
            0 <= i < j < nearest(row, query, k, in_index).1.len() ==> nearest(
                row,
                query,
                k,
                in_index,
            ).1[i].total() >= nearest(row, query, k, in_index).1[j].total(),
{
    let keys = falling_keys(row);
    let positions = other_positions(row.len(), query, in_index);
    let all = ranking::ranked(keys, positions);
    let order = nearest(row, query, k, in_index).0;
    ranking::ranked_is_sorted(keys, positions);
    ranking::ranked_no_duplicates(keys, positions);
    lemma_ranked_falls(row, positions, k);
    if in_index && query < row.len() {
        ranking::ranked_contains(keys, positions, query as usize);
        assert(!positions.contains(query as usize));
        if order.contains(query as usize) {
            let i = choose|i: int| 0 <= i < order.len() && order[i] == query as usize;
            assert(all[i] == query as usize);
        }
    }
    let scores = nearest(row, query, k, in_index).1;
    assert forall|i: int, j: int|
        #![trigger scores[i], scores[j]]
        0 <= i < j < scores.len() implies scores[i].total() >= scores[j].total() by {
        assert(row[order[i] as int].total() >= row[order[j] as int].total());
    }
}

/// Whether numbers never fall from one to the next.
pub open spec fn rising(numbers: Seq<Float32>) -> bool {
    forall|i: int, j: int|
        #![trigger numbers[i], numbers[j]]
        0 <= i < j < numbers.len() ==> numbers[j].reaches(numbers[i])
}

/// Whether all are numbers.
pub open spec fn all_numbers(numbers: Seq<Float32>) -> bool {
    forall|i: int| 0 <= i < numbers.len() ==> !(#[trigger] numbers[i]).nan()
}

proof fn lemma_put_in(best: Seq<Float32>, similarity: Float32)
    requires
        rising(best),
        all_numbers(best),
        !similarity.nan(),
    ensures
        0 <= leading_below(best, similarity) <= best.len(),
        forall|i: int|
            0 <= i < leading_below(best, similarity) ==> (#[trigger] best[i]).below(similarity),
        forall|i: int|
            leading_below(best, similarity) <= i < best.len() ==> (#[trigger] best[i]).reaches(
                similarity,
            ),
        rising(put_in(best, similarity)),
        all_numbers(put_in(best, similarity)),
        put_in(best, similarity).to_multiset() == best.to_multiset().insert(similarity),
    decreases best.len(),
{
    let at = leading_below(best, similarity);
    if best.len() > 0 {
        let tail = best.drop_first();
        if best[0].below(similarity) {
            assert(rising(tail)) by {
                assert forall|i: int, j: int|
                    #![trigger tail[i], tail[j]]
                    0 <= i < j < tail.len() implies tail[j].reaches(tail[i]) by {
                    assert(tail[i] == best[i + 1] && tail[j] == best[j + 1]);
                }
            }
            assert(all_numbers(tail)) by {
                assert forall|i: int| 0 <= i < tail.len() implies !(#[trigger] tail[i]).nan() by {
                    assert(tail[i] == best[i + 1]);
                }
            }
            lemma_put_in(tail, similarity);
            assert forall|i: int| 0 <= i < at implies (#[trigger] best[i]).below(similarity) by {
                if i > 0 {
                    assert(best[i] == tail[i - 1]);
                }
            }
            assert forall|i: int| at <= i < best.len() implies (#[trigger] best[i]).reaches(
                similarity,
            ) by {
                assert(best[i] == tail[i - 1]);
            }
        } else {
            assert forall|i: int| 0 <= i < best.len() implies (#[trigger] best[i]).reaches(
                similarity,
            ) by {
                assert(best[0].reaches(similarity));
                if i > 0 {
                    assert(best[i].reaches(best[0]));
                }
            }
        }
    }
    to_multiset_insert(best, at, similarity);
}

/// The highest of some numbers: as many as asked for, or all there are, lowest first. They are
/// among the numbers, and none that is left out is above any of them.
pub proof fn highest_are_highest(numbers: Seq<Float32>, take: nat)
    requires
        all_numbers(numbers),
        take > 0,
    ensures
        highest(numbers, take).len() == if numbers.len() <= take {
            numbers.len()
        } else {
            take
        },
        all_numbers(highest(numbers, take)),
        rising(highest(numbers, take)),
        highest(numbers, take).to_multiset().subset_of(numbers.to_multiset()),
        forall|x: Float32, i: int|
            #![trigger numbers.to_multiset().count(x), highest(numbers, take)[i]]
            0 <= i < highest(numbers, take).len() && numbers.to_multiset().count(x) > highest(
                numbers,
                take,
            ).to_multiset().count(x) ==> highest(numbers, take)[i].reaches(x),
    decreases numbers.len(),
{
    broadcast use group_to_multiset_ensures;

    if numbers.len() > 0 {
        let init = numbers.drop_last();
        let last = numbers.last();
        assert(!numbers[numbers.len() - 1].nan());
        assert(all_numbers(init)) by {
            assert forall|i: int| 0 <= i < init.len() implies !(#[trigger] init[i]).nan() by {
                assert(init[i] == numbers[i]);
            }
        }
        highest_are_highest(init, take);
        let before = highest(init, take);
        let after = highest(numbers, take);
        assert(init.push(last) =~= numbers);
        assert(numbers.to_multiset() =~= init.to_multiset().insert(last));
        if before.len() < take {
            lemma_put_in(before, last);
            lemma_equal_multisets(before, init);
            assert forall|x: Float32, i: int|
                #![trigger numbers.to_multiset().count(x), after[i]]
                0 <= i < after.len() && numbers.to_multiset().count(x)
                    > after.to_multiset().count(x) implies after[i].reaches(x) by {
                assert(before.to_multiset().count(x) == init.to_multiset().count(x));
            }
        } else if before[0].reaches(last) {
            assert forall|x: Float32, i: int|
                #![trigger numbers.to_multiset().count(x), after[i]]
                0 <= i < after.len() && numbers.to_multiset().count(x)
                    > after.to_multiset().count(x) implies after[i].reaches(x) by {
                assert(i > 0 ==> before[i].reaches(before[0]));
                if x != last {
                    assert(init.to_multiset().count(x) > before.to_multiset().count(x));
                }
            }
        } else {
            let tail = before.drop_first();
            let gone = before[0];
            assert(seq![gone] + tail =~= before);
            assert(before.remove(0) =~= tail);
            assert(before.to_multiset() =~= tail.to_multiset().insert(gone));
            assert(rising(tail)) by {
                assert forall|i: int, j: int|
                    #![trigger tail[i], tail[j]]
                    0 <= i < j < tail.len() implies tail[j].reaches(tail[i]) by {
                    assert(tail[i] == before[i + 1] && tail[j] == before[j + 1]);
                }
            }
            assert(all_numbers(tail)) by {
                assert forall|i: int| 0 <= i < tail.len() implies !(#[trigger] tail[i]).nan() by {
                    assert(tail[i] == before[i + 1]);
                }
            }
            lemma_put_in(tail, last);
            let at = leading_below(tail, last);
            assert(gone.below(last));
            assert forall|x: Float32, i: int|
                #![trigger numbers.to_multiset().count(x), after[i]]
                0 <= i < after.len() && numbers.to_multiset().count(x)
                    > after.to_multiset().count(x) implies after[i].reaches(x) by {
                assert(after[i].reaches(gone)) by {
                    if i < at {
                        assert(after[i] == tail[i] && tail[i] == before[i + 1]);
                        assert(before[i + 1].reaches(before[0]));
                    } else if i > at {
                        assert(after[i] == tail[i - 1] && tail[i - 1] == before[i]);
                        assert(before[i].reaches(before[0]));
                    }
                }
                if x != gone {
                    assert(init.to_multiset().count(x) > before.to_multiset().count(x));
                    assert(before[0].reaches(x));
                }
            }
        }
    }
}

/// A list that another holds, and that is as long, holds the same.
proof fn lemma_equal_multisets(s: Seq<Float32>, t: Seq<Float32>)
    requires
        s.len() == t.len(),
        s.to_multiset().subset_of(t.to_multiset()),
    ensures
        s.to_multiset() == t.to_multiset(),
{
    s.to_multiset_ensures();
    t.to_multiset_ensures();
    let rest = t.to_multiset().sub(s.to_multiset());
    assert(s.to_multiset().add(rest) =~= t.to_multiset());
    assert(rest.len() == 0);
    assert(rest =~= Multiset::empty());
    assert(s.to_multiset() =~= t.to_multiset());
}

} // verus!
