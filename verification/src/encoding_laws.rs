//! Laws of encoding: what a model is asked for, how its replies are put together, and what the
//! features of a word are.

use crate::error::ErrorView;
use crate::features;
use crate::features::{Encoder, MatrixView};
use crate::hashing;
use crate::records;
use crate::semhash;
use crate::semhash::SemHashView;
use crate::value;
use crate::value::{DictView, RecordView, ValueView};
use vstd::prelude::*;

verus! {

/// The values of records in a column.
pub open spec fn values_in(records: Seq<DictView>, column: Seq<char>) -> Seq<ValueView> {
    records.map_values(|d: DictView| value::dict_at(d, column))
}

/// Whether a model replied with a matrix for each column, asked for the values of the records in it,
/// with one row for each record.
pub open spec fn replied_for_columns<E: Encoder + ?Sized>(
    model: &E,
    records: Seq<DictView>,
    columns: Seq<Seq<char>>,
    matrices: Seq<MatrixView>,
) -> bool {
    &&& matrices.len() == columns.len()
    &&& forall|c: int|
        0 <= c < columns.len() ==> features::may_reply(
            model,
            values_in(records, columns[c]),
            Ok::<MatrixView, ErrorView>(#[trigger] matrices[c]),
        ) && matrices[c].len() == records.len()
}

/// A row of several matrices is their rows, one behind the other.
proof fn lemma_row_is_flat(matrices: Seq<MatrixView>, i: int)
    ensures
        features::concatenated_row(matrices, i) == matrices.map_values(
            |m: MatrixView| m[i],
        ).flatten(),
    decreases matrices.len(),
{
    let rows = matrices.map_values(|m: MatrixView| m[i]);
    rows.lemma_flatten_and_flatten_alt_are_equivalent();
    if matrices.len() > 0 {
        lemma_row_is_flat(matrices.drop_last(), i);
        let init = matrices.drop_last().map_values(|m: MatrixView| m[i]);
        init.lemma_flatten_and_flatten_alt_are_equivalent();
        assert(rows.drop_last() =~= init);
    }
    assert(features::concatenated_row(matrices, i) =~= rows.flatten());
}

proof fn lemma_columns_replied<E: Encoder + ?Sized>(
    model: &E,
    records: Seq<DictView>,
    columns: Seq<Seq<char>>,
    replies: Seq<std::result::Result<MatrixView, ErrorView>>,
    n: nat,
)
    requires
        n <= columns.len(),
        features::replies_of(model, records, columns, replies),
        features::columns_outcome(records, columns, replies, n) is Ok,
    ensures
        ({
            let matrices = features::columns_outcome(records, columns, replies, n)->Ok_0;
            &&& matrices.len() == n
            &&& forall|c: int|
                0 <= c < n ==> features::may_reply(
                    model,
                    values_in(records, columns[c]),
                    Ok::<MatrixView, ErrorView>(#[trigger] matrices[c]),
                ) && matrices[c].len() == records.len()
        }),
    decreases n,
{
    if n > 0 {
        lemma_columns_replied(model, records, columns, replies, (n - 1) as nat);
        let before = features::columns_outcome(records, columns, replies, (n - 1) as nat)->Ok_0;
        let matrices = features::columns_outcome(records, columns, replies, n)->Ok_0;
        let values = features::column_values(records, columns[n - 1])->Ok_0;
        assert(values =~= values_in(records, columns[n - 1]));
        assert(replies[n - 1] == Ok::<MatrixView, ErrorView>(matrices[n - 1]));
        assert forall|c: int| 0 <= c < n implies features::may_reply(
            model,
            values_in(records, columns[c]),
            Ok::<MatrixView, ErrorView>(#[trigger] matrices[c]),
        ) && matrices[c].len() == records.len() by {
            if c < n - 1 {
                assert(matrices[c] == before[c]);
            }
        }
    }
}

/// A model is asked for each column, for the values of the records in it and nothing else, and what
/// it replies is put side by side in the order of the columns: one row for each record. Without
/// records it is not asked.
pub proof fn columns_are_encoded_side_by_side<E: Encoder + ?Sized>(
    model: &E,
    records: Seq<DictView>,
    columns: Seq<Seq<char>>,
    m: MatrixView,
) -> (matrices: Seq<MatrixView>)
    requires
        features::featurized(model, records, columns, Ok::<MatrixView, ErrorView>(m)),
    ensures
        m.len() == records.len(),
        records.len() > 0 ==> replied_for_columns(model, records, columns, matrices),
        forall|i: int|
            0 <= i < m.len() ==> #[trigger] m[i] == matrices.map_values(
                |a: MatrixView| a[i],
            ).flatten(),
{
    if records.len() == 0 {
        seq![]
    } else {
        let replies = choose|replies: Seq<std::result::Result<MatrixView, ErrorView>>| #[trigger]
            features::replies_of(model, records, columns, replies) && Ok::<MatrixView, ErrorView>(m)
                == features::features_outcome(records, columns, replies);
        lemma_columns_replied(model, records, columns, replies, columns.len());
        let matrices = features::columns_outcome(records, columns, replies, columns.len())->Ok_0;
        assert forall|i: int| 0 <= i < m.len() implies #[trigger] m[i] == matrices.map_values(
            |a: MatrixView| a[i],
        ).flatten() by {
            lemma_row_is_flat(matrices, i);
        }
        matrices
    }
}

/// A matrix has a good shape where it has a row for each record, and its rows are of one length that is
/// not zero and is the expected one. What is told of it is that length, and zero where it has no rows.
pub proof fn what_a_good_shape_is(
    m: MatrixView,
    rows: nat,
    columns: Option<usize>,
    length: usize,
)
    requires
        forall|i: int| 0 <= i < m.len() ==> (#[trigger] m[i]).len() <= usize::MAX,
    ensures
        features::shape_outcome(m, rows, columns) == Ok::<usize, ErrorView>(length) <==> m.len()
            == rows && if rows == 0 {
            length == 0
        } else {
            &&& length > 0
            &&& columns is None || columns == Some(length)
            &&& forall|i: int| 0 <= i < m.len() ==> (#[trigger] m[i]).len() == length
        },
        m.len() != rows ==> features::shape_outcome(m, rows, columns) == Err::<usize, ErrorView>(
            ErrorView::InvalidEmbeddings(features::row_count_text(m.len(), rows)),
        ),
        m.len() == rows > 0 && m[0].len() == 0 ==> features::shape_outcome(m, rows, columns) == Err::<
            usize,
            ErrorView,
        >(ErrorView::InvalidEmbeddings("embeddings must be a 2D array with non-empty rows"@)),
        m.len() == rows > 0 && m[0].len() > 0 && columns is Some && m[0].len() != columns->0
            ==> features::shape_outcome(m, rows, columns) == Err::<usize, ErrorView>(
            ErrorView::InvalidEmbeddings(
                features::column_count_text(m[0].len(), columns->0 as nat),
            ),
        ),
        m.len() == rows > 0 && m[0].len() > 0 && (columns is None || m[0].len() == columns->0) && (
        exists|i: int| 0 <= i < m.len() && (#[trigger] m[i]).len() != m[0].len())
            ==> features::shape_outcome(m, rows, columns) == Err::<usize, ErrorView>(
            ErrorView::InvalidEmbeddings("embeddings must be a rectangular 2D array"@),
        ),
{
    if m.len() > 0 {
        assert(m[0].len() <= usize::MAX);
    }
}

/// Whether a record has no value in a column.
pub open spec fn misses(records: Seq<DictView>, column: Seq<char>) -> bool {
    exists|i: int| 0 <= i < records.len() && !value::dict_has(#[trigger] records[i], column)
}

/// Why a column is not encoded: a record misses it, the model fails on its values, or what the model
/// replies does not have a row for each record.
pub open spec fn column_fails<E: Encoder + ?Sized>(
    model: &E,
    records: Seq<DictView>,
    column: Seq<char>,
    e: ErrorView,
) -> bool {
    if misses(records, column) {
        e == (ErrorView::MissingColumn { column })
    } else {
        ||| exists|source: ErrorView|
            #[trigger] features::may_reply(
                model,
                values_in(records, column),
                Err::<MatrixView, ErrorView>(source),
            ) && e == ErrorView::EncodeError(
                features::encode_failure_text(column, values_in(records, column), source),
            )
        ||| exists|m: MatrixView|
            #[trigger] features::may_reply(
                model,
                values_in(records, column),
                Ok::<MatrixView, ErrorView>(m),
            ) && features::shape_outcome(m, records.len(), None) == Err::<usize, ErrorView>(e)
    }
}

proof fn lemma_columns_fail<E: Encoder + ?Sized>(
    model: &E,
    records: Seq<DictView>,
    columns: Seq<Seq<char>>,
    replies: Seq<std::result::Result<MatrixView, ErrorView>>,
    n: nat,
) -> (c: int)
    requires
        n <= columns.len(),
        features::replies_of(model, records, columns, replies),
        features::columns_outcome(records, columns, replies, n) is Err,
    ensures
        0 <= c < n,
        column_fails(
            model,
            records,
            columns[c],
            features::columns_outcome(records, columns, replies, n)->Err_0,
        ),
        features::columns_outcome(records, columns, replies, c as nat) is Ok,
    decreases n,
{
    let before = features::columns_outcome(records, columns, replies, (n - 1) as nat);
    if before is Err {
        lemma_columns_fail(model, records, columns, replies, (n - 1) as nat)
    } else {
        let column = columns[n - 1];
        let reply = replies[n - 1];
        if misses(records, column) {
            assert(features::column_values(records, column) is Err);
        } else {
            assert forall|i: int| 0 <= i < records.len() implies value::dict_has(
                #[trigger] records[i],
                column,
            ) by {}
            let values = features::column_values(records, column)->Ok_0;
            assert(values =~= values_in(records, column));
            assert(features::may_reply(model, values, reply));
            match reply {
                Err(source) => {
                    assert(reply == Err::<MatrixView, ErrorView>(source));
                },
                Ok(m) => {
                    assert(reply == Ok::<MatrixView, ErrorView>(m));
                },
            }
        }
        n - 1
    }
}

/// Encoding fails with what is wrong with a column, after the columns before it were encoded.
pub proof fn failures_come_from_columns<E: Encoder + ?Sized>(
    model: &E,
    records: Seq<DictView>,
    columns: Seq<Seq<char>>,
    e: ErrorView,
) -> (r: (int, Seq<MatrixView>))
    requires
        features::featurized(model, records, columns, Err::<MatrixView, ErrorView>(e)),
    ensures
        records.len() > 0,
        0 <= r.0 < columns.len(),
        column_fails(model, records, columns[r.0], e),
        replied_for_columns(model, records, columns.take(r.0), r.1),
{
    let replies = choose|replies: Seq<std::result::Result<MatrixView, ErrorView>>| #[trigger]
        features::replies_of(model, records, columns, replies) && Err::<MatrixView, ErrorView>(e)
            == features::features_outcome(records, columns, replies);
    let c = lemma_columns_fail(model, records, columns, replies, columns.len());
    lemma_columns_replied(model, records, columns, replies, c as nat);
    let matrices = features::columns_outcome(records, columns, replies, c as nat)->Ok_0;
    assert forall|j: int| 0 <= j < columns.take(c).len() implies features::may_reply(
        model,
        values_in(records, columns.take(c)[j]),
        Ok::<MatrixView, ErrorView>(#[trigger] matrices[j]),
    ) && matrices[j].len() == records.len() by {
        assert(columns.take(c)[j] == columns[j]);
    }
    (c, matrices)
}

/// What preparing a ranking makes of the records: what they become when they are validated, with what
/// the model makes of them.
pub proof fn what_a_ranking_prepares<E: Encoder + ?Sized>(
    model: &E,
    s: SemHashView,
    records: Seq<RecordView>,
    rows: Seq<DictView>,
    m: MatrixView,
)
    requires
        semhash::ranking_prepared(
            model,
            s,
            records,
            Ok::<(Seq<DictView>, MatrixView), ErrorView>((rows, m)),
        ),
    ensures
        records::validate_outcome(records, s.columns, s.was_string) == Ok::<
            Seq<DictView>,
            ErrorView,
        >(rows),
        rows.len() == records.len(),
        features::featurized(model, rows, s.columns, Ok::<MatrixView, ErrorView>(m)),
{
    let dicts = records::validate_outcome(records, s.columns, s.was_string)->Ok_0;
    let embeddings = choose|embeddings: std::result::Result<MatrixView, ErrorView>| #[trigger]
        features::featurized(model, dicts, s.columns, embeddings) && Ok::<
            (Seq<DictView>, MatrixView),
            ErrorView,
        >((rows, m)) == match embeddings {
            Err(e) => Err(e),
            Ok(m) => Ok((dicts, m)),
        };
    assert(embeddings == Ok::<MatrixView, ErrorView>(m));
}

/// Texts become text records, one for each.
pub proof fn texts_become_records(texts: Seq<Seq<char>>)
    ensures
        semhash::text_records(texts) == texts.map_values(|t: Seq<char>| RecordView::Text(t)),
{
    assert(semhash::text_records(texts) =~= texts.map_values(|t: Seq<char>| RecordView::Text(t)));
}

/// A text is hashed byte by byte, from the same start: each byte is mixed into what came before it,
/// which is then multiplied by the same prime and cut to 64 bits.
pub proof fn what_a_hash_is(bytes: Seq<u8>, byte: u8)
    ensures
        hashing::fnv(seq![]) == 0xcbf2_9ce4_8422_2325,
        hashing::fnv(bytes.push(byte)) as int == ((hashing::fnv(bytes) ^ (byte as u64)) as int
            * 1_099_511_628_211) % 18_446_744_073_709_551_616,
{
    assert(bytes.push(byte).drop_last() =~= bytes);
    assert(hashing::fnv(bytes.push(byte)) == hashing::fnv_step(hashing::fnv(bytes), byte));
}

/// How many runs of a length a word has.
pub open spec fn run_count(word: Seq<char>, length: nat) -> nat {
    if word.len() >= length {
        (word.len() - length + 1) as nat
    } else {
        0
    }
}

/// The features of a word are the word and its runs of three, four and five characters, each of them
/// once: nothing shorter, and nothing longer but the word.
pub proof fn what_the_features_of_a_word_are(word: Seq<char>)
    ensures
        ({
            let f = hashing::word_features(word);
            let three = run_count(word, 3) as int;
            let four = run_count(word, 4) as int;
            let five = run_count(word, 5) as int;
            &&& f.len() == 1 + three + four + five
            &&& f[0] == word
            &&& forall|i: int| 0 <= i < three ==> #[trigger] f[1 + i] == word.subrange(i, i + 3)
            &&& forall|i: int|
                0 <= i < four ==> #[trigger] f[1 + three + i] == word.subrange(i, i + 4)
            &&& forall|i: int|
                0 <= i < five ==> #[trigger] f[1 + three + four + i] == word.subrange(i, i + 5)
        }),
{
}

/// A count moves by one with each feature, and stays within the whole numbers that single precision
/// holds exactly: from there on it does not move away from zero.
pub proof fn counts_stop_at_the_limit(n: i32)
    requires
        -16_777_216 <= n <= 16_777_216,
    ensures
        n < 16_777_216 ==> hashing::counted_up(n) == n + 1,
        n == 16_777_216 ==> hashing::counted_up(n) == n,
        n > -16_777_216 ==> hashing::counted_down(n) == n - 1,
        n == -16_777_216 ==> hashing::counted_down(n) == n,
{
}

/// The features of a text are those of its words, one word after the other, and the text itself where
/// it has no words.
pub proof fn what_the_features_of_a_text_are(s: Seq<char>, words: Seq<Seq<char>>)
    ensures
        words.len() == 0 ==> hashing::features_of(s, words) == seq![s],
        words.len() > 0 ==> hashing::features_of(s, words) == words.map_values(
            |w: Seq<char>| hashing::word_features(w),
        ).flatten(),
{
    if words.len() > 0 {
        lemma_words_flat(words);
    }
}

proof fn lemma_words_flat(words: Seq<Seq<char>>)
    ensures
        hashing::words_features(words) == words.map_values(
            |w: Seq<char>| hashing::word_features(w),
        ).flatten(),
    decreases words.len(),
{
    let parts = words.map_values(|w: Seq<char>| hashing::word_features(w));
    parts.lemma_flatten_and_flatten_alt_are_equivalent();
    if words.len() > 0 {
        let init = words.drop_last().map_values(|w: Seq<char>| hashing::word_features(w));
        lemma_words_flat(words.drop_last());
        init.lemma_flatten_and_flatten_alt_are_equivalent();
        assert(parts.drop_last() =~= init);
    }
    assert(hashing::words_features(words) =~= parts.flatten());
}

} // verus!
