//! Embeddings of records: encoders, and the matrices that they return.

use crate::error;
use crate::error::{ErrorView, Result, SemHashError};
use crate::float::Float32;
use crate::text;
use crate::text::push_decimal;
use crate::value;
use crate::value::{DictRecord, DictView, Value, ValueView};
use vstd::prelude::*;
use vstd::string::*;

verus! {

/// Dense embedding matrix: one row of numbers for each record.
pub type Embeddings = Vec<Vec<Float32>>;

/// What an embedding matrix is.
pub type MatrixView = Seq<Seq<Float32>>;

/// What an encoder is asked for: one row of numbers for each value of a column.
///
/// The input is one column at a time. Text encoders typically expect all values to be
/// `Value::String`; other encoders may use `Bytes` or nested values.
pub trait Encoder: Send + Sync {
    fn encode(&self, inputs: &[Value]) -> Result<Embeddings>;
}

// ---------------------------------------------------------------------------------------------
// The shape of a matrix

/// Whether all rows of a matrix have the length of its first.
pub open spec fn rectangular(m: MatrixView) -> bool {
    forall|i: int| 0 <= i < m.len() ==> (#[trigger] m[i]).len() == m[0].len()
}

/// What is wrong with the number of rows of a matrix.
pub open spec fn row_count_text(found: nat, expected: nat) -> Seq<char> {
    "Number of embeddings ("@ + text::decimal(found) + ") must match number of records ("@
        + text::decimal(expected) + ")"@
}

/// What is wrong with the number of columns of a matrix.
pub open spec fn column_count_text(found: nat, expected: nat) -> Seq<char> {
    "embeddings must have "@ + text::decimal(expected) + " columns, got "@ + text::decimal(found)
}

/// The number of columns of a rectangular matrix with the expected shape, else what is wrong
/// with it. A matrix without rows has no columns.
pub open spec fn shape_outcome(
    m: MatrixView,
    expected_rows: nat,
    expected_columns: Option<usize>,
) -> std::result::Result<usize, ErrorView> {
    if m.len() != expected_rows {
        Err(ErrorView::InvalidEmbeddings(row_count_text(m.len(), expected_rows)))
    } else if m.len() == 0 {
        Ok(0)
    } else if m[0].len() == 0 {
        Err(
            ErrorView::InvalidEmbeddings(
                "embeddings must be a 2D array with non-empty rows"@,
            ),
        )
    } else if expected_columns is Some && m[0].len() != expected_columns->0 {
        Err(
            ErrorView::InvalidEmbeddings(
                column_count_text(m[0].len(), expected_columns->0 as nat),
            ),
        )
    } else if !rectangular(m) {
        Err(ErrorView::InvalidEmbeddings("embeddings must be a rectangular 2D array"@))
    } else {
        Ok(m[0].len() as usize)
    }
}

/// Checks the shape of a matrix and returns the number of its columns.
pub fn validate_embeddings_shape(
    embeddings: &Embeddings,
    expected_rows: usize,
    expected_cols: Option<usize>,
) -> (r: Result<usize>)
    ensures
        error::outcome(r) == shape_outcome(
            embeddings.deep_view(),
            expected_rows as nat,
            expected_cols,
        ),
{
    let ghost m = embeddings.deep_view();
    if embeddings.len() != expected_rows {
        let mut message = "Number of embeddings (".to_owned();
        push_decimal(&mut message, embeddings.len() as u64);
        message.append(") must match number of records (");
        push_decimal(&mut message, expected_rows as u64);
        message.append(")");
        return Err(SemHashError::InvalidEmbeddings(message));
    }
    if embeddings.len() == 0 {
        return Ok(0);
    }
    let cols: usize = embeddings[0].len();
    assert(m[0].len() == cols);
    if cols == 0 {
        return Err(
            SemHashError::InvalidEmbeddings(
                "embeddings must be a 2D array with non-empty rows".to_owned(),
            ),
        );
    }
    if let Some(expected) = expected_cols {
        if cols != expected {
            let mut message = "embeddings must have ".to_owned();
            push_decimal(&mut message, expected as u64);
            message.append(" columns, got ");
            push_decimal(&mut message, cols as u64);
            return Err(SemHashError::InvalidEmbeddings(message));
        }
    }
    let mut i: usize = 0;
    while i < embeddings.len()
        invariant
            i <= embeddings.len(),
            m == embeddings.deep_view(),
            m.len() > 0,
            m[0].len() == cols,
            forall|j: int| 0 <= j < i ==> (#[trigger] m[j]).len() == cols,
            m.len() == expected_rows,
            cols > 0,
            expected_cols is Some ==> cols == expected_cols->0,
        decreases embeddings.len() - i,
    {
        assert(m[i as int].len() == embeddings@[i as int]@.len());
        if embeddings[i].len() != cols {
            return Err(
                SemHashError::InvalidEmbeddings(
                    "embeddings must be a rectangular 2D array".to_owned(),
                ),
            );
        }
        i = i + 1;
    }
    Ok(cols)
}

// ---------------------------------------------------------------------------------------------
// One column at a time

/// The values of the records in one column, or the column as missing.
pub open spec fn column_values(
    records: Seq<DictView>,
    column: Seq<char>,
) -> std::result::Result<Seq<ValueView>, ErrorView> {
    if forall|i: int| 0 <= i < records.len() ==> value::dict_has(#[trigger] records[i], column) {
        Ok(Seq::new(records.len(), |i: int| value::dict_at(records[i], column)))
    } else {
        Err(ErrorView::MissingColumn { column })
    }
}

/// The name of a value's type.
pub open spec fn data_type(v: ValueView) -> Seq<char> {
    match v {
        ValueView::String(_) => "str"@,
        ValueView::Bytes(_) => "bytes"@,
        ValueView::I64(_) => "int"@,
        ValueView::U64(_) => "int"@,
        ValueView::F64(_) => "float"@,
        ValueView::Bool(_) => "bool"@,
        ValueView::Null => "None"@,
        ValueView::List(_) => "list"@,
        ValueView::Dict(_) => "dict"@,
    }
}

/// What is said of a column that could not be encoded.
pub open spec fn encode_failure_text(
    column: Seq<char>,
    values: Seq<ValueView>,
    source: ErrorView,
) -> Seq<char> {
    "Failed to encode column '"@ + column + "' (data type: "@ + (if values.len() == 0 {
        "unknown"@
    } else {
        data_type(values[0])
    })
        + "). If encoding non-text data, provide a compatible encoder via the `model` parameter. See the SemHash documentation for more info. Source error: "@
        + error::error_text(source)
}

/// What an encoder's reply for a column comes to: a matrix with one row for each value, or an
/// error.
pub open spec fn column_outcome(
    column: Seq<char>,
    values: Seq<ValueView>,
    reply: std::result::Result<MatrixView, ErrorView>,
) -> std::result::Result<MatrixView, ErrorView> {
    match reply {
        Err(source) => Err(
            ErrorView::EncodeError(encode_failure_text(column, values, source)),
        ),
        Ok(m) => match shape_outcome(m, values.len(), None) {
            Err(e) => Err(e),
            Ok(_) => Ok(m),
        },
    }
}

fn value_type_name(value: &Value) -> (r: &'static str)
    ensures
        r@ == data_type(value.deep_view()),
{
    match value {
        Value::String(_) => "str",
        Value::Bytes(_) => "bytes",
        Value::I64(_) => "int",
        Value::U64(_) => "int",
        Value::F64(_) => "float",
        Value::Bool(_) => "bool",
        Value::Null => "None",
        Value::List(_) => "list",
        Value::Dict(_) => "dict",
    }
}

/// Collects the values of the records in one column.
pub fn collect_column(records: &[DictRecord], column: &String) -> (r: Result<Vec<Value>>)
    ensures
        error::outcome(r) == column_values(records.deep_view(), column@),
{
    let ghost ds = records.deep_view();
    let mut values: Vec<Value> = Vec::new();
    let mut i: usize = 0;
    while i < records.len()
        invariant
            i <= records.len(),
            ds == records.deep_view(),
            values.len() == i,
            forall|j: int| 0 <= j < i ==> value::dict_has(#[trigger] ds[j], column@),
            forall|j: int|
                0 <= j < i ==> (#[trigger] values@[j]).deep_view() == value::dict_at(
                    ds[j],
                    column@,
                ),
        decreases records.len() - i,
    {
        assert(ds[i as int] == records@[i as int].deep_view());
        match records[i].get(column.as_str()) {
            Some(v) => {
                values.push(v.clone());
            },
            None => {
                return Err(SemHashError::MissingColumn { column: column.clone() });
            },
        }
        i = i + 1;
    }
    assert(values.deep_view() =~= column_values(ds, column@)->Ok_0);
    Ok(values)
}

/// Takes an encoder's reply for a column: names the column where the encoder failed, and checks
/// that there is one row for each value.
pub fn accept_column(column: &String, values: &[Value], reply: Result<Embeddings>) -> (r: Result<
    Embeddings,
>)
    ensures
        error::outcome(r) == column_outcome(column@, values.deep_view(), error::outcome(reply)),
{
    match reply {
        Err(source) => {
            let mut message = "Failed to encode column '".to_owned();
            message.append(column.as_str());
            message.append("' (data type: ");
            if values.len() == 0 {
                message.append("unknown");
            } else {
                message.append(value_type_name(&values[0]));
            }
            message.append(
                "). If encoding non-text data, provide a compatible encoder via the `model` parameter. See the SemHash documentation for more info. Source error: ",
            );
            let text = source.to_string();
            message.append(text.as_str());
            Err(SemHashError::EncodeError(message))
        },
        Ok(embeddings) => {
            match validate_embeddings_shape(&embeddings, values.len(), None) {
                Err(e) => Err(e),
                Ok(_) => Ok(embeddings),
            }
        },
    }
}

// ---------------------------------------------------------------------------------------------
// All columns

/// A row of several matrices, one behind the other.
pub open spec fn concatenated_row(matrices: Seq<MatrixView>, i: int) -> Seq<Float32>
    decreases matrices.len(),
{
    if matrices.len() == 0 {
        seq![]
    } else {
        concatenated_row(matrices.drop_last(), i) + matrices.last()[i]
    }
}

/// Several matrices side by side.
pub open spec fn concatenated(matrices: Seq<MatrixView>, rows: nat) -> MatrixView {
    Seq::new(rows, |i: int| concatenated_row(matrices, i))
}

/// Puts matrices of the same number of rows side by side.
pub fn concatenate(matrices: &Vec<Embeddings>, rows: usize) -> (out: Embeddings)
    requires
        forall|c: int|
            0 <= c < matrices.len() ==> (#[trigger] matrices.deep_view()[c]).len() == rows,
    ensures
        out.deep_view() == concatenated(matrices.deep_view(), rows as nat),
{
    let ghost ms = matrices.deep_view();
    let mut out: Embeddings = Vec::new();
    let mut i: usize = 0;
    while i < rows
        invariant
            i <= rows,
            out.len() == i,
            ms == matrices.deep_view(),
            forall|c: int| 0 <= c < ms.len() ==> (#[trigger] ms[c]).len() == rows,
            forall|j: int| 0 <= j < i ==> (#[trigger] out@[j]).deep_view() == concatenated_row(ms, j),
        decreases rows - i,
    {
        let mut row: Vec<Float32> = Vec::new();
        let mut c: usize = 0;
        assert(row@ =~= concatenated_row(ms.take(0), i as int));
        while c < matrices.len()
            invariant
                c <= matrices.len(),
                i < rows,
                ms == matrices.deep_view(),
                forall|c: int| 0 <= c < ms.len() ==> (#[trigger] ms[c]).len() == rows,
                row@ == concatenated_row(ms.take(c as int), i as int),
            decreases matrices.len() - c,
        {
            assert(ms[c as int].len() == rows);
            assert(ms[c as int][i as int] =~= matrices@[c as int]@[i as int]@);
            let part = &matrices[c][i];
            let ghost before = row@;
            let mut j: usize = 0;
            while j < part.len()
                invariant
                    j <= part.len(),
                    row@ == before + part@.take(j as int),
                decreases part.len() - j,
            {
                row.push(part[j]);
                assert(row@ =~= before + part@.take(j + 1));
                j = j + 1;
            }
            assert(part@.take(j as int) =~= part@);
            assert(ms.take(c + 1).drop_last() =~= ms.take(c as int));
            c = c + 1;
        }
        assert(ms.take(c as int) =~= ms);
        assert(row.deep_view() =~= row@);
        out.push(row);
        i = i + 1;
    }
    assert(out.deep_view() =~= concatenated(ms, rows as nat));
    out
}

/// What an encoder may reply when asked for a list of values.
pub open spec fn may_reply<E: Encoder + ?Sized>(
    model: &E,
    values: Seq<ValueView>,
    reply: std::result::Result<MatrixView, ErrorView>,
) -> bool {
    exists|inputs: &[Value], r: Result<Embeddings>| #[trigger]
        call_ensures(E::encode, (model, inputs), r) && inputs.deep_view() == values
            && error::outcome(r) == reply
}

/// What the first `n` columns come to, given the encoder's reply for each of them: their
/// matrices, or the first error. A column is asked for only when all before it were accepted.
pub open spec fn columns_outcome(
    records: Seq<DictView>,
    columns: Seq<Seq<char>>,
    replies: Seq<std::result::Result<MatrixView, ErrorView>>,
    n: nat,
) -> std::result::Result<Seq<MatrixView>, ErrorView>
    decreases n,
{
    if n == 0 {
        Ok(seq![])
    } else {
        match columns_outcome(records, columns, replies, (n - 1) as nat) {
            Err(e) => Err(e),
            Ok(matrices) => match column_values(records, columns[n - 1]) {
                Err(e) => Err(e),
                Ok(values) => match column_outcome(columns[n - 1], values, replies[n - 1]) {
                    Err(e) => Err(e),
                    Ok(m) => Ok(matrices.push(m)),
                },
            },
        }
    }
}

/// The embeddings of the records, given the encoder's reply for each column: its matrices side
/// by side, or the first error.
pub open spec fn features_outcome(
    records: Seq<DictView>,
    columns: Seq<Seq<char>>,
    replies: Seq<std::result::Result<MatrixView, ErrorView>>,
) -> std::result::Result<MatrixView, ErrorView> {
    if records.len() == 0 {
        Ok(seq![])
    } else {
        match columns_outcome(records, columns, replies, columns.len()) {
            Err(e) => Err(e),
            Ok(matrices) => Ok(concatenated(matrices, records.len())),
        }
    }
}

/// Whether the replies are ones that the encoder may give: each that is asked for answers the
/// values of its column.
pub open spec fn replies_of<E: Encoder + ?Sized>(
    model: &E,
    records: Seq<DictView>,
    columns: Seq<Seq<char>>,
    replies: Seq<std::result::Result<MatrixView, ErrorView>>,
) -> bool {
    &&& replies.len() == columns.len()
    &&& forall|c: int|
        #![trigger replies[c]]
        0 <= c < columns.len() && columns_outcome(records, columns, replies, c as nat) is Ok
            && column_values(records, columns[c]) is Ok ==> may_reply(
            model,
            column_values(records, columns[c])->Ok_0,
            replies[c],
        )
}

/// Whether this is what featurizing the records comes to, for some replies of the encoder.
pub open spec fn featurized<E: Encoder + ?Sized>(
    model: &E,
    records: Seq<DictView>,
    columns: Seq<Seq<char>>,
    result: std::result::Result<MatrixView, ErrorView>,
) -> bool {
    if records.len() == 0 {
        result == Ok::<MatrixView, ErrorView>(seq![])
    } else {
        exists|replies: Seq<std::result::Result<MatrixView, ErrorView>>| #[trigger]
            replies_of(model, records, columns, replies) && result == features_outcome(
                records,
                columns,
                replies,
            )
    }
}

/// Only the replies for the first `n` columns matter to what these come to.
proof fn lemma_columns_outcome_prefix(
    records: Seq<DictView>,
    columns: Seq<Seq<char>>,
    a: Seq<std::result::Result<MatrixView, ErrorView>>,
    b: Seq<std::result::Result<MatrixView, ErrorView>>,
    n: nat,
)
    requires
        n <= a.len(),
        n <= b.len(),
        forall|i: int| 0 <= i < n ==> a[i] == b[i],
    ensures
        columns_outcome(records, columns, a, n) == columns_outcome(records, columns, b, n),
    decreases n,
{
    if n > 0 {
        lemma_columns_outcome_prefix(records, columns, a, b, (n - 1) as nat);
    }
}

/// The first error stands, whatever comes after it.
proof fn lemma_columns_outcome_error(
    records: Seq<DictView>,
    columns: Seq<Seq<char>>,
    replies: Seq<std::result::Result<MatrixView, ErrorView>>,
    k: nat,
    n: nat,
)
    requires
        k <= n,
        columns_outcome(records, columns, replies, k) is Err,
    ensures
        columns_outcome(records, columns, replies, n) == columns_outcome(
            records,
            columns,
            replies,
            k,
        ),
    decreases n,
{
    if k < n {
        lemma_columns_outcome_error(records, columns, replies, k, (n - 1) as nat);
    }
}

/// Replies for all columns, of which the given ones come first and the rest is never asked for.
spec fn padded(
    replies: Seq<std::result::Result<MatrixView, ErrorView>>,
    n: nat,
) -> Seq<std::result::Result<MatrixView, ErrorView>> {
    Seq::new(
        n,
        |i: int|
            if i < replies.len() {
                replies[i]
            } else {
                Ok::<MatrixView, ErrorView>(seq![])
            },
    )
}

/// Where the first `k` columns already fail, the replies up to then decide.
proof fn lemma_featurized_early<E: Encoder + ?Sized>(
    model: &E,
    records: Seq<DictView>,
    columns: Seq<Seq<char>>,
    replies: Seq<std::result::Result<MatrixView, ErrorView>>,
    k: nat,
)
    requires
        records.len() > 0,
        0 < k <= columns.len(),
        k - 1 <= replies.len() <= k,
        columns_outcome(records, columns, padded(replies, columns.len()), k) is Err,
        forall|c: int|
            #![trigger replies[c]]
            0 <= c < replies.len() ==> may_reply(
                model,
                column_values(records, columns[c])->Ok_0,
                replies[c],
            ),
        replies.len() < k ==> column_values(records, columns[k - 1]) is Err,
    ensures
        featurized(
            model,
            records,
            columns,
            Err(columns_outcome(records, columns, padded(replies, columns.len()), k)->Err_0),
        ),
{
    let full = padded(replies, columns.len());
    lemma_columns_outcome_error(records, columns, full, k, columns.len());
    assert forall|c: int|
        #![trigger full[c]]
        0 <= c < columns.len() && columns_outcome(records, columns, full, c as nat) is Ok
            && column_values(records, columns[c]) is Ok implies may_reply(
        model,
        column_values(records, columns[c])->Ok_0,
        full[c],
    ) by {
        if c >= k {
            lemma_columns_outcome_error(records, columns, full, k, c as nat);
        }
        assert(full[c] == replies[c]);
    }
    assert(replies_of(model, records, columns, full));
}

/// Featurizes records one column at a time and puts the resulting embeddings side by side.
pub fn featurize<E: Encoder + ?Sized>(
    records: &[DictRecord],
    columns: &[String],
    model: &E,
) -> (r: Result<Embeddings>)
    ensures
        featurized(model, records.deep_view(), columns.deep_view(), error::outcome(r)),
{
    let ghost ds = records.deep_view();
    let ghost cols = columns.deep_view();
    if records.len() == 0 {
        let out: Embeddings = Vec::new();
        assert(out.deep_view() =~= seq![]);
        return Ok(out);
    }
    let ghost mut replies: Seq<std::result::Result<MatrixView, ErrorView>> = seq![];
    let mut matrices: Vec<Embeddings> = Vec::new();
    let mut c: usize = 0;
    assert(matrices.deep_view() =~= seq![]);
    while c < columns.len()
        invariant
            c <= columns.len(),
            ds == records.deep_view(),
            ds.len() > 0,
            cols == columns.deep_view(),
            replies.len() == c,
            columns_outcome(ds, cols, padded(replies, cols.len()), c as nat) == Ok::<
                Seq<MatrixView>,
                ErrorView,
            >(matrices.deep_view()),
            forall|k: int|
                #![trigger replies[k]]
                0 <= k < c ==> may_reply(model, column_values(ds, cols[k])->Ok_0, replies[k]),
            forall|k: int|
                0 <= k < matrices.len() ==> (#[trigger] matrices.deep_view()[k]).len() == ds.len(),
        decreases columns.len() - c,
    {
        let ghost n = cols.len();
        assert(cols[c as int] == columns@[c as int]@);
        let values = match collect_column(records, &columns[c]) {
            Ok(values) => values,
            Err(e) => {
                proof {
                    lemma_featurized_early(model, ds, cols, replies, (c + 1) as nat);
                }
                return Err(e);
            },
        };
        let inputs = values.as_slice();
        assert(inputs.deep_view() =~= values.deep_view());
        let reply = model.encode(inputs);
        let ghost reply_view = error::outcome(reply);
        let ghost next = replies.push(reply_view);
        proof {
            assert(may_reply(model, column_values(ds, cols[c as int])->Ok_0, reply_view));
            lemma_columns_outcome_prefix(ds, cols, padded(replies, n), padded(next, n), c as nat);
        }
        let accepted = accept_column(&columns[c], inputs, reply);
        proof {
            assert(padded(next, n)[c as int] == reply_view);
            replies = next;
        }
        match accepted {
            Ok(m) => {
                let ghost before = matrices.deep_view();
                matrices.push(m);
                assert(matrices.deep_view() =~= before.push(m.deep_view()));
            },
            Err(e) => {
                proof {
                    lemma_featurized_early(model, ds, cols, replies, (c + 1) as nat);
                }
                return Err(e);
            },
        }
        c = c + 1;
    }
    proof {
        assert(padded(replies, cols.len()) =~= replies);
        assert(replies_of(model, ds, cols, replies));
    }
    Ok(concatenate(&matrices, records.len()))
}

} // verus!
