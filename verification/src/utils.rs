//! Keys of records, the conversion of values for encoders, and candidate limits.

use crate::error;
use crate::error::{ErrorView, Result, SemHashError};
use crate::float::Float32;
use crate::order;
use crate::rendering;
use crate::scaling;
use crate::scaling::scale;
use crate::text;
use crate::text::{push_part, replace_tabs};
use crate::value;
use crate::value::{DictRecord, DictView, Record, RecordView, Value, ValueView};
use vstd::math;
use vstd::prelude::*;
use vstd::string::*;

verus! {

/// A value as it stands in a key: nested values by their representation, others as they are.
pub open spec fn hashable(v: ValueView) -> ValueView {
    match v {
        ValueView::List(_) => ValueView::String(rendering::canonical_text(v)),
        ValueView::Dict(_) => ValueView::String(rendering::canonical_text(v)),
        _ => v,
    }
}

/// A value as it is handed to an encoder: numbers and truth values as text, others as they are.
pub open spec fn coerced(v: ValueView) -> ValueView {
    match v {
        ValueView::I64(_) => ValueView::String(rendering::lossy_text(v)),
        ValueView::U64(_) => ValueView::String(rendering::lossy_text(v)),
        ValueView::F64(_) => ValueView::String(rendering::lossy_text(v)),
        ValueView::Bool(_) => ValueView::String(rendering::lossy_text(v)),
        _ => v,
    }
}

/// Converts a value to what it is in a key: nested values are replaced by their representation.
pub fn make_hashable(value: &Value) -> (r: Value)
    ensures
        r.deep_view() == hashable(value.deep_view()),
{
    match value {
        Value::List(_) => Value::String(value.canonical()),
        Value::Dict(_) => Value::String(value.canonical()),
        _ => value.clone(),
    }
}

/// Converts a value for encoding: strings and bytes are preserved, numbers and truth values
/// become text, and nested values pass through unchanged.
pub fn coerce_value(value: &Value) -> (r: Value)
    ensures
        r.deep_view() == coerced(value.deep_view()),
{
    match value {
        Value::I64(_) => Value::String(value.as_string_lossy()),
        Value::U64(_) => Value::String(value.as_string_lossy()),
        Value::F64(_) => Value::String(value.as_string_lossy()),
        Value::Bool(_) => Value::String(value.as_string_lossy()),
        _ => value.clone(),
    }
}

/// Whether a name is among the columns.
pub(crate) fn has_column(columns: &[String], name: &String) -> (r: bool)
    ensures
        r == columns.deep_view().contains(name@),
{
    let ghost cols = columns.deep_view();
    let mut i: usize = 0;
    while i < columns.len()
        invariant
            i <= columns.len(),
            cols == columns.deep_view(),
            forall|j: int| 0 <= j < i ==> cols[j] != name@,
        decreases columns.len() - i,
    {
        assert(cols[i as int] == columns@[i as int]@);
        if columns[i] == *name {
            assert(cols.contains(name@));
            return true;
        }
        i = i + 1;
    }
    false
}

// ---------------------------------------------------------------------------------------------
// Keys

/// The first column that the record does not have.
pub open spec fn first_missing(d: DictView, columns: Seq<Seq<char>>) -> Option<Seq<char>>
    decreases columns.len(),
{
    if columns.len() == 0 {
        None
    } else if !value::dict_has(d, columns[0]) {
        Some(columns[0])
    } else {
        first_missing(d, columns.drop_first())
    }
}

/// The key of a record: its entries under the given columns, with hashable values.
pub open spec fn key_of(d: DictView, columns: Seq<Seq<char>>) -> DictView
    decreases d.len(),
{
    if d.len() == 0 {
        seq![]
    } else {
        let rest = key_of(d.drop_last(), columns);
        if columns.contains(d.last().0) {
            rest.push((d.last().0, hashable(d.last().1)))
        } else {
            rest
        }
    }
}

/// The key of a record that has all columns, else the first column that it is missing.
pub open spec fn key_outcome(d: DictView, columns: Seq<Seq<char>>) -> std::result::Result<
    DictView,
    ErrorView,
> {
    match first_missing(d, columns) {
        Some(column) => Err(ErrorView::MissingColumn { column }),
        None => Ok(key_of(d, columns)),
    }
}

/// The keys in a key are keys of the record.
proof fn lemma_key_from(d: DictView, columns: Seq<Seq<char>>, i: int)
    requires
        0 <= i < key_of(d, columns).len(),
    ensures
        exists|j: int|
            0 <= j < d.len() && (#[trigger] d[j]).0 == key_of(d, columns)[i].0 && columns.contains(
                d[j].0,
            ) && key_of(d, columns)[i].1 == hashable(d[j].1),
    decreases d.len(),
{
    let rest = key_of(d.drop_last(), columns);
    if i < rest.len() {
        lemma_key_from(d.drop_last(), columns, i);
        let j = choose|j: int|
            0 <= j < d.drop_last().len() && (#[trigger] d.drop_last()[j]).0 == rest[i].0
                && columns.contains(d.drop_last()[j].0) && rest[i].1 == hashable(
                d.drop_last()[j].1,
            );
        assert(d[j] == d.drop_last()[j]);
    } else {
        assert(d[d.len() - 1].0 == key_of(d, columns)[i].0);
    }
}

/// An entry under one of the columns is in the key.
proof fn lemma_key_into(d: DictView, columns: Seq<Seq<char>>, j: int)
    requires
        0 <= j < d.len(),
        columns.contains(d[j].0),
    ensures
        exists|i: int|
            0 <= i < key_of(d, columns).len() && #[trigger] key_of(d, columns)[i] == (
                d[j].0,
                hashable(d[j].1),
            ),
    decreases d.len(),
{
    let rest = key_of(d.drop_last(), columns);
    if j < d.len() - 1 {
        lemma_key_into(d.drop_last(), columns, j);
        let i = choose|i: int|
            0 <= i < rest.len() && #[trigger] rest[i] == (
                d.drop_last()[j].0,
                hashable(d.drop_last()[j].1),
            );
        assert(key_of(d, columns)[i] == rest[i]);
    } else {
        assert(key_of(d, columns)[rest.len() as int] == (d[j].0, hashable(d[j].1)));
    }
}

/// The key of a record stands in the order of its keys.
pub(crate) proof fn lemma_key_sorted(d: DictView, columns: Seq<Seq<char>>)
    requires
        value::dict_sorted(d),
    ensures
        value::dict_sorted(key_of(d, columns)),
    decreases d.len(),
{
    if d.len() > 0 {
        let front = d.drop_last();
        let rest = key_of(front, columns);
        let key = key_of(d, columns);
        assert forall|a: int, b: int|
            #![trigger front[a], front[b]]
            0 <= a < b < front.len() implies order::text_before(front[a].0, front[b].0) by {
            assert(order::text_before(d[a].0, d[b].0));
        }
        lemma_key_sorted(front, columns);
        assert forall|a: int, b: int|
            #![trigger key[a], key[b]]
            0 <= a < b < key.len() implies order::text_before(key[a].0, key[b].0) by {
            if b < rest.len() {
                assert(order::text_before(rest[a].0, rest[b].0));
            } else {
                lemma_key_from(front, columns, a);
                let j = choose|j: int|
                    0 <= j < front.len() && (#[trigger] front[j]).0 == rest[a].0;
                assert(order::text_before(d[j].0, d[d.len() - 1].0));
            }
        }
    }
}

/// What a key holds under a name: the hashable value of the record, if the name is a column.
pub proof fn lemma_key_lookup(d: DictView, columns: Seq<Seq<char>>, name: Seq<char>)
    requires
        value::dict_sorted(d),
    ensures
        value::dict_has(key_of(d, columns), name) <==> value::dict_has(d, name)
            && columns.contains(name),
        value::dict_has(key_of(d, columns), name) ==> value::dict_at(key_of(d, columns), name)
            == hashable(value::dict_at(d, name)),
{
    let key = key_of(d, columns);
    lemma_key_sorted(d, columns);
    if value::dict_has(key, name) {
        let i = value::dict_position(key, name);
        lemma_key_from(d, columns, i);
        let j = choose|j: int|
            0 <= j < d.len() && (#[trigger] d[j]).0 == key[i].0 && columns.contains(d[j].0)
                && key[i].1 == hashable(d[j].1);
        value::lemma_dict_at(d, j);
        value::lemma_dict_at(key, i);
    }
    if value::dict_has(d, name) && columns.contains(name) {
        let j = value::dict_position(d, name);
        lemma_key_into(d, columns, j);
    }
}

proof fn lemma_first_missing_none(d: DictView, columns: Seq<Seq<char>>, name: Seq<char>)
    requires
        first_missing(d, columns) is None,
        columns.contains(name),
    ensures
        value::dict_has(d, name),
    decreases columns.len(),
{
    let i = choose|i: int| 0 <= i < columns.len() && columns[i] == name;
    if i > 0 {
        assert(columns.drop_first()[i - 1] == name);
        lemma_first_missing_none(d, columns.drop_first(), name);
    }
}

/// Two records have the same key exactly when they have the same hashable value in every
/// column; what they hold in other columns does not matter.
pub proof fn keys_agree_by_columns(d: DictView, e: DictView, columns: Seq<Seq<char>>)
    requires
        value::dict_sorted(d),
        value::dict_sorted(e),
        first_missing(d, columns) is None,
        first_missing(e, columns) is None,
    ensures
        key_of(d, columns) == key_of(e, columns) <==> forall|name: Seq<char>| #[trigger]
            columns.contains(name) ==> hashable(value::dict_at(d, name)) == hashable(
                value::dict_at(e, name),
            ),
{
    let agree = forall|name: Seq<char>| #[trigger]
        columns.contains(name) ==> hashable(value::dict_at(d, name)) == hashable(
            value::dict_at(e, name),
        );
    let kd = key_of(d, columns);
    let ke = key_of(e, columns);
    if kd == ke {
        assert forall|name: Seq<char>| #[trigger] columns.contains(name) implies hashable(
            value::dict_at(d, name),
        ) == hashable(value::dict_at(e, name)) by {
            lemma_first_missing_none(d, columns, name);
            lemma_first_missing_none(e, columns, name);
            lemma_key_lookup(d, columns, name);
            lemma_key_lookup(e, columns, name);
        }
    }
    if agree {
        lemma_key_sorted(d, columns);
        lemma_key_sorted(e, columns);
        assert forall|name: Seq<char>| value::dict_map(kd).contains_key(name) == value::dict_map(
            ke,
        ).contains_key(name) by {
            lemma_key_lookup(d, columns, name);
            lemma_key_lookup(e, columns, name);
            if columns.contains(name) {
                lemma_first_missing_none(d, columns, name);
                lemma_first_missing_none(e, columns, name);
            }
        }
        assert forall|name: Seq<char>| value::dict_map(kd).contains_key(name) implies value::dict_map(
            kd,
        )[name] == value::dict_map(ke)[name] by {
            lemma_key_lookup(d, columns, name);
            lemma_key_lookup(e, columns, name);
            if columns.contains(name) {
                lemma_first_missing_none(e, columns, name);
            }
        }
        assert(value::dict_map(kd) =~= value::dict_map(ke));
        value::dict_determined_by_map(kd, ke);
    }
}

/// The first column that the record does not have.
fn find_missing<'a>(record: &DictRecord, columns: &'a [String]) -> (r: Option<&'a String>)
    ensures
        match r {
            Some(column) => first_missing(record.deep_view(), columns.deep_view()) == Some(column@),
            None => first_missing(record.deep_view(), columns.deep_view()) is None,
        },
{
    let ghost d = record.deep_view();
    let ghost cols = columns.deep_view();
    let mut i: usize = 0;
    assert(cols.skip(0) =~= cols);
    while i < columns.len()
        invariant
            i <= columns.len(),
            d == record.deep_view(),
            cols == columns.deep_view(),
            first_missing(d, cols) == first_missing(d, cols.skip(i as int)),
        decreases columns.len() - i,
    {
        assert(cols.skip(i as int).drop_first() =~= cols.skip(i + 1));
        assert(cols.skip(i as int)[0] == columns@[i as int]@);
        if !record.contains_key(columns[i].as_str()) {
            return Some(&columns[i]);
        }
        i = i + 1;
    }
    None
}

/// Converts a record to a key: its columns, with hashable values.
pub fn to_key_map(record: &DictRecord, columns: &[String]) -> (r: Result<DictRecord>)
    ensures
        error::outcome(r) == key_outcome(record.deep_view(), columns.deep_view()),
        r matches Ok(key) ==> value::dict_sorted(key.deep_view()),
{
    let ghost d = record.deep_view();
    let ghost cols = columns.deep_view();
    if let Some(column) = find_missing(record, columns) {
        return Err(SemHashError::MissingColumn { column: column.clone() });
    }
    record.reveal_order();
    let mut entries: Vec<(String, Value)> = Vec::new();
    let mut i: usize = 0;
    proof {
        record.lemma_listed();
        assert(value::entries_view(entries@) =~= key_of(d.take(0), cols));
    }
    while i < record.entries.len()
        invariant
            i <= record.entries.len(),
            cols == columns.deep_view(),
            d == value::entries_view(record.entries@),
            value::entries_view(entries@) == key_of(d.take(i as int), cols),
        decreases record.entries.len() - i,
    {
        let ghost before = entries@;
        assert(d.take(i + 1).drop_last() =~= d.take(i as int));
        if has_column(columns, &record.entries[i].0) {
            entries.push((record.entries[i].0.clone(), make_hashable(&record.entries[i].1)));
            assert(value::entries_view(entries@) =~= value::entries_view(before).push(
                (d[i as int].0, hashable(d[i as int].1)),
            ));
        }
        i = i + 1;
    }
    proof {
        assert(d.take(i as int) =~= d);
        lemma_key_sorted(d, cols);
    }
    Ok(DictRecord::from_sorted(entries))
}

/// Alias of `to_key_map`.
pub fn to_frozendict(record: &DictRecord, columns: &[String]) -> (r: Result<DictRecord>)
    ensures
        error::outcome(r) == key_outcome(record.deep_view(), columns.deep_view()),
        r matches Ok(key) ==> value::dict_sorted(key.deep_view()),
{
    to_key_map(record, columns)
}

// ---------------------------------------------------------------------------------------------
// Records as text

/// The text of a record in one column: nothing where it has no such column.
pub open spec fn column_text(d: DictView, column: Seq<char>) -> Seq<char> {
    text::tabs_to_spaces(
        if value::dict_has(d, column) {
            rendering::lossy_text(value::dict_at(d, column))
        } else {
            seq![]
        },
    )
}

/// The texts of a record in the given columns.
pub open spec fn column_texts(d: DictView, columns: Seq<Seq<char>>) -> Seq<Seq<char>> {
    Seq::new(columns.len(), |i: int| column_text(d, columns[i]))
}

/// A record as one line of text: its columns, separated by tabs.
pub open spec fn dict_text(d: DictView, columns: Seq<Seq<char>>) -> Seq<char> {
    text::joined(column_texts(d, columns), "\t"@)
}

/// Joins the columns of a record with tabs; tabs within a column become spaces.
pub fn dict_record_to_text(record: &DictRecord, columns: &[String]) -> (r: String)
    ensures
        r@ == dict_text(record.deep_view(), columns.deep_view()),
{
    let ghost d = record.deep_view();
    let ghost cols = columns.deep_view();
    let ghost parts = column_texts(d, cols);
    let mut out = String::new();
    let mut i: usize = 0;
    assert(out@ =~= Seq::<char>::empty() + text::joined(parts.take(0), "\t"@));
    while i < columns.len()
        invariant
            i <= columns.len(),
            d == record.deep_view(),
            cols == columns.deep_view(),
            parts == column_texts(d, cols),
            out@ == Seq::<char>::empty() + text::joined(parts.take(i as int), "\t"@),
        decreases columns.len() - i,
    {
        let raw = match record.get(columns[i].as_str()) {
            Some(v) => v.as_string_lossy(),
            None => String::new(),
        };
        let part = replace_tabs(raw.as_str());
        assert(part@ == column_text(d, cols[i as int]));
        push_part(
            &mut out,
            i == 0,
            "\t",
            part.as_str(),
            Ghost(Seq::<char>::empty()),
            Ghost(parts.take(i as int)),
        );
        assert(parts.take(i as int).push(part@) =~= parts.take(i + 1));
        i = i + 1;
    }
    assert(parts.take(i as int) =~= parts);
    assert(out@ =~= text::joined(parts, "\t"@));
    out
}

/// The text by which a selected record is found: that of its key, where the columns are known
/// and the record has them all, else that of the whole record.
pub open spec fn selection_key(r: RecordView, columns: Option<Seq<Seq<char>>>) -> Seq<char> {
    match (r, columns) {
        (RecordView::Dict(d), Some(cols)) => if first_missing(d, cols) is None {
            rendering::canonical_text(ValueView::Dict(key_of(d, cols)))
        } else {
            rendering::record_canonical_text(r)
        },
        _ => rendering::record_canonical_text(r),
    }
}

/// The text by which a selected record is found.
pub fn record_key_for_selected(record: &Record, columns: &Option<Vec<String>>) -> (r: String)
    ensures
        r@ == selection_key(record.deep_view(), columns.deep_view()),
{
    match (record, columns) {
        (Record::Dict(d), Some(cols)) => {
            let names = cols.as_slice();
            assert(names.deep_view() =~= cols.deep_view());
            match to_key_map(d, names) {
                Ok(key) => key.canonical(),
                Err(_) => record.canonical(),
            }
        },
        _ => record.canonical(),
    }
}

// ---------------------------------------------------------------------------------------------
// Candidate limits

/// How many candidates to consider: a share of all, but no fewer than are to be selected or than
/// the minimum, and no more than the maximum or than there are.
pub open spec fn candidate_limit(
    total: nat,
    selection_size: nat,
    part: nat,
    min_candidates: nat,
    max_candidates: nat,
) -> nat {
    let wanted = math::max(math::max(part as int, selection_size as int), min_candidates as int);
    math::min(math::min(wanted, max_candidates as int), total as int) as nat
}

/// Computes the automatic candidate limit used by representative sampling, from the fraction of
/// all records to consider.
pub fn compute_candidate_limit(
    total: usize,
    selection_size: usize,
    fraction: Float32,
    min_candidates: usize,
    max_candidates: usize,
) -> (limit: usize)
    ensures
        limit == candidate_limit(
            total as nat,
            selection_size as nat,
            scaling::scaled(total as nat, fraction, false),
            min_candidates as nat,
            max_candidates as nat,
        ),
{
    let mut limit: usize = scale(total, fraction, false);
    if limit < selection_size {
        limit = selection_size;
    }
    if limit < min_candidates {
        limit = min_candidates;
    }
    if limit > max_candidates {
        limit = max_candidates;
    }
    if limit > total {
        limit = total;
    }
    limit
}

/// Default candidate limit: a tenth of all records, at least 100 and at most 1000.
pub fn compute_candidate_limit_default(total: usize, selection_size: usize) -> (limit: usize)
    ensures
        limit == candidate_limit(
            total as nat,
            selection_size as nat,
            total as nat / 10,
            100,
            1000,
        ),
{
    proof {
        scaling::scaled_tenth(total as nat);
    }
    compute_candidate_limit(total, selection_size, Float32 { bits: 0x3dcc_cccd }, 100, 1000)
}

/// A candidate limit never exceeds what there is or the maximum, and leaves enough candidates to
/// select from where these allow it.
pub proof fn candidate_limit_in_range(
    total: nat,
    selection_size: nat,
    part: nat,
    min_candidates: nat,
    max_candidates: nat,
)
    ensures
        ({
            let limit = candidate_limit(
                total,
                selection_size,
                part,
                min_candidates,
                max_candidates,
            );
            &&& limit <= total
            &&& limit <= max_candidates
            &&& selection_size <= max_candidates && selection_size <= total ==> limit
                >= selection_size
            &&& total <= min_candidates <= max_candidates ==> limit == total
        }),
{
}

} // verus!
