//! Records: validation, conversion, and exact duplicates.

use crate::datamodels::{DeduplicationResult, DeduplicationView, DuplicateRecord, DuplicateView};
use crate::error;
use crate::error::{ErrorView, Result, SemHashError};
use crate::float;
use crate::float::Float32;
use crate::key_table::KeyTable;
use crate::order;
use crate::rendering;
use crate::utils;
use crate::utils::{coerce_value, dict_record_to_text, has_column, to_key_map};
use crate::value;
use crate::value::{DictRecord, DictView, Record, RecordView, Value, ValueView};
use vstd::prelude::*;
use vstd::string::*;

verus! {

/// Exact duplicate output: `(duplicate_record, records_it_matches)`.
pub type ExactDuplicates = Vec<(DictRecord, Vec<DictRecord>)>;

// ---------------------------------------------------------------------------------------------
// Small conversions

/// Records with the score of an exact match.
pub open spec fn fully_scored(records: Seq<DictView>) -> Seq<(DictView, Float32)> {
    Seq::new(records.len(), |i: int| (records[i], float::float_one()))
}

/// Pairs each record with the score of an exact match.
pub fn add_scores_to_records(records: &[DictRecord]) -> (r: Vec<(DictRecord, Float32)>)
    ensures
        r.deep_view() == fully_scored(records.deep_view()),
{
    let mut out: Vec<(DictRecord, Float32)> = Vec::new();
    let mut i: usize = 0;
    while i < records.len()
        invariant
            i <= records.len(),
            out.len() == i,
            forall|j: int|
                0 <= j < i ==> (#[trigger] out@[j]).deep_view() == (
                    records@[j].deep_view(),
                    float::float_one(),
                ),
        decreases records.len() - i,
    {
        out.push((records[i].clone(), Float32::one()));
        i = i + 1;
    }
    assert(out.deep_view() =~= fully_scored(records.deep_view()));
    out
}

/// Dictionaries as records.
pub open spec fn as_records(dicts: Seq<DictView>) -> Seq<RecordView> {
    Seq::new(dicts.len(), |i: int| RecordView::Dict(dicts[i]))
}

/// Scored dictionaries as scored records.
pub open spec fn as_scored_records(dicts: Seq<(DictView, Float32)>) -> Seq<(RecordView, Float32)> {
    Seq::new(dicts.len(), |i: int| (RecordView::Dict(dicts[i].0), dicts[i].1))
}

/// Turns dictionaries into records.
pub fn dicts_to_records(records: Vec<DictRecord>) -> (r: Vec<Record>)
    ensures
        r.deep_view() == as_records(records.deep_view()),
{
    let ghost ds = records.deep_view();
    let mut out: Vec<Record> = Vec::new();
    for d in it: records
        invariant
            it.seq() == records@,
            ds == records.deep_view(),
            out.len() == it.index(),
            forall|j: int|
                0 <= j < it.index() ==> (#[trigger] out@[j]).deep_view() == RecordView::Dict(ds[j]),
    {
        out.push(Record::Dict(d));
    }
    assert(out.deep_view() =~= as_records(ds));
    out
}

/// Turns scored dictionaries into scored records.
pub fn scored_dicts_to_records(records: Vec<(DictRecord, Float32)>) -> (r: Vec<(Record, Float32)>)
    ensures
        r.deep_view() == as_scored_records(records.deep_view()),
{
    let ghost ds = records.deep_view();
    let mut out: Vec<(Record, Float32)> = Vec::new();
    for d in it: records
        invariant
            it.seq() == records@,
            ds == records.deep_view(),
            out.len() == it.index(),
            forall|j: int|
                0 <= j < it.index() ==> (#[trigger] out@[j]).deep_view() == (
                    RecordView::Dict(ds[j].0),
                    ds[j].1,
                ),
    {
        out.push((Record::Dict(d.0), d.1));
    }
    assert(out.deep_view() =~= as_scored_records(ds));
    out
}

// ---------------------------------------------------------------------------------------------
// Grouping

/// The keys of the records.
pub open spec fn keys_of(records: Seq<DictView>, columns: Seq<Seq<char>>) -> Seq<DictView> {
    Seq::new(records.len(), |i: int| utils::key_of(records[i], columns))
}

/// The items of a list without repetitions, in the order of their first occurrence.
pub open spec fn distinct(s: Seq<DictView>) -> Seq<DictView>
    decreases s.len(),
{
    if s.len() == 0 {
        seq![]
    } else {
        let rest = distinct(s.drop_last());
        if rest.contains(s.last()) {
            rest
        } else {
            rest.push(s.last())
        }
    }
}

/// The positions at which the items of a list occur for the first time.
pub open spec fn first_positions(s: Seq<DictView>) -> Seq<usize>
    decreases s.len(),
{
    if s.len() == 0 {
        seq![]
    } else {
        let rest = first_positions(s.drop_last());
        if distinct(s.drop_last()).contains(s.last()) {
            rest
        } else {
            rest.push((s.len() - 1) as usize)
        }
    }
}

/// The records with the given key, in their order.
pub open spec fn bucket(
    records: Seq<DictView>,
    columns: Seq<Seq<char>>,
    key: DictView,
) -> Seq<DictView>
    decreases records.len(),
{
    if records.len() == 0 {
        seq![]
    } else {
        let rest = bucket(records.drop_last(), columns, key);
        if utils::key_of(records.last(), columns) == key {
            rest.push(records.last())
        } else {
            rest
        }
    }
}

/// The records, grouped by key; the groups stand in the order of their first records.
pub open spec fn groups(records: Seq<DictView>, columns: Seq<Seq<char>>) -> Seq<Seq<DictView>> {
    let keys = distinct(keys_of(records, columns));
    Seq::new(keys.len(), |j: int| bucket(records, columns, keys[j]))
}

/// The first record of each group.
pub open spec fn heads(groups: Seq<Seq<DictView>>) -> Seq<DictView> {
    Seq::new(groups.len(), |j: int| groups[j][0])
}

/// The first column that one of the records does not have, record by record.
pub open spec fn first_missing_of(
    records: Seq<DictView>,
    columns: Seq<Seq<char>>,
) -> Option<Seq<char>>
    decreases records.len(),
{
    if records.len() == 0 {
        None
    } else if utils::first_missing(records[0], columns) is Some {
        utils::first_missing(records[0], columns)
    } else {
        first_missing_of(records.drop_first(), columns)
    }
}

/// No key occurs twice.
pub proof fn lemma_distinct(s: Seq<DictView>)
    ensures
        distinct(s).no_duplicates(),
        first_positions(s).len() == distinct(s).len(),
        forall|x: DictView|
            #![trigger distinct(s).contains(x)]
            #![trigger s.contains(x)]
            distinct(s).contains(x) <==> s.contains(x),
    decreases s.len(),
{
    if s.len() > 0 {
        lemma_distinct(s.drop_last());
        let rest = distinct(s.drop_last());
        assert forall|x: DictView|
            #![trigger distinct(s).contains(x)]
            #![trigger s.contains(x)]
            distinct(s).contains(x) <==> s.contains(x) by {
            if s.contains(x) {
                let i = choose|i: int| 0 <= i < s.len() && s[i] == x;
                if i < s.len() - 1 {
                    assert(s.drop_last()[i] == x);
                    assert(s.drop_last().contains(x));
                    assert(rest.contains(x));
                    let j = choose|j: int| 0 <= j < rest.len() && rest[j] == x;
                    assert(distinct(s)[j] == x);
                } else if !rest.contains(s.last()) {
                    assert(distinct(s)[rest.len() as int] == x);
                }
            }
            if distinct(s).contains(x) {
                let j = choose|j: int| 0 <= j < distinct(s).len() && distinct(s)[j] == x;
                if j < rest.len() {
                    assert(rest[j] == x);
                    assert(rest.contains(x));
                    assert(s.drop_last().contains(x));
                    let i = choose|i: int| 0 <= i < s.drop_last().len() && s.drop_last()[i] == x;
                    assert(s[i] == x);
                } else {
                    assert(s[s.len() - 1] == x);
                }
            }
        }
    }
}

/// The records, grouped by exact match on the columns, with the position of the first record of
/// each group.
pub(crate) fn group_with_positions(records: &[DictRecord], columns: &[String]) -> (r: Result<
    (Vec<Vec<DictRecord>>, Vec<usize>),
>)
    ensures
        match first_missing_of(records.deep_view(), columns.deep_view()) {
            Some(column) => r matches Err(e) && e.deep_view() == (ErrorView::MissingColumn {
                column,
            }),
            None => r matches Ok(out) && out.0.deep_view() == groups(
                records.deep_view(),
                columns.deep_view(),
            ) && out.1@ == first_positions(keys_of(records.deep_view(), columns.deep_view())),
        },
{
    let ghost ds = records.deep_view();
    let ghost cols = columns.deep_view();
    let ghost keys = keys_of(ds, cols);
    let mut table = KeyTable::new();
    let mut items: Vec<Vec<DictRecord>> = Vec::new();
    let mut positions: Vec<usize> = Vec::new();
    let mut i: usize = 0;
    assert(ds.skip(0) =~= ds);
    while i < records.len()
        invariant
            i <= records.len(),
            ds == records.deep_view(),
            cols == columns.deep_view(),
            keys == keys_of(ds, cols),
            first_missing_of(ds, cols) == first_missing_of(ds.skip(i as int), cols),
            table.wf(),
            table@ == distinct(keys.take(i as int)),
            items.len() == table@.len(),
            positions@ == first_positions(keys.take(i as int)),
            forall|j: int|
                0 <= j < items.len() ==> (#[trigger] items@[j]).deep_view() == bucket(
                    ds.take(i as int),
                    cols,
                    table@[j],
                ),
        decreases records.len() - i,
    {
        assert(ds.skip(i as int).drop_first() =~= ds.skip(i + 1));
        assert(ds.skip(i as int)[0] == records@[i as int].deep_view());
        let key = match to_key_map(&records[i], columns) {
            Ok(key) => key,
            Err(e) => {
                return Err(e);
            },
        };
        let ghost k = key.deep_view();
        let ghost before = items@;
        proof {
            assert(keys.take(i + 1).drop_last() =~= keys.take(i as int));
            assert(ds.take(i + 1).drop_last() =~= ds.take(i as int));
            assert(keys[i as int] == k);
            lemma_distinct(keys.take(i as int));
        }
        match table.find(&key) {
            Some(index) => {
                items[index].push(records[i].clone());
                assert(items@[index as int].deep_view() =~= before[index as int].deep_view().push(
                    ds[i as int],
                ));
            },
            None => {
                let mut group: Vec<DictRecord> = Vec::new();
                group.push(records[i].clone());
                proof {
                    assert(keys_of(ds.take(i as int), cols) =~= keys.take(i as int));
                    lemma_bucket_empty(ds.take(i as int), cols, k);
                    assert(group.deep_view() =~= bucket(ds.take(i + 1), cols, k));
                }
                items.push(group);
                positions.push(i);
                table.push(key);
            },
        }
        i = i + 1;
    }
    proof {
        assert(keys.take(i as int) =~= keys);
        assert(ds.take(i as int) =~= ds);
        assert(items.deep_view() =~= groups(ds, cols));
    }
    Ok((items, positions))
}

/// There is no record with a key that no record has.
pub(crate) proof fn lemma_bucket_empty(records: Seq<DictView>, columns: Seq<Seq<char>>, key: DictView)
    requires
        !keys_of(records, columns).contains(key),
    ensures
        bucket(records, columns, key).len() == 0,
    decreases records.len(),
{
    if records.len() > 0 {
        let keys = keys_of(records, columns);
        assert(keys[records.len() - 1] != key) by {
            if keys[records.len() - 1] == key {
                assert(keys.contains(key));
            }
        }
        let front = keys_of(records.drop_last(), columns);
        if front.contains(key) {
            let i = choose|i: int| 0 <= i < front.len() && front[i] == key;
            assert(keys[i] == key);
        }
        lemma_bucket_empty(records.drop_last(), columns, key);
    }
}

/// A key that a record has is the key of at least one record.
pub(crate) proof fn lemma_bucket_nonempty(records: Seq<DictView>, columns: Seq<Seq<char>>, key: DictView)
    requires
        keys_of(records, columns).contains(key),
    ensures
        bucket(records, columns, key).len() > 0,
    decreases records.len(),
{
    let keys = keys_of(records, columns);
    let i = choose|i: int| 0 <= i < keys.len() && keys[i] == key;
    if i < records.len() - 1 {
        let front = keys_of(records.drop_last(), columns);
        assert(front[i] == key);
        assert(front.contains(key));
        lemma_bucket_nonempty(records.drop_last(), columns, key);
    }
}

/// Every group has a first record.
pub proof fn lemma_groups_nonempty(records: Seq<DictView>, columns: Seq<Seq<char>>)
    ensures
        forall|j: int|
            0 <= j < groups(records, columns).len() ==> (#[trigger] groups(
                records,
                columns,
            )[j]).len() > 0,
{
    let keys = keys_of(records, columns);
    lemma_distinct(keys);
    assert forall|j: int| 0 <= j < groups(records, columns).len() implies (#[trigger] groups(
        records,
        columns,
    )[j]).len() > 0 by {
        assert(distinct(keys).contains(distinct(keys)[j]));
        lemma_bucket_nonempty(records, columns, distinct(keys)[j]);
    }
}

/// What grouping comes to: the first record of each group and the groups, or the first column
/// that a record is missing.
pub open spec fn group_outcome(
    records: Seq<DictView>,
    columns: Seq<Seq<char>>,
) -> std::result::Result<(Seq<DictView>, Seq<Seq<DictView>>), ErrorView> {
    match first_missing_of(records, columns) {
        Some(column) => Err(ErrorView::MissingColumn { column }),
        None => Ok((heads(groups(records, columns)), groups(records, columns))),
    }
}

/// Groups records by exact match on the columns, preserving the order of first occurrence.
pub fn group_records_by_key(records: &[DictRecord], columns: &[String]) -> (r: Result<
    (Vec<DictRecord>, Vec<Vec<DictRecord>>),
>)
    ensures
        error::outcome(r) == group_outcome(records.deep_view(), columns.deep_view()),
{
    let items = match group_with_positions(records, columns) {
        Ok(grouped) => grouped.0,
        Err(e) => {
            return Err(e);
        },
    };
    let ghost gs = items.deep_view();
    let mut firsts: Vec<DictRecord> = Vec::new();
    let mut j: usize = 0;
    proof {
        lemma_groups_nonempty(records.deep_view(), columns.deep_view());
    }
    while j < items.len()
        invariant
            j <= items.len(),
            gs == items.deep_view(),
            forall|k: int| 0 <= k < gs.len() ==> (#[trigger] gs[k]).len() > 0,
            firsts.len() == j,
            forall|k: int| 0 <= k < j ==> (#[trigger] firsts@[k]).deep_view() == gs[k][0],
        decreases items.len() - j,
    {
        assert(gs[j as int].len() > 0);
        assert(gs[j as int] == items@[j as int].deep_view());
        firsts.push(items[j][0].clone());
        j = j + 1;
    }
    assert(firsts.deep_view() =~= heads(gs));
    Ok((firsts, items))
}

// ---------------------------------------------------------------------------------------------
// Exact duplicates

/// The last of the reference sets whose first record has the key.
pub open spec fn last_set(
    reference: Seq<Seq<DictView>>,
    columns: Seq<Seq<char>>,
    key: DictView,
) -> Option<Seq<DictView>>
    decreases reference.len(),
{
    if reference.len() == 0 {
        None
    } else if reference.last().len() > 0 && utils::key_of(reference.last()[0], columns) == key {
        Some(reference.last())
    } else {
        last_set(reference.drop_last(), columns, key)
    }
}

/// The records that one with the key duplicates: a reference set, or, where there is no
/// reference, the first of the earlier records with that key.
pub open spec fn exact_match(
    reference: Option<Seq<Seq<DictView>>>,
    earlier: Seq<DictView>,
    columns: Seq<Seq<char>>,
    key: DictView,
) -> Option<Seq<DictView>> {
    match reference {
        Some(sets) => last_set(sets, columns, key),
        None => if bucket(earlier, columns, key).len() > 0 {
            Some(seq![bucket(earlier, columns, key)[0]])
        } else {
            None
        },
    }
}

/// The records that are no exact duplicates.
pub open spec fn unmatched(
    records: Seq<DictView>,
    columns: Seq<Seq<char>>,
    reference: Option<Seq<Seq<DictView>>>,
) -> Seq<DictView>
    decreases records.len(),
{
    if records.len() == 0 {
        seq![]
    } else {
        let rest = unmatched(records.drop_last(), columns, reference);
        if exact_match(
            reference,
            records.drop_last(),
            columns,
            utils::key_of(records.last(), columns),
        ) is None {
            rest.push(records.last())
        } else {
            rest
        }
    }
}

/// The exact duplicates, each with the records that it duplicates.
pub open spec fn matched(
    records: Seq<DictView>,
    columns: Seq<Seq<char>>,
    reference: Option<Seq<Seq<DictView>>>,
) -> Seq<(DictView, Seq<DictView>)>
    decreases records.len(),
{
    if records.len() == 0 {
        seq![]
    } else {
        let rest = matched(records.drop_last(), columns, reference);
        match exact_match(
            reference,
            records.drop_last(),
            columns,
            utils::key_of(records.last(), columns),
        ) {
            Some(originals) => rest.push((records.last(), originals)),
            None => rest,
        }
    }
}

/// The first column that the first record of a reference set does not have, set by set.
pub open spec fn reference_missing(
    reference: Seq<Seq<DictView>>,
    columns: Seq<Seq<char>>,
) -> Option<Seq<char>>
    decreases reference.len(),
{
    if reference.len() == 0 {
        None
    } else if reference[0].len() > 0 && utils::first_missing(reference[0][0], columns) is Some {
        utils::first_missing(reference[0][0], columns)
    } else {
        reference_missing(reference.drop_first(), columns)
    }
}

/// What removing exact duplicates comes to: the other records and the duplicates, or the first
/// column that a reference record or a record is missing.
pub open spec fn removal_outcome(
    records: Seq<DictView>,
    columns: Seq<Seq<char>>,
    reference: Option<Seq<Seq<DictView>>>,
) -> std::result::Result<(Seq<DictView>, Seq<(DictView, Seq<DictView>)>), ErrorView> {
    if reference is Some && reference_missing(reference->0, columns) is Some {
        Err(ErrorView::MissingColumn { column: reference_missing(reference->0, columns)->0 })
    } else {
        match first_missing_of(records, columns) {
            Some(column) => Err(ErrorView::MissingColumn { column }),
            None => Ok(
                (unmatched(records, columns, reference), matched(records, columns, reference)),
            ),
        }
    }
}

/// A copy of a list of records.
pub(crate) fn copy_dicts(records: &Vec<DictRecord>) -> (r: Vec<DictRecord>)
    ensures
        r.deep_view() == records.deep_view(),
{
    let mut out: Vec<DictRecord> = Vec::new();
    let mut i: usize = 0;
    while i < records.len()
        invariant
            i <= records.len(),
            out.len() == i,
            forall|j: int|
                0 <= j < i ==> (#[trigger] out@[j]).deep_view() == records@[j].deep_view(),
        decreases records.len() - i,
    {
        out.push(records[i].clone());
        i = i + 1;
    }
    assert(out.deep_view() =~= records.deep_view());
    out
}

/// Finds exact duplicates within the records.
fn remove_repeated(records: &[DictRecord], columns: &[String]) -> (r: Result<
    (Vec<DictRecord>, ExactDuplicates),
>)
    ensures
        error::outcome(r) == removal_outcome(records.deep_view(), columns.deep_view(), None),
{
    let ghost ds = records.deep_view();
    let ghost cols = columns.deep_view();
    let mut table = KeyTable::new();
    let mut found: Vec<usize> = Vec::new();
    let mut kept: Vec<DictRecord> = Vec::new();
    let mut duplicates: ExactDuplicates = Vec::new();
    let mut i: usize = 0;
    proof {
        assert(ds.skip(0) =~= ds);
        assert(kept.deep_view() =~= unmatched(ds.take(0), cols, None));
        assert(duplicates.deep_view() =~= matched(ds.take(0), cols, None));
    }
    while i < records.len()
        invariant
            i <= records.len(),
            ds == records.deep_view(),
            cols == columns.deep_view(),
            first_missing_of(ds, cols) == first_missing_of(ds.skip(i as int), cols),
            table.wf(),
            found.len() == table@.len(),
            forall|p: int|
                #![trigger found@[p]]
                0 <= p < found.len() ==> found@[p] < i && bucket(
                    ds.take(i as int),
                    cols,
                    table@[p],
                ).len() > 0 && bucket(ds.take(i as int), cols, table@[p])[0] == ds[found@[p] as int],
            forall|key: DictView|
                #![trigger table@.contains(key)]
                !table@.contains(key) ==> bucket(ds.take(i as int), cols, key).len() == 0,
            kept.deep_view() == unmatched(ds.take(i as int), cols, None),
            duplicates.deep_view() == matched(ds.take(i as int), cols, None),
        decreases records.len() - i,
    {
        let ghost so_far = ds.take(i as int);
        let ghost next = ds.take(i + 1);
        let ghost kept_before = kept.deep_view();
        let ghost duplicates_before = duplicates.deep_view();
        let ghost table_before = table@;
        let ghost found_before = found@;
        proof {
            assert(ds.skip(i as int).drop_first() =~= ds.skip(i + 1));
            assert(ds.skip(i as int)[0] == records@[i as int].deep_view());
            assert(next.drop_last() =~= so_far);
        }
        let key = match to_key_map(&records[i], columns) {
            Ok(key) => key,
            Err(e) => {
                return Err(e);
            },
        };
        let ghost k = key.deep_view();
        match table.find(&key) {
            Some(p) => {
                let first: usize = found[p];
                let mut originals: Vec<DictRecord> = Vec::new();
                originals.push(records[first].clone());
                proof {
                    assert(originals.deep_view() =~= seq![ds[first as int]]);
                }
                duplicates.push((records[i].clone(), originals));
                assert(duplicates.deep_view() =~= duplicates_before.push(
                    (ds[i as int], originals.deep_view()),
                ));
            },
            None => {
                kept.push(records[i].clone());
                found.push(i);
                table.push(key);
                assert(kept.deep_view() =~= kept_before.push(ds[i as int]));
            },
        }
        proof {
            assert forall|p: int|
                #![trigger found@[p]]
                0 <= p < found.len() implies found@[p] < i + 1 && bucket(next, cols, table@[p]).len()
                > 0 && bucket(next, cols, table@[p])[0] == ds[found@[p] as int] by {
                if p < found_before.len() {
                    assert(found_before[p] == found@[p]);
                    assert(bucket(so_far, cols, table@[p]).len() > 0);
                }
            }
            assert forall|other: DictView|
                #![trigger table@.contains(other)]
                !table@.contains(other) implies bucket(next, cols, other).len() == 0 by {
                if table_before.contains(other) {
                    let q = choose|q: int|
                        0 <= q < table_before.len() && table_before[q] == other;
                    assert(table@[q] == other);
                }
                if other == k {
                    if table_before.contains(k) {
                    } else {
                        assert(table@[table@.len() - 1] == k);
                    }
                }
            }
        }
        i = i + 1;
    }
    assert(ds.take(i as int) =~= ds);
    Ok((kept, duplicates))
}

/// Finds exact duplicates of reference records.
fn remove_known(
    records: &[DictRecord],
    columns: &[String],
    reference: &[Vec<DictRecord>],
) -> (r: Result<(Vec<DictRecord>, ExactDuplicates)>)
    ensures
        error::outcome(r) == removal_outcome(
            records.deep_view(),
            columns.deep_view(),
            Some(reference.deep_view()),
        ),
{
    let ghost ds = records.deep_view();
    let ghost cols = columns.deep_view();
    let ghost sets = reference.deep_view();
    let mut table = KeyTable::new();
    let mut found: Vec<usize> = Vec::new();
    let mut s: usize = 0;
    assert(sets.skip(0) =~= sets);
    while s < reference.len()
        invariant
            s <= reference.len(),
            cols == columns.deep_view(),
            sets == reference.deep_view(),
            reference_missing(sets, cols) == reference_missing(sets.skip(s as int), cols),
            table.wf(),
            table@.no_duplicates(),
            found.len() == table@.len(),
            forall|p: int|
                #![trigger found@[p]]
                0 <= p < found.len() ==> found@[p] < s && last_set(
                    sets.take(s as int),
                    cols,
                    table@[p],
                ) == Some(sets[found@[p] as int]),
            forall|key: DictView|
                #![trigger table@.contains(key)]
                !table@.contains(key) ==> last_set(sets.take(s as int), cols, key) is None,
        decreases reference.len() - s,
    {
        let ghost so_far = sets.take(s as int);
        let ghost next = sets.take(s + 1);
        let ghost table_before = table@;
        let ghost found_before = found@;
        proof {
            assert(sets.skip(s as int).drop_first() =~= sets.skip(s + 1));
            assert(sets.skip(s as int)[0] == reference@[s as int].deep_view());
            assert(next.drop_last() =~= so_far);
        }
        if reference[s].len() > 0 {
            assert(sets[s as int][0] == reference@[s as int]@[0].deep_view());
            let key = match to_key_map(&reference[s][0], columns) {
                Ok(key) => key,
                Err(e) => {
                    return Err(e);
                },
            };
            let ghost k = key.deep_view();
            match table.find(&key) {
                Some(p) => {
                    found.set(p, s);
                },
                None => {
                    found.push(s);
                    table.push(key);
                },
            }
            proof {
                assert forall|p: int|
                    #![trigger found@[p]]
                    0 <= p < found.len() implies found@[p] < s + 1 && last_set(
                    next,
                    cols,
                    table@[p],
                ) == Some(sets[found@[p] as int]) by {
                    if table@[p] != k {
                        assert(p < found_before.len());
                        assert(found_before[p] == found@[p]);
                    }
                }
                assert forall|other: DictView|
                    #![trigger table@.contains(other)]
                    !table@.contains(other) implies last_set(next, cols, other) is None by {
                    if table_before.contains(other) {
                        let q = choose|q: int|
                            0 <= q < table_before.len() && table_before[q] == other;
                        assert(table@[q] == other);
                    }
                    if other == k && !table_before.contains(k) {
                        assert(table@[table@.len() - 1] == k);
                    }
                }
            }
        } else {
            proof {
                assert forall|p: int|
                    #![trigger found@[p]]
                    0 <= p < found.len() implies found@[p] < s + 1 && last_set(
                    next,
                    cols,
                    table@[p],
                ) == Some(sets[found@[p] as int]) by {
                }
            }
        }
        s = s + 1;
    }
    assert(sets.take(s as int) =~= sets);
    let mut kept: Vec<DictRecord> = Vec::new();
    let mut duplicates: ExactDuplicates = Vec::new();
    let mut i: usize = 0;
    proof {
        assert(ds.skip(0) =~= ds);
        assert(kept.deep_view() =~= unmatched(ds.take(0), cols, Some(sets)));
        assert(duplicates.deep_view() =~= matched(ds.take(0), cols, Some(sets)));
    }
    while i < records.len()
        invariant
            i <= records.len(),
            ds == records.deep_view(),
            cols == columns.deep_view(),
            sets == reference.deep_view(),
            reference_missing(sets, cols) is None,
            first_missing_of(ds, cols) == first_missing_of(ds.skip(i as int), cols),
            table.wf(),
            found.len() == table@.len(),
            forall|p: int|
                #![trigger found@[p]]
                0 <= p < found.len() ==> found@[p] < sets.len() && last_set(sets, cols, table@[p])
                    == Some(sets[found@[p] as int]),
            forall|key: DictView|
                #![trigger table@.contains(key)]
                !table@.contains(key) ==> last_set(sets, cols, key) is None,
            kept.deep_view() == unmatched(ds.take(i as int), cols, Some(sets)),
            duplicates.deep_view() == matched(ds.take(i as int), cols, Some(sets)),
        decreases records.len() - i,
    {
        let ghost kept_before = kept.deep_view();
        let ghost duplicates_before = duplicates.deep_view();
        proof {
            assert(ds.skip(i as int).drop_first() =~= ds.skip(i + 1));
            assert(ds.skip(i as int)[0] == records@[i as int].deep_view());
            assert(ds.take(i + 1).drop_last() =~= ds.take(i as int));
        }
        let key = match to_key_map(&records[i], columns) {
            Ok(key) => key,
            Err(e) => {
                return Err(e);
            },
        };
        match table.find(&key) {
            Some(p) => {
                let set: usize = found[p];
                let originals = copy_dicts(&reference[set]);
                assert(originals.deep_view() == sets[set as int]);
                duplicates.push((records[i].clone(), originals));
                assert(duplicates.deep_view() =~= duplicates_before.push(
                    (ds[i as int], originals.deep_view()),
                ));
            },
            None => {
                kept.push(records[i].clone());
                assert(kept.deep_view() =~= kept_before.push(ds[i as int]));
            },
        }
        i = i + 1;
    }
    assert(ds.take(i as int) =~= ds);
    Ok((kept, duplicates))
}

/// Removes exact duplicates, as decided by the keys of the records.
///
/// Without reference records, duplicates are removed within `records`. With them, a record is a
/// duplicate only if it is one of a reference set; the last set with its key counts.
pub fn remove_exact_duplicates(
    records: &[DictRecord],
    columns: &[String],
    reference_records: Option<&[Vec<DictRecord>]>,
) -> (r: Result<(Vec<DictRecord>, ExactDuplicates)>)
    ensures
        error::outcome(r) == removal_outcome(
            records.deep_view(),
            columns.deep_view(),
            reference_records.deep_view(),
        ),
{
    match reference_records {
        Some(reference) => remove_known(records, columns, reference),
        None => remove_repeated(records, columns),
    }
}

// ---------------------------------------------------------------------------------------------
// Validation

/// What is wrong with a record in one column: the column is missing, or its value is null.
pub open spec fn column_flaw(d: DictView, column: Seq<char>) -> Option<ErrorView> {
    if !value::dict_has(d, column) {
        Some(ErrorView::MissingColumn { column })
    } else if value::dict_at(d, column) is Null {
        Some(
            ErrorView::NoneValue {
                column,
                record: rendering::canonical_text(ValueView::Dict(d)),
            },
        )
    } else {
        None
    }
}

/// The first thing wrong with a record, column by column.
pub open spec fn row_flaw(d: DictView, columns: Seq<Seq<char>>) -> Option<ErrorView>
    decreases columns.len(),
{
    if columns.len() == 0 {
        None
    } else if column_flaw(d, columns[0]) is Some {
        column_flaw(d, columns[0])
    } else {
        row_flaw(d, columns.drop_first())
    }
}

/// The first thing wrong with one of the records, record by record.
pub open spec fn rows_flaw(records: Seq<DictView>, columns: Seq<Seq<char>>) -> Option<ErrorView>
    decreases records.len(),
{
    if records.len() == 0 {
        None
    } else if row_flaw(records[0], columns) is Some {
        row_flaw(records[0], columns)
    } else {
        rows_flaw(records.drop_first(), columns)
    }
}

/// A record with the values of the given columns converted for encoding; the rest stays as it
/// is.
pub open spec fn coerced_dict(d: DictView, columns: Seq<Seq<char>>) -> DictView {
    Seq::new(
        d.len(),
        |i: int|
            (
                d[i].0,
                if columns.contains(d[i].0) {
                    utils::coerced(d[i].1)
                } else {
                    d[i].1
                },
            ),
    )
}

/// Several records with the values of the given columns converted for encoding.
pub open spec fn coerced_dicts(records: Seq<DictView>, columns: Seq<Seq<char>>) -> Seq<DictView> {
    Seq::new(records.len(), |i: int| coerced_dict(records[i], columns))
}

/// A text as a record with the single column `text`.
pub open spec fn text_dict(s: Seq<char>) -> DictView {
    seq![("text"@, ValueView::String(s))]
}

/// Whether all records are plain text.
pub open spec fn all_text(records: Seq<RecordView>) -> bool {
    forall|i: int| 0 <= i < records.len() ==> #[trigger] records[i] is Text
}

/// Whether all records are dictionaries.
pub open spec fn all_dict(records: Seq<RecordView>) -> bool {
    forall|i: int| 0 <= i < records.len() ==> #[trigger] records[i] is Dict
}

/// Text records as dictionaries.
pub open spec fn text_dicts(records: Seq<RecordView>) -> Seq<DictView> {
    Seq::new(records.len(), |i: int| text_dict(records[i]->Text_0))
}

/// The dictionaries of dictionary records.
pub open spec fn dicts_of(records: Seq<RecordView>) -> Seq<DictView> {
    Seq::new(records.len(), |i: int| records[i]->Dict_0)
}

/// What converting dictionary records for encoding comes to.
pub open spec fn coerce_outcome(
    records: Seq<DictView>,
    columns: Seq<Seq<char>>,
) -> std::result::Result<Seq<DictView>, ErrorView> {
    match rows_flaw(records, columns) {
        Some(e) => Err(e),
        None => Ok(coerced_dicts(records, columns)),
    }
}

/// What preparing records comes to: dictionaries, the columns to encode, and whether the records
/// were text. The first record decides what the others have to be.
pub open spec fn prepare_outcome(
    records: Seq<RecordView>,
    columns: Option<Seq<Seq<char>>>,
) -> std::result::Result<(Seq<DictView>, Seq<Seq<char>>, bool), ErrorView> {
    if records.len() == 0 {
        Err(ErrorView::EmptyRecords)
    } else if records[0] is Text {
        if all_text(records) {
            Ok((text_dicts(records), seq!["text"@], true))
        } else {
            Err(ErrorView::MixedRecordTypes { expected: "strings"@ })
        }
    } else {
        match columns {
            None => Err(ErrorView::ColumnsRequired),
            Some(cols) => if all_dict(records) {
                match coerce_outcome(dicts_of(records), cols) {
                    Err(e) => Err(e),
                    Ok(rows) => Ok((rows, cols, false)),
                }
            } else {
                Err(ErrorView::MixedRecordTypes { expected: "dicts"@ })
            },
        }
    }
}

/// What validating records against an instance comes to: dictionaries with the columns of the
/// instance. Text is accepted only by an instance that was built from text.
pub open spec fn validate_outcome(
    records: Seq<RecordView>,
    columns: Seq<Seq<char>>,
    was_string: bool,
) -> std::result::Result<Seq<DictView>, ErrorView> {
    if records.len() == 0 {
        Err(ErrorView::EmptyRecords)
    } else if records[0] is Text {
        if !was_string {
            Err(ErrorView::OriginallyNotStrings)
        } else if all_text(records) {
            Ok(text_dicts(records))
        } else {
            Err(ErrorView::MixedRecordTypes { expected: "all strings"@ })
        }
    } else if all_dict(records) {
        coerce_outcome(dicts_of(records), columns)
    } else {
        Err(ErrorView::MixedRecordTypes { expected: "all dictionaries"@ })
    }
}

/// A text as a record with the single column `text`.
pub(crate) fn text_to_dict(s: &String) -> (r: DictRecord)
    ensures
        r.deep_view() == text_dict(s@),
{
    let mut entries: Vec<(String, Value)> = Vec::new();
    entries.push(("text".to_owned(), Value::String(s.clone())));
    assert(value::entries_view(entries@) =~= text_dict(s@));
    DictRecord::from_sorted(entries)
}

/// Converts a record for encoding.
fn coerce_row(record: &DictRecord, columns: &[String]) -> (r: Result<DictRecord>)
    ensures
        match row_flaw(record.deep_view(), columns.deep_view()) {
            Some(e) => r matches Err(error) && error.deep_view() == e,
            None => r matches Ok(d) && d.deep_view() == coerced_dict(
                record.deep_view(),
                columns.deep_view(),
            ),
        },
{
    let ghost d = record.deep_view();
    let ghost cols = columns.deep_view();
    let mut c: usize = 0;
    assert(cols.skip(0) =~= cols);
    while c < columns.len()
        invariant
            c <= columns.len(),
            d == record.deep_view(),
            cols == columns.deep_view(),
            row_flaw(d, cols) == row_flaw(d, cols.skip(c as int)),
        decreases columns.len() - c,
    {
        assert(cols.skip(c as int).drop_first() =~= cols.skip(c + 1));
        assert(cols.skip(c as int)[0] == columns@[c as int]@);
        match record.get(columns[c].as_str()) {
            None => {
                return Err(SemHashError::MissingColumn { column: columns[c].clone() });
            },
            Some(v) => {
                if let Value::Null = v {
                    return Err(
                        SemHashError::NoneValue {
                            column: columns[c].clone(),
                            record: record.canonical(),
                        },
                    );
                }
            },
        }
        c = c + 1;
    }
    record.reveal_order();
    let mut entries: Vec<(String, Value)> = Vec::new();
    let mut i: usize = 0;
    proof {
        record.lemma_listed();
    }
    while i < record.entries.len()
        invariant
            i <= record.entries.len(),
            cols == columns.deep_view(),
            d == value::entries_view(record.entries@),
            entries.len() == i,
            forall|j: int|
                #![trigger entries@[j]]
                0 <= j < i ==> (entries@[j].0@, value::value_view(entries@[j].1)) == coerced_dict(
                    d,
                    cols,
                )[j],
        decreases record.entries.len() - i,
    {
        let v = if has_column(columns, &record.entries[i].0) {
            coerce_value(&record.entries[i].1)
        } else {
            record.entries[i].1.clone()
        };
        entries.push((record.entries[i].0.clone(), v));
        i = i + 1;
    }
    proof {
        let e = coerced_dict(d, cols);
        assert(value::entries_view(entries@) =~= e);
        assert forall|a: int, b: int|
            #![trigger e[a], e[b]]
            0 <= a < b < e.len() implies order::text_before(e[a].0, e[b].0) by {
            assert(order::text_before(d[a].0, d[b].0));
        }
    }
    Ok(DictRecord::from_sorted(entries))
}

fn are_all_text(records: &[Record]) -> (r: bool)
    ensures
        r == all_text(records.deep_view()),
{
    let ghost rs = records.deep_view();
    let mut i: usize = 0;
    while i < records.len()
        invariant
            i <= records.len(),
            rs == records.deep_view(),
            forall|j: int| 0 <= j < i ==> #[trigger] rs[j] is Text,
        decreases records.len() - i,
    {
        assert(rs[i as int] == records@[i as int].deep_view());
        if let Record::Dict(_) = &records[i] {
            return false;
        }
        i = i + 1;
    }
    true
}

fn are_all_dict(records: &[Record]) -> (r: bool)
    ensures
        r == all_dict(records.deep_view()),
{
    let ghost rs = records.deep_view();
    let mut i: usize = 0;
    while i < records.len()
        invariant
            i <= records.len(),
            rs == records.deep_view(),
            forall|j: int| 0 <= j < i ==> #[trigger] rs[j] is Dict,
        decreases records.len() - i,
    {
        assert(rs[i as int] == records@[i as int].deep_view());
        if let Record::Text(_) = &records[i] {
            return false;
        }
        i = i + 1;
    }
    true
}

/// Turns text records into dictionaries.
fn texts_to_dicts(records: &[Record]) -> (r: Vec<DictRecord>)
    requires
        all_text(records.deep_view()),
    ensures
        r.deep_view() == text_dicts(records.deep_view()),
{
    let ghost rs = records.deep_view();
    let mut out: Vec<DictRecord> = Vec::new();
    let mut i: usize = 0;
    while i < records.len()
        invariant
            i <= records.len(),
            rs == records.deep_view(),
            all_text(rs),
            out.len() == i,
            forall|j: int| 0 <= j < i ==> (#[trigger] out@[j]).deep_view() == text_dicts(rs)[j],
        decreases records.len() - i,
    {
        assert(rs[i as int] == records@[i as int].deep_view());
        if let Record::Text(s) = &records[i] {
            out.push(text_to_dict(s));
        }
        i = i + 1;
    }
    assert(out.deep_view() =~= text_dicts(rs));
    out
}

/// Converts dictionary records for encoding.
fn coerce_rows(records: &[Record], columns: &[String]) -> (r: Result<Vec<DictRecord>>)
    requires
        all_dict(records.deep_view()),
    ensures
        error::outcome(r) == coerce_outcome(dicts_of(records.deep_view()), columns.deep_view()),
{
    let ghost rs = records.deep_view();
    let ghost ds = dicts_of(rs);
    let ghost cols = columns.deep_view();
    let mut out: Vec<DictRecord> = Vec::new();
    let mut i: usize = 0;
    assert(ds.skip(0) =~= ds);
    while i < records.len()
        invariant
            i <= records.len(),
            rs == records.deep_view(),
            ds == dicts_of(rs),
            cols == columns.deep_view(),
            all_dict(rs),
            rows_flaw(ds, cols) == rows_flaw(ds.skip(i as int), cols),
            out.len() == i,
            forall|j: int|
                0 <= j < i ==> (#[trigger] out@[j]).deep_view() == coerced_dict(ds[j], cols),
        decreases records.len() - i,
    {
        assert(ds.skip(i as int).drop_first() =~= ds.skip(i + 1));
        assert(ds.skip(i as int)[0] == ds[i as int]);
        assert(rs[i as int] == records@[i as int].deep_view());
        if let Record::Dict(d) = &records[i] {
            match coerce_row(d, columns) {
                Ok(row) => {
                    out.push(row);
                },
                Err(e) => {
                    return Err(e);
                },
            }
        }
        i = i + 1;
    }
    assert(out.deep_view() =~= coerced_dicts(ds, cols));
    Ok(out)
}

/// Validates records and prepares them for processing.
///
/// Text records become dictionaries with the single column `text`. Dictionary records require
/// explicit columns and preserve their other fields.
pub fn prepare_records(records: &[Record], columns: Option<Vec<String>>) -> (r: Result<
    (Vec<DictRecord>, Vec<String>, bool),
>)
    ensures
        error::outcome(r) == prepare_outcome(records.deep_view(), columns.deep_view()),
{
    let ghost rs = records.deep_view();
    if records.len() == 0 {
        return Err(SemHashError::EmptyRecords);
    }
    assert(rs[0] == records@[0].deep_view());
    match &records[0] {
        Record::Text(_) => {
            if !are_all_text(records) {
                return Err(SemHashError::MixedRecordTypes { expected: "strings" });
            }
            let mut names: Vec<String> = Vec::new();
            names.push("text".to_owned());
            assert(names.deep_view() =~= seq!["text"@]);
            Ok((texts_to_dicts(records), names, true))
        },
        Record::Dict(_) => {
            match columns {
                None => Err(SemHashError::ColumnsRequired),
                Some(names) => {
                    if !are_all_dict(records) {
                        return Err(SemHashError::MixedRecordTypes { expected: "dicts" });
                    }
                    let listed = names.as_slice();
                    assert(listed.deep_view() =~= names.deep_view());
                    match coerce_rows(records, listed) {
                        Ok(rows) => Ok((rows, names, false)),
                        Err(e) => Err(e),
                    }
                },
            }
        },
    }
}

/// Validates records that are compared with an instance, and prepares them for processing.
pub fn validate_if_strings(records: &[Record], columns: &[String], was_string: bool) -> (r: Result<
    Vec<DictRecord>,
>)
    ensures
        error::outcome(r) == validate_outcome(
            records.deep_view(),
            columns.deep_view(),
            was_string,
        ),
{
    let ghost rs = records.deep_view();
    if records.len() == 0 {
        return Err(SemHashError::EmptyRecords);
    }
    assert(rs[0] == records@[0].deep_view());
    match &records[0] {
        Record::Text(_) => {
            if !was_string {
                return Err(SemHashError::OriginallyNotStrings);
            }
            if !are_all_text(records) {
                return Err(SemHashError::MixedRecordTypes { expected: "all strings" });
            }
            Ok(texts_to_dicts(records))
        },
        Record::Dict(_) => {
            if !are_all_dict(records) {
                return Err(SemHashError::MixedRecordTypes { expected: "all dictionaries" });
            }
            coerce_rows(records, columns)
        },
    }
}

// ---------------------------------------------------------------------------------------------
// Back to text

/// A dictionary record as text: its columns, separated by tabs.
pub fn dict_to_string(record: &DictRecord, columns: &[String]) -> (r: String)
    ensures
        r@ == utils::dict_text(record.deep_view(), columns.deep_view()),
{
    dict_record_to_text(record, columns)
}

/// What candidates are as dictionaries that can be encoded: text needs a single column.
pub open spec fn candidates_outcome(
    records: Seq<RecordView>,
    columns: Seq<Seq<char>>,
) -> std::result::Result<Seq<DictView>, ErrorView> {
    if columns.len() == 1 || all_dict(records) {
        Ok(
            Seq::new(
                records.len(),
                |i: int|
                    match records[i] {
                        RecordView::Dict(d) => d,
                        RecordView::Text(s) => seq![(columns[0], ValueView::String(s))],
                    },
            ),
        )
    } else {
        Err(
            ErrorView::Message(
                "Text candidates can only be featurized with a single column"@,
            ),
        )
    }
}

/// Turns candidates into dictionaries that can be encoded.
pub fn records_to_dicts_for_featurize(records: &[Record], columns: &[String]) -> (r: Result<
    Vec<DictRecord>,
>)
    ensures
        error::outcome(r) == candidates_outcome(records.deep_view(), columns.deep_view()),
{
    let ghost rs = records.deep_view();
    let ghost cols = columns.deep_view();
    let ghost all = candidates_outcome(rs, cols)->Ok_0;
    let mut out: Vec<DictRecord> = Vec::new();
    let mut i: usize = 0;
    while i < records.len()
        invariant
            i <= records.len(),
            rs == records.deep_view(),
            cols == columns.deep_view(),
            out.len() == i,
            cols.len() == 1 || forall|j: int| 0 <= j < i ==> #[trigger] rs[j] is Dict,
            forall|j: int|
                0 <= j < i ==> (#[trigger] out@[j]).deep_view() == match rs[j] {
                    RecordView::Dict(d) => d,
                    RecordView::Text(s) => seq![(cols[0], ValueView::String(s))],
                },
        decreases records.len() - i,
    {
        assert(rs[i as int] == records@[i as int].deep_view());
        match &records[i] {
            Record::Dict(d) => {
                out.push(d.clone());
            },
            Record::Text(s) => {
                if columns.len() != 1 {
                    return Err(
                        SemHashError::Message(
                            "Text candidates can only be featurized with a single column".to_owned(),
                        ),
                    );
                }
                let mut entries: Vec<(String, Value)> = Vec::new();
                entries.push((columns[0].clone(), Value::String(s.clone())));
                assert(value::entries_view(entries@) =~= seq![(cols[0], ValueView::String(s@))]);
                out.push(DictRecord::from_sorted(entries));
            },
        }
        i = i + 1;
    }
    assert(out.deep_view() =~= all);
    Ok(out)
}

// ---------------------------------------------------------------------------------------------
// Results in strings

/// A record as a string record.
pub open spec fn stringed(r: RecordView, columns: Seq<Seq<char>>) -> RecordView {
    match r {
        RecordView::Text(s) => RecordView::Text(s),
        RecordView::Dict(d) => RecordView::Text(utils::dict_text(d, columns)),
    }
}

/// Records as string records.
pub open spec fn stringed_records(records: Seq<RecordView>, columns: Seq<Seq<char>>) -> Seq<
    RecordView,
> {
    Seq::new(records.len(), |i: int| stringed(records[i], columns))
}

/// Scored records as string records with the same scores.
pub open spec fn stringed_scored(
    records: Seq<(RecordView, Float32)>,
    columns: Seq<Seq<char>>,
) -> Seq<(RecordView, Float32)> {
    Seq::new(records.len(), |i: int| (stringed(records[i].0, columns), records[i].1))
}

/// A duplicate record in string records.
pub open spec fn stringed_duplicate(d: DuplicateView, columns: Seq<Seq<char>>) -> DuplicateView {
    DuplicateView {
        record: stringed(d.record, columns),
        exact: d.exact,
        duplicates: stringed_scored(d.duplicates, columns),
    }
}

/// A deduplication result in string records.
pub open spec fn stringed_result(d: DeduplicationView, columns: Seq<Seq<char>>) -> DeduplicationView {
    DeduplicationView {
        selected: stringed_records(d.selected, columns),
        filtered: Seq::new(
            d.filtered.len(),
            |i: int| stringed_duplicate(d.filtered[i], columns),
        ),
        threshold: d.threshold,
        columns: d.columns,
    }
}

fn record_to_string(record: Record, columns: &[String]) -> (r: Record)
    ensures
        r.deep_view() == stringed(record.deep_view(), columns.deep_view()),
{
    match record {
        Record::Text(text) => Record::Text(text),
        Record::Dict(map) => Record::Text(dict_to_string(&map, columns)),
    }
}

fn scored_to_strings(records: Vec<(Record, Float32)>, columns: &[String]) -> (r: Vec<
    (Record, Float32),
>)
    ensures
        r.deep_view() == stringed_scored(records.deep_view(), columns.deep_view()),
{
    let ghost rs = records.deep_view();
    let mut out: Vec<(Record, Float32)> = Vec::new();
    for pair in it: records
        invariant
            it.seq() == records@,
            rs == records.deep_view(),
            out.len() == it.index(),
            forall|j: int|
                0 <= j < it.index() ==> (#[trigger] out@[j]).deep_view() == (
                    stringed(rs[j].0, columns.deep_view()),
                    rs[j].1,
                ),
    {
        out.push((record_to_string(pair.0, columns), pair.1));
    }
    assert(out.deep_view() =~= stringed_scored(rs, columns.deep_view()));
    out
}

/// Converts a deduplication result from dictionary internals back into text records, for records
/// that were text to begin with.
pub fn map_deduplication_result_to_strings(
    result: DeduplicationResult,
    columns: &[String],
) -> (r: DeduplicationResult)
    ensures
        r.deep_view() == stringed_result(result.deep_view(), columns.deep_view()),
        r.cached() is None,
{
    let ghost expected = stringed_result(result.deep_view(), columns.deep_view());
    let (records, duplicates, threshold, result_columns) = result.into_parts();
    let ghost rs = records.deep_view();
    let mut selected: Vec<Record> = Vec::new();
    for record in it: records
        invariant
            it.seq() == records@,
            rs == records.deep_view(),
            selected.len() == it.index(),
            forall|j: int|
                0 <= j < it.index() ==> (#[trigger] selected@[j]).deep_view() == stringed(
                    rs[j],
                    columns.deep_view(),
                ),
    {
        selected.push(record_to_string(record, columns));
    }
    assert(selected.deep_view() =~= expected.selected);

    let ghost ds = duplicates.deep_view();
    let mut filtered: Vec<DuplicateRecord> = Vec::new();
    for duplicate in it: duplicates
        invariant
            it.seq() == duplicates@,
            ds == duplicates.deep_view(),
            filtered.len() == it.index(),
            forall|j: int|
                0 <= j < it.index() ==> (#[trigger] filtered@[j]).deep_view() == stringed_duplicate(
                    ds[j],
                    columns.deep_view(),
                ),
    {
        let record = record_to_string(duplicate.record, columns);
        let originals = scored_to_strings(duplicate.duplicates, columns);
        filtered.push(DuplicateRecord { record, exact: duplicate.exact, duplicates: originals });
    }
    assert(filtered.deep_view() =~= expected.filtered);
    DeduplicationResult::new(selected, filtered, threshold, result_columns)
}

} // verus!
