//! Laws of grouping, of exact duplicates, and of validation.

use crate::records;
use crate::text;
use crate::utils;
use crate::value;
use crate::value::{DictView, RecordView, ValueView};
use vstd::prelude::*;
use vstd::seq_lib::*;

verus! {

// ---------------------------------------------------------------------------------------------
// Grouping

/// All records of some groups, one group after the other.
pub open spec fn flattened(groups: Seq<Seq<DictView>>) -> Seq<DictView>
    decreases groups.len(),
{
    if groups.len() == 0 {
        seq![]
    } else {
        flattened(groups.drop_last()) + groups.last()
    }
}

/// The buckets of some keys.
spec fn buckets(
    records: Seq<DictView>,
    columns: Seq<Seq<char>>,
    keys: Seq<DictView>,
) -> Seq<Seq<DictView>> {
    Seq::new(keys.len(), |j: int| records::bucket(records, columns, keys[j]))
}

proof fn lemma_flattened_last(groups: Seq<Seq<DictView>>)
    requires
        groups.len() > 0,
    ensures
        flattened(groups).to_multiset() == flattened(groups.drop_last()).to_multiset().add(
            groups.last().to_multiset(),
        ),
{
    lemma_multiset_commutative(flattened(groups.drop_last()), groups.last());
}

/// One more record is in the bucket of its key, and in no other.
proof fn lemma_buckets_push(
    records: Seq<DictView>,
    columns: Seq<Seq<char>>,
    keys: Seq<DictView>,
)
    requires
        records.len() > 0,
        keys.no_duplicates(),
    ensures
        flattened(buckets(records, columns, keys)).to_multiset() == {
            let before = flattened(buckets(records.drop_last(), columns, keys)).to_multiset();
            if keys.contains(utils::key_of(records.last(), columns)) {
                before.insert(records.last())
            } else {
                before
            }
        },
    decreases keys.len(),
{
    broadcast use group_to_multiset_ensures;

    let key = utils::key_of(records.last(), columns);
    let now = buckets(records, columns, keys);
    let before = buckets(records.drop_last(), columns, keys);
    if keys.len() == 0 {
        assert(now =~= before);
    } else {
        let init = keys.drop_last();
        lemma_buckets_push(records, columns, init);
        assert(now.drop_last() =~= buckets(records, columns, init));
        assert(before.drop_last() =~= buckets(records.drop_last(), columns, init));
        lemma_flattened_last(now);
        lemma_flattened_last(before);
        let flat_before = flattened(before).to_multiset();
        if keys.last() == key {
            assert(keys[keys.len() - 1] == key);
            assert(keys.contains(key));
            assert(!init.contains(key)) by {
                if init.contains(key) {
                    let i = choose|i: int| 0 <= i < init.len() && init[i] == key;
                    assert(keys[i] == keys[keys.len() - 1]);
                }
            }
            assert(now.last() == before.last().push(records.last()));
            assert(flattened(now).to_multiset() =~= flat_before.insert(records.last()));
        } else {
            assert(now.last() == before.last());
            if init.contains(key) {
                let i = choose|i: int| 0 <= i < init.len() && init[i] == key;
                assert(keys[i] == key);
                assert(flattened(now).to_multiset() =~= flat_before.insert(records.last()));
            } else {
                assert(!keys.contains(key)) by {
                    if keys.contains(key) {
                        let i = choose|i: int| 0 <= i < keys.len() && keys[i] == key;
                        assert(init[i] == key);
                    }
                }
                assert(flattened(now).to_multiset() =~= flat_before);
            }
        }
    }
}

/// Grouping loses no record and invents none.
pub proof fn groups_hold_the_records(records: Seq<DictView>, columns: Seq<Seq<char>>)
    ensures
        flattened(records::groups(records, columns)).to_multiset() == records.to_multiset(),
        flattened(records::groups(records, columns)).len() == records.len(),
    decreases records.len(),
{
    broadcast use group_to_multiset_ensures;

    let keys = records::keys_of(records, columns);
    let now = records::groups(records, columns);
    if records.len() == 0 {
        assert(now =~= seq![]);
        assert(flattened(now) =~= records);
    } else {
        let init = records.drop_last();
        let init_keys = records::keys_of(init, columns);
        let key = utils::key_of(records.last(), columns);
        groups_hold_the_records(init, columns);
        assert(keys.drop_last() =~= init_keys);
        assert(keys.last() == key);
        records::lemma_distinct(keys);
        records::lemma_distinct(init_keys);
        let all = records::distinct(keys);
        let some = records::distinct(init_keys);
        assert(keys[keys.len() - 1] == key);
        assert(keys.contains(key));
        assert(all.contains(key));
        assert(now =~= buckets(records, columns, all));
        lemma_buckets_push(records, columns, all);
        let before = buckets(init, columns, all);
        assert(records::groups(init, columns) =~= buckets(init, columns, some));
        if some.contains(key) {
            assert(all == some);
        } else {
            assert(!init_keys.contains(key));
            records::lemma_bucket_empty(init, columns, key);
            assert(before.drop_last() =~= buckets(init, columns, some));
            assert(before.last() =~= seq![]);
            lemma_flattened_last(before);
            assert(flattened(before).to_multiset() =~= flattened(
                buckets(init, columns, some),
            ).to_multiset());
        }
        assert(init.push(records.last()) =~= records);
        assert(flattened(now).to_multiset() =~= records.to_multiset());
    }
    flattened(now).to_multiset_ensures();
    records.to_multiset_ensures();
}

/// The records of a bucket are those that have its key.
proof fn lemma_bucket_keys(
    records: Seq<DictView>,
    columns: Seq<Seq<char>>,
    key: DictView,
    i: int,
)
    requires
        0 <= i < records::bucket(records, columns, key).len(),
    ensures
        utils::key_of(records::bucket(records, columns, key)[i], columns) == key,
    decreases records.len(),
{
    let rest = records::bucket(records.drop_last(), columns, key);
    if i < rest.len() {
        lemma_bucket_keys(records.drop_last(), columns, key, i);
    }
}

/// Two records stand in the same group exactly if they have the same key.
pub proof fn groups_agree_by_key(
    records: Seq<DictView>,
    columns: Seq<Seq<char>>,
    a: int,
    i: int,
    b: int,
    j: int,
)
    requires
        0 <= a < records::groups(records, columns).len(),
        0 <= b < records::groups(records, columns).len(),
        0 <= i < records::groups(records, columns)[a].len(),
        0 <= j < records::groups(records, columns)[b].len(),
    ensures
        a == b <==> utils::key_of(records::groups(records, columns)[a][i], columns)
            == utils::key_of(records::groups(records, columns)[b][j], columns),
{
    let keys = records::keys_of(records, columns);
    records::lemma_distinct(keys);
    lemma_bucket_keys(records, columns, records::distinct(keys)[a], i);
    lemma_bucket_keys(records, columns, records::distinct(keys)[b], j);
}

// ---------------------------------------------------------------------------------------------
// Exact duplicates

/// The records that turned out to be exact duplicates.
pub open spec fn matched_records(matched: Seq<(DictView, Seq<DictView>)>) -> Seq<DictView> {
    Seq::new(matched.len(), |i: int| matched[i].0)
}

/// Removing exact duplicates loses no record and invents none: each is a duplicate or is not.
pub proof fn removal_keeps_records(
    records: Seq<DictView>,
    columns: Seq<Seq<char>>,
    reference: Option<Seq<Seq<DictView>>>,
)
    ensures
        records::unmatched(records, columns, reference).to_multiset().add(
            matched_records(records::matched(records, columns, reference)).to_multiset(),
        ) == records.to_multiset(),
        records::unmatched(records, columns, reference).len() + records::matched(
            records,
            columns,
            reference,
        ).len() == records.len(),
    decreases records.len(),
{
    broadcast use group_to_multiset_ensures;

    let rest = records::unmatched(records, columns, reference);
    let gone = records::matched(records, columns, reference);
    if records.len() == 0 {
        assert(matched_records(gone) =~= seq![]);
        assert(rest.to_multiset().add(matched_records(gone).to_multiset())
            =~= records.to_multiset());
    } else {
        let init = records.drop_last();
        removal_keeps_records(init, columns, reference);
        let before = records::matched(init, columns, reference);
        assert(init.push(records.last()) =~= records);
        if gone.len() > before.len() {
            assert(matched_records(gone) =~= matched_records(before).push(records.last()));
        }
        assert(rest.to_multiset().add(matched_records(gone).to_multiset())
            =~= records.to_multiset());
    }
}

/// A set found for a key is one of the sets, and its first record has the key.
proof fn lemma_last_set(reference: Seq<Seq<DictView>>, columns: Seq<Seq<char>>, key: DictView)
    requires
        records::last_set(reference, columns, key) is Some,
    ensures
        reference.contains(records::last_set(reference, columns, key)->0),
        records::last_set(reference, columns, key)->0.len() > 0,
        utils::key_of(records::last_set(reference, columns, key)->0[0], columns) == key,
    decreases reference.len(),
{
    let set = records::last_set(reference, columns, key)->0;
    if reference.last().len() > 0 && utils::key_of(reference.last()[0], columns) == key {
        assert(reference[reference.len() - 1] == set);
    } else {
        lemma_last_set(reference.drop_last(), columns, key);
        let i = choose|i: int|
            0 <= i < reference.drop_last().len() && reference.drop_last()[i] == set;
        assert(reference[i] == set);
    }
}

/// Every exact duplicate has the key of the first record that it duplicates; with a reference,
/// what it duplicates is one of the reference sets.
pub proof fn duplicates_share_a_key(
    records: Seq<DictView>,
    columns: Seq<Seq<char>>,
    reference: Option<Seq<Seq<DictView>>>,
    i: int,
)
    requires
        0 <= i < records::matched(records, columns, reference).len(),
    ensures
        ({
            let (record, originals) = records::matched(records, columns, reference)[i];
            &&& originals.len() > 0
            &&& utils::key_of(originals[0], columns) == utils::key_of(record, columns)
            &&& reference is Some ==> reference->0.contains(originals)
        }),
    decreases records.len(),
{
    let init = records.drop_last();
    let before = records::matched(init, columns, reference);
    if i < before.len() {
        duplicates_share_a_key(init, columns, reference, i);
    } else {
        let key = utils::key_of(records.last(), columns);
        match reference {
            Some(sets) => {
                lemma_last_set(sets, columns, key);
            },
            None => {
                lemma_bucket_keys(init, columns, key, 0);
            },
        }
    }
}

/// Without a reference, what remains has each key once, in the order of first occurrence.
pub proof fn removal_leaves_distinct_keys(records: Seq<DictView>, columns: Seq<Seq<char>>)
    ensures
        records::keys_of(records::unmatched(records, columns, None), columns) == records::distinct(
            records::keys_of(records, columns),
        ),
    decreases records.len(),
{
    let keys = records::keys_of(records, columns);
    let rest = records::unmatched(records, columns, None);
    if records.len() == 0 {
        assert(records::keys_of(rest, columns) =~= records::distinct(keys));
    } else {
        let init = records.drop_last();
        let init_keys = records::keys_of(init, columns);
        let key = utils::key_of(records.last(), columns);
        removal_leaves_distinct_keys(init, columns);
        assert(keys.drop_last() =~= init_keys);
        records::lemma_distinct(init_keys);
        let before = records::unmatched(init, columns, None);
        if init_keys.contains(key) {
            records::lemma_bucket_nonempty(init, columns, key);
            assert(rest == before);
        } else {
            records::lemma_bucket_empty(init, columns, key);
            assert(rest == before.push(records.last()));
            assert(records::keys_of(rest, columns) =~= records::keys_of(before, columns).push(key));
        }
    }
}

/// A set whose first record has a key is found, or a later one.
proof fn lemma_last_set_found(
    reference: Seq<Seq<DictView>>,
    columns: Seq<Seq<char>>,
    key: DictView,
    p: int,
)
    requires
        0 <= p < reference.len(),
        reference[p].len() > 0,
        utils::key_of(reference[p][0], columns) == key,
    ensures
        records::last_set(reference, columns, key) is Some,
    decreases reference.len(),
{
    if p < reference.len() - 1 {
        lemma_last_set_found(reference.drop_last(), columns, key, p);
    }
}

proof fn lemma_none_unmatched(
    records: Seq<DictView>,
    columns: Seq<Seq<char>>,
    reference: Seq<Seq<DictView>>,
)
    requires
        forall|i: int|
            0 <= i < records.len() ==> records::last_set(
                reference,
                columns,
                utils::key_of(#[trigger] records[i], columns),
            ) is Some,
    ensures
        records::unmatched(records, columns, Some(reference)).len() == 0,
    decreases records.len(),
{
    if records.len() > 0 {
        let init = records.drop_last();
        assert forall|i: int| 0 <= i < init.len() implies records::last_set(
            reference,
            columns,
            utils::key_of(#[trigger] init[i], columns),
        ) is Some by {
            assert(init[i] == records[i]);
        }
        lemma_none_unmatched(init, columns, reference);
        assert(records[records.len() - 1] == records.last());
    }
}

/// Records that are compared with their own groups are all exact duplicates.
pub proof fn known_records_are_duplicates(records: Seq<DictView>, columns: Seq<Seq<char>>)
    ensures
        records::unmatched(records, columns, Some(records::groups(records, columns))).len() == 0,
{
    let items = records::groups(records, columns);
    let keys = records::keys_of(records, columns);
    let all = records::distinct(keys);
    records::lemma_distinct(keys);
    records::lemma_groups_nonempty(records, columns);
    assert forall|i: int| 0 <= i < records.len() implies records::last_set(
        items,
        columns,
        utils::key_of(#[trigger] records[i], columns),
    ) is Some by {
        let key = utils::key_of(records[i], columns);
        assert(keys[i] == key);
        assert(keys.contains(key));
        assert(all.contains(key));
        let p = choose|p: int| 0 <= p < all.len() && all[p] == key;
        assert(items[p].len() > 0);
        lemma_bucket_keys(records, columns, key, 0);
        lemma_last_set_found(items, columns, key, p);
    }
    lemma_none_unmatched(records, columns, items);
}

// ---------------------------------------------------------------------------------------------
// Validation

proof fn lemma_row_has_columns(d: DictView, columns: Seq<Seq<char>>)
    requires
        records::row_flaw(d, columns) is None,
    ensures
        forall|c: int|
            0 <= c < columns.len() ==> value::dict_has(d, #[trigger] columns[c]) && !(
            value::dict_at(d, columns[c]) is Null),
    decreases columns.len(),
{
    if columns.len() > 0 {
        lemma_row_has_columns(d, columns.drop_first());
        assert forall|c: int| 0 <= c < columns.len() implies value::dict_has(
            d,
            #[trigger] columns[c],
        ) && !(value::dict_at(d, columns[c]) is Null) by {
            if c > 0 {
                assert(columns.drop_first()[c - 1] == columns[c]);
            }
        }
    }
}

proof fn lemma_rows_sound(records: Seq<DictView>, columns: Seq<Seq<char>>, i: int)
    requires
        records::rows_flaw(records, columns) is None,
        0 <= i < records.len(),
    ensures
        records::row_flaw(records[i], columns) is None,
    decreases records.len(),
{
    if i > 0 {
        lemma_rows_sound(records.drop_first(), columns, i - 1);
    }
}

/// Converting a record for encoding keeps the order of its entries.
pub(crate) proof fn lemma_coerced_sorted(d: DictView, columns: Seq<Seq<char>>)
    requires
        value::dict_sorted(d),
    ensures
        value::dict_sorted(records::coerced_dict(d, columns)),
{
    let e = records::coerced_dict(d, columns);
    assert forall|i: int, j: int|
        #![trigger e[i], e[j]]
        0 <= i < j < e.len() implies crate::order::text_before(e[i].0, e[j].0) by {
        assert(e[i].0 == d[i].0 && e[j].0 == d[j].0);
    }
}

/// Converting a record for encoding keeps its columns, converts the values of those that are
/// encoded, and leaves all others as they are.
pub proof fn coercion_keeps_columns(d: DictView, columns: Seq<Seq<char>>, name: Seq<char>)
    requires
        value::dict_sorted(d),
    ensures
        value::dict_has(records::coerced_dict(d, columns), name) == value::dict_has(d, name),
        value::dict_has(d, name) ==> value::dict_at(records::coerced_dict(d, columns), name)
            == if columns.contains(name) {
            utils::coerced(value::dict_at(d, name))
        } else {
            value::dict_at(d, name)
        },
{
    let e = records::coerced_dict(d, columns);
    lemma_coerced_sorted(d, columns);
    if value::dict_has(d, name) {
        let i = value::dict_position(d, name);
        assert(0 <= i < d.len() && d[i].0 == name);
        value::lemma_dict_at(d, i);
        assert(e[i].0 == name);
        value::lemma_dict_at(e, i);
    }
    if value::dict_has(e, name) {
        let i = value::dict_position(e, name);
        assert(0 <= i < e.len() && e[i].0 == name);
        assert(d[i].0 == name);
        value::lemma_dict_at(d, i);
    }
}

proof fn lemma_no_missing(d: DictView, columns: Seq<Seq<char>>)
    requires
        forall|c: int| 0 <= c < columns.len() ==> value::dict_has(d, #[trigger] columns[c]),
    ensures
        utils::first_missing(d, columns) is None,
    decreases columns.len(),
{
    if columns.len() > 0 {
        assert(value::dict_has(d, columns[0]));
        assert forall|c: int| 0 <= c < columns.drop_first().len() implies value::dict_has(
            d,
            #[trigger] columns.drop_first()[c],
        ) by {
            assert(columns.drop_first()[c] == columns[c + 1]);
        }
        lemma_no_missing(d, columns.drop_first());
    }
}

pub(crate) proof fn lemma_none_missing(records: Seq<DictView>, columns: Seq<Seq<char>>)
    requires
        forall|i: int|
            0 <= i < records.len() ==> utils::first_missing(#[trigger] records[i], columns) is None,
    ensures
        records::first_missing_of(records, columns) is None,
    decreases records.len(),
{
    if records.len() > 0 {
        let tail = records.drop_first();
        assert forall|i: int| 0 <= i < tail.len() implies utils::first_missing(
            #[trigger] tail[i],
            columns,
        ) is None by {
            assert(tail[i] == records[i + 1]);
        }
        lemma_none_missing(tail, columns);
    }
}

/// Whether dictionary records are in the order of their keys.
pub open spec fn sorted_records(records: Seq<RecordView>) -> bool {
    forall|i: int|
        0 <= i < records.len() && #[trigger] records[i] is Dict ==> value::dict_sorted(
            records[i]->Dict_0,
        )
}

/// Records that were converted for encoding have every column that is encoded.
proof fn lemma_coerced_complete(records: Seq<DictView>, columns: Seq<Seq<char>>)
    requires
        records::rows_flaw(records, columns) is None,
        forall|i: int| 0 <= i < records.len() ==> value::dict_sorted(#[trigger] records[i]),
    ensures
        records::first_missing_of(records::coerced_dicts(records, columns), columns) is None,
{
    let rows = records::coerced_dicts(records, columns);
    assert forall|i: int| 0 <= i < rows.len() implies utils::first_missing(
        #[trigger] rows[i],
        columns,
    ) is None by {
        lemma_rows_sound(records, columns, i);
        lemma_row_has_columns(records[i], columns);
        assert(value::dict_sorted(records[i]));
        assert forall|c: int| 0 <= c < columns.len() implies value::dict_has(
            rows[i],
            #[trigger] columns[c],
        ) by {
            coercion_keeps_columns(records[i], columns, columns[c]);
        }
        lemma_no_missing(rows[i], columns);
    }
    lemma_none_missing(rows, columns);
}

proof fn lemma_texts_complete(records: Seq<RecordView>)
    ensures
        records::first_missing_of(records::text_dicts(records), seq!["text"@]) is None,
{
    let rows = records::text_dicts(records);
    assert forall|i: int| 0 <= i < rows.len() implies utils::first_missing(
        #[trigger] rows[i],
        seq!["text"@],
    ) is None by {
        assert(rows[i][0].0 == "text"@);
        assert(value::dict_has(rows[i], "text"@));
        lemma_no_missing(rows[i], seq!["text"@]);
    }
    lemma_none_missing(rows, seq!["text"@]);
}

/// Prepared records have every column that is encoded, and there are as many as were passed.
pub proof fn prepared_records_are_complete(
    records: Seq<RecordView>,
    columns: Option<Seq<Seq<char>>>,
)
    requires
        records::prepare_outcome(records, columns) is Ok,
        sorted_records(records),
    ensures
        ({
            let (rows, names, _) = records::prepare_outcome(records, columns)->Ok_0;
            &&& rows.len() == records.len() > 0
            &&& records::first_missing_of(rows, names) is None
        }),
{
    if records[0] is Text {
        lemma_texts_complete(records);
    } else {
        let ds = records::dicts_of(records);
        assert forall|i: int| 0 <= i < ds.len() implies value::dict_sorted(#[trigger] ds[i]) by {
            assert(records[i] is Dict);
        }
        lemma_coerced_complete(ds, columns->0);
    }
}

// ---------------------------------------------------------------------------------------------
// Conversions

/// A value that was converted for encoding is not changed by converting it again.
pub proof fn coercion_is_idempotent(v: ValueView)
    ensures
        utils::coerced(utils::coerced(v)) == utils::coerced(v),
{
}

/// A value as it stands in a key is not changed by taking it into a key again.
pub proof fn hashable_is_idempotent(v: ValueView)
    ensures
        utils::hashable(utils::hashable(v)) == utils::hashable(v),
{
}

/// A text record that became a dictionary and is turned back into text is the same text, but for
/// tabs, which become spaces.
pub proof fn text_survives_conversion(s: Seq<char>)
    ensures
        records::stringed(RecordView::Dict(records::text_dict(s)), seq!["text"@])
            == RecordView::Text(text::tabs_to_spaces(s)),
        !s.contains('\t') ==> text::tabs_to_spaces(s) == s,
{
    let d = records::text_dict(s);
    let names = seq!["text"@];
    assert(d[0].0 == "text"@);
    assert(value::dict_sorted(d));
    value::lemma_dict_at(d, 0);
    let parts = utils::column_texts(d, names);
    assert(parts =~= seq![text::tabs_to_spaces(s)]);
    reveal_with_fuel(text::joined, 2);
    assert(parts.drop_last() =~= seq![]);
    if !s.contains('\t') {
        assert(text::tabs_to_spaces(s) =~= s) by {
            assert forall|i: int| 0 <= i < s.len() implies text::tabs_to_spaces(s)[i] == s[i] by {
                assert(s.contains(s[i]));
            }
        }
    }
}

} // verus!
