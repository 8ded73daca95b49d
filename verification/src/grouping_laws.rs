//! Laws of what records become: how they are prepared, which group each of them is in, and which are
//! exact duplicates.

use crate::coercion_laws;
use crate::error::ErrorView;
use crate::record_laws;
use crate::records;
use crate::rendering;
use crate::sublists;
use crate::utils;
use crate::value;
use crate::value::{DictView, RecordView, ValueView};
use vstd::prelude::*;

verus! {

// ---------------------------------------------------------------------------------------------
// Groups

/// The records that have the key of the one at a position, in their order.
pub open spec fn with_key_of(records: Seq<DictView>, columns: Seq<Seq<char>>, at: int) -> Seq<
    DictView,
> {
    sublists::those(
        records,
        |i: int| utils::key_of(records[i], columns) == utils::key_of(records[at], columns),
    )
}

proof fn lemma_first_positions(s: Seq<DictView>)
    requires
        s.len() <= usize::MAX,
    ensures
        records::first_positions(s).len() == records::distinct(s).len(),
        forall|p: int|
            0 <= p < records::distinct(s).len() ==> (#[trigger] records::first_positions(s)[p])
                < s.len() && records::distinct(s)[p] == s[records::first_positions(s)[p] as int],
        forall|p: int, i: int|
            #![trigger records::first_positions(s)[p], s[i]]
            0 <= p < records::distinct(s).len() && 0 <= i < records::first_positions(s)[p] ==> s[i]
                != s[records::first_positions(s)[p] as int],
        forall|p: int, q: int|
            #![trigger records::first_positions(s)[p], records::first_positions(s)[q]]
            0 <= p < q < records::distinct(s).len() ==> records::first_positions(s)[p]
                < records::first_positions(s)[q],
    decreases s.len(),
{
    let at = records::first_positions(s);
    let all = records::distinct(s);
    if s.len() > 0 {
        let init = s.drop_last();
        lemma_first_positions(init);
        records::lemma_distinct(init);
        let before = records::distinct(init);
        let places = records::first_positions(init);
        assert forall|p: int| 0 <= p < all.len() implies (#[trigger] at[p]) < s.len() && all[p]
            == s[at[p] as int] by {
            if p < before.len() {
                assert(at[p] == places[p] && all[p] == before[p]);
                assert(init[places[p] as int] == s[places[p] as int]);
            }
        }
        assert forall|p: int, i: int|
            #![trigger at[p], s[i]]
            0 <= p < all.len() && 0 <= i < at[p] implies s[i] != s[at[p] as int] by {
            if p < before.len() {
                assert(at[p] == places[p]);
                assert(init[i] == s[i] && init[places[p] as int] == s[places[p] as int]);
            } else if s[i] == s.last() {
                assert(init[i] == s.last());
                assert(init.contains(s.last()));
            }
        }
        assert forall|p: int, q: int|
            #![trigger at[p], at[q]]
            0 <= p < q < all.len() implies at[p] < at[q] by {
            assert(at[p] == places[p]);
            assert(places[p] < init.len());
            if q < before.len() {
                assert(at[q] == places[q]);
            }
        }
    }
}

proof fn lemma_bucket_is_those(records: Seq<DictView>, columns: Seq<Seq<char>>, key: DictView)
    ensures
        records::bucket(records, columns, key) == sublists::those(
            records,
            |i: int| utils::key_of(records[i], columns) == key,
        ),
    decreases records.len(),
{
    let keep = |i: int| utils::key_of(records[i], columns) == key;
    if records.len() > 0 {
        let init = records.drop_last();
        lemma_bucket_is_those(init, columns, key);
        let keep_init = |i: int| utils::key_of(init[i], columns) == key;
        assert forall|i: int| 0 <= i < init.len() implies #[trigger] keep_init(i) == keep(i) by {
            assert(init[i] == records[i]);
        }
        sublists::lemma_those_agree(init, keep_init, keep);
        assert(records[records.len() - 1] == records.last());
        assert(keep(records.len() - 1) == (utils::key_of(records.last(), columns) == key));
    }
    assert(records::bucket(records, columns, key) =~= sublists::those(records, keep));
}

/// Every record is in one group, with all others that have its key and with no others, in order; the
/// groups are in the order of their first records, and it is these that stand for them.
pub proof fn groups_are_the_records_by_key(records: Seq<DictView>, columns: Seq<Seq<char>>) -> (firsts:
    Seq<int>)
    requires
        records.len() <= usize::MAX,
    ensures
        firsts.len() == records::groups(records, columns).len(),
        firsts.len() == records::heads(records::groups(records, columns)).len(),
        firsts.len() == records::first_positions(records::keys_of(records, columns)).len(),
        forall|p: int|
            0 <= p < firsts.len() ==> 0 <= (#[trigger] firsts[p]) < records.len()
                && records::groups(records, columns)[p] == with_key_of(records, columns, firsts[p])
                && records::heads(records::groups(records, columns))[p] == records[firsts[p]]
                && records::first_positions(records::keys_of(records, columns))[p] == firsts[p],
        forall|p: int, i: int|
            #![trigger firsts[p], records[i]]
            0 <= p < firsts.len() && 0 <= i < firsts[p] ==> utils::key_of(records[i], columns)
                != utils::key_of(records[firsts[p]], columns),
        forall|p: int, q: int|
            #![trigger firsts[p], firsts[q]]
            0 <= p < q < firsts.len() ==> firsts[p] < firsts[q],
        forall|i: int|
            #![trigger records[i]]
            0 <= i < records.len() ==> exists|p: int|
                0 <= p < firsts.len() && utils::key_of(records[#[trigger] firsts[p]], columns)
                    == utils::key_of(records[i], columns),
{
    let keys = records::keys_of(records, columns);
    let all = records::distinct(keys);
    let groups = records::groups(records, columns);
    let at = records::first_positions(keys);
    let firsts = Seq::new(at.len(), |p: int| at[p] as int);
    lemma_first_positions(keys);
    records::lemma_distinct(keys);
    records::lemma_groups_nonempty(records, columns);
    assert forall|p: int, i: int|
        #![trigger firsts[p], records[i]]
        0 <= p < firsts.len() && 0 <= i < firsts[p] implies utils::key_of(records[i], columns)
        != utils::key_of(records[firsts[p]], columns) by {
        assert(at[p] == firsts[p] && keys[i] != keys[at[p] as int]);
    }
    assert forall|p: int| 0 <= p < firsts.len() implies 0 <= (#[trigger] firsts[p]) < records.len()
        && groups[p] == with_key_of(records, columns, firsts[p]) && records::heads(groups)[p]
        == records[firsts[p]] && at[p] == firsts[p] by {
        assert(at[p] < keys.len() && all[p] == keys[at[p] as int]);
        let key = utils::key_of(records[firsts[p]], columns);
        lemma_bucket_is_those(records, columns, key);
        let keep = |i: int| utils::key_of(records[i], columns) == key;
        let same = |i: int|
            utils::key_of(records[i], columns) == utils::key_of(records[firsts[p]], columns);
        sublists::lemma_those_agree(records, keep, same);
        let places = sublists::those_are_the_kept(records, keep);
        assert(keep(firsts[p]));
        assert(places.contains(firsts[p]));
        let k = choose|k: int| 0 <= k < places.len() && places[k] == firsts[p];
        assert(k > 0 ==> places[0] < places[k]);
        assert(keep(places[0]));
        if places[0] < firsts[p] {
            assert(utils::key_of(records[places[0]], columns) != key);
        }
        assert(groups[p][0] == records[places[0]]);
    }
    assert forall|i: int|
        #![trigger records[i]]
        0 <= i < records.len() implies exists|p: int|
        0 <= p < firsts.len() && utils::key_of(records[#[trigger] firsts[p]], columns)
            == utils::key_of(records[i], columns) by {
        assert(keys[i] == utils::key_of(records[i], columns));
        assert(keys.contains(keys[i]));
        assert(all.contains(keys[i]));
        let p = choose|p: int| 0 <= p < all.len() && all[p] == keys[i];
        assert(at[p] < keys.len());
        assert(keys[at[p] as int] == utils::key_of(records[firsts[p]], columns));
    }
    firsts
}

// ---------------------------------------------------------------------------------------------
// Exact duplicates

/// Whether a key is that of a reference set: of the first record of one that has any.
pub open spec fn known(
    reference: Seq<Seq<DictView>>,
    columns: Seq<Seq<char>>,
    key: DictView,
) -> bool {
    exists|p: int|
        0 <= p < reference.len() && (#[trigger] reference[p]).len() > 0 && utils::key_of(
            reference[p][0],
            columns,
        ) == key
}

/// Whether a record at a position has the key of an earlier one.
pub open spec fn repeated(records: Seq<DictView>, columns: Seq<Seq<char>>, i: int) -> bool {
    exists|j: int|
        0 <= j < i && utils::key_of(#[trigger] records[j], columns) == utils::key_of(
            records[i],
            columns,
        )
}

proof fn lemma_last_set_iff(reference: Seq<Seq<DictView>>, columns: Seq<Seq<char>>, key: DictView) -> (p:
    int)
    ensures
        records::last_set(reference, columns, key) is Some <==> known(reference, columns, key),
        known(reference, columns, key) ==> {
            &&& 0 <= p < reference.len()
            &&& reference[p].len() > 0
            &&& records::last_set(reference, columns, key) == Some(reference[p])
            &&& utils::key_of(reference[p][0], columns) == key
            &&& forall|q: int|
                p < q < reference.len() && (#[trigger] reference[q]).len() > 0 ==> utils::key_of(
                    reference[q][0],
                    columns,
                ) != key
        },
    decreases reference.len(),
{
    if reference.len() == 0 {
        0
    } else if reference.last().len() > 0 && utils::key_of(reference.last()[0], columns) == key {
        assert(reference[reference.len() - 1] == reference.last());
        reference.len() - 1
    } else {
        let init = reference.drop_last();
        let p = lemma_last_set_iff(init, columns, key);
        if known(init, columns, key) {
            assert(init[p] == reference[p]);
        }
        if known(reference, columns, key) {
            let q = choose|q: int|
                0 <= q < reference.len() && (#[trigger] reference[q]).len() > 0 && utils::key_of(
                    reference[q][0],
                    columns,
                ) == key;
            assert(init[q] == reference[q]);
        }
        assert forall|q: int|
            p < q < reference.len() && known(init, columns, key) && (
            #[trigger] reference[q]).len() > 0 implies utils::key_of(reference[q][0], columns)
            != key by {
            if q < init.len() {
                assert(init[q] == reference[q]);
            }
        }
        p
    }
}

/// With a reference, a record is an exact duplicate exactly if a reference set has its key: all
/// others remain, in order. What it duplicates is the set with its key, the last where there are
/// several.
pub proof fn duplicates_are_the_known(
    records: Seq<DictView>,
    columns: Seq<Seq<char>>,
    reference: Seq<Seq<DictView>>,
)
    ensures
        records::unmatched(records, columns, Some(reference)) == sublists::those(
            records,
            |i: int| !known(reference, columns, utils::key_of(records[i], columns)),
        ),
        record_laws::matched_records(records::matched(records, columns, Some(reference)))
            == sublists::those(
            records,
            |i: int| known(reference, columns, utils::key_of(records[i], columns)),
        ),
        forall|m: int|
            #![trigger records::matched(records, columns, Some(reference))[m]]
            0 <= m < records::matched(records, columns, Some(reference)).len() ==> originals_are(
                reference,
                columns,
                records::matched(records, columns, Some(reference))[m],
            ),
    decreases records.len(),
{
    let is_known = |i: int| known(reference, columns, utils::key_of(records[i], columns));
    let is_new = |i: int| !known(reference, columns, utils::key_of(records[i], columns));
    let rest = records::unmatched(records, columns, Some(reference));
    let gone = records::matched(records, columns, Some(reference));
    if records.len() == 0 {
        assert(rest =~= sublists::those(records, is_new));
        assert(record_laws::matched_records(gone) =~= sublists::those(records, is_known));
    } else {
        let init = records.drop_last();
        let n = records.len() - 1;
        duplicates_are_the_known(init, columns, reference);
        let init_known = |i: int| known(reference, columns, utils::key_of(init[i], columns));
        let init_new = |i: int| !known(reference, columns, utils::key_of(init[i], columns));
        assert forall|i: int| 0 <= i < init.len() implies #[trigger] init_known(i) == is_known(i) by {
            assert(init[i] == records[i]);
        }
        assert forall|i: int| 0 <= i < init.len() implies #[trigger] init_new(i) == is_new(i) by {
            assert(init[i] == records[i]);
        }
        sublists::lemma_those_agree(init, init_known, is_known);
        sublists::lemma_those_agree(init, init_new, is_new);
        let key = utils::key_of(records.last(), columns);
        let p = lemma_last_set_iff(reference, columns, key);
        assert(is_known(n) == known(reference, columns, key));
        assert(is_new(n) == !known(reference, columns, key));
        let before = records::matched(init, columns, Some(reference));
        if known(reference, columns, key) {
            assert(record_laws::matched_records(gone) =~= record_laws::matched_records(before).push(
                records.last(),
            ));
            assert forall|m: int| #![trigger gone[m]] 0 <= m < gone.len() implies originals_are(
                reference,
                columns,
                gone[m],
            ) by {
                if m < before.len() {
                    assert(gone[m] == before[m]);
                } else {
                    assert(gone[m] == (records.last(), reference[p]));
                }
            }
        }
        assert(rest =~= sublists::those(records, is_new));
        assert(record_laws::matched_records(gone) =~= sublists::those(records, is_known));
    }
}

/// Whether a record is listed with the last reference set that has its key.
pub open spec fn originals_are(
    reference: Seq<Seq<DictView>>,
    columns: Seq<Seq<char>>,
    m: (DictView, Seq<DictView>),
) -> bool {
    exists|p: int|
        {
            &&& 0 <= p < reference.len()
            &&& m.1 == #[trigger] reference[p]
            &&& m.1.len() > 0
            &&& utils::key_of(m.1[0], columns) == utils::key_of(m.0, columns)
            &&& forall|q: int|
                p < q < reference.len() && (#[trigger] reference[q]).len() > 0 ==> utils::key_of(
                    reference[q][0],
                    columns,
                ) != utils::key_of(m.0, columns)
        }
}

/// Without a reference, a record is an exact duplicate exactly if an earlier one has its key: all
/// others remain, in order. What it duplicates is the first record with its key.
pub proof fn duplicates_are_the_repeated(records: Seq<DictView>, columns: Seq<Seq<char>>)
    ensures
        records::unmatched(records, columns, None) == sublists::those(
            records,
            |i: int| !repeated(records, columns, i),
        ),
        record_laws::matched_records(records::matched(records, columns, None)) == sublists::those(
            records,
            |i: int| repeated(records, columns, i),
        ),
        forall|m: int|
            #![trigger records::matched(records, columns, None)[m]]
            0 <= m < records::matched(records, columns, None).len() ==> original_is_first(
                records,
                columns,
                records::matched(records, columns, None)[m],
            ),
    decreases records.len(),
{
    let again = |i: int| repeated(records, columns, i);
    let is_new = |i: int| !repeated(records, columns, i);
    let rest = records::unmatched(records, columns, None);
    let gone = records::matched(records, columns, None);
    if records.len() == 0 {
        assert(rest =~= sublists::those(records, is_new));
        assert(record_laws::matched_records(gone) =~= sublists::those(records, again));
    } else {
        let init = records.drop_last();
        let n = records.len() - 1;
        duplicates_are_the_repeated(init, columns);
        let init_again = |i: int| repeated(init, columns, i);
        let init_new = |i: int| !repeated(init, columns, i);
        assert forall|i: int| 0 <= i < init.len() implies #[trigger] init_again(i) == again(i) by {
            lemma_repeated_prefix(records, columns, i);
        }
        assert forall|i: int| 0 <= i < init.len() implies #[trigger] init_new(i) == is_new(i) by {
            lemma_repeated_prefix(records, columns, i);
        }
        sublists::lemma_those_agree(init, init_again, again);
        sublists::lemma_those_agree(init, init_new, is_new);
        let key = utils::key_of(records.last(), columns);
        let same = |i: int| utils::key_of(init[i], columns) == key;
        lemma_bucket_is_those(init, columns, key);
        let found = records::bucket(init, columns, key);
        let places = sublists::those_are_the_kept(init, same);
        assert(repeated(records, columns, n) == (found.len() > 0)) by {
            if found.len() > 0 {
                assert(same(places[0]));
                assert(records[places[0]] == init[places[0]]);
                assert(records[n] == records.last());
            }
            if repeated(records, columns, n) {
                let j = choose|j: int|
                    0 <= j < n && utils::key_of(#[trigger] records[j], columns) == utils::key_of(
                        records[n],
                        columns,
                    );
                assert(init[j] == records[j]);
                assert(same(j));
                assert(places.contains(j));
            }
        }
        assert(again(n) == repeated(records, columns, n));
        assert(is_new(n) == !repeated(records, columns, n));
        let before = records::matched(init, columns, None);
        assert forall|m: int| #![trigger gone[m]] 0 <= m < gone.len() implies original_is_first(
            records,
            columns,
            gone[m],
        ) by {
            if m < before.len() {
                assert(gone[m] == before[m]);
                let j = choose|j: int|
                    {
                        &&& 0 <= j < init.len()
                        &&& before[m].1 == seq![#[trigger] init[j]]
                        &&& utils::key_of(init[j], columns) == utils::key_of(before[m].0, columns)
                        &&& forall|i: int|
                            0 <= i < j ==> utils::key_of(#[trigger] init[i], columns)
                                != utils::key_of(before[m].0, columns)
                    };
                assert(records[j] == init[j]);
                assert forall|i: int| 0 <= i < j implies utils::key_of(
                    #[trigger] records[i],
                    columns,
                ) != utils::key_of(gone[m].0, columns) by {
                    assert(init[i] == records[i]);
                }
            } else {
                let j = places[0];
                assert(same(j));
                assert(found[0] == init[j] && records[j] == init[j]);
                assert(gone[m].1 == seq![records[j]]);
                assert forall|i: int| 0 <= i < j implies utils::key_of(
                    #[trigger] records[i],
                    columns,
                ) != utils::key_of(gone[m].0, columns) by {
                    assert(init[i] == records[i]);
                    if same(i) {
                        assert(places.contains(i));
                        let q = choose|q: int| 0 <= q < places.len() && places[q] == i;
                        assert(q > 0 ==> places[0] < places[q]);
                    }
                }
            }
        }
        if repeated(records, columns, n) {
            assert(record_laws::matched_records(gone) =~= record_laws::matched_records(before).push(
                records.last(),
            ));
        }
        assert(rest =~= sublists::those(records, is_new));
        assert(record_laws::matched_records(gone) =~= sublists::those(records, again));
    }
}

/// Whether a record is listed with the first record that has its key.
pub open spec fn original_is_first(
    records: Seq<DictView>,
    columns: Seq<Seq<char>>,
    m: (DictView, Seq<DictView>),
) -> bool {
    exists|j: int|
        {
            &&& 0 <= j < records.len()
            &&& m.1 == seq![#[trigger] records[j]]
            &&& utils::key_of(records[j], columns) == utils::key_of(m.0, columns)
            &&& forall|i: int|
                0 <= i < j ==> utils::key_of(#[trigger] records[i], columns) != utils::key_of(
                    m.0,
                    columns,
                )
        }
}

proof fn lemma_repeated_prefix(records: Seq<DictView>, columns: Seq<Seq<char>>, i: int)
    requires
        0 <= i < records.len() - 1,
    ensures
        repeated(records.drop_last(), columns, i) == repeated(records, columns, i),
{
    let init = records.drop_last();
    if repeated(init, columns, i) {
        let j = choose|j: int|
            0 <= j < i && utils::key_of(#[trigger] init[j], columns) == utils::key_of(
                init[i],
                columns,
            );
        assert(records[j] == init[j] && records[i] == init[i]);
    }
    if repeated(records, columns, i) {
        let j = choose|j: int|
            0 <= j < i && utils::key_of(#[trigger] records[j], columns) == utils::key_of(
                records[i],
                columns,
            );
        assert(records[j] == init[j] && records[i] == init[i]);
    }
}

// ---------------------------------------------------------------------------------------------
// Preparing

/// Whether a record has every column, and a value in it that is not null.
pub open spec fn usable(d: DictView, columns: Seq<Seq<char>>) -> bool {
    forall|c: int|
        0 <= c < columns.len() ==> value::dict_has(d, #[trigger] columns[c]) && !(value::dict_at(
            d,
            columns[c],
        ) is Null)
}

/// What is wrong with a record is the first column that it does not have or in which it is null.
proof fn lemma_row_flaw(d: DictView, columns: Seq<Seq<char>>) -> (c: int)
    ensures
        records::row_flaw(d, columns) is None <==> usable(d, columns),
        records::row_flaw(d, columns) is Some ==> {
            &&& 0 <= c < columns.len()
            &&& usable(d, columns.take(c))
            &&& records::row_flaw(d, columns)->0 == if value::dict_has(d, columns[c]) {
                ErrorView::NoneValue {
                    column: columns[c],
                    record: rendering::canonical_text(ValueView::Dict(d)),
                }
            } else {
                ErrorView::MissingColumn { column: columns[c] }
            }
            &&& value::dict_has(d, columns[c]) ==> value::dict_at(d, columns[c]) is Null
        },
    decreases columns.len(),
{
    if columns.len() == 0 {
        0
    } else if records::column_flaw(d, columns[0]) is Some {
        assert(!usable(d, columns)) by {
            if usable(d, columns) {
                assert(value::dict_has(d, columns[0]));
            }
        }
        0
    } else {
        let tail = columns.drop_first();
        let c = lemma_row_flaw(d, tail);
        if usable(d, tail) {
            assert forall|k: int| 0 <= k < columns.len() implies value::dict_has(
                d,
                #[trigger] columns[k],
            ) && !(value::dict_at(d, columns[k]) is Null) by {
                if k > 0 {
                    assert(tail[k - 1] == columns[k]);
                }
            }
        }
        if usable(d, columns) {
            assert forall|k: int| 0 <= k < tail.len() implies value::dict_has(
                d,
                #[trigger] tail[k],
            ) && !(value::dict_at(d, tail[k]) is Null) by {
                assert(tail[k] == columns[k + 1]);
            }
        }
        if records::row_flaw(d, tail) is Some {
            assert(tail[c] == columns[c + 1]);
            let early = columns.take(c + 1);
            assert forall|k: int| 0 <= k < early.len() implies value::dict_has(
                d,
                #[trigger] early[k],
            ) && !(value::dict_at(d, early[k]) is Null) by {
                if k > 0 {
                    assert(tail.take(c)[k - 1] == early[k]);
                }
            }
        }
        c + 1
    }
}

/// What is wrong with some records is what is wrong with the first that is not usable.
pub proof fn first_flaw_is_reported(records: Seq<DictView>, columns: Seq<Seq<char>>) -> (at: (
    int,
    int,
))
    ensures
        records::rows_flaw(records, columns) is None <==> forall|i: int|
            0 <= i < records.len() ==> usable(#[trigger] records[i], columns),
        records::rows_flaw(records, columns) is Some ==> {
            let d = records[at.0];
            let column = columns[at.1];
            &&& 0 <= at.0 < records.len()
            &&& 0 <= at.1 < columns.len()
            &&& forall|i: int| 0 <= i < at.0 ==> usable(#[trigger] records[i], columns)
            &&& usable(d, columns.take(at.1))
            &&& value::dict_has(d, column) ==> value::dict_at(d, column) is Null
            &&& records::rows_flaw(records, columns)->0 == if value::dict_has(d, column) {
                ErrorView::NoneValue {
                    column,
                    record: rendering::canonical_text(ValueView::Dict(d)),
                }
            } else {
                ErrorView::MissingColumn { column }
            }
        },
    decreases records.len(),
{
    if records.len() == 0 {
        (0, 0)
    } else {
        let c = lemma_row_flaw(records[0], columns);
        let tail = records.drop_first();
        let rest = first_flaw_is_reported(tail, columns);
        if records::row_flaw(records[0], columns) is Some {
            assert(!usable(records[0], columns));
            (0, c)
        } else {
            if records::rows_flaw(tail, columns) is None {
                assert forall|i: int| 0 <= i < records.len() implies usable(
                    #[trigger] records[i],
                    columns,
                ) by {
                    if i > 0 {
                        assert(tail[i - 1] == records[i]);
                    }
                }
            } else {
                assert(tail[rest.0] == records[rest.0 + 1]);
                assert forall|i: int| 0 <= i < rest.0 + 1 implies usable(
                    #[trigger] records[i],
                    columns,
                ) by {
                    if i > 0 {
                        assert(tail[i - 1] == records[i]);
                    }
                }
                assert(!(forall|i: int|
                    0 <= i < records.len() ==> usable(#[trigger] records[i], columns))) by {
                    if forall|i: int|
                        0 <= i < records.len() ==> usable(#[trigger] records[i], columns) {
                        assert forall|i: int| 0 <= i < tail.len() implies usable(
                            #[trigger] tail[i],
                            columns,
                        ) by {
                            assert(tail[i] == records[i + 1]);
                        }
                    }
                }
            }
            (rest.0 + 1, rest.1)
        }
    }
}

/// Whether all records are texts.
pub open spec fn texts_only(records: Seq<RecordView>) -> bool {
    forall|i: int| 0 <= i < records.len() ==> (#[trigger] records[i]) is Text
}

/// Whether all records are dictionaries that have every column, and no null in any.
pub open spec fn usable_dicts_only(records: Seq<RecordView>, columns: Seq<Seq<char>>) -> bool {
    forall|i: int|
        0 <= i < records.len() ==> (#[trigger] records[i]) is Dict && usable(
            records[i]->Dict_0,
            columns,
        )
}

/// Whether a row is what a record becomes: a text stands under `text`, and a dictionary keeps all its
/// columns, with the values of the encoded ones spelled out.
pub open spec fn row_of(record: RecordView, row: DictView, columns: Seq<Seq<char>>) -> bool {
    match record {
        RecordView::Text(s) => row == seq![("text"@, ValueView::String(s))],
        RecordView::Dict(d) => {
            &&& row.len() == d.len()
            &&& forall|k: int|
                0 <= k < d.len() ==> (#[trigger] row[k]).0 == d[k].0 && row[k].1
                    == if columns.contains(d[k].0) {
                    spelled(d[k].1)
                } else {
                    d[k].1
                }
        },
    }
}

/// A value with numbers and truth values spelled out.
pub open spec fn spelled(v: ValueView) -> ValueView {
    match v {
        ValueView::I64(_) => ValueView::String(rendering::lossy_text(v)),
        ValueView::U64(_) => ValueView::String(rendering::lossy_text(v)),
        ValueView::F64(x) => ValueView::String(x.display),
        ValueView::Bool(true) => ValueView::String("True"@),
        ValueView::Bool(false) => ValueView::String("False"@),
        _ => v,
    }
}

/// Records can be prepared exactly if there are any, and either all are texts or all are dictionaries
/// with a value in every column that was named. Each becomes one row, and the columns are those that
/// were named, or `text`.
pub proof fn what_prepared_records_are(records: Seq<RecordView>, columns: Option<Seq<Seq<char>>>)
    ensures
        records::prepare_outcome(records, columns) is Ok <==> records.len() > 0 && (texts_only(
            records,
        ) || (columns is Some && usable_dicts_only(records, columns->0))),
        records::prepare_outcome(records, columns) is Ok ==> {
            let (rows, names, was_string) = records::prepare_outcome(records, columns)->Ok_0;
            &&& rows.len() == records.len()
            &&& was_string == (records[0] is Text)
            &&& names == if was_string {
                seq!["text"@]
            } else {
                columns->0
            }
            &&& forall|i: int|
                0 <= i < rows.len() ==> row_of(records[i], #[trigger] rows[i], names)
        },
        records.len() == 0 ==> records::prepare_outcome(records, columns) == Err::<
            (Seq<DictView>, Seq<Seq<char>>, bool),
            ErrorView,
        >(ErrorView::EmptyRecords),
{
    if records.len() > 0 {
        assert(records[0] is Text || records[0] is Dict);
        if columns is Some && records::all_dict(records) {
            lemma_usable_dicts(records, columns->0);
        }
        if columns is Some && usable_dicts_only(records, columns->0) {
            assert(records[0] is Dict);
            assert(records::all_dict(records));
        }
        if texts_only(records) {
            assert(records[0] is Text);
        }
        if records::prepare_outcome(records, columns) is Ok {
            let (rows, names, was_string) = records::prepare_outcome(records, columns)->Ok_0;
            assert forall|i: int| 0 <= i < rows.len() implies row_of(
                records[i],
                #[trigger] rows[i],
                names,
            ) by {
                lemma_row_of(records, names, i);
            }
        }
    }
}

proof fn lemma_usable_dicts(records: Seq<RecordView>, columns: Seq<Seq<char>>)
    requires
        records::all_dict(records),
    ensures
        records::coerce_outcome(records::dicts_of(records), columns) is Ok <==> usable_dicts_only(
            records,
            columns,
        ),
{
    let ds = records::dicts_of(records);
    let _ = first_flaw_is_reported(ds, columns);
    if usable_dicts_only(records, columns) {
        assert forall|i: int| 0 <= i < ds.len() implies usable(#[trigger] ds[i], columns) by {
            assert(records[i] is Dict);
        }
    }
    if records::rows_flaw(ds, columns) is None {
        assert forall|i: int| 0 <= i < records.len() implies (#[trigger] records[i]) is Dict
            && usable(records[i]->Dict_0, columns) by {
            assert(usable(ds[i], columns));
        }
    }
}

proof fn lemma_row_of(records: Seq<RecordView>, columns: Seq<Seq<char>>, i: int)
    requires
        0 <= i < records.len(),
    ensures
        records::all_text(records) ==> row_of(
            records[i],
            records::text_dicts(records)[i],
            columns,
        ),
        records::all_dict(records) ==> row_of(
            records[i],
            records::coerced_dicts(records::dicts_of(records), columns)[i],
            columns,
        ),
{
    if records::all_dict(records) {
        assert(records[i] is Dict);
        let d = records[i]->Dict_0;
        let row = records::coerced_dicts(records::dicts_of(records), columns)[i];
        assert forall|k: int| 0 <= k < d.len() implies (#[trigger] row[k]).0 == d[k].0 && row[k].1
            == if columns.contains(d[k].0) {
            spelled(d[k].1)
        } else {
            d[k].1
        } by {
            coercion_laws::coercion_spells_values(d[k].1);
        }
    }
    if records::all_text(records) {
        assert(records[i] is Text);
    }
}

/// Records that are compared with an instance are accepted exactly if there are any, and either all
/// are texts and the instance was built from texts, or all are dictionaries with a value in every
/// column of the instance. Each becomes one row, the same that it becomes when an instance is built.
pub proof fn what_validated_records_are(
    records: Seq<RecordView>,
    columns: Seq<Seq<char>>,
    was_string: bool,
)
    ensures
        records::validate_outcome(records, columns, was_string) is Ok <==> records.len() > 0 && ((
        was_string && texts_only(records)) || usable_dicts_only(records, columns)),
        records::validate_outcome(records, columns, was_string) is Ok ==> {
            let rows = records::validate_outcome(records, columns, was_string)->Ok_0;
            &&& rows.len() == records.len()
            &&& forall|i: int|
                0 <= i < rows.len() ==> row_of(records[i], #[trigger] rows[i], columns)
            &&& records::prepare_outcome(records, Some(columns)) is Ok
            &&& rows == records::prepare_outcome(records, Some(columns))->Ok_0.0
        },
        records.len() == 0 ==> records::validate_outcome(records, columns, was_string) == Err::<
            Seq<DictView>,
            ErrorView,
        >(ErrorView::EmptyRecords),
        records.len() > 0 && records[0] is Text && !was_string ==> records::validate_outcome(
            records,
            columns,
            was_string,
        ) == Err::<Seq<DictView>, ErrorView>(ErrorView::OriginallyNotStrings),
{
    if records.len() > 0 {
        assert(records[0] is Text || records[0] is Dict);
        if records::all_dict(records) {
            lemma_usable_dicts(records, columns);
        }
        if usable_dicts_only(records, columns) {
            assert(records[0] is Dict);
            assert(records::all_dict(records));
        }
        if texts_only(records) {
            assert(records[0] is Text);
        }
        if records::validate_outcome(records, columns, was_string) is Ok {
            let rows = records::validate_outcome(records, columns, was_string)->Ok_0;
            assert forall|i: int| 0 <= i < rows.len() implies row_of(
                records[i],
                #[trigger] rows[i],
                columns,
            ) by {
                lemma_row_of(records, columns, i);
            }
        }
    }
}

} // verus!
