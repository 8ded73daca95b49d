//! Deduplication: which records stay and which are duplicates, given what each of them found.

use crate::datamodels::{DuplicateRecord, DuplicateView};
use crate::error;
use crate::error::{ErrorView, Result};
use crate::float::Float32;
use crate::index::DocScores;
use crate::key_table::KeyTable;
use crate::records;
use crate::records::{
    add_scores_to_records, scored_dicts_to_records, ExactDuplicates,
};
use crate::utils;
use crate::utils::to_key_map;
use crate::value::{DictRecord, DictView, Record, RecordView};
use vstd::prelude::*;

verus! {

// ---------------------------------------------------------------------------------------------
// Records against an index

/// An exact duplicate, with the score of an exact match for each record that it duplicates.
pub open spec fn exact_duplicate(d: (DictView, Seq<DictView>)) -> DuplicateView {
    DuplicateView {
        record: RecordView::Dict(d.0),
        exact: true,
        duplicates: records::as_scored_records(records::fully_scored(d.1)),
    }
}

/// Exact duplicates, with the score of an exact match for each record that they duplicate.
pub open spec fn exact_duplicates(ds: Seq<(DictView, Seq<DictView>)>) -> Seq<DuplicateView> {
    Seq::new(ds.len(), |i: int| exact_duplicate(ds[i]))
}

/// A record that is similar to others.
pub open spec fn similar_record(record: DictView, found: Seq<(DictView, Float32)>) -> DuplicateView {
    DuplicateView {
        record: RecordView::Dict(record),
        exact: false,
        duplicates: records::as_scored_records(found),
    }
}

/// Those of the first `n` records that found nothing similar.
pub open spec fn dissimilar(
    records: Seq<DictView>,
    results: Seq<Seq<(DictView, Float32)>>,
    n: int,
) -> Seq<RecordView>
    decreases n,
{
    if n <= 0 {
        seq![]
    } else {
        let rest = dissimilar(records, results, n - 1);
        if results[n - 1].len() == 0 {
            rest.push(RecordView::Dict(records[n - 1]))
        } else {
            rest
        }
    }
}

/// Those of the first `n` records that found something similar, with what they found.
pub open spec fn similar(
    records: Seq<DictView>,
    results: Seq<Seq<(DictView, Float32)>>,
    n: int,
) -> Seq<DuplicateView>
    decreases n,
{
    if n <= 0 {
        seq![]
    } else {
        let rest = similar(records, results, n - 1);
        if results[n - 1].len() == 0 {
            rest
        } else {
            rest.push(similar_record(records[n - 1], results[n - 1]))
        }
    }
}

/// How many records have a result.
pub open spec fn answered(records: nat, results: nat) -> nat {
    if records <= results {
        records
    } else {
        results
    }
}

/// Turns exact duplicates into duplicate records.
pub fn list_exact_duplicates(duplicates: ExactDuplicates) -> (r: Vec<DuplicateRecord>)
    ensures
        r.deep_view() == exact_duplicates(duplicates.deep_view()),
{
    let ghost ds = duplicates.deep_view();
    let mut out: Vec<DuplicateRecord> = Vec::new();
    for duplicate in it: duplicates
        invariant
            it.seq() == duplicates@,
            ds == duplicates.deep_view(),
            out.len() == it.index(),
            forall|j: int|
                0 <= j < it.index() ==> (#[trigger] out@[j]).deep_view() == exact_duplicate(ds[j]),
    {
        assert(duplicate.deep_view() == ds[it.index()]);
        let originals = duplicate.1.as_slice();
        assert(originals.deep_view() =~= duplicate.1.deep_view());
        out.push(
            DuplicateRecord::new(
                Record::Dict(duplicate.0),
                true,
                scored_dicts_to_records(add_scores_to_records(originals)),
            ),
        );
    }
    assert(out.deep_view() =~= exact_duplicates(ds));
    out
}

/// Tells the records that found nothing similar from those that did.
pub fn sort_out(records: Vec<DictRecord>, results: &Vec<DocScores>) -> (r: (
    Vec<Record>,
    Vec<DuplicateRecord>,
))
    ensures
        r.0.deep_view() == dissimilar(
            records.deep_view(),
            results.deep_view(),
            answered(records.len() as nat, results.len() as nat) as int,
        ),
        r.1.deep_view() == similar(
            records.deep_view(),
            results.deep_view(),
            answered(records.len() as nat, results.len() as nat) as int,
        ),
{
    let ghost ds = records.deep_view();
    let ghost rs = results.deep_view();
    let mut selected: Vec<Record> = Vec::new();
    let mut filtered: Vec<DuplicateRecord> = Vec::new();
    let mut records = records;
    let count: usize = if records.len() <= results.len() {
        records.len()
    } else {
        results.len()
    };
    records.truncate(count);
    let mut i: usize = 0;
    let ghost used = records@;
    assert(selected.deep_view() =~= seq![]);
    assert(filtered.deep_view() =~= seq![]);
    for record in it: records
        invariant
            it.seq() == used,
            i == it.index(),
            used.len() == count <= results.len(),
            rs == results.deep_view(),
            forall|j: int| 0 <= j < count ==> (#[trigger] used[j]).deep_view() == ds[j],
            selected.deep_view() == dissimilar(ds, rs, i as int),
            filtered.deep_view() == similar(ds, rs, i as int),
    {
        let ghost before = selected.deep_view();
        let ghost before_filtered = filtered.deep_view();
        assert(record.deep_view() == ds[i as int]);
        let found = copy_scores(&results[i]);
        assert(found.deep_view() == rs[i as int]);
        if found.len() == 0 {
            selected.push(Record::Dict(record));
            assert(selected.deep_view() =~= before.push(RecordView::Dict(ds[i as int])));
        } else {
            filtered.push(
                DuplicateRecord::new(Record::Dict(record), false, scored_dicts_to_records(found)),
            );
            assert(filtered.deep_view() =~= before_filtered.push(
                similar_record(ds[i as int], rs[i as int]),
            ));
        }
        i = i + 1;
    }
    (selected, filtered)
}

/// A copy of a list of scored records.
fn copy_scores(found: &DocScores) -> (r: DocScores)
    ensures
        r.deep_view() == found.deep_view(),
        r.len() == found.len(),
{
    let mut out: DocScores = Vec::new();
    let mut i: usize = 0;
    while i < found.len()
        invariant
            i <= found.len(),
            out.len() == i,
            forall|j: int|
                0 <= j < i ==> (#[trigger] out@[j]).deep_view() == found@[j].deep_view(),
        decreases found.len() - i,
    {
        out.push((found[i].0.clone(), found[i].1));
        i = i + 1;
    }
    assert(out.deep_view() =~= found.deep_view());
    out
}

// ---------------------------------------------------------------------------------------------
// The records of an index against each other

/// The records of a bucket but the first, up to the `n`th: each duplicates all others of the
/// bucket.
pub open spec fn bucket_duplicates(item: Seq<DictView>, n: int) -> Seq<DuplicateView>
    decreases n,
{
    if n <= 1 {
        seq![]
    } else {
        bucket_duplicates(item, n - 1).push(exact_duplicate((item[n - 1], item.remove(n - 1))))
    }
}

/// The records that were found.
pub open spec fn found_records(found: Seq<(DictView, Float32)>) -> Seq<DictView> {
    Seq::new(found.len(), |i: int| found[i].0)
}

/// What was found, without the record itself.
pub open spec fn found_but(found: Seq<(DictView, Float32)>, record: DictView) -> Seq<
    (DictView, Float32),
>
    decreases found.len(),
{
    if found.len() == 0 {
        seq![]
    } else {
        let rest = found_but(found.drop_last(), record);
        if found.last().0 == record {
            rest
        } else {
            rest.push(found.last())
        }
    }
}

/// Whether one of the keys was seen.
pub open spec fn any_seen(keys: Seq<DictView>, seen: Seq<DictView>) -> bool {
    exists|i: int| 0 <= i < keys.len() && seen.contains(#[trigger] keys[i])
}

/// What is known after some buckets: the records that stay, the duplicates, and the keys of what
/// the records that stay had found.
#[verifier::ext_equal]
pub struct Progress {
    pub selected: Seq<RecordView>,
    pub filtered: Seq<DuplicateView>,
    pub seen: Seq<DictView>,
}

/// One more bucket and what its vector found. The first record of the bucket stays, unless it
/// found something that one before it had found too; the others are its exact duplicates.
pub open spec fn with_bucket(
    p: Progress,
    item: Seq<DictView>,
    found: Seq<(DictView, Float32)>,
    columns: Seq<Seq<char>>,
) -> std::result::Result<Progress, ErrorView> {
    if item.len() == 0 {
        Ok(p)
    } else {
        let filtered = p.filtered + bucket_duplicates(item, item.len() as int);
        let record = RecordView::Dict(item[0]);
        if found.len() == 0 {
            Ok(Progress { selected: p.selected.push(record), filtered, seen: p.seen })
        } else {
            match records::first_missing_of(found_records(found), columns) {
                Some(column) => Err(ErrorView::MissingColumn { column }),
                None => {
                    let keys = records::keys_of(found_records(found), columns);
                    if any_seen(keys, p.seen) {
                        Ok(
                            Progress {
                                selected: p.selected,
                                filtered: filtered.push(
                                    similar_record(item[0], found_but(found, item[0])),
                                ),
                                seen: p.seen,
                            },
                        )
                    } else {
                        Ok(
                            Progress {
                                selected: p.selected.push(record),
                                filtered,
                                seen: p.seen + keys,
                            },
                        )
                    }
                },
            }
        }
    }
}

/// The first `n` buckets, one after the other.
pub open spec fn with_buckets(
    items: Seq<Seq<DictView>>,
    results: Seq<Seq<(DictView, Float32)>>,
    columns: Seq<Seq<char>>,
    n: int,
) -> std::result::Result<Progress, ErrorView>
    decreases n,
{
    if n <= 0 {
        Ok(Progress { selected: seq![], filtered: seq![], seen: seq![] })
    } else {
        match with_buckets(items, results, columns, n - 1) {
            Err(e) => Err(e),
            Ok(p) => with_bucket(p, items[n - 1], results[n - 1], columns),
        }
    }
}

/// A bucket without one of its records.
fn bucket_without(item: &Vec<DictRecord>, at: usize) -> (r: Vec<DictRecord>)
    requires
        at < item.len(),
    ensures
        r.deep_view() == item.deep_view().remove(at as int),
{
    let mut out: Vec<DictRecord> = records::copy_dicts(item);
    assert(out.len() == item.len()) by {
        assert(out.deep_view().len() == item.deep_view().len());
    }
    let ghost whole = out.deep_view();
    let _ = out.remove(at);
    assert(out.deep_view() =~= whole.remove(at as int));
    out
}

/// Adds the records of a bucket but the first as exact duplicates.
fn list_bucket_duplicates(item: &Vec<DictRecord>, filtered: &mut Vec<DuplicateRecord>)
    ensures
        final(filtered).deep_view() == old(filtered).deep_view() + bucket_duplicates(
            item.deep_view(),
            item.len() as int,
        ),
{
    let ghost before = filtered.deep_view();
    let ghost ds = item.deep_view();
    let mut j: usize = 1;
    assert(filtered.deep_view() =~= before + bucket_duplicates(ds, 1));
    if item.len() == 0 {
        return ;
    }
    while j < item.len()
        invariant
            1 <= j <= item.len(),
            ds == item.deep_view(),
            filtered.deep_view() == before + bucket_duplicates(ds, j as int),
        decreases item.len() - j,
    {
        let ghost so_far = filtered.deep_view();
        let others = bucket_without(item, j);
        let listed = others.as_slice();
        assert(listed.deep_view() =~= others.deep_view());
        assert(ds[j as int] == item@[j as int].deep_view());
        filtered.push(
            DuplicateRecord::new(
                Record::Dict(item[j].clone()),
                true,
                scored_dicts_to_records(add_scores_to_records(listed)),
            ),
        );
        assert(filtered.deep_view() =~= so_far.push(
            exact_duplicate((ds[j as int], ds.remove(j as int))),
        ));
        j = j + 1;
        assert(filtered.deep_view() =~= before + bucket_duplicates(ds, j as int));
    }
}

/// The keys of what was found, or the first column that one of the records does not have.
fn keys_of_found(found: &DocScores, columns: &[String]) -> (r: Result<Vec<DictRecord>>)
    ensures
        match records::first_missing_of(found_records(found.deep_view()), columns.deep_view()) {
            Some(column) => r matches Err(e) && e.deep_view() == (ErrorView::MissingColumn {
                column,
            }),
            None => r matches Ok(keys) && keys.deep_view() == records::keys_of(
                found_records(found.deep_view()),
                columns.deep_view(),
            ),
        },
{
    let ghost ds = found_records(found.deep_view());
    let ghost cols = columns.deep_view();
    let mut keys: Vec<DictRecord> = Vec::new();
    let mut i: usize = 0;
    assert(ds.skip(0) =~= ds);
    while i < found.len()
        invariant
            i <= found.len(),
            ds == found_records(found.deep_view()),
            cols == columns.deep_view(),
            keys.len() == i,
            forall|j: int|
                0 <= j < i ==> (#[trigger] keys@[j]).deep_view() == utils::key_of(ds[j], cols),
            records::first_missing_of(ds, cols) == records::first_missing_of(
                ds.skip(i as int),
                cols,
            ),
        decreases found.len() - i,
    {
        assert(ds[i as int] == found@[i as int].0.deep_view()) by {
            assert(found.deep_view()[i as int] == found@[i as int].deep_view());
        }
        assert(ds.skip(i as int).drop_first() =~= ds.skip(i + 1));
        match to_key_map(&found[i].0, columns) {
            Ok(key) => {
                keys.push(key);
            },
            Err(e) => {
                return Err(e);
            },
        }
        i = i + 1;
    }
    assert(keys.deep_view() =~= records::keys_of(ds, cols));
    Ok(keys)
}

/// What was found, without the record itself.
fn without_record(found: &DocScores, record: &DictRecord) -> (r: DocScores)
    ensures
        r.deep_view() == found_but(found.deep_view(), record.deep_view()),
{
    let ghost fs = found.deep_view();
    let mut out: DocScores = Vec::new();
    let mut i: usize = 0;
    assert(out.deep_view() =~= seq![]);
    while i < found.len()
        invariant
            i <= found.len(),
            fs == found.deep_view(),
            out.deep_view() == found_but(fs.take(i as int), record.deep_view()),
        decreases found.len() - i,
    {
        assert(fs.take(i + 1).drop_last() =~= fs.take(i as int));
        assert(fs[i as int] == found@[i as int].deep_view());
        if !found[i].0.same(record) {
            let ghost before = out.deep_view();
            out.push((found[i].0.clone(), found[i].1));
            assert(out.deep_view() =~= before.push(fs[i as int]));
        }
        i = i + 1;
    }
    assert(fs.take(found.len() as int) =~= fs);
    out
}

/// Whether one of the keys was seen.
fn has_seen(seen: &KeyTable, keys: &Vec<DictRecord>) -> (r: bool)
    requires
        seen.wf(),
    ensures
        r == any_seen(keys.deep_view(), seen@),
{
    let mut i: usize = 0;
    while i < keys.len()
        invariant
            i <= keys.len(),
            seen.wf(),
            forall|j: int|
                0 <= j < i ==> !seen@.contains(#[trigger] keys.deep_view()[j]),
        decreases keys.len() - i,
    {
        assert(keys.deep_view()[i as int] == keys@[i as int].deep_view());
        if seen.find(&keys[i]).is_some() {
            assert(seen@.contains(keys.deep_view()[i as int]));
            return true;
        }
        i = i + 1;
    }
    false
}

/// Goes through the buckets of an index, each with what its vector found, and tells the records
/// that stay from the duplicates.
pub fn sort_out_buckets(
    items: &Vec<Vec<DictRecord>>,
    results: &Vec<DocScores>,
    columns: &[String],
) -> (r: Result<(Vec<Record>, Vec<DuplicateRecord>)>)
    ensures
        match with_buckets(
            items.deep_view(),
            results.deep_view(),
            columns.deep_view(),
            answered(items.len() as nat, results.len() as nat) as int,
        ) {
            Ok(p) => r matches Ok(out) && out.0.deep_view() == p.selected && out.1.deep_view()
                == p.filtered,
            Err(e) => r is Err && r->Err_0.deep_view() == e,
        },
{
    let ghost gs = items.deep_view();
    let ghost rs = results.deep_view();
    let ghost cols = columns.deep_view();
    let count: usize = if items.len() <= results.len() {
        items.len()
    } else {
        results.len()
    };
    let mut selected: Vec<Record> = Vec::new();
    let mut filtered: Vec<DuplicateRecord> = Vec::new();
    let mut seen = KeyTable::new();
    let mut i: usize = 0;
    assert(selected.deep_view() =~= seq![]);
    assert(filtered.deep_view() =~= seq![]);
    while i < count
        invariant
            i <= count,
            count <= items.len(),
            count <= results.len(),
            count == answered(items.len() as nat, results.len() as nat),
            gs == items.deep_view(),
            rs == results.deep_view(),
            cols == columns.deep_view(),
            seen.wf(),
            with_buckets(gs, rs, cols, i as int) == Ok::<Progress, ErrorView>(
                Progress {
                    selected: selected.deep_view(),
                    filtered: filtered.deep_view(),
                    seen: seen@,
                },
            ),
        decreases count - i,
    {
        let item = &items[i];
        let found = &results[i];
        assert(gs[i as int] == item.deep_view());
        assert(rs[i as int] == found.deep_view());
        let ghost p = with_buckets(gs, rs, cols, i as int)->Ok_0;
        let ghost next = with_bucket(p, gs[i as int], rs[i as int], cols);
        proof {
            lemma_buckets_error(gs, rs, cols, i + 1, count as int);
        }
        if item.len() > 0 {
            assert(gs[i as int][0] == item@[0].deep_view());
            list_bucket_duplicates(item, &mut filtered);
            if found.len() == 0 {
                selected.push(Record::Dict(item[0].clone()));
                assert(selected.deep_view() =~= next->Ok_0.selected);
            } else {
                let keys = match keys_of_found(found, columns) {
                    Ok(keys) => keys,
                    Err(e) => {
                        return Err(e);
                    },
                };
                if has_seen(&seen, &keys) {
                    let originals = without_record(found, &item[0]);
                    filtered.push(
                        DuplicateRecord::new(
                            Record::Dict(item[0].clone()),
                            false,
                            scored_dicts_to_records(originals),
                        ),
                    );
                    assert(filtered.deep_view() =~= next->Ok_0.filtered);
                } else {
                    selected.push(Record::Dict(item[0].clone()));
                    assert(selected.deep_view() =~= next->Ok_0.selected);
                    add_keys(&mut seen, keys);
                }
            }
        }
        i = i + 1;
    }
    Ok((selected, filtered))
}

/// Adds keys at the end of a list of keys.
fn add_keys(seen: &mut KeyTable, keys: Vec<DictRecord>)
    requires
        old(seen).wf(),
    ensures
        final(seen).wf(),
        final(seen)@ == old(seen)@ + keys.deep_view(),
{
    let ghost before = seen@;
    let ghost ks = keys.deep_view();
    assert(before + ks.take(0) =~= before);
    for key in it: keys
        invariant
            it.seq() == keys@,
            ks == keys.deep_view(),
            seen.wf(),
            seen@ == before + ks.take(it.index()),
    {
        assert(key.deep_view() == ks[it.index()]);
        seen.push(key);
        assert(seen@ =~= before + ks.take(it.index() + 1));
    }
    assert(ks.take(ks.len() as int) =~= ks);
}

/// An error among the first buckets is what all of them come to.
proof fn lemma_buckets_error(
    items: Seq<Seq<DictView>>,
    results: Seq<Seq<(DictView, Float32)>>,
    columns: Seq<Seq<char>>,
    i: int,
    n: int,
)
    requires
        i <= n,
    ensures
        with_buckets(items, results, columns, i) is Err ==> with_buckets(items, results, columns, n)
            == with_buckets(items, results, columns, i),
    decreases n - i,
{
    if i < n && 0 < n {
        lemma_buckets_error(items, results, columns, i, n - 1);
    }
}

} // verus!
