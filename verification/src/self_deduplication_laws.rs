//! Laws of deduplicating the records of an index among themselves: one record of each cluster
//! stays, and everything else is reported against what it duplicates.

use crate::datamodels::DuplicateView;
use crate::deduplication;
use crate::deduplication::Progress;
use crate::float::Float32;
use crate::records;
use crate::sublists;
use crate::utils;
use crate::value::{DictView, RecordView};
use vstd::prelude::*;

verus! {

/// Whether some record that the query of one group found has the key of a record that the query
/// of another group found.
pub open spec fn share_a_find(
    results: Seq<Seq<(DictView, Float32)>>,
    columns: Seq<Seq<char>>,
    i: int,
    j: int,
) -> bool {
    exists|a: int, b: int|
        #![trigger results[i][a], results[j][b]]
        0 <= a < results[i].len() && 0 <= b < results[j].len() && utils::key_of(
            results[i][a].0,
            columns,
        ) == utils::key_of(results[j][b].0, columns)
}

/// Whether a group found something that an earlier group which stays had found too.
pub open spec fn overlaps_earlier(
    kept: Seq<bool>,
    results: Seq<Seq<(DictView, Float32)>>,
    columns: Seq<Seq<char>>,
    i: int,
) -> bool {
    exists|j: int| 0 <= j < i && #[trigger] kept[j] && share_a_find(results, columns, i, j)
}

/// Whether the marks say which groups stay: those that found nothing that an earlier group which
/// stays had found too. What a group that does not stay had found counts against none.
pub open spec fn one_of_each_cluster(
    kept: Seq<bool>,
    items: Seq<Seq<DictView>>,
    results: Seq<Seq<(DictView, Float32)>>,
    columns: Seq<Seq<char>>,
) -> bool {
    forall|i: int|
        0 <= i < kept.len() ==> #[trigger] kept[i] == (items[i].len() > 0 && !overlaps_earlier(
            kept,
            results,
            columns,
            i,
        ))
}

/// There is one way, and only one, to mark which groups stay.
pub proof fn marks_are_determined(
    items: Seq<Seq<DictView>>,
    results: Seq<Seq<(DictView, Float32)>>,
    columns: Seq<Seq<char>>,
    n: nat,
) -> (kept: Seq<bool>)
    ensures
        kept.len() == n,
        one_of_each_cluster(kept, items, results, columns),
        forall|other: Seq<bool>|
            other.len() == n && #[trigger] one_of_each_cluster(other, items, results, columns)
                ==> other == kept,
    decreases n,
{
    if n == 0 {
        let kept = Seq::<bool>::empty();
        assert forall|other: Seq<bool>|
            other.len() == n && #[trigger] one_of_each_cluster(
                other,
                items,
                results,
                columns,
            ) implies other == kept by {
            assert(other =~= kept);
        }
        kept
    } else {
        let m = n - 1;
        let before = marks_are_determined(items, results, columns, m as nat);
        let kept = before.push(
            items[m].len() > 0 && !overlaps_earlier(before, results, columns, m),
        );
        assert forall|i: int| 0 <= i < kept.len() implies #[trigger] kept[i] == (items[i].len() > 0
            && !overlaps_earlier(kept, results, columns, i)) by {
            lemma_overlap_prefix(kept, before, results, columns, i);
            if i < m {
                assert(before[i] == kept[i]);
            }
        }
        assert forall|other: Seq<bool>|
            other.len() == n && #[trigger] one_of_each_cluster(
                other,
                items,
                results,
                columns,
            ) implies other == kept by {
            let front = other.drop_last();
            assert forall|i: int| 0 <= i < front.len() implies #[trigger] front[i] == (
            items[i].len() > 0 && !overlaps_earlier(front, results, columns, i)) by {
                lemma_overlap_prefix(other, front, results, columns, i);
                assert(other[i] == front[i]);
            }
            assert(one_of_each_cluster(front, items, results, columns));
            assert(front == before);
            lemma_overlap_prefix(other, front, results, columns, m);
            assert(other[m] == (items[m].len() > 0 && !overlaps_earlier(
                other,
                results,
                columns,
                m,
            )));
            assert(other =~= kept);
        }
        kept
    }
}

proof fn lemma_overlap_prefix(
    long: Seq<bool>,
    short: Seq<bool>,
    results: Seq<Seq<(DictView, Float32)>>,
    columns: Seq<Seq<char>>,
    i: int,
)
    requires
        i <= short.len() <= long.len(),
        forall|j: int| 0 <= j < short.len() ==> #[trigger] long[j] == short[j],
    ensures
        overlaps_earlier(long, results, columns, i) == overlaps_earlier(short, results, columns, i),
{
    if overlaps_earlier(long, results, columns, i) {
        let j = choose|j: int|
            0 <= j < i && #[trigger] long[j] && share_a_find(results, columns, i, j);
        assert(short[j]);
    }
    if overlaps_earlier(short, results, columns, i) {
        let j = choose|j: int|
            0 <= j < i && #[trigger] short[j] && share_a_find(results, columns, i, j);
        assert(long[j]);
    }
}

/// What was found, but for a record itself.
pub open spec fn all_but(found: Seq<(DictView, Float32)>, record: DictView) -> Seq<
    (DictView, Float32),
> {
    found.filter(|f: (DictView, Float32)| f.0 != record)
}

/// What a group is reported as: its records but the first are exact duplicates of all its other
/// records, with the score one, and its first record, where it does not stay, is a duplicate of
/// everything that it found but itself.
pub open spec fn group_report(
    item: Seq<DictView>,
    found: Seq<(DictView, Float32)>,
    stays: bool,
) -> Seq<DuplicateView> {
    if item.len() == 0 {
        seq![]
    } else {
        let exact = Seq::new(
            (item.len() - 1) as nat,
            |j: int|
                DuplicateView {
                    record: RecordView::Dict(item[j + 1]),
                    exact: true,
                    duplicates: item.remove(j + 1).map_values(
                        |d: DictView| (RecordView::Dict(d), Float32 { bits: 0x3f80_0000 }),
                    ),
                },
        );
        if stays {
            exact
        } else {
            exact.push(
                DuplicateView {
                    record: RecordView::Dict(item[0]),
                    exact: false,
                    duplicates: all_but(found, item[0]).map_values(
                        |f: (DictView, Float32)| (RecordView::Dict(f.0), f.1),
                    ),
                },
            )
        }
    }
}

/// What the first `n` groups are reported as, one after the other.
pub open spec fn group_reports(
    items: Seq<Seq<DictView>>,
    results: Seq<Seq<(DictView, Float32)>>,
    kept: Seq<bool>,
    n: int,
) -> Seq<DuplicateView>
    decreases n,
{
    if n <= 0 {
        seq![]
    } else {
        group_reports(items, results, kept, n - 1) + group_report(
            items[n - 1],
            results[n - 1],
            kept[n - 1],
        )
    }
}

/// The first records of groups.
pub open spec fn first_of_each(items: Seq<Seq<DictView>>, n: int) -> Seq<RecordView> {
    Seq::new(n as nat, |i: int| RecordView::Dict(items[i][0]))
}

proof fn lemma_bucket_report(item: Seq<DictView>, n: int)
    requires
        1 <= n <= item.len(),
    ensures
        deduplication::bucket_duplicates(item, n) == Seq::new(
            (n - 1) as nat,
            |j: int|
                DuplicateView {
                    record: RecordView::Dict(item[j + 1]),
                    exact: true,
                    duplicates: item.remove(j + 1).map_values(
                        |d: DictView| (RecordView::Dict(d), Float32 { bits: 0x3f80_0000 }),
                    ),
                },
        ),
    decreases n,
{
    let all = deduplication::bucket_duplicates(item, n);
    let expected = Seq::new(
        (n - 1) as nat,
        |j: int|
            DuplicateView {
                record: RecordView::Dict(item[j + 1]),
                exact: true,
                duplicates: item.remove(j + 1).map_values(
                    |d: DictView| (RecordView::Dict(d), Float32 { bits: 0x3f80_0000 }),
                ),
            },
    );
    if n > 1 {
        lemma_bucket_report(item, n - 1);
        let others = item.remove(n - 1);
        let scored = others.map_values(
            |d: DictView| (RecordView::Dict(d), Float32 { bits: 0x3f80_0000 }),
        );
        assert(records::as_scored_records(records::fully_scored(others)) =~= scored);
        assert(all.last() == expected[n - 2]);
    }
    assert(all =~= expected);
}

proof fn lemma_found_but(found: Seq<(DictView, Float32)>, record: DictView)
    ensures
        deduplication::found_but(found, record) == all_but(found, record),
    decreases found.len(),
{
    reveal(Seq::filter);
    if found.len() > 0 {
        lemma_found_but(found.drop_last(), record);
    }
    assert(deduplication::found_but(found, record) =~= all_but(found, record));
}

/// One more group.
proof fn lemma_next_group(
    p: Progress,
    item: Seq<DictView>,
    found: Seq<(DictView, Float32)>,
    columns: Seq<Seq<char>>,
    stays: bool,
)
    requires
        deduplication::with_bucket(p, item, found, columns) is Ok,
        stays == (item.len() > 0 && !exists|a: int|
            0 <= a < found.len() && p.seen.contains(
                utils::key_of((#[trigger] found[a]).0, columns),
            )),
    ensures
        ({
            let q = deduplication::with_bucket(p, item, found, columns)->Ok_0;
            &&& q.selected == if stays {
                p.selected.push(RecordView::Dict(item[0]))
            } else {
                p.selected
            }
            &&& q.filtered == p.filtered + group_report(item, found, stays)
            &&& forall|key: DictView|
                #![trigger q.seen.contains(key)]
                q.seen.contains(key) <==> p.seen.contains(key) || (stays && exists|a: int|
                    0 <= a < found.len() && utils::key_of((#[trigger] found[a]).0, columns) == key)
        }),
{
    let q = deduplication::with_bucket(p, item, found, columns)->Ok_0;
    let keys = records::keys_of(deduplication::found_records(found), columns);
    assert forall|a: int| 0 <= a < found.len() implies keys[a] == utils::key_of(
        (#[trigger] found[a]).0,
        columns,
    ) by {}
    if item.len() == 0 {
        assert(q.filtered =~= p.filtered + group_report(item, found, stays));
    } else {
        lemma_bucket_report(item, item.len() as int);
        lemma_found_but(found, item[0]);
        if deduplication::any_seen(keys, p.seen) {
            let i = choose|i: int| 0 <= i < keys.len() && p.seen.contains(#[trigger] keys[i]);
            assert(p.seen.contains(utils::key_of(found[i].0, columns)));
            assert(!stays);
            let others = all_but(found, item[0]);
            assert(records::as_scored_records(others) =~= others.map_values(
                |f: (DictView, Float32)| (RecordView::Dict(f.0), f.1),
            ));
            assert(q.filtered =~= p.filtered + group_report(item, found, stays));
        } else {
            assert(stays) by {
                if exists|a: int|
                    0 <= a < found.len() && p.seen.contains(
                        utils::key_of((#[trigger] found[a]).0, columns),
                    ) {
                    let a = choose|a: int|
                        0 <= a < found.len() && p.seen.contains(
                            utils::key_of((#[trigger] found[a]).0, columns),
                        );
                    assert(p.seen.contains(keys[a]));
                }
            }
            assert(q.filtered =~= p.filtered + group_report(item, found, stays));
            assert(q.seen =~= p.seen + keys);
            assert forall|key: DictView|
                #![trigger q.seen.contains(key)]
                q.seen.contains(key) <==> p.seen.contains(key) || exists|a: int|
                    0 <= a < found.len() && utils::key_of((#[trigger] found[a]).0, columns)
                        == key by {
                if q.seen.contains(key) {
                    let i = choose|i: int| 0 <= i < q.seen.len() && q.seen[i] == key;
                    if i < p.seen.len() {
                        assert(p.seen[i] == key);
                    } else {
                        let a = i - p.seen.len();
                        assert(keys[a] == key);
                        assert(utils::key_of(found[a].0, columns) == key);
                    }
                }
                if p.seen.contains(key) {
                    let i = choose|i: int| 0 <= i < p.seen.len() && p.seen[i] == key;
                    assert(q.seen[i] == key);
                }
                if exists|a: int|
                    0 <= a < found.len() && utils::key_of((#[trigger] found[a]).0, columns) == key {
                    let a = choose|a: int|
                        0 <= a < found.len() && utils::key_of((#[trigger] found[a]).0, columns)
                            == key;
                    assert(q.seen[p.seen.len() + a] == keys[a]);
                }
            }
        }
    }
}

/// Of the groups of an index, the first record of each that found nothing which an earlier group
/// that stays had found too is selected, in order, and every other record is reported, group by
/// group. The keys that are seen in the end are those that the groups which stay had found.
pub proof fn one_record_of_each_cluster_stays(
    items: Seq<Seq<DictView>>,
    results: Seq<Seq<(DictView, Float32)>>,
    columns: Seq<Seq<char>>,
    kept: Seq<bool>,
)
    requires
        kept.len() <= items.len(),
        one_of_each_cluster(kept, items, results, columns),
        deduplication::with_buckets(items, results, columns, kept.len() as int) is Ok,
    ensures
        ({
            let n = kept.len() as int;
            let p = deduplication::with_buckets(items, results, columns, n)->Ok_0;
            &&& p.selected == sublists::those(first_of_each(items, n), |i: int| kept[i])
            &&& p.filtered == group_reports(items, results, kept, n)
            &&& forall|key: DictView|
                #![trigger p.seen.contains(key)]
                p.seen.contains(key) <==> exists|j: int, b: int|
                    #![trigger kept[j], results[j][b]]
                    0 <= j < n && kept[j] && 0 <= b < results[j].len() && utils::key_of(
                        results[j][b].0,
                        columns,
                    ) == key
        }),
    decreases kept.len(),
{
    let n = kept.len() as int;
    let p = deduplication::with_buckets(items, results, columns, n)->Ok_0;
    if n == 0 {
        assert(p.selected =~= sublists::those(first_of_each(items, n), |i: int| kept[i]));
        assert(p.filtered =~= group_reports(items, results, kept, n));
    } else {
        let m = n - 1;
        let front = kept.drop_last();
        assert forall|i: int| 0 <= i < front.len() implies #[trigger] front[i] == (items[i].len()
            > 0 && !overlaps_earlier(front, results, columns, i)) by {
            lemma_overlap_prefix(kept, front, results, columns, i);
            assert(kept[i] == front[i]);
        }
        one_record_of_each_cluster_stays(items, results, columns, front);
        let before = deduplication::with_buckets(items, results, columns, m)->Ok_0;
        let found = results[m];
        let clash = exists|a: int|
            0 <= a < found.len() && before.seen.contains(
                utils::key_of((#[trigger] found[a]).0, columns),
            );
        assert(clash == overlaps_earlier(kept, results, columns, m)) by {
            if clash {
                let a = choose|a: int|
                    0 <= a < found.len() && before.seen.contains(
                        utils::key_of((#[trigger] found[a]).0, columns),
                    );
                let key = utils::key_of(found[a].0, columns);
                let (j, b) = choose|j: int, b: int|
                    #![trigger front[j], results[j][b]]
                    0 <= j < m && front[j] && 0 <= b < results[j].len() && utils::key_of(
                        results[j][b].0,
                        columns,
                    ) == key;
                assert(utils::key_of(results[m][a].0, columns) == utils::key_of(
                    results[j][b].0,
                    columns,
                ));
                assert(share_a_find(results, columns, m, j));
                assert(kept[j]);
            }
            if overlaps_earlier(kept, results, columns, m) {
                let j = choose|j: int|
                    0 <= j < m && #[trigger] kept[j] && share_a_find(results, columns, m, j);
                let (a, b) = choose|a: int, b: int|
                    #![trigger results[m][a], results[j][b]]
                    0 <= a < results[m].len() && 0 <= b < results[j].len() && utils::key_of(
                        results[m][a].0,
                        columns,
                    ) == utils::key_of(results[j][b].0, columns);
                let key = utils::key_of(results[j][b].0, columns);
                assert(front[j] && results[j][b] == results[j][b]);
                assert(before.seen.contains(key));
                assert(before.seen.contains(utils::key_of(found[a].0, columns)));
            }
        }
        assert(kept[m] == (items[m].len() > 0 && !overlaps_earlier(kept, results, columns, m)));
        lemma_next_group(before, items[m], found, columns, kept[m]);
        let firsts = first_of_each(items, n);
        assert(firsts.drop_last() =~= first_of_each(items, m));
        sublists::lemma_those_agree(
            first_of_each(items, m),
            |i: int| kept[i],
            |i: int| front[i],
        );
        lemma_reports_agree(items, results, kept, front, m);
        assert forall|key: DictView|
            #![trigger p.seen.contains(key)]
            p.seen.contains(key) <==> exists|j: int, b: int|
                #![trigger kept[j], results[j][b]]
                0 <= j < n && kept[j] && 0 <= b < results[j].len() && utils::key_of(
                    results[j][b].0,
                    columns,
                ) == key by {
            if p.seen.contains(key) {
                if before.seen.contains(key) {
                    let (j, b) = choose|j: int, b: int|
                        #![trigger front[j], results[j][b]]
                        0 <= j < m && front[j] && 0 <= b < results[j].len() && utils::key_of(
                            results[j][b].0,
                            columns,
                        ) == key;
                    assert(kept[j] && utils::key_of(results[j][b].0, columns) == key);
                } else {
                    let a = choose|a: int|
                        0 <= a < found.len() && utils::key_of((#[trigger] found[a]).0, columns)
                            == key;
                    assert(kept[m] && utils::key_of(results[m][a].0, columns) == key);
                }
            }
            if exists|j: int, b: int|
                #![trigger kept[j], results[j][b]]
                0 <= j < n && kept[j] && 0 <= b < results[j].len() && utils::key_of(
                    results[j][b].0,
                    columns,
                ) == key {
                let (j, b) = choose|j: int, b: int|
                    #![trigger kept[j], results[j][b]]
                    0 <= j < n && kept[j] && 0 <= b < results[j].len() && utils::key_of(
                        results[j][b].0,
                        columns,
                    ) == key;
                if j < m {
                    assert(front[j] && utils::key_of(results[j][b].0, columns) == key);
                    assert(before.seen.contains(key));
                } else {
                    assert(utils::key_of(found[b].0, columns) == key);
                }
            }
        }
    }
}

proof fn lemma_reports_agree(
    items: Seq<Seq<DictView>>,
    results: Seq<Seq<(DictView, Float32)>>,
    kept: Seq<bool>,
    front: Seq<bool>,
    n: int,
)
    requires
        forall|i: int| 0 <= i < n ==> #[trigger] kept[i] == front[i],
    ensures
        group_reports(items, results, kept, n) == group_reports(items, results, front, n),
    decreases n,
{
    if n > 0 {
        lemma_reports_agree(items, results, kept, front, n - 1);
        assert(kept[n - 1] == front[n - 1]);
    }
}

} // verus!
