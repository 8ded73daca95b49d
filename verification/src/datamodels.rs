//! Results of deduplication and of filtering.

use crate::error::{ErrorView, Result, SemHashError};
use crate::float::Float32;
use crate::ranking;
use crate::ranking::trim_top_k;
use crate::rendering;
use crate::utils;
use crate::utils::record_key_for_selected;
use crate::value::{Record, RecordView};
use vstd::hash_map::StringHashMap;
use vstd::multiset::Multiset;
use vstd::prelude::*;

verus! {

/// A share of a whole, by counts.
#[derive(Clone, Copy, Debug, PartialEq, Eq)]
pub struct Ratio {
    pub part: u128,
    pub whole: u128,
}

/// A part of a whole; a share of nothing is a share of one.
pub open spec fn share(part: int, whole: int, share_of_nothing: int) -> Ratio {
    if whole == 0 {
        Ratio { part: share_of_nothing as u128, whole: 1 }
    } else {
        Ratio { part: part as u128, whole: whole as u128 }
    }
}

/// A duplicate record and the records that caused it to be considered a duplicate.
#[derive(Clone, Debug, PartialEq)]
pub struct DuplicateRecord {
    pub record: Record,
    pub exact: bool,
    pub duplicates: Vec<(Record, Float32)>,
}

/// What a duplicate record is.
pub struct DuplicateView {
    pub record: RecordView,
    pub exact: bool,
    pub duplicates: Seq<(RecordView, Float32)>,
}

impl DeepView for DuplicateRecord {
    type V = DuplicateView;

    open spec fn deep_view(&self) -> DuplicateView {
        DuplicateView {
            record: self.record.deep_view(),
            exact: self.exact,
            duplicates: self.duplicates.deep_view(),
        }
    }
}

/// The scored records that reach the threshold.
pub open spec fn retained(
    duplicates: Seq<(RecordView, Float32)>,
    threshold: Float32,
) -> Seq<(RecordView, Float32)>
    decreases duplicates.len(),
{
    if duplicates.len() == 0 {
        seq![]
    } else {
        let rest = retained(duplicates.drop_last(), threshold);
        if duplicates.last().1.reaches(threshold) {
            rest.push(duplicates.last())
        } else {
            rest
        }
    }
}

impl DuplicateRecord {
    pub fn new(record: Record, exact: bool, duplicates: Vec<(Record, Float32)>) -> (r: Self)
        ensures
            r.deep_view() == (DuplicateView {
                record: record.deep_view(),
                exact,
                duplicates: duplicates.deep_view(),
            }),
    {
        DuplicateRecord { record, exact, duplicates }
    }

    /// Drops the duplicates whose score does not reach the threshold.
    pub fn rethreshold_in_place(&mut self, threshold: Float32)
        ensures
            final(self).deep_view() == (DuplicateView {
                duplicates: retained(old(self).deep_view().duplicates, threshold),
                ..old(self).deep_view()
            }),
    {
        let mut all: Vec<(Record, Float32)> = Vec::new();
        std::mem::swap(&mut all, &mut self.duplicates);
        let ghost ds = all.deep_view();
        let mut kept: Vec<(Record, Float32)> = Vec::new();
        assert(kept.deep_view() =~= retained(ds.take(0), threshold));
        for pair in it: all
            invariant
                it.seq() == all@,
                ds == all.deep_view(),
                kept.deep_view() == retained(ds.take(it.index()), threshold),
        {
            let ghost i = it.index();
            let ghost before = kept.deep_view();
            assert(ds.take(i + 1).drop_last() =~= ds.take(i));
            assert(ds[i] == pair.deep_view());
            if pair.1.is_at_least(threshold) {
                kept.push(pair);
                assert(kept.deep_view() =~= before.push(ds[i]));
            }
        }
        assert(ds.take(ds.len() as int) =~= ds);
        self.duplicates = kept;
    }
}

/// A selected record with the filtered duplicates that map back to it.
#[derive(Clone, Debug, PartialEq)]
pub struct SelectedWithDuplicates {
    pub record: Record,
    pub duplicates: Vec<(Record, Float32)>,
}

/// What a selected record with its duplicates is.
pub struct SelectedView {
    pub record: RecordView,
    pub duplicates: Seq<(RecordView, Float32)>,
}

impl DeepView for SelectedWithDuplicates {
    type V = SelectedView;

    open spec fn deep_view(&self) -> SelectedView {
        SelectedView { record: self.record.deep_view(), duplicates: self.duplicates.deep_view() }
    }
}

impl SelectedWithDuplicates {
    pub fn new(record: Record, duplicates: Vec<(Record, Float32)>) -> (r: Self)
        ensures
            r.deep_view() == (SelectedView {
                record: record.deep_view(),
                duplicates: duplicates.deep_view(),
            }),
    {
        SelectedWithDuplicates { record, duplicates }
    }
}

/// Deduplication result.
#[derive(Clone, Debug, PartialEq)]
pub struct DeduplicationResult {
    pub selected: Vec<Record>,
    pub filtered: Vec<DuplicateRecord>,
    pub threshold: Float32,
    pub columns: Option<Vec<String>>,
    selected_with_duplicates_cache: Option<Vec<SelectedWithDuplicates>>,
}

/// What a deduplication result is.
pub struct DeduplicationView {
    pub selected: Seq<RecordView>,
    pub filtered: Seq<DuplicateView>,
    pub threshold: Float32,
    pub columns: Option<Seq<Seq<char>>>,
}

impl DeepView for DeduplicationResult {
    type V = DeduplicationView;

    closed spec fn deep_view(&self) -> DeduplicationView {
        DeduplicationView {
            selected: self.selected.deep_view(),
            filtered: self.filtered.deep_view(),
            threshold: self.threshold,
            columns: self.columns.deep_view(),
        }
    }
}

/// The duplicates that keep some original at the threshold, each with the originals that reach
/// it.
pub open spec fn still_filtered(filtered: Seq<DuplicateView>, threshold: Float32) -> Seq<
    DuplicateView,
>
    decreases filtered.len(),
{
    if filtered.len() == 0 {
        seq![]
    } else {
        let rest = still_filtered(filtered.drop_last(), threshold);
        let duplicates = retained(filtered.last().duplicates, threshold);
        if duplicates.len() > 0 {
            rest.push(DuplicateView { duplicates, ..filtered.last() })
        } else {
            rest
        }
    }
}

/// The duplicates that have no original left at the threshold.
pub open spec fn released(filtered: Seq<DuplicateView>, threshold: Float32) -> Seq<RecordView>
    decreases filtered.len(),
{
    if filtered.len() == 0 {
        seq![]
    } else {
        let rest = released(filtered.drop_last(), threshold);
        if retained(filtered.last().duplicates, threshold).len() > 0 {
            rest
        } else {
            rest.push(filtered.last().record)
        }
    }
}

/// A deduplication result at another threshold.
pub open spec fn rethresholded(d: DeduplicationView, threshold: Float32) -> DeduplicationView {
    DeduplicationView {
        selected: d.selected + released(d.filtered, threshold),
        filtered: still_filtered(d.filtered, threshold),
        threshold,
        columns: d.columns,
    }
}

/// All pairs of a duplicate and one of its originals, with their score.
pub open spec fn pairs_of(d: DuplicateView) -> Seq<(RecordView, RecordView, Float32)> {
    Seq::new(d.duplicates.len(), |i: int| (d.record, d.duplicates[i].0, d.duplicates[i].1))
}

/// All pairs of duplicates and originals, in order.
pub open spec fn all_pairs(filtered: Seq<DuplicateView>) -> Seq<(RecordView, RecordView, Float32)>
    decreases filtered.len(),
{
    if filtered.len() == 0 {
        seq![]
    } else {
        all_pairs(filtered.drop_last()) + pairs_of(filtered.last())
    }
}

/// The keys by which pairs are ranked: the lowest score comes first.
pub open spec fn pair_keys(pairs: Seq<(RecordView, RecordView, Float32)>) -> Seq<i64> {
    Seq::new(pairs.len(), |i: int| pairs[i].2.total() as i64)
}

/// The `n` pairs with the lowest scores, in the order of their scores; among equal scores the
/// earlier pair comes first.
pub open spec fn least_similar(pairs: Seq<(RecordView, RecordView, Float32)>, n: nat) -> Seq<
    (RecordView, RecordView, Float32),
> {
    let order = ranking::best(pair_keys(pairs), ranking::all_positions(pairs.len()), n);
    Seq::new(order.len(), |i: int| pairs[order[i] as int])
}

/// The duplicates of the original found under a key, in order.
pub open spec fn found_under(
    pairs: Seq<(RecordView, RecordView, Float32)>,
    columns: Option<Seq<Seq<char>>>,
    key: Seq<char>,
) -> Seq<(RecordView, Float32)>
    decreases pairs.len(),
{
    if pairs.len() == 0 {
        seq![]
    } else {
        let rest = found_under(pairs.drop_last(), columns, key);
        if utils::selection_key(pairs.last().1, columns) == key {
            rest.push((pairs.last().0, pairs.last().2))
        } else {
            rest
        }
    }
}

/// Whether some scored record of the list has the representation.
pub open spec fn listed_as(list: Seq<(RecordView, Float32)>, text: Seq<char>) -> bool {
    exists|j: int|
        0 <= j < list.len() && rendering::record_canonical_text((#[trigger] list[j]).0) == text
}

/// The place of the scored record with the representation.
pub open spec fn place_of(list: Seq<(RecordView, Float32)>, text: Seq<char>) -> int {
    choose|j: int|
        0 <= j < list.len() && rendering::record_canonical_text((#[trigger] list[j]).0) == text
}

/// A list without repeated records: each stands where it occurred first, as it occurred last.
pub open spec fn deduped(list: Seq<(RecordView, Float32)>) -> Seq<(RecordView, Float32)>
    decreases list.len(),
{
    if list.len() == 0 {
        seq![]
    } else {
        let rest = deduped(list.drop_last());
        let text = rendering::record_canonical_text(list.last().0);
        if listed_as(rest, text) {
            rest.update(place_of(rest, text), list.last())
        } else {
            rest.push(list.last())
        }
    }
}

/// Every kept record with the duplicates that were removed in its favour.
pub open spec fn selection_of(d: DeduplicationView) -> Seq<SelectedView> {
    Seq::new(
        d.selected.len(),
        |i: int|
            SelectedView {
                record: d.selected[i],
                duplicates: deduped(
                    found_under(
                        all_pairs(d.filtered),
                        d.columns,
                        utils::selection_key(d.selected[i], d.columns),
                    ),
                ),
            },
    )
}

/// In a list without repeated records, a place is found by its representation.
proof fn lemma_deduped(list: Seq<(RecordView, Float32)>)
    ensures
        forall|i: int, j: int|
            #![trigger deduped(list)[i], deduped(list)[j]]
            0 <= i < j < deduped(list).len() ==> rendering::record_canonical_text(
                deduped(list)[i].0,
            ) != rendering::record_canonical_text(deduped(list)[j].0),
    decreases list.len(),
{
    if list.len() > 0 {
        lemma_deduped(list.drop_last());
        let rest = deduped(list.drop_last());
        let text = rendering::record_canonical_text(list.last().0);
        if listed_as(rest, text) {
            let p = place_of(rest, text);
            assert(rendering::record_canonical_text(rest[p].0) == text);
        } else {
            assert forall|i: int| 0 <= i < rest.len() implies rendering::record_canonical_text(
                (#[trigger] rest[i]).0,
            ) != text by {
            }
        }
    }
}

/// Removes repeated records: each stays where it occurred first, as it occurred last.
fn dedupe_preserving_first_position(raw_list: Vec<(Record, Float32)>) -> (out: Vec<
    (Record, Float32),
>)
    ensures
        out.deep_view() == deduped(raw_list.deep_view()),
{
    let ghost raw = raw_list.deep_view();
    let mut positions: StringHashMap<usize> = StringHashMap::new();
    let mut out: Vec<(Record, Float32)> = Vec::new();
    assert(out.deep_view() =~= deduped(raw.take(0)));
    for pair in it: raw_list
        invariant
            it.seq() == raw_list@,
            raw == raw_list.deep_view(),
            out.deep_view() == deduped(raw.take(it.index())),
            forall|text: Seq<char>|
                #![trigger positions@.contains_key(text)]
                positions@.contains_key(text) ==> positions@[text] < out.len()
                    && rendering::record_canonical_text(out.deep_view()[positions@[text] as int].0)
                    == text,
            forall|j: int|
                0 <= j < out.len() ==> positions@.contains_key(
                    rendering::record_canonical_text((#[trigger] out.deep_view()[j]).0),
                ),
    {
        let ghost i = it.index();
        let ghost before = out.deep_view();
        let ghost positions_before = positions@;
        let text = pair.0.canonical();
        proof {
            assert(raw.take(i + 1).drop_last() =~= raw.take(i));
            assert(raw[i] == pair.deep_view());
            lemma_deduped(raw.take(i));
        }
        let found: Option<usize> = match positions.get(text.as_str()) {
            Some(p) => Some(*p),
            None => None,
        };
        match found {
            Some(p) => {
                proof {
                    assert(positions@.contains_key(text@));
                    assert(rendering::record_canonical_text(before[p as int].0) == text@);
                    let q = place_of(before, text@);
                    assert(rendering::record_canonical_text(before[q].0) == text@);
                    assert(q == p);
                }
                out.set(p, pair);
                assert(out.deep_view() =~= before.update(p as int, raw[i]));
            },
            None => {
                proof {
                    if listed_as(before, text@) {
                        let q = place_of(before, text@);
                        assert(positions@.contains_key(
                            rendering::record_canonical_text(before[q].0),
                        ));
                    }
                }
                positions.insert(text, out.len());
                out.push(pair);
                assert(out.deep_view() =~= before.push(raw[i]));
            },
        }
        proof {
            assert forall|j: int| 0 <= j < out.len() implies positions@.contains_key(
                rendering::record_canonical_text((#[trigger] out.deep_view()[j]).0),
            ) by {
                if j < before.len() {
                    assert(positions_before.contains_key(
                        rendering::record_canonical_text(before[j].0),
                    ));
                }
            }
        }
    }
    assert(raw.take(raw.len() as int) =~= raw);
    out
}

// ---------------------------------------------------------------------------------------------
// Copies

/// A copy of a list of records.
pub(crate) fn copy_records(records: &Vec<Record>) -> (r: Vec<Record>)
    ensures
        r.deep_view() == records.deep_view(),
{
    let mut out: Vec<Record> = Vec::new();
    let mut i: usize = 0;
    while i < records.len()
        invariant
            i <= records.len(),
            out.len() == i,
            forall|j: int|
                0 <= j < i ==> (#[trigger] out@[j]).deep_view() == records@[j].deep_view(),
        decreases records.len() - i,
    {
        out.push(records[i].clone());
        i = i + 1;
    }
    assert(out.deep_view() =~= records.deep_view());
    out
}

/// A copy of a list of scored records.
fn copy_scored(records: &Vec<(Record, Float32)>) -> (r: Vec<(Record, Float32)>)
    ensures
        r.deep_view() == records.deep_view(),
{
    let mut out: Vec<(Record, Float32)> = Vec::new();
    let mut i: usize = 0;
    while i < records.len()
        invariant
            i <= records.len(),
            out.len() == i,
            forall|j: int|
                0 <= j < i ==> (#[trigger] out@[j]).deep_view() == records@[j].deep_view(),
        decreases records.len() - i,
    {
        out.push((records[i].0.clone(), records[i].1));
        i = i + 1;
    }
    assert(out.deep_view() =~= records.deep_view());
    out
}

/// A copy of a list of numbers.
pub(crate) fn copy_floats(numbers: &Vec<Float32>) -> (r: Vec<Float32>)
    ensures
        r@ == numbers@,
{
    let mut out: Vec<Float32> = Vec::new();
    let mut i: usize = 0;
    while i < numbers.len()
        invariant
            i <= numbers.len(),
            out@ == numbers@.take(i as int),
        decreases numbers.len() - i,
    {
        out.push(numbers[i]);
        assert(out@ =~= numbers@.take(i + 1));
        i = i + 1;
    }
    assert(numbers@.take(i as int) =~= numbers@);
    out
}

// ---------------------------------------------------------------------------------------------
// Deduplication results

/// The number of exact duplicates.
pub open spec fn exact_count(filtered: Seq<DuplicateView>) -> nat
    decreases filtered.len(),
{
    if filtered.len() == 0 {
        0
    } else if filtered.last().exact {
        exact_count(filtered.drop_last()) + 1
    } else {
        exact_count(filtered.drop_last())
    }
}

impl DeduplicationResult {
    /// The selected records with their duplicates, where they have been worked out.
    pub closed spec fn cached(&self) -> Option<Seq<SelectedView>> {
        self.selected_with_duplicates_cache.deep_view()
    }

    pub fn new(
        selected: Vec<Record>,
        filtered: Vec<DuplicateRecord>,
        threshold: Float32,
        columns: Option<Vec<String>>,
    ) -> (r: Self)
        ensures
            r.deep_view() == (DeduplicationView {
                selected: selected.deep_view(),
                filtered: filtered.deep_view(),
                threshold,
                columns: columns.deep_view(),
            }),
            r.cached() is None,
    {
        DeduplicationResult {
            selected,
            filtered,
            threshold,
            columns,
            selected_with_duplicates_cache: None,
        }
    }

    /// The selected records, the filtered ones, the threshold and the columns.
    pub fn into_parts(self) -> (r: (
        Vec<Record>,
        Vec<DuplicateRecord>,
        Float32,
        Option<Vec<String>>,
    ))
        ensures
            r.0.deep_view() == self.deep_view().selected,
            r.1.deep_view() == self.deep_view().filtered,
            r.2 == self.deep_view().threshold,
            r.3.deep_view() == self.deep_view().columns,
    {
        (self.selected, self.filtered, self.threshold, self.columns)
    }

    /// The share of records that were dropped.
    pub fn duplicate_ratio(&self) -> (r: Ratio)
        ensures
            r == share(
                self.deep_view().filtered.len() as int,
                (self.deep_view().selected.len() + self.deep_view().filtered.len()) as int,
                0,
            ),
    {
        let filtered: u128 = self.filtered.len() as u128;
        let whole: u128 = self.selected.len() as u128 + filtered;
        if whole == 0 {
            Ratio { part: 0, whole: 1 }
        } else {
            Ratio { part: filtered, whole }
        }
    }

    /// The share of records that were dropped because of an exact match.
    pub fn exact_duplicate_ratio(&self) -> (r: Ratio)
        ensures
            r == share(
                exact_count(self.deep_view().filtered) as int,
                (self.deep_view().selected.len() + self.deep_view().filtered.len()) as int,
                0,
            ),
    {
        let ghost fs = self.deep_view().filtered;
        let whole: u128 = self.selected.len() as u128 + self.filtered.len() as u128;
        let mut exact: u128 = 0;
        let mut i: usize = 0;
        while i < self.filtered.len()
            invariant
                i <= self.filtered.len(),
                fs == self.filtered.deep_view(),
                exact == exact_count(fs.take(i as int)),
                exact <= i,
            decreases self.filtered.len() - i,
        {
            assert(fs.take(i + 1).drop_last() =~= fs.take(i as int));
            assert(fs[i as int] == self.filtered@[i as int].deep_view());
            if self.filtered[i].exact {
                exact = exact + 1;
            }
            i = i + 1;
        }
        assert(fs.take(i as int) =~= fs);
        if whole == 0 {
            Ratio { part: 0, whole: 1 }
        } else {
            Ratio { part: exact, whole }
        }
    }

    /// All pairs of duplicates and originals.
    fn pairs(&self) -> (r: Vec<(Record, Record, Float32)>)
        ensures
            r.deep_view() == all_pairs(self.deep_view().filtered),
    {
        let ghost fs = self.filtered.deep_view();
        let mut out: Vec<(Record, Record, Float32)> = Vec::new();
        let mut i: usize = 0;
        assert(out.deep_view() =~= all_pairs(fs.take(0)));
        while i < self.filtered.len()
            invariant
                i <= self.filtered.len(),
                fs == self.filtered.deep_view(),
                out.deep_view() == all_pairs(fs.take(i as int)),
            decreases self.filtered.len() - i,
        {
            let ghost before = out.deep_view();
            let ghost here = pairs_of(fs[i as int]);
            assert(fs.take(i + 1).drop_last() =~= fs.take(i as int));
            assert(fs[i as int] == self.filtered@[i as int].deep_view());
            let originals = &self.filtered[i].duplicates;
            let mut j: usize = 0;
            assert(before + here.take(0) =~= before);
            while j < originals.len()
                invariant
                    i < self.filtered.len(),
                    j <= originals.len(),
                    fs == self.filtered.deep_view(),
                    *originals == self.filtered@[i as int].duplicates,
                    here == pairs_of(self.filtered@[i as int].deep_view()),
                    out.deep_view() == before + here.take(j as int),
                decreases originals.len() - j,
            {
                let ghost sofar = out.deep_view();
                out.push(
                    (self.filtered[i].record.clone(), originals[j].0.clone(), originals[j].1),
                );
                assert(out.deep_view() =~= sofar.push(here[j as int]));
                assert(out.deep_view() =~= before + here.take(j + 1));
                j = j + 1;
            }
            assert(here.take(j as int) =~= here);
            i = i + 1;
        }
        assert(fs.take(i as int) =~= fs);
        out
    }

    /// The `n` least similar duplicate pairs as `(duplicate_record, original_record, score)`.
    pub fn get_least_similar_from_duplicates(&self, n: usize) -> (r: Vec<(Record, Record, Float32)>)
        ensures
            r.deep_view() == least_similar(all_pairs(self.deep_view().filtered), n as nat),
    {
        let pairs = self.pairs();
        let ghost ps = pairs.deep_view();
        let mut keys: Vec<i64> = Vec::new();
        let mut positions: Vec<usize> = Vec::new();
        let mut i: usize = 0;
        while i < pairs.len()
            invariant
                i <= pairs.len(),
                ps == pairs.deep_view(),
                keys@ == pair_keys(ps).take(i as int),
                positions@ == ranking::all_positions(i as nat),
            decreases pairs.len() - i,
        {
            keys.push(pairs[i].2.total_key());
            positions.push(i);
            assert(keys@ =~= pair_keys(ps).take(i + 1));
            assert(positions@ =~= ranking::all_positions((i + 1) as nat));
            i = i + 1;
        }
        assert(pair_keys(ps).take(i as int) =~= pair_keys(ps));
        let order = trim_top_k(&keys, &positions, n);
        let mut out: Vec<(Record, Record, Float32)> = Vec::new();
        let mut j: usize = 0;
        proof {
            assert forall|k: int| 0 <= k < order.len() implies #[trigger] order@[k] < pairs.len() by {
                lemma_best_position(keys@, ps.len(), n as nat, k);
            }
        }
        while j < order.len()
            invariant
                j <= order.len(),
                ps == pairs.deep_view(),
                forall|k: int| 0 <= k < order.len() ==> #[trigger] order@[k] < pairs.len(),
                out.len() == j,
                forall|k: int|
                    0 <= k < j ==> (#[trigger] out@[k]).deep_view() == ps[order@[k] as int],
            decreases order.len() - j,
        {
            let p: usize = order[j];
            out.push((pairs[p].0.clone(), pairs[p].1.clone(), pairs[p].2));
            j = j + 1;
        }
        assert(out.deep_view() =~= least_similar(ps, n as nat));
        out
    }

    /// Raises the threshold: originals that do not reach it are dropped, and a duplicate without
    /// any is selected again. A threshold cannot be lowered; that takes a new deduplication.
    pub fn rethreshold(&mut self, threshold: Float32) -> (r: Result<()>)
        ensures
            match r {
                Ok(_) => !threshold.below(old(self).deep_view().threshold)
                    && final(self).deep_view() == rethresholded(old(self).deep_view(), threshold)
                    && final(self).cached() is None,
                Err(e) => threshold.below(old(self).deep_view().threshold) && e.deep_view()
                    == ErrorView::ThresholdTooSmall && *final(self) == *old(self),
            },
    {
        if threshold.is_below(self.threshold) {
            return Err(SemHashError::ThresholdTooSmall);
        }
        let ghost d = self.deep_view();
        self.selected_with_duplicates_cache = None;
        let mut filtered: Vec<DuplicateRecord> = Vec::new();
        std::mem::swap(&mut filtered, &mut self.filtered);
        let ghost fs = filtered.deep_view();
        let mut kept: Vec<DuplicateRecord> = Vec::new();
        proof {
            assert(kept.deep_view() =~= still_filtered(fs.take(0), threshold));
            assert(self.selected.deep_view() =~= d.selected + released(fs.take(0), threshold));
        }
        for item in it: filtered
            invariant
                it.seq() == filtered@,
                fs == filtered.deep_view(),
                kept.deep_view() == still_filtered(fs.take(it.index()), threshold),
                self.selected.deep_view() == d.selected + released(fs.take(it.index()), threshold),
                self.columns.deep_view() == d.columns,
                self.selected_with_duplicates_cache is None,
        {
            let ghost i = it.index();
            let ghost kept_before = kept.deep_view();
            let ghost selected_before = self.selected.deep_view();
            assert(fs.take(i + 1).drop_last() =~= fs.take(i));
            assert(fs[i] == item.deep_view());
            let mut dup = item;
            dup.rethreshold_in_place(threshold);
            if dup.duplicates.len() == 0 {
                let record = dup.record;
                self.selected.push(record);
                assert(self.selected.deep_view() =~= selected_before.push(fs[i].record));
                assert(self.selected.deep_view() =~= d.selected + released(
                    fs.take(i + 1),
                    threshold,
                ));
            } else {
                kept.push(dup);
                assert(kept.deep_view() =~= kept_before.push(dup.deep_view()));
            }
        }
        assert(fs.take(fs.len() as int) =~= fs);
        self.filtered = kept;
        self.threshold = threshold;
        Ok(())
    }

    /// For every kept record, the duplicates that were removed in its favour, with their scores.
    /// The result is kept until `rethreshold` changes the threshold.
    pub fn selected_with_duplicates(&mut self) -> (r: &[SelectedWithDuplicates])
        ensures
            r.deep_view() == match old(self).cached() {
                Some(selection) => selection,
                None => selection_of(old(self).deep_view()),
            },
            final(self).cached() == Some(r.deep_view()),
            final(self).deep_view() == old(self).deep_view(),
    {
        if self.selected_with_duplicates_cache.is_none() {
            let selection = self.work_out_selection();
            self.selected_with_duplicates_cache = Some(selection);
        }
        match &self.selected_with_duplicates_cache {
            Some(selection) => {
                let listed = selection.as_slice();
                assert(listed.deep_view() =~= selection.deep_view());
                listed
            },
            None => &[],
        }
    }

    /// Works out the selected records with their duplicates.
    fn work_out_selection(&self) -> (r: Vec<SelectedWithDuplicates>)
        ensures
            r.deep_view() == selection_of(self.deep_view()),
    {
        let ghost d = self.deep_view();
        let pairs = self.pairs();
        let ghost ps = pairs.deep_view();
        let mut slots: StringHashMap<usize> = StringHashMap::new();
        let mut buckets: Vec<Vec<(Record, Float32)>> = Vec::new();
        for pair in it: pairs
            invariant
                it.seq() == pairs@,
                ps == pairs.deep_view(),
                d == self.deep_view(),
                forall|key: Seq<char>|
                    #![trigger slots@.contains_key(key)]
                    if slots@.contains_key(key) {
                        slots@[key] < buckets.len() && buckets@[slots@[key] as int].deep_view()
                            == found_under(ps.take(it.index()), d.columns, key)
                    } else {
                        found_under(ps.take(it.index()), d.columns, key).len() == 0
                    },
                forall|a: Seq<char>, b: Seq<char>|
                    #![trigger slots@[a], slots@[b]]
                    slots@.contains_key(a) && slots@.contains_key(b) && a != b ==> slots@[a]
                        != slots@[b],
        {
            let ghost i = it.index();
            let ghost buckets_before = buckets@;
            let ghost slots_before = slots@;
            let ghost next = ps.take(i + 1);
            proof {
                assert(next.drop_last() =~= ps.take(i));
                assert(ps[i] == pair.deep_view());
            }
            let key = record_key_for_selected(&pair.1, &self.columns);
            let ghost k = key@;
            let found: Option<usize> = match slots.get(key.as_str()) {
                Some(p) => Some(*p),
                None => None,
            };
            let ghost entry = (ps[i].0, ps[i].2);
            match found {
                Some(p) => {
                    assert(slots@.contains_key(k));
                    buckets[p].push((pair.0, pair.2));
                    assert(buckets@[p as int].deep_view() =~= buckets_before[p as int].deep_view().push(
                        entry,
                    ));
                },
                None => {
                    assert(!slots@.contains_key(k));
                    let mut bucket: Vec<(Record, Float32)> = Vec::new();
                    bucket.push((pair.0, pair.2));
                    assert(bucket.deep_view() =~= found_under(next, d.columns, k));
                    slots.insert(key, buckets.len());
                    buckets.push(bucket);
                },
            }
            proof {
                assert forall|other: Seq<char>|
                    #![trigger slots@.contains_key(other)]
                    if slots@.contains_key(other) {
                        slots@[other] < buckets.len() && buckets@[slots@[other] as int].deep_view()
                            == found_under(next, d.columns, other)
                    } else {
                        found_under(next, d.columns, other).len() == 0
                    } by {
                    assert(slots_before.contains_key(other) || !slots_before.contains_key(other));
                    if other != k && slots_before.contains_key(other) {
                        assert(slots@[other] == slots_before[other]);
                        if slots_before.contains_key(k) {
                            assert(slots_before[other] != slots_before[k]);
                        }
                        assert(buckets@[slots@[other] as int] == buckets_before[slots@[other] as int]);
                    }
                }
                assert forall|a: Seq<char>, b: Seq<char>|
                    #![trigger slots@[a], slots@[b]]
                    slots@.contains_key(a) && slots@.contains_key(b) && a != b implies slots@[a]
                    != slots@[b] by {
                    assert(slots_before.contains_key(a) || !slots_before.contains_key(a));
                    assert(slots_before.contains_key(b) || !slots_before.contains_key(b));
                    if slots_before.contains_key(a) && slots_before.contains_key(b) {
                        assert(slots_before[a] != slots_before[b]);
                    }
                }
            }
        }
        assert(ps.take(ps.len() as int) =~= ps);
        let mut out: Vec<SelectedWithDuplicates> = Vec::new();
        let mut i: usize = 0;
        while i < self.selected.len()
            invariant
                i <= self.selected.len(),
                d == self.deep_view(),
                ps == all_pairs(d.filtered),
                out.len() == i,
                forall|key: Seq<char>|
                    #![trigger slots@.contains_key(key)]
                    if slots@.contains_key(key) {
                        slots@[key] < buckets.len() && buckets@[slots@[key] as int].deep_view()
                            == found_under(ps, d.columns, key)
                    } else {
                        found_under(ps, d.columns, key).len() == 0
                    },
                forall|j: int|
                    0 <= j < i ==> (#[trigger] out@[j]).deep_view() == selection_of(d)[j],
            decreases self.selected.len() - i,
        {
            assert(d.selected[i as int] == self.selected@[i as int].deep_view());
            let key = record_key_for_selected(&self.selected[i], &self.columns);
            let raw: Vec<(Record, Float32)> = match slots.get(key.as_str()) {
                Some(p) => {
                    assert(slots@.contains_key(key@));
                    copy_scored(&buckets[*p])
                },
                None => {
                    assert(!slots@.contains_key(key@));
                    let empty: Vec<(Record, Float32)> = Vec::new();
                    assert(empty.deep_view() =~= found_under(ps, d.columns, key@));
                    empty
                },
            };
            let duplicates = dedupe_preserving_first_position(raw);
            out.push(SelectedWithDuplicates::new(self.selected[i].clone(), duplicates));
            i = i + 1;
        }
        assert(out.deep_view() =~= selection_of(d));
        out
    }

    /// The text of the selected records, where all of them are plain text.
    pub fn selected_texts(&self) -> (r: Option<Vec<String>>)
        ensures
            match r {
                Some(texts) => texts.len() == self.deep_view().selected.len() && forall|i: int|
                    0 <= i < texts.len() ==> self.deep_view().selected[i] == RecordView::Text(
                        (#[trigger] texts@[i])@,
                    ),
                None => exists|i: int|
                    0 <= i < self.deep_view().selected.len()
                        && #[trigger] self.deep_view().selected[i] is Dict,
            },
    {
        let ghost rs = self.selected.deep_view();
        let mut out: Vec<String> = Vec::new();
        let mut i: usize = 0;
        while i < self.selected.len()
            invariant
                i <= self.selected.len(),
                rs == self.selected.deep_view(),
                out.len() == i,
                forall|j: int| 0 <= j < i ==> rs[j] == RecordView::Text((#[trigger] out@[j])@),
            decreases self.selected.len() - i,
        {
            assert(rs[i as int] == self.selected@[i as int].deep_view());
            match &self.selected[i] {
                Record::Text(s) => {
                    out.push(s.clone());
                },
                Record::Dict(_) => {
                    assert(self.deep_view().selected[i as int] is Dict);
                    return None;
                },
            }
            i = i + 1;
        }
        Some(out)
    }
}

/// A position among the best of all is one of all.
pub(crate) proof fn lemma_best_position(keys: Seq<i64>, n: nat, take: nat, k: int)
    requires
        n <= usize::MAX,
        0 <= k < ranking::best(keys, ranking::all_positions(n), take).len(),
    ensures
        ranking::best(keys, ranking::all_positions(n), take)[k] < n,
{
    let all = ranking::all_positions(n);
    let r = ranking::ranked(keys, all);
    let p = ranking::best(keys, all, take)[k];
    ranking::ranked_is_sorted(keys, all);
    assert(r[k] == p);
    assert(r.contains(p));
    ranking::ranked_contains(keys, all, p);
    let i = choose|i: int| 0 <= i < all.len() && all[i] == p;
    assert(all[i] == i as usize);
}

// ---------------------------------------------------------------------------------------------
// Laws of thresholds

/// The records that were filtered.
pub open spec fn filtered_records(filtered: Seq<DuplicateView>) -> Seq<RecordView> {
    Seq::new(filtered.len(), |i: int| filtered[i].record)
}

/// All records that a result speaks of, selected or filtered.
pub open spec fn records_in(d: DeduplicationView) -> Multiset<RecordView> {
    d.selected.to_multiset().add(filtered_records(d.filtered).to_multiset())
}

proof fn lemma_released_and_filtered(filtered: Seq<DuplicateView>, threshold: Float32)
    ensures
        released(filtered, threshold).to_multiset().add(
            filtered_records(still_filtered(filtered, threshold)).to_multiset(),
        ) == filtered_records(filtered).to_multiset(),
    decreases filtered.len(),
{
    broadcast use vstd::seq_lib::group_to_multiset_ensures;

    if filtered.len() == 0 {
        assert(released(filtered, threshold) =~= Seq::<RecordView>::empty());
        assert(filtered_records(still_filtered(filtered, threshold)) =~= Seq::<RecordView>::empty());
        assert(filtered_records(filtered) =~= Seq::<RecordView>::empty());
        assert(Multiset::<RecordView>::empty().add(Multiset::empty()) =~= Multiset::empty());
    } else {
        let front = filtered.drop_last();
        let last = filtered.last().record;
        lemma_released_and_filtered(front, threshold);
        assert(filtered_records(filtered) =~= filtered_records(front).push(last));
        let released_front = released(front, threshold);
        let kept_front = still_filtered(front, threshold);
        let kept = still_filtered(filtered, threshold);
        if retained(filtered.last().duplicates, threshold).len() > 0 {
            assert(filtered_records(kept) =~= filtered_records(kept_front).push(last));
        }
        assert(released(filtered, threshold).to_multiset().add(
            filtered_records(kept).to_multiset(),
        ) =~= released_front.to_multiset().add(
            filtered_records(kept_front).to_multiset(),
        ).insert(last));
    }
}

/// Raising the threshold loses no record and invents none: each stays selected or filtered, or
/// moves from the filtered to the selected.
pub proof fn rethreshold_keeps_records(d: DeduplicationView, threshold: Float32)
    ensures
        records_in(rethresholded(d, threshold)) == records_in(d),
        rethresholded(d, threshold).selected.len() + rethresholded(d, threshold).filtered.len()
            == d.selected.len() + d.filtered.len(),
        d.selected.is_prefix_of(rethresholded(d, threshold).selected),
{
    let r = rethresholded(d, threshold);
    lemma_released_and_filtered(d.filtered, threshold);
    vstd::seq_lib::lemma_multiset_commutative(d.selected, released(d.filtered, threshold));
    assert(records_in(r) =~= records_in(d));
    lemma_released_count(d.filtered, threshold);
    assert(r.selected.subrange(0, d.selected.len() as int) =~= d.selected);
}

proof fn lemma_released_count(filtered: Seq<DuplicateView>, threshold: Float32)
    ensures
        released(filtered, threshold).len() + still_filtered(filtered, threshold).len()
            == filtered.len(),
    decreases filtered.len(),
{
    if filtered.len() > 0 {
        lemma_released_count(filtered.drop_last(), threshold);
    }
}

proof fn lemma_retained_reaches(duplicates: Seq<(RecordView, Float32)>, threshold: Float32)
    ensures
        forall|i: int|
            0 <= i < retained(duplicates, threshold).len() ==> (#[trigger] retained(
                duplicates,
                threshold,
            )[i]).1.reaches(threshold),
    decreases duplicates.len(),
{
    if duplicates.len() > 0 {
        lemma_retained_reaches(duplicates.drop_last(), threshold);
        let rest = retained(duplicates.drop_last(), threshold);
        let r = retained(duplicates, threshold);
        assert forall|i: int| 0 <= i < r.len() implies (#[trigger] r[i]).1.reaches(threshold) by {
            if i < rest.len() {
                assert(r[i] == rest[i]);
            }
        }
    }
}

/// After raising the threshold, every record that is still filtered has an original, and all its
/// originals reach the threshold.
pub proof fn rethreshold_meets_threshold(filtered: Seq<DuplicateView>, threshold: Float32)
    ensures
        forall|i: int|
            #![trigger still_filtered(filtered, threshold)[i]]
            0 <= i < still_filtered(filtered, threshold).len() ==> still_filtered(
                filtered,
                threshold,
            )[i].duplicates.len() > 0,
        forall|i: int, j: int|
            #![trigger still_filtered(filtered, threshold)[i].duplicates[j]]
            0 <= i < still_filtered(filtered, threshold).len() && 0 <= j < still_filtered(
                filtered,
                threshold,
            )[i].duplicates.len() ==> still_filtered(
                filtered,
                threshold,
            )[i].duplicates[j].1.reaches(threshold),
    decreases filtered.len(),
{
    if filtered.len() > 0 {
        rethreshold_meets_threshold(filtered.drop_last(), threshold);
        lemma_retained_reaches(filtered.last().duplicates, threshold);
    }
}

proof fn lemma_retained_twice(
    duplicates: Seq<(RecordView, Float32)>,
    low: Float32,
    high: Float32,
)
    requires
        high.reaches(low),
    ensures
        retained(retained(duplicates, low), high) == retained(duplicates, high),
    decreases duplicates.len(),
{
    if duplicates.len() > 0 {
        lemma_retained_twice(duplicates.drop_last(), low, high);
        let rest = retained(duplicates.drop_last(), low);
        if duplicates.last().1.reaches(low) {
            assert(rest.push(duplicates.last()).drop_last() =~= rest);
        }
    }
}

proof fn lemma_still_filtered_twice(filtered: Seq<DuplicateView>, low: Float32, high: Float32)
    requires
        high.reaches(low),
    ensures
        still_filtered(still_filtered(filtered, low), high) == still_filtered(filtered, high),
        released(filtered, low).to_multiset().add(
            released(still_filtered(filtered, low), high).to_multiset(),
        ) == released(filtered, high).to_multiset(),
    decreases filtered.len(),
{
    broadcast use vstd::seq_lib::group_to_multiset_ensures;

    if filtered.len() == 0 {
        assert(Multiset::<RecordView>::empty().add(Multiset::empty()) =~= Multiset::empty());
    } else {
        let front = filtered.drop_last();
        let last = filtered.last();
        lemma_still_filtered_twice(front, low, high);
        lemma_retained_twice(last.duplicates, low, high);
        let kept_front = still_filtered(front, low);
        let kept = still_filtered(filtered, low);
        let at_low = retained(last.duplicates, low);
        if at_low.len() > 0 {
            assert(kept.drop_last() =~= kept_front);
        } else {
            assert(retained(at_low, high).len() == 0);
        }
        let sum = released(front, low).to_multiset().add(
            released(kept_front, high).to_multiset(),
        );
        let total = released(filtered, low).to_multiset().add(released(kept, high).to_multiset());
        if retained(last.duplicates, high).len() > 0 {
            assert(total =~= sum);
        } else {
            assert(total =~= sum.insert(last.record));
        }
    }
}

/// Raising the threshold in two steps comes to the same as raising it at once: the same records
/// are filtered with the same originals, and the same records are selected.
pub proof fn rethreshold_in_steps(d: DeduplicationView, low: Float32, high: Float32)
    requires
        high.reaches(low),
    ensures
        rethresholded(rethresholded(d, low), high).filtered == rethresholded(d, high).filtered,
        rethresholded(rethresholded(d, low), high).threshold == rethresholded(d, high).threshold,
        rethresholded(rethresholded(d, low), high).selected.to_multiset() == rethresholded(
            d,
            high,
        ).selected.to_multiset(),
{
    lemma_still_filtered_twice(d.filtered, low, high);
    let kept = still_filtered(d.filtered, low);
    let first = released(d.filtered, low);
    let second = released(kept, high);
    vstd::seq_lib::lemma_multiset_commutative(d.selected, first);
    vstd::seq_lib::lemma_multiset_commutative(d.selected + first, second);
    vstd::seq_lib::lemma_multiset_commutative(d.selected, released(d.filtered, high));
    assert(rethresholded(rethresholded(d, low), high).selected.to_multiset() =~= rethresholded(
        d,
        high,
    ).selected.to_multiset());
}

/// The least similar pairs come in ascending order of their scores, and no pair that is left out
/// has a lower score than one that is listed.
pub proof fn least_similar_ascends(pairs: Seq<(RecordView, RecordView, Float32)>, n: nat)
    requires
        pairs.len() <= usize::MAX,
    ensures
        least_similar(pairs, n).len() == if pairs.len() <= n {
            pairs.len()
        } else {
            n
        },
        forall|i: int, j: int|
            #![trigger least_similar(pairs, n)[i], least_similar(pairs, n)[j]]
            0 <= i < j < least_similar(pairs, n).len() ==> least_similar(pairs, n)[i].2.total()
                <= least_similar(pairs, n)[j].2.total(),
        forall|p: int|
            #![trigger pairs[p]]
            0 <= p < pairs.len() ==> least_similar(pairs, n).contains(pairs[p]) || forall|i: int|
                0 <= i < least_similar(pairs, n).len() ==> (#[trigger] least_similar(
                    pairs,
                    n,
                )[i]).2.total() <= pairs[p].2.total(),
{
    let keys = pair_keys(pairs);
    let all = ranking::all_positions(pairs.len());
    let r = ranking::ranked(keys, all);
    let order = ranking::best(keys, all, n);
    let listed = least_similar(pairs, n);
    ranking::ranked_is_sorted(keys, all);
    assert forall|k: int| 0 <= k < r.len() implies (#[trigger] r[k]) < pairs.len() by {
        lemma_best_position(keys, pairs.len(), pairs.len(), k);
    }
    assert forall|i: int, j: int|
        #![trigger listed[i], listed[j]]
        0 <= i < j < listed.len() implies listed[i].2.total() <= listed[j].2.total() by {
        assert(r[i] == order[i] && r[j] == order[j]);
        assert(r[i] < pairs.len() && r[j] < pairs.len());
        assert(r[i] == r[j] || ranking::precedes(keys, r[i], r[j]));
    }
    assert forall|p: int|
        #![trigger pairs[p]]
        0 <= p < pairs.len() implies listed.contains(pairs[p]) || forall|i: int|
        0 <= i < listed.len() ==> (#[trigger] listed[i]).2.total() <= pairs[p].2.total() by {
        assert(all[p] == p as usize);
        assert(all.contains(p as usize));
        ranking::ranked_contains(keys, all, p as usize);
        let k = choose|k: int| 0 <= k < r.len() && r[k] == p as usize;
        if k < order.len() {
            assert(listed[k] == pairs[p]);
        } else {
            assert forall|i: int| 0 <= i < listed.len() implies (#[trigger] listed[i]).2.total()
                <= pairs[p].2.total() by {
                assert(r[i] == order[i]);
                assert(r[i] < pairs.len());
                assert(r[i] == r[k] || ranking::precedes(keys, r[i], r[k]));
            }
        }
    }
}

/// Every selected record is listed with its duplicates, in order, and none of these is listed
/// twice for it.
pub proof fn selection_lists_each_once(d: DeduplicationView, i: int)
    requires
        0 <= i < d.selected.len(),
    ensures
        selection_of(d).len() == d.selected.len(),
        selection_of(d)[i].record == d.selected[i],
        forall|a: int, b: int|
            #![trigger selection_of(d)[i].duplicates[a], selection_of(d)[i].duplicates[b]]
            0 <= a < b < selection_of(d)[i].duplicates.len() ==> rendering::record_canonical_text(
                selection_of(d)[i].duplicates[a].0,
            ) != rendering::record_canonical_text(selection_of(d)[i].duplicates[b].0),
{
    lemma_deduped(
        found_under(
            all_pairs(d.filtered),
            d.columns,
            utils::selection_key(d.selected[i], d.columns),
        ),
    );
}

// ---------------------------------------------------------------------------------------------
// Filter results

/// Result of filtering and representative sampling operations.
#[derive(Debug, PartialEq)]
pub struct FilterResult {
    pub selected: Vec<Record>,
    pub filtered: Vec<Record>,
    pub scores_selected: Vec<Float32>,
    pub scores_filtered: Vec<Float32>,
}

/// What a filter result is.
pub struct FilterView {
    pub selected: Seq<RecordView>,
    pub filtered: Seq<RecordView>,
    pub scores_selected: Seq<Float32>,
    pub scores_filtered: Seq<Float32>,
}

impl DeepView for FilterResult {
    type V = FilterView;

    open spec fn deep_view(&self) -> FilterView {
        FilterView {
            selected: self.selected.deep_view(),
            filtered: self.filtered.deep_view(),
            scores_selected: self.scores_selected@,
            scores_filtered: self.scores_filtered@,
        }
    }
}

impl FilterResult {
    pub fn new(
        selected: Vec<Record>,
        filtered: Vec<Record>,
        scores_selected: Vec<Float32>,
        scores_filtered: Vec<Float32>,
    ) -> (r: Self)
        ensures
            r.deep_view() == (FilterView {
                selected: selected.deep_view(),
                filtered: filtered.deep_view(),
                scores_selected: scores_selected@,
                scores_filtered: scores_filtered@,
            }),
    {
        FilterResult { selected, filtered, scores_selected, scores_filtered }
    }

    /// The share of records that were filtered out.
    pub fn filter_ratio(&self) -> (r: Ratio)
        ensures
            r == share(
                self.filtered.len() as int,
                (self.selected.len() + self.filtered.len()) as int,
                0,
            ),
    {
        let filtered: u128 = self.filtered.len() as u128;
        let whole: u128 = self.selected.len() as u128 + filtered;
        if whole == 0 {
            Ratio { part: 0, whole: 1 }
        } else {
            Ratio { part: filtered, whole }
        }
    }

    /// The share of records that were selected.
    pub fn selected_ratio(&self) -> (r: Ratio)
        ensures
            r == share(
                self.selected.len() as int,
                (self.selected.len() + self.filtered.len()) as int,
                1,
            ),
    {
        let ratio = self.filter_ratio();
        Ratio { part: ratio.whole - ratio.part, whole: ratio.whole }
    }
}

impl Clone for FilterResult {
    fn clone(&self) -> (r: Self)
        ensures
            r.deep_view() == self.deep_view(),
    {
        FilterResult {
            selected: copy_records(&self.selected),
            filtered: copy_records(&self.filtered),
            scores_selected: copy_floats(&self.scores_selected),
            scores_filtered: copy_floats(&self.scores_filtered),
        }
    }
}

} // verus!
