//! Laws of looking for neighbors: what a query finds, and how looking by rank relates to looking for
//! the highest similarities.

use crate::features::MatrixView;
use crate::float::Float32;
use crate::index;
use crate::ranking;
use crate::semhash;
use crate::value::DictView;
use vstd::multiset::Multiset;
use vstd::prelude::*;
use vstd::seq_lib::*;

verus! {

/// Whether numbers, highest first, are the highest of a collection: they are among it, and none
/// that is left out is above any of them.
pub open spec fn tops(numbers: Seq<Float32>, all: Multiset<Float32>) -> bool {
    &&& numbers.to_multiset().subset_of(all)
    &&& forall|i: int, j: int|
        #![trigger numbers[i], numbers[j]]
        0 <= i < j < numbers.len() ==> numbers[i].reaches(numbers[j])
    &&& forall|x: Float32, i: int|
        #![trigger all.count(x), numbers[i]]
        0 <= i < numbers.len() && all.count(x) > numbers.to_multiset().count(x)
            ==> numbers[i].reaches(x)
}

proof fn lemma_subset_len(a: Multiset<Float32>, b: Multiset<Float32>)
    requires
        a.subset_of(b),
    ensures
        a.len() <= b.len(),
{
    let rest = b.sub(a);
    assert(a.add(rest) =~= b);
}

/// Of two lists of the highest of a collection, no number of the one is below that of the other at
/// its place.
proof fn lemma_tops_at(a: Seq<Float32>, b: Seq<Float32>, all: Multiset<Float32>, i: int)
    requires
        tops(a, all),
        tops(b, all),
        index::all_numbers(a),
        index::all_numbers(b),
        a.len() == b.len(),
        0 <= i < a.len(),
    ensures
        b[i].reaches(a[i]),
{
    broadcast use group_to_multiset_ensures;

    if !b[i].reaches(a[i]) {
        let head = a.take(i + 1);
        let before = b.take(i);
        let after = b.skip(i);
        assert(head + a.skip(i + 1) =~= a);
        assert(before + after =~= b);
        lemma_multiset_commutative(head, a.skip(i + 1));
        lemma_multiset_commutative(before, after);
        assert(!a[i].nan() && !b[i].nan());
        assert forall|x: Float32| #[trigger] head.to_multiset().count(x)
            <= before.to_multiset().count(x) by {
            if head.to_multiset().count(x) > 0 {
                assert(head.contains(x));
                let p = choose|p: int| 0 <= p < head.len() && head[p] == x;
                assert(a[p] == x);
                assert(p < i ==> a[p].reaches(a[i]));
                assert(x.reaches(a[i]));
                if after.contains(x) {
                    let q = choose|q: int| 0 <= q < after.len() && after[q] == x;
                    assert(b[i + q] == x);
                    assert(q > 0 ==> b[i].reaches(b[i + q]));
                }
                assert(after.to_multiset().count(x) == 0);
                assert(a.to_multiset().count(x) >= head.to_multiset().count(x));
                assert(all.count(x) >= a.to_multiset().count(x));
                if all.count(x) > b.to_multiset().count(x) {
                    assert(b[i].reaches(x));
                }
            }
        }
        assert(head.to_multiset().subset_of(before.to_multiset()));
        lemma_subset_len(head.to_multiset(), before.to_multiset());
        assert(head.len() == head.to_multiset().len());
        assert(before.len() == before.to_multiset().len());
    }
}

/// The highest of a collection are determined, place by place, up to the sign of zero.
pub proof fn tops_are_determined(
    a: Seq<Float32>,
    b: Seq<Float32>,
    all: Multiset<Float32>,
    i: int,
)
    requires
        tops(a, all),
        tops(b, all),
        index::all_numbers(a),
        index::all_numbers(b),
        a.len() == b.len(),
        0 <= i < a.len(),
    ensures
        a[i].equals(b[i]),
{
    lemma_tops_at(a, b, all, i);
    lemma_tops_at(b, a, all, i);
}

/// The numbers of a row at some positions.
spec fn picked(row: Seq<Float32>, positions: Seq<usize>) -> Seq<Float32> {
    Seq::new(positions.len(), |i: int| row[positions[i] as int])
}

/// Positions in another order pick the same numbers, in another order.
proof fn lemma_picked_unordered(row: Seq<Float32>, a: Seq<usize>, b: Seq<usize>)
    requires
        a.to_multiset() == b.to_multiset(),
    ensures
        picked(row, a).to_multiset() == picked(row, b).to_multiset(),
    decreases a.len(),
{
    broadcast use group_to_multiset_ensures;

    assert(a.len() == a.to_multiset().len());
    assert(b.len() == b.to_multiset().len());
    let pa = picked(row, a);
    let pb = picked(row, b);
    if a.len() == 0 {
        assert(pa =~= pb);
    } else {
        let x = a.last();
        let init = a.drop_last();
        assert(a.contains(a[a.len() - 1]));
        assert(b.to_multiset().count(x) > 0);
        assert(b.contains(x));
        let k = choose|k: int| 0 <= k < b.len() && b[k] == x;
        let rest = b.remove(k);
        assert(init.push(x) =~= a);
        assert(init.to_multiset() =~= rest.to_multiset());
        lemma_picked_unordered(row, init, rest);
        let y = row[x as int];
        assert(pa =~= picked(row, init).push(y));
        assert(pb.remove(k) =~= picked(row, rest));
        assert(pb.contains(pb[k]));
        assert(pb.to_multiset().count(y) > 0);
        assert(pb.to_multiset() =~= picked(row, rest).to_multiset().insert(y));
    }
}

/// The nearest neighbors of a query have the highest of its other similarities.
pub proof fn nearest_are_tops(row: Seq<Float32>, query: int, k: nat, in_index: bool)
    requires
        row.len() <= usize::MAX,
        index::all_numbers(row),
        0 <= query,
    ensures
        tops(
            index::nearest(row, query, k, in_index).1,
            index::other_similarities(row, query, in_index).to_multiset(),
        ),
        index::all_numbers(index::nearest(row, query, k, in_index).1),
{
    broadcast use group_to_multiset_ensures;

    let keys = index::falling_keys(row);
    let positions = index::other_positions(row.len(), query, in_index);
    let order = ranking::ranked(keys, positions);
    let ranked = picked(row, order);
    let found = index::nearest(row, query, k, in_index).1;
    let others = index::other_similarities(row, query, in_index);
    let all = others.to_multiset();
    ranking::ranked_is_sorted(keys, positions);
    lemma_picked_unordered(row, order, positions);
    assert(picked(row, positions) =~= others);
    let n = found.len() as int;
    let left = ranked.skip(n);
    assert(found =~= ranked.take(n));
    assert(found + left =~= ranked);
    lemma_multiset_commutative(found, left);
    index::lemma_ranked_falls(row, positions, positions.len());
    assert(ranking::best(keys, positions, positions.len()) == order);
    assert forall|i: int| 0 <= i < ranked.len() implies !(#[trigger] ranked[i]).nan() by {
        assert(order.contains(order[i]));
        ranking::ranked_contains(keys, positions, order[i]);
        let p = choose|p: int| 0 <= p < positions.len() && positions[p] == order[i];
        assert(positions[p] < row.len());
        assert(!row[order[i] as int].nan());
    }
    assert forall|i: int, j: int|
        #![trigger ranked[i], ranked[j]]
        0 <= i < j < ranked.len() implies ranked[i].reaches(ranked[j]) by {
        assert(row[order[i] as int].total() >= row[order[j] as int].total());
    }
    assert forall|i: int, j: int|
        #![trigger found[i], found[j]]
        0 <= i < j < found.len() implies found[i].reaches(found[j]) by {
        assert(found[i] == ranked[i] && found[j] == ranked[j]);
    }
    assert forall|i: int| 0 <= i < found.len() implies !(#[trigger] found[i]).nan() by {
        assert(found[i] == ranked[i]);
    }
    assert forall|x: Float32, i: int|
        #![trigger all.count(x), found[i]]
        0 <= i < found.len() && all.count(x) > found.to_multiset().count(x)
            implies found[i].reaches(x) by {
        assert(left.to_multiset().count(x) > 0);
        assert(left.contains(x));
        let q = choose|q: int| 0 <= q < left.len() && left[q] == x;
        assert(ranked[n + q] == x && ranked[i] == found[i]);
    }
}

/// The highest similarities of a query, from the highest down, are the highest of its other
/// similarities.
proof fn lemma_highest_are_tops(numbers: Seq<Float32>, take: nat)
    requires
        index::all_numbers(numbers),
    ensures
        tops(index::highest(numbers, take).reverse(), numbers.to_multiset()),
        index::all_numbers(index::highest(numbers, take).reverse()),
        index::highest(numbers, take).len() == if numbers.len() <= take {
            numbers.len()
        } else {
            take
        },
{
    broadcast use group_to_multiset_ensures;

    let best = index::highest(numbers, take);
    let down = best.reverse();
    let all = numbers.to_multiset();
    if take > 0 {
        index::highest_are_highest(numbers, take);
        lemma_reverse_multiset(best);
        assert forall|i: int, j: int|
            #![trigger down[i], down[j]]
            0 <= i < j < down.len() implies down[i].reaches(down[j]) by {
            assert(down[i] == best[best.len() - 1 - i] && down[j] == best[best.len() - 1 - j]);
        }
        assert forall|x: Float32, i: int|
            #![trigger all.count(x), down[i]]
            0 <= i < down.len() && all.count(x) > down.to_multiset().count(x)
                implies down[i].reaches(x) by {
            assert(down[i] == best[best.len() - 1 - i]);
        }
        assert forall|i: int| 0 <= i < down.len() implies !(#[trigger] down[i]).nan() by {
            assert(down[i] == best[best.len() - 1 - i]);
        }
    } else {
        assert(down =~= seq![]);
    }
}

proof fn lemma_reverse_multiset(s: Seq<Float32>)
    ensures
        s.reverse().to_multiset() == s.to_multiset(),
    decreases s.len(),
{
    broadcast use group_to_multiset_ensures;

    let r = s.reverse();
    if s.len() == 0 {
        assert(r =~= s);
    } else {
        let init = s.drop_last();
        lemma_reverse_multiset(init);
        assert(init.push(s.last()) =~= s);
        assert(r.remove(0) =~= init.reverse());
        assert(r.contains(r[0]));
        assert(r.to_multiset().count(s.last()) > 0);
        assert(r.to_multiset() =~= s.to_multiset());
    }
}

/// Whether two lists of similarities are the same, from the highest of the one down and from the
/// lowest of the other up; both zeros count as one number.
pub open spec fn same_similarities(falling: Seq<Float32>, rising: Seq<Float32>) -> bool {
    &&& falling.len() == rising.len()
    &&& forall|i: int|
        0 <= i < falling.len() ==> (#[trigger] falling[i]).equals(rising[rising.len() - 1 - i])
}

/// The similarities that go into the mean of a query are those of its nearest neighbors. There are
/// none exactly if none are asked for or the index holds nothing but the query.
pub proof fn mean_is_over_the_nearest(row: Seq<Float32>, query: int, k: nat, in_index: bool)
    requires
        row.len() <= usize::MAX,
        index::all_numbers(row),
        0 <= query,
        in_index ==> query < row.len(),
    ensures
        ({
            let found = index::nearest(row, query, k, in_index).1;
            let summed = index::highest(
                index::other_similarities(row, query, in_index),
                index::neighbor_count(row.len(), k, in_index),
            );
            &&& same_similarities(found, summed)
            &&& summed.len() == index::neighbor_count(row.len(), k, in_index)
            &&& summed.len() <= k
            &&& summed.len() == k || summed.len() == row.len() - if in_index {
                1int
            } else {
                0int
            }
            &&& summed.len() == 0 <==> k == 0 || row.len() == 0 || (in_index && row.len() == 1)
        }),
{
    let others = index::other_similarities(row, query, in_index);
    let take = index::neighbor_count(row.len(), k, in_index);
    let found = index::nearest(row, query, k, in_index).1;
    let summed = index::highest(others, take);
    assert(index::all_numbers(others)) by {
        assert forall|i: int| 0 <= i < others.len() implies !(#[trigger] others[i]).nan() by {
            let p = if in_index && i >= query {
                i + 1
            } else {
                i
            };
            assert(others[i] == row[p]);
        }
    }
    index::nearest_neighbors(row, query, k, in_index);
    nearest_are_tops(row, query, k, in_index);
    lemma_highest_are_tops(others, take);
    assert forall|i: int| 0 <= i < found.len() implies (#[trigger] found[i]).equals(
        summed[summed.len() - 1 - i],
    ) by {
        tops_are_determined(found, summed.reverse(), others.to_multiset(), i);
        assert(summed.reverse()[i] == summed[summed.len() - 1 - i]);
    }
}

/// Asking an index for the similarities that go into means, and asking it for nearest neighbors,
/// succeeds on the same queries and gives the same similarities for each, where all of them are
/// numbers and queries that are vectors of the index are within it.
pub proof fn means_agree_with_top_k(
    vectors: MatrixView,
    queries: MatrixView,
    rows: MatrixView,
    k: nat,
    in_index: bool,
)
    requires
        0 < vectors.len() <= usize::MAX,
        index::query_outcome(vectors, queries) is Ok,
        index::similarity_rows(vectors, queries, rows),
        forall|q: int| 0 <= q < rows.len() ==> index::all_numbers(#[trigger] rows[q]),
        in_index ==> queries.len() <= vectors.len(),
    ensures
        ({
            let found = index::top_k_outcome(vectors, queries, rows, k, in_index);
            let summed = index::highest_outcome(vectors, queries, rows, k, in_index);
            &&& found is Ok && summed is Ok
            &&& found->Ok_0.len() == summed->Ok_0.len() == queries.len()
            &&& forall|q: int|
                #![trigger summed->Ok_0[q]]
                0 <= q < queries.len() ==> same_similarities(
                    found->Ok_0[q].1,
                    summed->Ok_0[q],
                )
        }),
{
    let found = index::top_k_outcome(vectors, queries, rows, k, in_index)->Ok_0;
    let summed = index::highest_outcome(vectors, queries, rows, k, in_index)->Ok_0;
    assert forall|q: int|
        #![trigger summed[q]]
        0 <= q < queries.len() implies same_similarities(found[q].1, summed[q]) by {
        assert(rows[q].len() == vectors.len());
        mean_is_over_the_nearest(rows[q], q, k, in_index);
    }
}

// ---------------------------------------------------------------------------------------------
// What a query finds

/// Whether one position of a row comes before another: by the higher number, and by the smaller
/// position where the numbers are equal.
pub open spec fn outranks(row: Seq<Float32>, a: int, b: int) -> bool {
    row[a].total() > row[b].total() || (row[a].total() == row[b].total() && a < b)
}

/// What is left out of the best positions comes after all of them, and only a full list leaves
/// anything out.
proof fn lemma_best_positions(row: Seq<Float32>, positions: Seq<usize>, take: nat)
    requires
        row.len() <= usize::MAX,
        positions.no_duplicates(),
        forall|k: int| 0 <= k < positions.len() ==> #[trigger] positions[k] < row.len(),
    ensures
        ({
            let order = ranking::best(index::falling_keys(row), positions, take);
            &&& order.no_duplicates()
            &&& order.len() <= take
            &&& forall|j: int|
                0 <= j < order.len() ==> positions.contains(#[trigger] order[j]) && order[j]
                    < row.len()
            &&& forall|i: int, j: int|
                #![trigger order[i], order[j]]
                0 <= i < j < order.len() ==> outranks(row, order[i] as int, order[j] as int)
            &&& forall|p: usize, j: int|
                #![trigger positions.contains(p), order[j]]
                positions.contains(p) && !order.contains(p) && 0 <= j < order.len() ==> outranks(
                    row,
                    order[j] as int,
                    p as int,
                )
            &&& forall|p: usize|
                #[trigger] positions.contains(p) && !order.contains(p) ==> order.len() == take
        }),
{
    let keys = index::falling_keys(row);
    let all = ranking::ranked(keys, positions);
    let order = ranking::best(keys, positions, take);
    ranking::ranked_is_sorted(keys, positions);
    ranking::ranked_no_duplicates(keys, positions);
    assert forall|j: int| 0 <= j < all.len() implies positions.contains(#[trigger] all[j]) && all[j]
        < row.len() by {
        assert(all.contains(all[j]));
        ranking::ranked_contains(keys, positions, all[j]);
        let k = choose|k: int| 0 <= k < positions.len() && positions[k] == all[j];
        assert(positions[k] < row.len());
    }
    assert forall|i: int, j: int|
        #![trigger all[i], all[j]]
        0 <= i < j < all.len() implies outranks(row, all[i] as int, all[j] as int) by {
        assert(all[i] != all[j]);
        assert(ranking::precedes(keys, all[i], all[j]));
        assert(all[i] < row.len() && all[j] < row.len());
    }
    assert forall|j: int| 0 <= j < order.len() implies #[trigger] order[j] == all[j] by {}
    assert forall|p: usize, j: int|
        #![trigger positions.contains(p), order[j]]
        positions.contains(p) && !order.contains(p) && 0 <= j < order.len() implies outranks(
        row,
        order[j] as int,
        p as int,
    ) by {
        ranking::ranked_contains(keys, positions, p);
        let k = choose|k: int| 0 <= k < all.len() && all[k] == p;
        if k < order.len() {
            assert(order[k] == p);
        }
        assert(order[j] == all[j]);
    }
    assert forall|p: usize| #[trigger]
        positions.contains(p) && !order.contains(p) implies order.len() == take by {
        ranking::ranked_contains(keys, positions, p);
        let k = choose|k: int| 0 <= k < all.len() && all[k] == p;
        if k < order.len() {
            assert(order[k] == p);
        }
    }
}

/// The records of the groups at some positions, each with the number at its position.
pub open spec fn records_at(
    items: Seq<Seq<DictView>>,
    row: Seq<Float32>,
    order: Seq<usize>,
) -> Seq<(DictView, Float32)> {
    Seq::new(
        order.len(),
        |j: int|
            Seq::new(
                items[order[j] as int].len(),
                |i: int| (items[order[j] as int][i], row[order[j] as int]),
            ),
    ).flatten()
}

proof fn lemma_expanded_is_flat(items: Seq<Seq<DictView>>, row: Seq<Float32>, order: Seq<usize>)
    ensures
        index::expanded(items, row, order) == records_at(items, row, order),
    decreases order.len(),
{
    let parts = Seq::new(
        order.len(),
        |j: int|
            Seq::new(
                items[order[j] as int].len(),
                |i: int| (items[order[j] as int][i], row[order[j] as int]),
            ),
    );
    parts.lemma_flatten_and_flatten_alt_are_equivalent();
    if order.len() == 0 {
        assert(index::expanded(items, row, order) =~= records_at(items, row, order));
    } else {
        let init = order.drop_last();
        let init_parts = Seq::new(
            init.len(),
            |j: int|
                Seq::new(
                    items[init[j] as int].len(),
                    |i: int| (items[init[j] as int][i], row[init[j] as int]),
                ),
        );
        lemma_expanded_is_flat(items, row, init);
        init_parts.lemma_flatten_and_flatten_alt_are_equivalent();
        assert(parts.drop_last() =~~= init_parts);
        let p = order.last() as int;
        assert(parts.last() =~= index::scored_bucket(items[p], row[p]));
        assert(index::expanded(items, row, order) =~= records_at(items, row, order));
    }
}

/// A query finds the records of the groups whose similarity reaches the threshold, a group at a
/// time, each record with the similarity of its group: the most similar group first, and the
/// earlier one where similarities are equal. It finds a hundred groups at most, and then none that
/// it leaves out comes before one that it finds.
pub proof fn what_a_query_finds(
    items: Seq<Seq<DictView>>,
    row: Seq<Float32>,
    threshold: Float32,
) -> (order: Seq<usize>)
    requires
        row.len() == items.len() <= usize::MAX,
    ensures
        index::doc_scores(items, row, threshold) == records_at(items, row, order),
        order.no_duplicates(),
        order.len() <= 100,
        forall|j: int|
            0 <= j < order.len() ==> (#[trigger] order[j]) < row.len()
                && row[order[j] as int].reaches(threshold),
        forall|i: int, j: int|
            #![trigger order[i], order[j]]
            0 <= i < j < order.len() ==> outranks(row, order[i] as int, order[j] as int),
        forall|p: int|
            0 <= p < row.len() && (#[trigger] row[p]).reaches(threshold) && !order.contains(
                p as usize,
            ) ==> order.len() == 100 && forall|j: int|
                0 <= j < order.len() ==> outranks(row, (#[trigger] order[j]) as int, p),
{
    let positions = index::reaching(row, threshold);
    let order = index::neighbors(row, threshold);
    index::lemma_reaching(row, threshold);
    index::lemma_reaching_distinct(row, threshold);
    lemma_best_positions(row, positions, index::NEIGHBOR_LIMIT as nat);
    lemma_expanded_is_flat(items, row, order);
    assert forall|j: int| 0 <= j < order.len() implies (#[trigger] order[j]) < row.len()
        && row[order[j] as int].reaches(threshold) by {
        assert(positions.contains(order[j]));
        index::lemma_reaching_contains(row, threshold, order[j] as int);
    }
    assert forall|p: int|
        0 <= p < row.len() && (#[trigger] row[p]).reaches(threshold) && !order.contains(
            p as usize,
        ) implies order.len() == 100 && forall|j: int|
        0 <= j < order.len() ==> outranks(row, (#[trigger] order[j]) as int, p) by {
        index::lemma_reaching_contains(row, threshold, p);
        assert(positions.contains(p as usize));
    }
    order
}

/// The nearest neighbors of a query are the positions of its row that come first, in order and with
/// their numbers, as many as are asked for or all there are. A vector of the index is no neighbor of
/// its own.
pub proof fn what_the_nearest_are(row: Seq<Float32>, query: int, k: nat, in_index: bool)
    requires
        row.len() <= usize::MAX,
        0 <= query,
    ensures
        ({
            let (order, scores) = index::nearest(row, query, k, in_index);
            &&& scores == order.map_values(|p: usize| row[p as int])
            &&& order.no_duplicates()
            &&& order.len() <= k
            &&& forall|j: int|
                0 <= j < order.len() ==> (#[trigger] order[j]) < row.len() && !(in_index && order[j]
                    == query)
            &&& forall|i: int, j: int|
                #![trigger order[i], order[j]]
                0 <= i < j < order.len() ==> outranks(row, order[i] as int, order[j] as int)
            &&& forall|p: int|
                0 <= p < row.len() && !(in_index && p == query) && !#[trigger] order.contains(
                    p as usize,
                ) ==> order.len() == k && forall|j: int|
                    0 <= j < order.len() ==> outranks(row, (#[trigger] order[j]) as int, p)
        }),
{
    let positions = index::other_positions(row.len(), query, in_index);
    let all = ranking::all_positions(row.len());
    let (order, scores) = index::nearest(row, query, k, in_index);
    lemma_best_positions(row, positions, k);
    assert(scores =~= order.map_values(|p: usize| row[p as int]));
    assert forall|j: int| 0 <= j < order.len() implies (#[trigger] order[j]) < row.len() && !(
    in_index && order[j] == query) by {
        assert(positions.contains(order[j]));
    }
    assert forall|p: int|
        0 <= p < row.len() && !(in_index && p == query) && !#[trigger] order.contains(
            p as usize,
        ) implies order.len() == k && forall|j: int|
        0 <= j < order.len() ==> outranks(row, (#[trigger] order[j]) as int, p) by {
        assert(positions.contains(p as usize)) by {
            if in_index && query < row.len() && p > query {
                assert(positions[p - 1] == p as usize);
            } else {
                assert(positions[p] == p as usize);
            }
        }
    }
}

/// What a query of a batch finds is what it finds alone.
pub proof fn queries_are_answered_alone(
    vectors: MatrixView,
    items: Seq<Seq<DictView>>,
    queries: MatrixView,
    rows: MatrixView,
    threshold: Float32,
    q: int,
)
    requires
        0 < vectors.len(),
        0 <= q < queries.len(),
        index::query_outcome(vectors, queries) is Ok,
    ensures
        ({
            let all = index::threshold_outcome(vectors, items, queries, rows, threshold);
            let alone = index::threshold_outcome(
                vectors,
                items,
                seq![queries[q]],
                seq![rows[q]],
                threshold,
            );
            &&& all is Ok && alone is Ok
            &&& all->Ok_0.len() == queries.len()
            &&& alone->Ok_0 == seq![all->Ok_0[q]]
            &&& all->Ok_0[q] == index::doc_scores(items, rows[q], threshold)
        }),
{
    let alone = index::threshold_outcome(
        vectors,
        items,
        seq![queries[q]],
        seq![rows[q]],
        threshold,
    );
    let all = index::threshold_outcome(vectors, items, queries, rows, threshold);
    assert(alone->Ok_0 =~= seq![all->Ok_0[q]]);
}

/// Records are ranked by their hundred nearest neighbors, or by all there are where there are fewer. A
/// record of the instance is not its own neighbor.
pub proof fn rankings_look_at_a_hundred_neighbors(
    vectors: MatrixView,
    queries: MatrixView,
    rows: MatrixView,
    in_index: bool,
    q: int,
)
    requires
        0 < vectors.len() <= usize::MAX,
        index::query_outcome(vectors, queries) is Ok,
        index::similarity_rows(vectors, queries, rows),
        in_index ==> queries.len() <= vectors.len(),
        0 <= q < queries.len(),
        index::all_numbers(rows[q]),
    ensures
        ({
            let summed = index::highest_outcome(
                vectors,
                queries,
                rows,
                semhash::RANKING_NEIGHBORS as nat,
                in_index,
            );
            let others = vectors.len() - if in_index {
                1int
            } else {
                0int
            };
            &&& summed is Ok
            &&& summed->Ok_0[q].len() == if others <= 100 {
                others
            } else {
                100
            }
            &&& same_similarities(index::nearest(rows[q], q, 100, in_index).1, summed->Ok_0[q])
        }),
{
    mean_is_over_the_nearest(rows[q], q, 100, in_index);
}

proof fn lemma_leading_below(best: Seq<Float32>, x: Float32)
    ensures
        0 <= index::leading_below(best, x) <= best.len(),
    decreases best.len(),
{
    if best.len() > 0 && best[0].below(x) {
        lemma_leading_below(best.drop_first(), x);
    }
}

/// As many similarities are taken as were asked for, or all where there are fewer, and each is one of
/// those there are, whether or not it is a number.
pub proof fn similarities_taken_are_among_all(numbers: Seq<Float32>, take: nat)
    ensures
        index::highest(numbers, take).len() == if numbers.len() <= take {
            numbers.len()
        } else {
            take
        },
        forall|i: int|
            0 <= i < index::highest(numbers, take).len() ==> numbers.contains(
                #[trigger] index::highest(numbers, take)[i],
            ),
    decreases numbers.len(),
{
    if numbers.len() > 0 && take > 0 {
        let before = numbers.drop_last();
        let x = numbers.last();
        similarities_taken_are_among_all(before, take);
        let best = index::highest(before, take);
        let rest = if best.len() < take {
            best
        } else {
            best.drop_first()
        };
        let at = index::leading_below(rest, x);
        lemma_leading_below(rest, x);
        let all = index::highest(numbers, take);
        assert(all == best || all == rest.insert(at, x));
        assert(numbers[numbers.len() - 1] == x);
        assert forall|i: int| 0 <= i < best.len() implies numbers.contains(#[trigger] best[i]) by {
            let j = choose|j: int| 0 <= j < before.len() && before[j] == best[i];
            assert(numbers[j] == best[i]);
        }
        assert forall|i: int| 0 <= i < all.len() implies numbers.contains(#[trigger] all[i]) by {
            if all != best {
                let k = if i < at {
                    i
                } else {
                    i - 1
                };
                if i != at {
                    assert(all[i] == rest[k]);
                    assert(rest[k] == best[if best.len() < take {
                        k
                    } else {
                        k + 1
                    }]);
                }
            }
        }
    }
}

} // verus!
