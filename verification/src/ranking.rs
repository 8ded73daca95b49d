//! Ranking: positions in the order of their keys.

use vstd::prelude::*;
use vstd::relations::*;
use vstd::seq_lib::*;

verus! {

/// Whether position `a` ranks before position `b`: by the smaller key, then by the smaller
/// position.
pub open spec fn precedes(keys: Seq<i64>, a: usize, b: usize) -> bool {
    keys[a as int] < keys[b as int] || (keys[a as int] == keys[b as int] && a < b)
}

/// The order of positions by rank.
pub open spec fn rank_order(keys: Seq<i64>) -> spec_fn(usize, usize) -> bool {
    |a: usize, b: usize| a == b || precedes(keys, a, b)
}

/// Positions in the order of their ranks.
pub open spec fn ranked(keys: Seq<i64>, positions: Seq<usize>) -> Seq<usize> {
    positions.sort_by(rank_order(keys))
}

/// The first `take` items of a list, or all where there are fewer.
pub open spec fn at_most<T>(s: Seq<T>, take: nat) -> Seq<T> {
    if s.len() <= take {
        s
    } else {
        s.take(take as int)
    }
}

/// The `take` positions that rank first, in the order of their ranks.
pub open spec fn best(keys: Seq<i64>, positions: Seq<usize>, take: nat) -> Seq<usize> {
    at_most(ranked(keys, positions), take)
}

/// The positions of a list of `n` items.
pub open spec fn all_positions(n: nat) -> Seq<usize> {
    Seq::new(n, |i: int| i as usize)
}

/// The order by rank is total.
pub proof fn lemma_rank_order(keys: Seq<i64>)
    ensures
        total_ordering(rank_order(keys)),
{
}

/// Ranking is sorting: the same positions, each before those that it precedes.
pub proof fn ranked_is_sorted(keys: Seq<i64>, positions: Seq<usize>)
    ensures
        ranked(keys, positions).len() == positions.len(),
        ranked(keys, positions).to_multiset() == positions.to_multiset(),
        forall|i: int, j: int|
            #![trigger ranked(keys, positions)[i], ranked(keys, positions)[j]]
            0 <= i < j < positions.len() ==> ranked(keys, positions)[i] == ranked(keys, positions)[j]
                || precedes(keys, ranked(keys, positions)[i], ranked(keys, positions)[j]),
{
    let leq = rank_order(keys);
    let r = ranked(keys, positions);
    lemma_rank_order(keys);
    positions.lemma_sort_by_ensures(leq);
    r.to_multiset_ensures();
    positions.to_multiset_ensures();
    assert forall|i: int, j: int|
        #![trigger r[i], r[j]]
        0 <= i < j < positions.len() implies r[i] == r[j] || precedes(keys, r[i], r[j]) by {
        assert(leq(r[i], r[j]));
    }
}

/// A sorted arrangement of the positions is their ranking.
pub proof fn ranked_is_unique(keys: Seq<i64>, positions: Seq<usize>, r: Seq<usize>)
    requires
        r.to_multiset() == positions.to_multiset(),
        sorted_by(r, rank_order(keys)),
    ensures
        r == ranked(keys, positions),
{
    lemma_rank_order(keys);
    positions.lemma_sort_by_ensures(rank_order(keys));
    lemma_sorted_unique(r, ranked(keys, positions), rank_order(keys));
}

/// The ranked positions are the ones that were given.
pub proof fn ranked_contains(keys: Seq<i64>, positions: Seq<usize>, p: usize)
    ensures
        ranked(keys, positions).contains(p) <==> positions.contains(p),
{
    ranked_is_sorted(keys, positions);
    ranked(keys, positions).to_multiset_ensures();
    positions.to_multiset_ensures();
    assert(ranked(keys, positions).to_multiset().count(p) == positions.to_multiset().count(p));
}

/// Positions that are all different stay so.
pub proof fn ranked_no_duplicates(keys: Seq<i64>, positions: Seq<usize>)
    requires
        positions.no_duplicates(),
    ensures
        ranked(keys, positions).no_duplicates(),
{
    ranked_is_sorted(keys, positions);
    positions.lemma_multiset_has_no_duplicates();
    ranked(keys, positions).lemma_multiset_has_no_duplicates_conv();
}

fn ranks_before(keys: &Vec<i64>, a: usize, b: usize) -> (r: bool)
    requires
        a < keys.len(),
        b < keys.len(),
    ensures
        r == precedes(keys@, a, b),
{
    keys[a] < keys[b] || (keys[a] == keys[b] && a < b)
}

/// Merges two ranked lists.
fn merge_ranked(keys: &Vec<i64>, left: &Vec<usize>, right: &Vec<usize>) -> (out: Vec<usize>)
    requires
        forall|i: int| 0 <= i < left.len() ==> #[trigger] left@[i] < keys.len(),
        forall|i: int| 0 <= i < right.len() ==> #[trigger] right@[i] < keys.len(),
        sorted_by(left@, rank_order(keys@)),
        sorted_by(right@, rank_order(keys@)),
    ensures
        sorted_by(out@, rank_order(keys@)),
        out@.to_multiset() == left@.to_multiset().add(right@.to_multiset()),
{
    let ghost leq = rank_order(keys@);
    let mut out: Vec<usize> = Vec::new();
    let mut i: usize = 0;
    let mut j: usize = 0;
    proof {
        assert(left@.take(0) + right@.take(0) =~= Seq::<usize>::empty());
        lemma_rank_order(keys@);
    }
    while i < left.len() || j < right.len()
        invariant
            i <= left.len(),
            j <= right.len(),
            forall|k: int| 0 <= k < left.len() ==> #[trigger] left@[k] < keys.len(),
            forall|k: int| 0 <= k < right.len() ==> #[trigger] right@[k] < keys.len(),
            leq == rank_order(keys@),
            total_ordering(leq),
            sorted_by(left@, leq),
            sorted_by(right@, leq),
            sorted_by(out@, leq),
            out@.to_multiset() == (left@.take(i as int) + right@.take(j as int)).to_multiset(),
            forall|a: int, b: int|
                #![trigger out@[a], left@[b]]
                0 <= a < out.len() && i <= b < left.len() ==> leq(out@[a], left@[b]),
            forall|a: int, b: int|
                #![trigger out@[a], right@[b]]
                0 <= a < out.len() && j <= b < right.len() ==> leq(out@[a], right@[b]),
        decreases left.len() - i + right.len() - j,
    {
        let take_left: bool = j >= right.len() || (i < left.len() && ranks_before(
            keys,
            left[i],
            right[j],
        ));
        let ghost before = out@;
        let ghost counted = left@.take(i as int) + right@.take(j as int);
        let next: usize = if take_left {
            left[i]
        } else {
            right[j]
        };
        out.push(next);
        proof {
            broadcast use group_to_multiset_ensures;

            lemma_multiset_commutative(left@.take(i as int), right@.take(j as int));
            if take_left {
                assert(left@.take(i + 1) =~= left@.take(i as int).push(next));
                lemma_multiset_commutative(left@.take(i + 1), right@.take(j as int));
                assert(out@.to_multiset() =~= (left@.take(i + 1) + right@.take(
                    j as int,
                )).to_multiset());
            } else {
                assert(right@.take(j + 1) =~= right@.take(j as int).push(next));
                lemma_multiset_commutative(left@.take(i as int), right@.take(j + 1));
                assert(out@.to_multiset() =~= (left@.take(i as int) + right@.take(
                    j + 1,
                )).to_multiset());
            }
            assert forall|b: int| i <= b < left.len() implies leq(next, #[trigger] left@[b]) by {
                if take_left {
                    assert(b == i || leq(left@[i as int], left@[b]));
                } else {
                    assert(leq(right@[j as int], left@[i as int]));
                    assert(b == i || leq(left@[i as int], left@[b]));
                }
            }
            assert forall|b: int| j <= b < right.len() implies leq(next, #[trigger] right@[b]) by {
                if take_left {
                    assert(leq(left@[i as int], right@[j as int]));
                    assert(b == j || leq(right@[j as int], right@[b]));
                } else {
                    assert(b == j || leq(right@[j as int], right@[b]));
                }
            }
            assert forall|a: int, b: int| 0 <= a < b < out.len() implies #[trigger] leq(
                out@[a],
                out@[b],
            ) by {
                if b == out.len() - 1 {
                    assert(out@[a] == before[a]);
                    if take_left {
                        assert(leq(before[a], left@[i as int]));
                    } else {
                        assert(leq(before[a], right@[j as int]));
                    }
                } else {
                    assert(leq(before[a], before[b]));
                }
            }
        }
        if take_left {
            i = i + 1;
        } else {
            j = j + 1;
        }
    }
    proof {
        assert(left@.take(i as int) =~= left@);
        assert(right@.take(j as int) =~= right@);
        lemma_multiset_commutative(left@, right@);
    }
    out
}

/// Arranges positions in the order of their ranks.
pub fn sort_positions(keys: &Vec<i64>, positions: Vec<usize>) -> (out: Vec<usize>)
    requires
        forall|i: int| 0 <= i < positions.len() ==> #[trigger] positions@[i] < keys.len(),
    ensures
        out@ == ranked(keys@, positions@),
    decreases positions.len(),
{
    if positions.len() <= 1 {
        proof {
            ranked_is_unique(keys@, positions@, positions@);
        }
        return positions;
    }
    let ghost all = positions@;
    let mut left = positions;
    let half: usize = left.len() / 2;
    let right = left.split_off(half);
    proof {
        assert(all =~= left@ + right@);
        assert forall|i: int| 0 <= i < right.len() implies #[trigger] right@[i] < keys.len() by {
            assert(right@[i] == all[half + i]);
        }
    }
    let left_sorted = sort_positions(keys, left);
    let right_sorted = sort_positions(keys, right);
    proof {
        lemma_rank_order(keys@);
        left@.lemma_sort_by_ensures(rank_order(keys@));
        right@.lemma_sort_by_ensures(rank_order(keys@));
        assert forall|i: int| 0 <= i < left_sorted.len() implies #[trigger] left_sorted@[i]
            < keys.len() by {
            ranked_contains(keys@, left@, left_sorted@[i]);
            assert(left_sorted@.contains(left_sorted@[i]));
        }
        assert forall|i: int| 0 <= i < right_sorted.len() implies #[trigger] right_sorted@[i]
            < keys.len() by {
            ranked_contains(keys@, right@, right_sorted@[i]);
            assert(right_sorted@.contains(right_sorted@[i]));
        }
        lemma_multiset_commutative(left@, right@);
    }
    let out = merge_ranked(keys, &left_sorted, &right_sorted);
    proof {
        ranked_is_unique(keys@, all, out@);
    }
    out
}

/// Adding a position inserts it into the ranking at its place.
proof fn lemma_ranked_push(keys: Seq<i64>, positions: Seq<usize>, p: usize, at: int)
    requires
        0 <= at <= positions.len(),
        forall|i: int|
            0 <= i < at ==> rank_order(keys)(#[trigger] ranked(keys, positions)[i], p),
        forall|i: int|
            at <= i < positions.len() ==> rank_order(keys)(
                p,
                #[trigger] ranked(keys, positions)[i],
            ),
    ensures
        ranked(keys, positions.push(p)) == ranked(keys, positions).insert(at, p),
{
    broadcast use group_to_multiset_ensures;

    let leq = rank_order(keys);
    let r = ranked(keys, positions);
    let s = r.insert(at, p);
    ranked_is_sorted(keys, positions);
    assert forall|i: int, j: int| 0 <= i < j < s.len() implies #[trigger] leq(s[i], s[j]) by {
        let i0 = if i < at { i } else { i - 1 };
        let j0 = if j < at { j } else { j - 1 };
        if i != at && j != at {
            assert(r[i0] == r[j0] || precedes(keys, r[i0], r[j0]));
        } else if i == at {
            assert(leq(p, r[j0]));
        } else {
            assert(leq(r[i0], p));
        }
    }
    assert(s.remove(at) =~= r);
    assert(s.to_multiset().remove(p) =~= r.to_multiset());
    assert(s.contains(s[at]));
    assert(s.to_multiset().count(p) > 0);
    assert(s.to_multiset() =~= positions.push(p).to_multiset());
    ranked_is_unique(keys, positions.push(p), s);
}

/// Keeps the `take` positions that rank first, in the order of their ranks.
pub fn trim_top_k(keys: &Vec<i64>, positions: &Vec<usize>, take: usize) -> (out: Vec<usize>)
    requires
        forall|i: int| 0 <= i < positions.len() ==> #[trigger] positions@[i] < keys.len(),
    ensures
        out@ == best(keys@, positions@, take as nat),
{
    let mut out: Vec<usize> = Vec::new();
    if take == 0 {
        assert(out@ =~= best(keys@, positions@, 0));
        return out;
    }
    let ghost leq = rank_order(keys@);
    let mut i: usize = 0;
    proof {
        ranked_is_sorted(keys@, positions@.take(0));
        assert(out@ =~= best(keys@, positions@.take(0), take as nat));
    }
    while i < positions.len()
        invariant
            i <= positions.len(),
            take > 0,
            leq == rank_order(keys@),
            forall|j: int| 0 <= j < positions.len() ==> #[trigger] positions@[j] < keys.len(),
            forall|j: int| 0 <= j < out.len() ==> #[trigger] out@[j] < keys.len(),
            out@ == best(keys@, positions@.take(i as int), take as nat),
        decreases positions.len() - i,
    {
        let p: usize = positions[i];
        let ghost so_far = positions@.take(i as int);
        let ghost r = ranked(keys@, so_far);
        proof {
            ranked_is_sorted(keys@, so_far);
            assert(positions@.take(i + 1) =~= so_far.push(p));
        }
        // The first place whose position does not rank before `p`.
        let mut low: usize = 0;
        let mut high: usize = out.len();
        while low < high
            invariant
                low <= high <= out.len(),
                p < keys.len(),
                leq == rank_order(keys@),
                r.len() >= out.len(),
                forall|j: int| 0 <= j < out.len() ==> #[trigger] out@[j] < keys.len(),
                forall|j: int| 0 <= j < out.len() ==> #[trigger] out@[j] == r[j],
                forall|a: int, b: int|
                    #![trigger r[a], r[b]]
                    0 <= a < b < r.len() ==> r[a] == r[b] || precedes(keys@, r[a], r[b]),
                forall|j: int| 0 <= j < low ==> leq(#[trigger] r[j], p),
                forall|j: int| high <= j < out.len() ==> leq(p, #[trigger] r[j]),
            decreases high - low,
        {
            let middle: usize = low + (high - low) / 2;
            if ranks_before(keys, out[middle], p) {
                proof {
                    assert forall|j: int| 0 <= j < middle + 1 implies leq(#[trigger] r[j], p) by {
                        assert(j == middle || r[j] == r[middle as int] || precedes(
                            keys@,
                            r[j],
                            r[middle as int],
                        ));
                    }
                }
                low = middle + 1;
            } else {
                proof {
                    assert forall|j: int| middle <= j < out.len() implies leq(
                        p,
                        #[trigger] r[j],
                    ) by {
                        assert(j == middle || r[j] == r[middle as int] || precedes(
                            keys@,
                            r[middle as int],
                            r[j],
                        ));
                    }
                }
                high = middle;
            }
        }
        if low < out.len() || out.len() < take {
            proof {
                assert forall|j: int| low <= j < so_far.len() implies leq(p, #[trigger] r[j]) by {
                    if j >= out.len() {
                        let last = out.len() - 1;
                        assert(leq(p, r[last]));
                        assert(r[last] == r[j] || precedes(keys@, r[last], r[j]));
                    }
                }
                lemma_ranked_push(keys@, so_far, p, low as int);
            }
            out.insert(low, p);
            if out.len() > take {
                out.truncate(take);
            }
            assert(out@ =~= best(keys@, positions@.take(i + 1), take as nat));
        } else {
            proof {
                let at = lemma_place(keys@, so_far, p, low as int);
                lemma_ranked_push(keys@, so_far, p, at);
                assert(out@ =~= best(keys@, positions@.take(i + 1), take as nat));
            }
        }
        i = i + 1;
    }
    assert(positions@.take(i as int) =~= positions@);
    out
}

/// A position that ranks behind the first `from` has its place in the ranking after them.
proof fn lemma_place(keys: Seq<i64>, positions: Seq<usize>, p: usize, from: int) -> (at: int)
    requires
        0 <= from <= positions.len(),
        forall|i: int|
            0 <= i < from ==> rank_order(keys)(#[trigger] ranked(keys, positions)[i], p),
    ensures
        from <= at <= positions.len(),
        forall|i: int|
            0 <= i < at ==> rank_order(keys)(#[trigger] ranked(keys, positions)[i], p),
        forall|i: int|
            at <= i < positions.len() ==> rank_order(keys)(
                p,
                #[trigger] ranked(keys, positions)[i],
            ),
    decreases positions.len() - from,
{
    let r = ranked(keys, positions);
    ranked_is_sorted(keys, positions);
    if from == positions.len() {
        from
    } else if rank_order(keys)(r[from], p) {
        lemma_place(keys, positions, p, from + 1)
    } else {
        assert forall|i: int| from <= i < positions.len() implies rank_order(keys)(
            p,
            #[trigger] r[i],
        ) by {
            assert(i == from || r[from] == r[i] || precedes(keys, r[from], r[i]));
        }
        from
    }
}

} // verus!
