//! Sublists: the items of a list at some of its positions, in their order.

use vstd::prelude::*;
use vstd::seq_lib::*;

verus! {

/// The items at the positions that are kept, in their order.
pub open spec fn those<T>(items: Seq<T>, keep: spec_fn(int) -> bool) -> Seq<T>
    decreases items.len(),
{
    if items.len() == 0 {
        seq![]
    } else {
        let rest = those(items.drop_last(), keep);
        if keep(items.len() - 1) {
            rest.push(items.last())
        } else {
            rest
        }
    }
}

/// A sublist holds the items at the kept positions, and no others, once each and in their order.
pub proof fn those_are_the_kept<T>(items: Seq<T>, keep: spec_fn(int) -> bool) -> (places: Seq<int>)
    ensures
        places.len() == those(items, keep).len(),
        forall|i: int|
            0 <= i < places.len() ==> 0 <= #[trigger] places[i] < items.len() && keep(places[i])
                && those(items, keep)[i] == items[places[i]],
        forall|i: int, j: int|
            #![trigger places[i], places[j]]
            0 <= i < j < places.len() ==> places[i] < places[j],
        forall|p: int| 0 <= p < items.len() && #[trigger] keep(p) ==> places.contains(p),
    decreases items.len(),
{
    if items.len() == 0 {
        seq![]
    } else {
        let n = items.len() - 1;
        let before = those_are_the_kept(items.drop_last(), keep);
        let places = if keep(n) {
            before.push(n)
        } else {
            before
        };
        assert forall|i: int| 0 <= i < places.len() implies 0 <= #[trigger] places[i] < items.len()
            && keep(places[i]) && those(items, keep)[i] == items[places[i]] by {
            if i < before.len() {
                assert(places[i] == before[i]);
            }
        }
        assert forall|p: int| 0 <= p < items.len() && #[trigger] keep(p) implies places.contains(
            p,
        ) by {
            if p < n {
                assert(before.contains(p));
                let i = choose|i: int| 0 <= i < before.len() && before[i] == p;
                assert(places[i] == p);
            } else {
                assert(places[places.len() - 1] == p);
            }
        }
        places
    }
}

/// What is kept and what is not make up the list.
pub proof fn those_and_the_others<T>(items: Seq<T>, keep: spec_fn(int) -> bool)
    ensures
        those(items, keep).len() + those(items, |i: int| !keep(i)).len() == items.len(),
        those(items, keep).to_multiset().add(those(items, |i: int| !keep(i)).to_multiset())
            == items.to_multiset(),
    decreases items.len(),
{
    broadcast use group_to_multiset_ensures;

    let drop = |i: int| !keep(i);
    if items.len() == 0 {
        assert(those(items, keep) =~= items);
        assert(those(items, drop) =~= items);
        assert(items.to_multiset().add(items.to_multiset()) =~= items.to_multiset());
    } else {
        those_and_the_others(items.drop_last(), keep);
        assert(items.drop_last().push(items.last()) =~= items);
        assert(those(items, keep).to_multiset().add(those(items, drop).to_multiset())
            =~= items.to_multiset());
    }
}

/// Only the positions of the list matter.
pub(crate) proof fn lemma_those_agree<T>(
    items: Seq<T>,
    p: spec_fn(int) -> bool,
    q: spec_fn(int) -> bool,
)
    requires
        forall|i: int| 0 <= i < items.len() ==> #[trigger] p(i) == q(i),
    ensures
        those(items, p) == those(items, q),
    decreases items.len(),
{
    if items.len() > 0 {
        lemma_those_agree(items.drop_last(), p, q);
        assert(p(items.len() - 1) == q(items.len() - 1));
    }
}

/// Items can be converted before or after some of them are kept.
pub(crate) proof fn lemma_those_mapped<T, U>(
    items: Seq<T>,
    keep: spec_fn(int) -> bool,
    f: spec_fn(T) -> U,
)
    ensures
        those(items.map_values(f), keep) == those(items, keep).map_values(f),
    decreases items.len(),
{
    if items.len() == 0 {
        assert(those(items.map_values(f), keep) =~= those(items, keep).map_values(f));
    } else {
        lemma_those_mapped(items.drop_last(), keep, f);
        assert(items.map_values(f).drop_last() =~= items.drop_last().map_values(f));
        assert(those(items.map_values(f), keep) =~= those(items, keep).map_values(f));
    }
}

} // verus!
