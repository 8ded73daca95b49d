//! A list of record keys in which a key is found by hashing its representation.

use crate::rendering;
use crate::value::{DictRecord, DictView, ValueView};
use vstd::hash_map::StringHashMap;
use vstd::prelude::*;

verus! {

/// Record keys, in the order in which they were added.
pub(crate) struct KeyTable {
    keys: Vec<DictRecord>,
    slots: StringHashMap<Vec<usize>>,
}

spec fn slot_text(key: DictView) -> Seq<char> {
    rendering::canonical_text(ValueView::Dict(key))
}

impl View for KeyTable {
    type V = Seq<DictView>;

    closed spec fn view(&self) -> Seq<DictView> {
        self.keys.deep_view()
    }
}

impl KeyTable {
    /// Every key is listed in the slot of its representation, and no slot lists anything else.
    pub(crate) closed spec fn wf(&self) -> bool {
        &&& forall|i: int|
            #![trigger self@[i]]
            0 <= i < self@.len() ==> self.slots@.contains_key(slot_text(self@[i]))
                && self.slots@[slot_text(self@[i])]@.contains(i as usize)
        &&& forall|t: Seq<char>, p: int|
            #![trigger self.slots@[t]@[p]]
            self.slots@.contains_key(t) && 0 <= p < self.slots@[t]@.len() ==> self.slots@[t]@[p]
                < self@.len()
    }

    pub(crate) fn new() -> (r: Self)
        ensures
            r.wf(),
            r@ == Seq::<DictView>::empty(),
    {
        let r = KeyTable { keys: Vec::new(), slots: StringHashMap::new() };
        assert(r@ =~= Seq::<DictView>::empty());
        r
    }

    /// The number of keys.
    pub(crate) fn len(&self) -> (n: usize)
        ensures
            n == self@.len(),
    {
        self.keys.len()
    }

    /// The position of a key, if it is in the list.
    pub(crate) fn find(&self, key: &DictRecord) -> (r: Option<usize>)
        requires
            self.wf(),
        ensures
            match r {
                Some(i) => i < self@.len() && self@[i as int] == key.deep_view(),
                None => !self@.contains(key.deep_view()),
            },
    {
        let ghost k = key.deep_view();
        let text = key.canonical();
        match self.slots.get(text.as_str()) {
            None => {
                proof {
                    if self@.contains(k) {
                        let i = choose|i: int| 0 <= i < self@.len() && self@[i] == k;
                        assert(self.slots@.contains_key(slot_text(self@[i])));
                    }
                }
                None
            },
            Some(slot) => {
                let mut p: usize = 0;
                while p < slot.len()
                    invariant
                        p <= slot.len(),
                        self.wf(),
                        k == key.deep_view(),
                        self.slots@.contains_key(slot_text(k)),
                        *slot == self.slots@[slot_text(k)],
                        forall|q: int| 0 <= q < p ==> self@[(#[trigger] slot@[q]) as int] != k,
                    decreases slot.len() - p,
                {
                    assert(self.slots@[slot_text(k)]@[p as int] < self@.len());
                    let i: usize = slot[p];
                    assert(self@[i as int] == self.keys@[i as int].deep_view());
                    if self.keys[i].same(key) {
                        return Some(i);
                    }
                    p = p + 1;
                }
                proof {
                    if self@.contains(k) {
                        let i = choose|i: int| 0 <= i < self@.len() && self@[i] == k;
                        assert(self@.len() == self.keys.len());
                        assert(self.slots@[slot_text(self@[i])]@.contains(i as usize));
                        let q = choose|q: int|
                            0 <= q < slot@.len() && slot@[q] == i as usize;
                        assert(self@[slot@[q] as int] != k);
                    }
                }
                None
            },
        }
    }

    /// Adds a key at the end of the list.
    pub(crate) fn push(&mut self, key: DictRecord)
        requires
            old(self).wf(),
        ensures
            final(self).wf(),
            final(self)@ == old(self)@.push(key.deep_view()),
    {
        let ghost k = key.deep_view();
        let ghost before = *self;
        let text = key.canonical();
        let position: usize = self.keys.len();
        let mut slot: Vec<usize> = match self.slots.get(text.as_str()) {
            None => Vec::new(),
            Some(slot) => slot.clone(),
        };
        let ghost listed = slot@;
        slot.push(position);
        self.slots.insert(text, slot);
        self.keys.push(key);
        proof {
            assert(self@ =~= before@.push(k));
            assert forall|i: int|
                #![trigger self@[i]]
                0 <= i < self@.len() implies self.slots@.contains_key(slot_text(self@[i]))
                && self.slots@[slot_text(self@[i])]@.contains(i as usize) by {
                if i < before@.len() {
                    assert(self@[i] == before@[i]);
                    assert(before.slots@[slot_text(before@[i])]@.contains(i as usize));
                    if slot_text(before@[i]) == slot_text(k) {
                        let q = choose|q: int|
                            0 <= q < before.slots@[slot_text(before@[i])]@.len()
                                && before.slots@[slot_text(before@[i])]@[q] == i as usize;
                        assert(slot@[q] == i as usize);
                    }
                } else {
                    assert(slot@[slot@.len() - 1] == i as usize);
                }
            }
            assert forall|t: Seq<char>, p: int|
                #![trigger self.slots@[t]@[p]]
                self.slots@.contains_key(t) && 0 <= p < self.slots@[t]@.len() implies self.slots@[t]@[p]
                < self@.len() by {
                if t == slot_text(k) {
                    if p < listed.len() {
                        assert(before.slots@[t]@[p] < before@.len());
                    }
                } else {
                    assert(before.slots@[t]@[p] < before@.len());
                }
            }
        }
    }
}

} // verus!
