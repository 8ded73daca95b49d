//! Records and the values they hold.

use crate::float::Float64;
use crate::order;
use crate::order::{compare_texts, Relation};
use vstd::prelude::*;

verus! {

/// A supported record value: the common primitives, byte payloads for encoders of other data
/// than text, and nested lists and dictionaries.
#[derive(Debug, Hash, Ord)]
pub enum Value {
    String(String),
    Bytes(Vec<u8>),
    I64(i64),
    U64(u64),
    F64(Float64),
    Bool(bool),
    Null,
    List(Vec<Value>),
    Dict(DictRecord),
}

/// A dictionary from column names to values, kept in the order of its keys.
#[derive(Debug, Hash, Ord)]
pub struct DictRecord {
    pub(crate) entries: Vec<(String, Value)>,
}

/// A record: plain text, or a dictionary.
#[derive(Debug, Hash, Ord)]
pub enum Record {
    Text(String),
    Dict(DictRecord),
}

/// What a double-precision number is: its bit pattern and its renderings.
pub struct FloatView {
    pub bits: u64,
    pub debug: Seq<char>,
    pub display: Seq<char>,
}

/// What a value is.
pub enum ValueView {
    String(Seq<char>),
    Bytes(Seq<u8>),
    I64(i64),
    U64(u64),
    F64(FloatView),
    Bool(bool),
    Null,
    List(Seq<ValueView>),
    Dict(DictView),
}

/// What a dictionary is: its entries, in the order of their keys.
pub type DictView = Seq<(Seq<char>, ValueView)>;

/// What a record is.
pub enum RecordView {
    Text(Seq<char>),
    Dict(DictView),
}

impl DeepView for Float64 {
    type V = FloatView;

    open spec fn deep_view(&self) -> FloatView {
        FloatView { bits: self.bits, debug: self.debug@, display: self.display@ }
    }
}

pub open spec fn value_view(v: Value) -> ValueView
    decreases v,
{
    match v {
        Value::String(s) => ValueView::String(s@),
        Value::Bytes(b) => ValueView::Bytes(b@),
        Value::I64(n) => ValueView::I64(n),
        Value::U64(n) => ValueView::U64(n),
        Value::F64(x) => ValueView::F64(x.deep_view()),
        Value::Bool(b) => ValueView::Bool(b),
        Value::Null => ValueView::Null,
        Value::List(l) => ValueView::List(
            Seq::new(
                l@.len(),
                |i: int|
                    if 0 <= i < l@.len() {
                        value_view(l@[i])
                    } else {
                        ValueView::Null
                    },
            ),
        ),
        Value::Dict(d) => ValueView::Dict(
            Seq::new(
                d.listed().len(),
                |i: int|
                    if 0 <= i < d.listed().len() {
                        (d.listed()[i].0@, value_view(d.listed()[i].1))
                    } else {
                        (seq![], ValueView::Null)
                    },
            ),
        ),
    }
}

impl DeepView for Value {
    type V = ValueView;

    open spec fn deep_view(&self) -> ValueView {
        value_view(*self)
    }
}

impl DeepView for DictRecord {
    type V = DictView;

    open spec fn deep_view(&self) -> DictView {
        value_view(Value::Dict(*self))->Dict_0
    }
}

impl DeepView for Record {
    type V = RecordView;

    open spec fn deep_view(&self) -> RecordView {
        match *self {
            Record::Text(s) => RecordView::Text(s@),
            Record::Dict(d) => RecordView::Dict(d.deep_view()),
        }
    }
}

// ---------------------------------------------------------------------------------------------
// Dictionaries

/// Whether the entries stand in the order of their keys, each key once.
pub open spec fn dict_sorted(d: DictView) -> bool {
    forall|i: int, j: int|
        #![trigger d[i], d[j]]
        0 <= i < j < d.len() ==> order::text_before(d[i].0, d[j].0)
}

/// Whether the dictionary has the key.
pub open spec fn dict_has(d: DictView, key: Seq<char>) -> bool {
    exists|i: int| 0 <= i < d.len() && (#[trigger] d[i]).0 == key
}

/// The position of a key that the dictionary has.
pub open spec fn dict_position(d: DictView, key: Seq<char>) -> int {
    choose|i: int| 0 <= i < d.len() && (#[trigger] d[i]).0 == key
}

/// The value under a key that the dictionary has.
pub open spec fn dict_at(d: DictView, key: Seq<char>) -> ValueView {
    d[dict_position(d, key)].1
}

/// The dictionary as a map from keys to values.
pub open spec fn dict_map(d: DictView) -> Map<Seq<char>, ValueView> {
    Map::new(|key: Seq<char>| dict_has(d, key), |key: Seq<char>| dict_at(d, key))
}

/// In a sorted dictionary, the entry at any position is the one found under its key.
pub proof fn lemma_dict_at(d: DictView, i: int)
    requires
        dict_sorted(d),
        0 <= i < d.len(),
    ensures
        dict_has(d, d[i].0),
        dict_at(d, d[i].0) == d[i].1,
{
    let key = d[i].0;
    assert(d[i].0 == key);
    let j = dict_position(d, key);
    if i != j {
        order::text_order_equal(key, key);
        if i < j {
            assert(order::text_before(d[i].0, d[j].0));
        } else {
            assert(order::text_before(d[j].0, d[i].0));
        }
    }
}

/// Replacing the value at a position changes the map at its key only.
proof fn lemma_replace(d: DictView, i: int, v: ValueView)
    requires
        dict_sorted(d),
        0 <= i < d.len(),
    ensures
        dict_sorted(d.update(i, (d[i].0, v))),
        dict_map(d.update(i, (d[i].0, v))) == dict_map(d).insert(d[i].0, v),
{
    let e = d.update(i, (d[i].0, v));
    assert forall|a: int, b: int| #![trigger e[a], e[b]] 0 <= a < b < e.len() implies order::text_before(
        e[a].0,
        e[b].0,
    ) by {
        assert(order::text_before(d[a].0, d[b].0));
    }
    assert forall|key: Seq<char>| dict_map(e).contains_key(key) == dict_map(d).insert(
        d[i].0,
        v,
    ).contains_key(key) by {
        if dict_has(e, key) {
            let a = dict_position(e, key);
            assert(d[a].0 == key);
        }
        if dict_has(d, key) {
            let a = dict_position(d, key);
            assert(e[a].0 == key);
        }
        assert(e[i].0 == d[i].0);
    }
    assert forall|key: Seq<char>| dict_map(e).contains_key(key) implies dict_map(e)[key]
        == dict_map(d).insert(d[i].0, v)[key] by {
        let a = dict_position(e, key);
        lemma_dict_at(e, a);
        lemma_dict_at(d, a);
        lemma_dict_at(e, i);
        assert(d[a].0 == key);
    }
    assert(dict_map(e) =~= dict_map(d).insert(d[i].0, v));
}

/// Inserting a new key at its place in the order adds it to the map.
proof fn lemma_insert_new(d: DictView, i: int, k: Seq<char>, v: ValueView)
    requires
        dict_sorted(d),
        0 <= i <= d.len(),
        forall|j: int| 0 <= j < i ==> order::text_before((#[trigger] d[j]).0, k),
        forall|j: int| i <= j < d.len() ==> order::text_before(k, (#[trigger] d[j]).0),
    ensures
        !dict_has(d, k),
        dict_sorted(d.insert(i, (k, v))),
        dict_map(d.insert(i, (k, v))) == dict_map(d).insert(k, v),
{
    let e = d.insert(i, (k, v));
    order::text_order_equal(k, k);
    if dict_has(d, k) {
        let a = dict_position(d, k);
        assert(d[a].0 == k);
    }
    assert forall|a: int, b: int| #![trigger e[a], e[b]] 0 <= a < b < e.len() implies order::text_before(
        e[a].0,
        e[b].0,
    ) by {
        let a0 = if a < i { a } else { a - 1 };
        let b0 = if b < i { b } else { b - 1 };
        if a != i && b != i {
            assert(order::text_before(d[a0].0, d[b0].0));
        } else if a == i {
            assert(order::text_before(k, d[b0].0));
        } else {
            assert(order::text_before(d[a0].0, k));
        }
    }
    assert forall|key: Seq<char>| dict_map(e).contains_key(key) == dict_map(d).insert(
        k,
        v,
    ).contains_key(key) by {
        if dict_has(e, key) {
            let a = dict_position(e, key);
            if a != i {
                let a0 = if a < i { a } else { a - 1 };
                assert(d[a0].0 == key);
            }
        }
        if dict_has(d, key) {
            let a = dict_position(d, key);
            let a1 = if a < i { a } else { a + 1 };
            assert(e[a1].0 == key);
        }
        assert(e[i].0 == k);
    }
    assert forall|key: Seq<char>| dict_map(e).contains_key(key) implies dict_map(e)[key]
        == dict_map(d).insert(k, v)[key] by {
        let a = dict_position(e, key);
        lemma_dict_at(e, a);
        lemma_dict_at(e, i);
        if key != k {
            let a0 = if a < i { a } else { a - 1 };
            lemma_dict_at(d, a0);
            assert(d[a0].0 == key);
        }
    }
    assert(dict_map(e) =~= dict_map(d).insert(k, v));
}

/// Leaving out the first entry removes its key from the map.
proof fn lemma_drop_first(d: DictView)
    requires
        dict_sorted(d),
        d.len() > 0,
    ensures
        dict_sorted(d.drop_first()),
        dict_map(d.drop_first()) == dict_map(d).remove(d[0].0),
{
    let e = d.drop_first();
    assert forall|a: int, b: int| #![trigger e[a], e[b]] 0 <= a < b < e.len() implies order::text_before(
        e[a].0,
        e[b].0,
    ) by {
        assert(order::text_before(d[a + 1].0, d[b + 1].0));
    }
    order::text_order_equal(d[0].0, d[0].0);
    assert forall|key: Seq<char>| dict_map(e).contains_key(key) == dict_map(d).remove(
        d[0].0,
    ).contains_key(key) by {
        if dict_has(e, key) {
            let a = dict_position(e, key);
            assert(d[a + 1].0 == key);
            assert(order::text_before(d[0].0, d[a + 1].0));
        }
        if dict_has(d, key) && key != d[0].0 {
            let a = dict_position(d, key);
            assert(e[a - 1].0 == key);
        }
    }
    assert forall|key: Seq<char>| dict_map(e).contains_key(key) implies dict_map(e)[key]
        == dict_map(d).remove(d[0].0)[key] by {
        let a = dict_position(e, key);
        lemma_dict_at(e, a);
        lemma_dict_at(d, a + 1);
        assert(d[a + 1].0 == key);
    }
    assert(dict_map(e) =~= dict_map(d).remove(d[0].0));
}

/// A dictionary is determined by the values under its keys: two with the same map are the same,
/// in whatever order their entries were inserted.
pub proof fn dict_determined_by_map(d: DictView, e: DictView)
    requires
        dict_sorted(d),
        dict_sorted(e),
        dict_map(d) == dict_map(e),
    ensures
        d == e,
    decreases d.len(),
{
    if d.len() == 0 {
        if e.len() > 0 {
            lemma_dict_at(e, 0);
            assert(dict_map(e).contains_key(e[0].0));
            assert(dict_has(d, e[0].0));
        }
        assert(d =~= e);
    } else {
        lemma_dict_at(d, 0);
        assert(dict_map(d).contains_key(d[0].0));
        assert(dict_has(e, d[0].0));
        let p = dict_position(e, d[0].0);
        assert(e[p].0 == d[0].0);
        lemma_dict_at(e, p);
        lemma_dict_at(e, 0);
        assert(dict_map(e).contains_key(e[0].0));
        assert(dict_has(d, e[0].0));
        let q = dict_position(d, e[0].0);
        assert(d[q].0 == e[0].0);
        if p != 0 {
            assert(order::text_before(e[0].0, e[p].0));
            order::text_order_equal(d[0].0, d[0].0);
            order::text_order_reversed(e[0].0, d[0].0);
            if q != 0 {
                assert(order::text_before(d[0].0, d[q].0));
            }
        }
        assert(p == 0);
        assert(dict_map(d)[d[0].0] == dict_at(d, d[0].0));
        assert(dict_map(e)[d[0].0] == dict_at(e, d[0].0));
        assert(d[0] == e[0]);
        lemma_drop_first(d);
        lemma_drop_first(e);
        dict_determined_by_map(d.drop_first(), e.drop_first());
        assert(d =~= seq![d[0]] + d.drop_first());
        assert(e =~= seq![e[0]] + e.drop_first());
    }
}

/// What a list of entries is.
pub open spec fn entries_view(entries: Seq<(String, Value)>) -> DictView {
    Seq::new(entries.len(), |i: int| (entries[i].0@, value_view(entries[i].1)))
}

impl DictRecord {
    /// The entries.
    pub closed spec fn listed(&self) -> Seq<(String, Value)> {
        self.entries@
    }

    pub(crate) proof fn lemma_listed(&self)
        ensures
            self.listed() == self.entries@,
            self.deep_view() == entries_view(self.entries@),
    {
        assert(self.deep_view() =~= entries_view(self.entries@));
    }

    /// A dictionary of entries that stand in the order of their keys.
    pub(crate) fn from_sorted(entries: Vec<(String, Value)>) -> (r: Self)
        requires
            dict_sorted(entries_view(entries@)),
        ensures
            r.deep_view() == entries_view(entries@),
    {
        proof {
            let r = DictRecord { entries };
            assert(r.deep_view() =~= entries_view(entries@));
        }
        DictRecord { entries }
    }

    /// Makes known that the entries stand in the order of their keys.
    pub(crate) fn reveal_order(&self)
        ensures
            dict_sorted(self.deep_view()),
    {
        proof {
            use_type_invariant(self);
        }
    }

    #[verifier::type_invariant]
    pub(crate) closed spec fn in_order(self) -> bool {
        dict_sorted(self.deep_view())
    }

    /// An empty dictionary.
    pub fn new() -> (r: Self)
        ensures
            r.deep_view() == DictView::empty(),
            dict_sorted(r.deep_view()),
    {
        let r = DictRecord { entries: Vec::new() };
        assert(r.deep_view() =~= DictView::empty());
        r
    }

    /// The number of entries.
    pub fn len(&self) -> (n: usize)
        ensures
            n == self.deep_view().len(),
    {
        self.entries.len()
    }

    /// The position of the first entry whose key does not come before `key`.
    fn position(&self, key: &str) -> (r: (usize, bool))
        ensures
            r.0 <= self.deep_view().len(),
            forall|j: int|
                0 <= j < r.0 ==> order::text_before(
                    (#[trigger] self.deep_view()[j]).0,
                    key@,
                ),
            r.1 ==> r.0 < self.deep_view().len() && self.deep_view()[r.0 as int].0 == key@,
            !r.1 ==> forall|j: int|
                r.0 <= j < self.deep_view().len() ==> order::text_before(
                    key@,
                    (#[trigger] self.deep_view()[j]).0,
                ),
    {
        let ghost d = self.deep_view();
        proof {
            use_type_invariant(self);
        }
        let mut i: usize = 0;
        while i < self.entries.len()
            invariant
                i <= self.entries.len(),
                d == self.deep_view(),
                dict_sorted(d),
                forall|j: int|
                    0 <= j < i ==> order::text_before((#[trigger] d[j]).0, key@),
            decreases self.entries.len() - i,
        {
            assert(d[i as int].0 == self.entries@[i as int].0@);
            match compare_texts(self.entries[i].0.as_str(), key) {
                Relation::Less => {
                    i = i + 1;
                },
                Relation::Same => {
                    proof {
                        order::text_order_equal(d[i as int].0, key@);
                    }
                    return (i, true);
                },
                Relation::Greater => {
                    proof {
                        order::text_order_reversed(d[i as int].0, key@);
                        assert forall|j: int| i <= j < d.len() implies order::text_before(
                            key@,
                            (#[trigger] d[j]).0,
                        ) by {
                            if i < j {
                                order::text_order_transitive(key@, d[i as int].0, d[j].0);
                            }
                        }
                    }
                    return (i, false);
                },
            }
        }
        (i, false)
    }

    /// The value under `key`, if there is one.
    pub fn get(&self, key: &str) -> (r: Option<&Value>)
        ensures
            match r {
                Some(v) => dict_has(self.deep_view(), key@) && v.deep_view() == dict_at(
                    self.deep_view(),
                    key@,
                ),
                None => !dict_has(self.deep_view(), key@),
            },
    {
        let ghost d = self.deep_view();
        let (i, found) = self.position(key);
        proof {
            use_type_invariant(self);
            order::text_order_equal(key@, key@);
        }
        if found {
            proof {
                lemma_dict_at(d, i as int);
            }
            Some(&self.entries[i].1)
        } else {
            None
        }
    }

    /// Sets the value under `key`, and returns the one that it replaces, if any.
    pub fn insert(&mut self, key: String, value: Value) -> (r: Option<Value>)
        ensures
            dict_sorted(final(self).deep_view()),
            dict_map(final(self).deep_view()) == dict_map(old(self).deep_view()).insert(
                key@,
                value.deep_view(),
            ),
            match r {
                Some(v) => dict_has(old(self).deep_view(), key@) && v.deep_view() == dict_at(
                    old(self).deep_view(),
                    key@,
                ),
                None => !dict_has(old(self).deep_view(), key@),
            },
    {
        let ghost d = self.deep_view();
        let ghost k = key@;
        let ghost v = value.deep_view();
        let (i, found) = self.position(key.as_str());
        proof {
            use_type_invariant(&*self);
        }
        let mut entries: Vec<(String, Value)> = Vec::new();
        std::mem::swap(&mut entries, &mut self.entries);
        let ghost before = entries@;
        if found {
            let replaced = entries.remove(i);
            entries.insert(i, (key, value));
            proof {
                let now = DictRecord { entries };
                assert(now.deep_view() =~= d.update(i as int, (k, v)));
                lemma_replace(d, i as int, v);
                lemma_dict_at(d, i as int);
            }
            self.entries = entries;
            Some(replaced.1)
        } else {
            entries.insert(i, (key, value));
            proof {
                let e = d.insert(i as int, (k, v));
                let now = DictRecord { entries };
                assert(now.deep_view() =~= e);
                lemma_insert_new(d, i as int, k, v);
            }
            self.entries = entries;
            None
        }
    }

    /// Whether there is a value under `key`.
    pub fn contains_key(&self, key: &str) -> (r: bool)
        ensures
            r == dict_has(self.deep_view(), key@),
    {
        self.get(key).is_some()
    }
}

// ---------------------------------------------------------------------------------------------
// Copies

impl Clone for Value {
    fn clone(&self) -> (r: Self)
        ensures
            r.deep_view() == self.deep_view(),
        decreases self,
    {
        match self {
            Value::String(s) => Value::String(s.clone()),
            Value::Bytes(b) => Value::Bytes(b.clone()),
            Value::I64(n) => Value::I64(*n),
            Value::U64(n) => Value::U64(*n),
            Value::F64(x) => Value::F64(
                Float64 { bits: x.bits, debug: x.debug.clone(), display: x.display.clone() },
            ),
            Value::Bool(b) => Value::Bool(*b),
            Value::Null => Value::Null,
            Value::List(l) => {
                let mut copy: Vec<Value> = Vec::new();
                let mut i: usize = 0;
                while i < l.len()
                    invariant
                        i <= l.len(),
                        copy.len() == i,
                        *self == Value::List(*l),
                        forall|j: int|
                            0 <= j < i ==> value_view(#[trigger] copy@[j]) == value_view(l@[j]),
                    decreases l.len() - i,
                {
                    assert(decreases_to!(*self => self->List_0));
                    assert(decreases_to!(*l => l[i as int]));
                    copy.push(l[i].clone());
                    i = i + 1;
                }
                let r = Value::List(copy);
                assert(r.deep_view()->List_0 =~= self.deep_view()->List_0);
                r
            },
            Value::Dict(d) => {
                let copy = d.clone();
                Value::Dict(copy)
            },
        }
    }
}

impl Clone for DictRecord {
    fn clone(&self) -> (r: Self)
        ensures
            r.deep_view() == self.deep_view(),
        decreases self,
    {
        let mut copy: Vec<(String, Value)> = Vec::new();
        let mut i: usize = 0;
        while i < self.entries.len()
            invariant
                i <= self.entries.len(),
                copy.len() == i,
                forall|j: int|
                    #![trigger copy@[j]]
                    0 <= j < i ==> copy@[j].0@ == self.entries@[j].0@ && value_view(copy@[j].1)
                        == value_view(self.entries@[j].1),
            decreases self.entries.len() - i,
        {
            assert(decreases_to!(self.entries => self.entries[i as int]));
            copy.push((self.entries[i].0.clone(), self.entries[i].1.clone()));
            i = i + 1;
        }
        proof {
            use_type_invariant(self);
            let r = DictRecord { entries: copy };
            assert(r.deep_view() =~= self.deep_view());
        }
        DictRecord { entries: copy }
    }
}

impl Clone for Record {
    fn clone(&self) -> (r: Self)
        ensures
            r.deep_view() == self.deep_view(),
    {
        match self {
            Record::Text(s) => Record::Text(s.clone()),
            Record::Dict(d) => Record::Dict(d.clone()),
        }
    }
}

// ---------------------------------------------------------------------------------------------
// Equality

fn same_bytes(a: &Vec<u8>, b: &Vec<u8>) -> (r: bool)
    ensures
        r == (a@ == b@),
{
    if a.len() != b.len() {
        return false;
    }
    let mut i: usize = 0;
    while i < a.len()
        invariant
            i <= a.len(),
            a.len() == b.len(),
            forall|j: int| 0 <= j < i ==> a@[j] == b@[j],
        decreases a.len() - i,
    {
        if a[i] != b[i] {
            return false;
        }
        i = i + 1;
    }
    assert(a@ =~= b@);
    true
}

impl Value {
    /// Whether two values are the same: of the same variant, with the same content. Floating
    /// point numbers are the same if their bit patterns and their renderings are; equal bits have
    /// equal renderings wherever the renderings belong to the bits.
    pub fn same(&self, other: &Value) -> (r: bool)
        ensures
            r == (self.deep_view() == other.deep_view()),
        decreases self,
    {
        match (self, other) {
            (Value::String(a), Value::String(b)) => *a == *b,
            (Value::Bytes(a), Value::Bytes(b)) => same_bytes(a, b),
            (Value::I64(a), Value::I64(b)) => *a == *b,
            (Value::U64(a), Value::U64(b)) => *a == *b,
            (Value::F64(a), Value::F64(b)) => a.bits == b.bits && a.debug == b.debug && a.display
                == b.display,
            (Value::Bool(a), Value::Bool(b)) => *a == *b,
            (Value::Null, Value::Null) => true,
            (Value::List(a), Value::List(b)) => {
                if a.len() != b.len() {
                    assert(self.deep_view()->List_0.len() != other.deep_view()->List_0.len());
                    return false;
                }
                let mut i: usize = 0;
                while i < a.len()
                    invariant
                        i <= a.len(),
                        a.len() == b.len(),
                        *self == Value::List(*a),
                        *other == Value::List(*b),
                        forall|j: int|
                            0 <= j < i ==> value_view(#[trigger] a@[j]) == value_view(b@[j]),
                    decreases a.len() - i,
                {
                    assert(decreases_to!(*self => self->List_0));
                    assert(decreases_to!(*a => a[i as int]));
                    if !a[i].same(&b[i]) {
                        assert(self.deep_view()->List_0[i as int]
                            != other.deep_view()->List_0[i as int]);
                        return false;
                    }
                    i = i + 1;
                }
                assert(self.deep_view()->List_0 =~= other.deep_view()->List_0);
                true
            },
            (Value::Dict(a), Value::Dict(b)) => a.same(b),
            _ => false,
        }
    }
}

impl DictRecord {
    /// Whether two dictionaries have the same values under the same keys.
    pub fn same(&self, other: &DictRecord) -> (r: bool)
        ensures
            r == (self.deep_view() == other.deep_view()),
        decreases self,
    {
        if self.entries.len() != other.entries.len() {
            assert(self.deep_view().len() != other.deep_view().len());
            return false;
        }
        let mut i: usize = 0;
        while i < self.entries.len()
            invariant
                i <= self.entries.len(),
                self.entries.len() == other.entries.len(),
                forall|j: int|
                    0 <= j < i ==> #[trigger] self.deep_view()[j] == other.deep_view()[j],
            decreases self.entries.len() - i,
        {
            assert(decreases_to!(self.entries => self.entries[i as int]));
            if self.entries[i].0 != other.entries[i].0 || !self.entries[i].1.same(
                &other.entries[i].1,
            ) {
                assert(self.deep_view()[i as int] != other.deep_view()[i as int]);
                return false;
            }
            i = i + 1;
        }
        assert(self.deep_view() =~= other.deep_view());
        true
    }
}

impl Record {
    /// Whether two records are the same.
    pub fn same(&self, other: &Record) -> (r: bool)
        ensures
            r == (self.deep_view() == other.deep_view()),
    {
        match (self, other) {
            (Record::Text(a), Record::Text(b)) => *a == *b,
            (Record::Dict(a), Record::Dict(b)) => a.same(b),
            _ => false,
        }
    }
}

impl PartialEq for Value {
    fn eq(&self, other: &Self) -> (r: bool) {
        self.same(other)
    }
}

impl vstd::std_specs::cmp::PartialEqSpecImpl for Value {
    open spec fn obeys_eq_spec() -> bool {
        true
    }

    open spec fn eq_spec(&self, other: &Self) -> bool {
        self.deep_view() == other.deep_view()
    }
}

impl Eq for Value {

}

impl PartialEq for DictRecord {
    fn eq(&self, other: &Self) -> (r: bool) {
        self.same(other)
    }
}

impl vstd::std_specs::cmp::PartialEqSpecImpl for DictRecord {
    open spec fn obeys_eq_spec() -> bool {
        true
    }

    open spec fn eq_spec(&self, other: &Self) -> bool {
        self.deep_view() == other.deep_view()
    }
}

impl Eq for DictRecord {

}

impl PartialEq for Record {
    fn eq(&self, other: &Self) -> (r: bool) {
        self.same(other)
    }
}

impl vstd::std_specs::cmp::PartialEqSpecImpl for Record {
    open spec fn obeys_eq_spec() -> bool {
        true
    }

    open spec fn eq_spec(&self, other: &Self) -> bool {
        self.deep_view() == other.deep_view()
    }
}

impl Eq for Record {

}

} // verus!
