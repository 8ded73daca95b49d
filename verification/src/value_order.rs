//! The order of values: by variant first, then by content.

use crate::order;
use crate::order::{compare_bytes, compare_texts, Relation};
use crate::value::{DictRecord, DictView, FloatView, Record, RecordView, Value, ValueView};
use std::cmp::Ordering;
use vstd::prelude::*;

verus! {

/// The place of a value's variant among the variants.
pub open spec fn variant_tag(v: ValueView) -> int {
    match v {
        ValueView::String(_) => 0,
        ValueView::Bytes(_) => 1,
        ValueView::I64(_) => 2,
        ValueView::U64(_) => 3,
        ValueView::F64(_) => 4,
        ValueView::Bool(_) => 5,
        ValueView::Null => 6,
        ValueView::List(_) => 7,
        ValueView::Dict(_) => 8,
    }
}

/// The order of integers.
pub open spec fn int_order(a: int, b: int) -> Relation {
    if a < b {
        Relation::Less
    } else if a > b {
        Relation::Greater
    } else {
        Relation::Same
    }
}

/// The first relation where it decides, else the second.
pub open spec fn refined(first: Relation, second: Relation) -> Relation {
    if first == Relation::Same {
        second
    } else {
        first
    }
}

/// The order of double-precision numbers: by bit pattern, and then by their renderings, which
/// decide only where they do not belong to the bits.
pub open spec fn float_order(a: FloatView, b: FloatView) -> Relation {
    refined(
        int_order(a.bits as int, b.bits as int),
        refined(order::text_order(a.debug, b.debug), order::text_order(a.display, b.display)),
    )
}

/// The order of truth values: false comes first.
pub open spec fn bool_order(a: bool, b: bool) -> Relation {
    if a == b {
        Relation::Same
    } else if b {
        Relation::Less
    } else {
        Relation::Greater
    }
}

/// The order of values. Those of different variants stand in the order of the variants; lists
/// and dictionaries compare lexicographically, entry by entry.
pub open spec fn value_order(a: ValueView, b: ValueView) -> Relation
    decreases a,
{
    match (a, b) {
        (ValueView::String(x), ValueView::String(y)) => order::text_order(x, y),
        (ValueView::Bytes(x), ValueView::Bytes(y)) => order::byte_order(x, y),
        (ValueView::I64(x), ValueView::I64(y)) => int_order(x as int, y as int),
        (ValueView::U64(x), ValueView::U64(y)) => int_order(x as int, y as int),
        (ValueView::F64(x), ValueView::F64(y)) => float_order(x, y),
        (ValueView::Bool(x), ValueView::Bool(y)) => bool_order(x, y),
        (ValueView::Null, ValueView::Null) => Relation::Same,
        (ValueView::List(x), ValueView::List(y)) => list_order(x, y),
        (ValueView::Dict(x), ValueView::Dict(y)) => dict_order(x, y),
        _ => int_order(variant_tag(a), variant_tag(b)),
    }
}

/// The lexicographic order of lists of values.
pub open spec fn list_order(a: Seq<ValueView>, b: Seq<ValueView>) -> Relation
    decreases a,
{
    if a.len() == 0 || b.len() == 0 {
        int_order(a.len() as int, b.len() as int)
    } else {
        refined(value_order(a[0], b[0]), list_order(a.drop_first(), b.drop_first()))
    }
}

/// The lexicographic order of dictionaries, as lists of entries: keys before values.
pub open spec fn dict_order(a: DictView, b: DictView) -> Relation
    decreases a,
{
    if a.len() == 0 || b.len() == 0 {
        int_order(a.len() as int, b.len() as int)
    } else {
        refined(
            refined(order::text_order(a[0].0, b[0].0), value_order(a[0].1, b[0].1)),
            dict_order(a.drop_first(), b.drop_first()),
        )
    }
}

/// The order of records: text comes before dictionaries.
pub open spec fn record_order(a: RecordView, b: RecordView) -> Relation {
    match (a, b) {
        (RecordView::Text(x), RecordView::Text(y)) => order::text_order(x, y),
        (RecordView::Dict(x), RecordView::Dict(y)) => dict_order(x, y),
        (RecordView::Text(_), RecordView::Dict(_)) => Relation::Less,
        (RecordView::Dict(_), RecordView::Text(_)) => Relation::Greater,
    }
}

// ---------------------------------------------------------------------------------------------
// Laws

/// Values compare as the same exactly when they are the same.
pub proof fn value_order_same(a: ValueView, b: ValueView)
    ensures
        value_order(a, b) == Relation::Same <==> a == b,
    decreases a,
{
    match (a, b) {
        (ValueView::String(x), ValueView::String(y)) => {
            order::text_order_equal(x, y);
        },
        (ValueView::Bytes(x), ValueView::Bytes(y)) => {
            order::byte_order_equal(x, y);
        },
        (ValueView::F64(x), ValueView::F64(y)) => {
            order::text_order_equal(x.debug, y.debug);
            order::text_order_equal(x.display, y.display);
        },
        (ValueView::List(x), ValueView::List(y)) => {
            lemma_list_order_same(x, y);
        },
        (ValueView::Dict(x), ValueView::Dict(y)) => {
            lemma_dict_order_same(x, y);
        },
        _ => {},
    }
}

proof fn lemma_list_order_same(a: Seq<ValueView>, b: Seq<ValueView>)
    ensures
        list_order(a, b) == Relation::Same <==> a == b,
    decreases a,
{
    if a.len() == 0 && b.len() == 0 {
        assert(a =~= b);
    } else if a.len() > 0 && b.len() > 0 {
        value_order_same(a[0], b[0]);
        lemma_list_order_same(a.drop_first(), b.drop_first());
        assert(a =~= seq![a[0]] + a.drop_first());
        assert(b =~= seq![b[0]] + b.drop_first());
    }
}

proof fn lemma_dict_order_same(a: DictView, b: DictView)
    ensures
        dict_order(a, b) == Relation::Same <==> a == b,
    decreases a,
{
    if a.len() == 0 && b.len() == 0 {
        assert(a =~= b);
    } else if a.len() > 0 && b.len() > 0 {
        order::text_order_equal(a[0].0, b[0].0);
        value_order_same(a[0].1, b[0].1);
        lemma_dict_order_same(a.drop_first(), b.drop_first());
        assert(a =~= seq![a[0]] + a.drop_first());
        assert(b =~= seq![b[0]] + b.drop_first());
    }
}

/// Exchanging the two values reverses their order.
pub proof fn value_order_reversed(a: ValueView, b: ValueView)
    ensures
        value_order(b, a) == order::reversed(value_order(a, b)),
    decreases a,
{
    match (a, b) {
        (ValueView::String(x), ValueView::String(y)) => {
            order::text_order_reversed(x, y);
        },
        (ValueView::Bytes(x), ValueView::Bytes(y)) => {
            order::byte_order_reversed(x, y);
        },
        (ValueView::F64(x), ValueView::F64(y)) => {
            order::text_order_reversed(x.debug, y.debug);
            order::text_order_reversed(x.display, y.display);
        },
        (ValueView::List(x), ValueView::List(y)) => {
            lemma_list_order_reversed(x, y);
        },
        (ValueView::Dict(x), ValueView::Dict(y)) => {
            lemma_dict_order_reversed(x, y);
        },
        _ => {},
    }
}

proof fn lemma_list_order_reversed(a: Seq<ValueView>, b: Seq<ValueView>)
    ensures
        list_order(b, a) == order::reversed(list_order(a, b)),
    decreases a,
{
    if a.len() > 0 && b.len() > 0 {
        value_order_reversed(a[0], b[0]);
        lemma_list_order_reversed(a.drop_first(), b.drop_first());
    }
}

proof fn lemma_dict_order_reversed(a: DictView, b: DictView)
    ensures
        dict_order(b, a) == order::reversed(dict_order(a, b)),
    decreases a,
{
    if a.len() > 0 && b.len() > 0 {
        order::text_order_reversed(a[0].0, b[0].0);
        value_order_reversed(a[0].1, b[0].1);
        lemma_dict_order_reversed(a.drop_first(), b.drop_first());
    }
}

/// The order of values is transitive.
pub proof fn value_order_transitive(a: ValueView, b: ValueView, c: ValueView)
    requires
        value_order(a, b) == Relation::Less,
        value_order(b, c) == Relation::Less,
    ensures
        value_order(a, c) == Relation::Less,
    decreases a,
{
    match (a, b, c) {
        (ValueView::String(x), ValueView::String(y), ValueView::String(z)) => {
            order::text_order_transitive(x, y, z);
        },
        (ValueView::Bytes(x), ValueView::Bytes(y), ValueView::Bytes(z)) => {
            order::byte_order_transitive(x, y, z);
        },
        (ValueView::F64(x), ValueView::F64(y), ValueView::F64(z)) => {
            lemma_float_order_transitive(x, y, z);
        },
        (ValueView::List(x), ValueView::List(y), ValueView::List(z)) => {
            lemma_list_order_transitive(x, y, z);
        },
        (ValueView::Dict(x), ValueView::Dict(y), ValueView::Dict(z)) => {
            lemma_dict_order_transitive(x, y, z);
        },
        _ => {},
    }
}

proof fn lemma_float_order_transitive(x: FloatView, y: FloatView, z: FloatView)
    requires
        float_order(x, y) == Relation::Less,
        float_order(y, z) == Relation::Less,
    ensures
        float_order(x, z) == Relation::Less,
{
    order::text_order_equal(x.debug, y.debug);
    order::text_order_equal(y.debug, z.debug);
    order::text_order_equal(x.display, y.display);
    order::text_order_equal(y.display, z.display);
    if order::text_before(x.debug, y.debug) && order::text_before(y.debug, z.debug) {
        order::text_order_transitive(x.debug, y.debug, z.debug);
    }
    if order::text_before(x.display, y.display) && order::text_before(y.display, z.display) {
        order::text_order_transitive(x.display, y.display, z.display);
    }
}

proof fn lemma_list_order_transitive(a: Seq<ValueView>, b: Seq<ValueView>, c: Seq<ValueView>)
    requires
        list_order(a, b) == Relation::Less,
        list_order(b, c) == Relation::Less,
    ensures
        list_order(a, c) == Relation::Less,
    decreases a,
{
    if a.len() > 0 && b.len() > 0 && c.len() > 0 {
        value_order_same(a[0], b[0]);
        value_order_same(b[0], c[0]);
        if value_order(a[0], b[0]) == Relation::Less && value_order(b[0], c[0]) == Relation::Less {
            value_order_transitive(a[0], b[0], c[0]);
        }
        if a[0] == b[0] && b[0] == c[0] {
            lemma_list_order_transitive(a.drop_first(), b.drop_first(), c.drop_first());
        }
    }
}

spec fn entry_order(a: (Seq<char>, ValueView), b: (Seq<char>, ValueView)) -> Relation {
    refined(order::text_order(a.0, b.0), value_order(a.1, b.1))
}

proof fn lemma_dict_order_transitive(a: DictView, b: DictView, c: DictView)
    requires
        dict_order(a, b) == Relation::Less,
        dict_order(b, c) == Relation::Less,
    ensures
        dict_order(a, c) == Relation::Less,
    decreases a,
{
    if a.len() > 0 && b.len() > 0 && c.len() > 0 {
        order::text_order_equal(a[0].0, b[0].0);
        order::text_order_equal(b[0].0, c[0].0);
        value_order_same(a[0].1, b[0].1);
        value_order_same(b[0].1, c[0].1);
        if order::text_before(a[0].0, b[0].0) && order::text_before(b[0].0, c[0].0) {
            order::text_order_transitive(a[0].0, b[0].0, c[0].0);
        }
        if value_order(a[0].1, b[0].1) == Relation::Less && value_order(b[0].1, c[0].1)
            == Relation::Less {
            value_order_transitive(a[0].1, b[0].1, c[0].1);
        }
        if entry_order(a[0], b[0]) == Relation::Same && entry_order(b[0], c[0]) == Relation::Same {
            lemma_dict_order_transitive(a.drop_first(), b.drop_first(), c.drop_first());
        }
    }
}

// ---------------------------------------------------------------------------------------------
// Comparing

fn compare_numbers(a: i128, b: i128) -> (r: Relation)
    ensures
        r == int_order(a as int, b as int),
{
    if a < b {
        Relation::Less
    } else if a > b {
        Relation::Greater
    } else {
        Relation::Same
    }
}

fn refine(first: Relation, second: Relation) -> (r: Relation)
    ensures
        r == refined(first, second),
{
    match first {
        Relation::Same => second,
        _ => first,
    }
}

impl Value {
    fn tag(&self) -> (r: u8)
        ensures
            r == variant_tag(self.deep_view()),
    {
        match self {
            Value::String(_) => 0,
            Value::Bytes(_) => 1,
            Value::I64(_) => 2,
            Value::U64(_) => 3,
            Value::F64(_) => 4,
            Value::Bool(_) => 5,
            Value::Null => 6,
            Value::List(_) => 7,
            Value::Dict(_) => 8,
        }
    }

    /// How this value stands to another in the order of values.
    pub fn relation_to(&self, other: &Value) -> (r: Relation)
        ensures
            r == value_order(self.deep_view(), other.deep_view()),
        decreases self,
    {
        match (self, other) {
            (Value::String(a), Value::String(b)) => compare_texts(a.as_str(), b.as_str()),
            (Value::Bytes(a), Value::Bytes(b)) => compare_bytes(a.as_slice(), b.as_slice()),
            (Value::I64(a), Value::I64(b)) => compare_numbers(*a as i128, *b as i128),
            (Value::U64(a), Value::U64(b)) => compare_numbers(*a as i128, *b as i128),
            (Value::F64(a), Value::F64(b)) => refine(
                compare_numbers(a.bits as i128, b.bits as i128),
                refine(
                    compare_texts(a.debug.as_str(), b.debug.as_str()),
                    compare_texts(a.display.as_str(), b.display.as_str()),
                ),
            ),
            (Value::Bool(a), Value::Bool(b)) => if *a == *b {
                Relation::Same
            } else if *b {
                Relation::Less
            } else {
                Relation::Greater
            },
            (Value::Null, Value::Null) => Relation::Same,
            (Value::List(a), Value::List(b)) => {
                let ghost x = self.deep_view()->List_0;
                let ghost y = other.deep_view()->List_0;
                let mut i: usize = 0;
                assert(x.skip(0) =~= x);
                assert(y.skip(0) =~= y);
                while i < a.len() && i < b.len()
                    invariant
                        i <= a.len(),
                        i <= b.len(),
                        *self == Value::List(*a),
                        *other == Value::List(*b),
                        x == self.deep_view()->List_0,
                        y == other.deep_view()->List_0,
                        list_order(x, y) == list_order(x.skip(i as int), y.skip(i as int)),
                    decreases a.len() - i,
                {
                    assert(decreases_to!(*self => self->List_0));
                    assert(decreases_to!(*a => a[i as int]));
                    let relation = a[i].relation_to(&b[i]);
                    assert(x.skip(i as int).drop_first() =~= x.skip(i + 1));
                    assert(y.skip(i as int).drop_first() =~= y.skip(i + 1));
                    match relation {
                        Relation::Same => {},
                        _ => {
                            return relation;
                        },
                    }
                    i = i + 1;
                }
                compare_numbers(a.len() as i128, b.len() as i128)
            },
            (Value::Dict(a), Value::Dict(b)) => a.relation_to(b),
            _ => compare_numbers(self.tag() as i128, other.tag() as i128),
        }
    }
}

impl DictRecord {
    /// How this dictionary stands to another in the order of dictionaries.
    pub fn relation_to(&self, other: &DictRecord) -> (r: Relation)
        ensures
            r == dict_order(self.deep_view(), other.deep_view()),
        decreases self,
    {
        let ghost x = self.deep_view();
        let ghost y = other.deep_view();
        let mut i: usize = 0;
        proof {
            self.lemma_listed();
            other.lemma_listed();
            assert(x.skip(0) =~= x);
            assert(y.skip(0) =~= y);
        }
        while i < self.entries.len() && i < other.entries.len()
            invariant
                i <= self.entries.len(),
                i <= other.entries.len(),
                self.listed() == self.entries@,
                other.listed() == other.entries@,
                x == self.deep_view(),
                y == other.deep_view(),
                dict_order(x, y) == dict_order(x.skip(i as int), y.skip(i as int)),
            decreases self.entries.len() - i,
        {
            assert(decreases_to!(self.entries => self.entries[i as int]));
            let by_key = compare_texts(
                self.entries[i].0.as_str(),
                other.entries[i].0.as_str(),
            );
            let by_value = self.entries[i].1.relation_to(&other.entries[i].1);
            let relation = refine(by_key, by_value);
            assert(x.skip(i as int).drop_first() =~= x.skip(i + 1));
            assert(y.skip(i as int).drop_first() =~= y.skip(i + 1));
            match relation {
                Relation::Same => {},
                _ => {
                    return relation;
                },
            }
            i = i + 1;
        }
        compare_numbers(self.entries.len() as i128, other.entries.len() as i128)
    }
}

impl Record {
    /// How this record stands to another in the order of records.
    pub fn relation_to(&self, other: &Record) -> (r: Relation)
        ensures
            r == record_order(self.deep_view(), other.deep_view()),
    {
        match (self, other) {
            (Record::Text(a), Record::Text(b)) => compare_texts(a.as_str(), b.as_str()),
            (Record::Dict(a), Record::Dict(b)) => a.relation_to(b),
            (Record::Text(_), Record::Dict(_)) => Relation::Less,
            (Record::Dict(_), Record::Text(_)) => Relation::Greater,
        }
    }
}

/// A relation in the vocabulary of the standard library.
pub open spec fn std_ordering(r: Relation) -> Ordering {
    match r {
        Relation::Less => Ordering::Less,
        Relation::Same => Ordering::Equal,
        Relation::Greater => Ordering::Greater,
    }
}

fn to_std_ordering(r: Relation) -> (o: Ordering)
    ensures
        o == std_ordering(r),
{
    match r {
        Relation::Less => Ordering::Less,
        Relation::Same => Ordering::Equal,
        Relation::Greater => Ordering::Greater,
    }
}

impl PartialOrd for Value {
    fn partial_cmp(&self, other: &Self) -> (r: Option<Ordering>) {
        Some(to_std_ordering(self.relation_to(other)))
    }
}

impl vstd::std_specs::cmp::PartialOrdSpecImpl for Value {
    open spec fn obeys_partial_cmp_spec() -> bool {
        true
    }

    open spec fn partial_cmp_spec(&self, other: &Self) -> Option<Ordering> {
        Some(std_ordering(value_order(self.deep_view(), other.deep_view())))
    }
}

impl PartialOrd for DictRecord {
    fn partial_cmp(&self, other: &Self) -> (r: Option<Ordering>) {
        Some(to_std_ordering(self.relation_to(other)))
    }
}

impl vstd::std_specs::cmp::PartialOrdSpecImpl for DictRecord {
    open spec fn obeys_partial_cmp_spec() -> bool {
        true
    }

    open spec fn partial_cmp_spec(&self, other: &Self) -> Option<Ordering> {
        Some(std_ordering(dict_order(self.deep_view(), other.deep_view())))
    }
}

impl PartialOrd for Record {
    fn partial_cmp(&self, other: &Self) -> (r: Option<Ordering>) {
        Some(to_std_ordering(self.relation_to(other)))
    }
}

impl vstd::std_specs::cmp::PartialOrdSpecImpl for Record {
    open spec fn obeys_partial_cmp_spec() -> bool {
        true
    }

    open spec fn partial_cmp_spec(&self, other: &Self) -> Option<Ordering> {
        Some(std_ordering(record_order(self.deep_view(), other.deep_view())))
    }
}

} // verus!
