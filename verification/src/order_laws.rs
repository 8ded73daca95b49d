//! Laws of order: texts, bytes and values are compared by where they first differ.

use crate::order;
use crate::order::Relation;
use crate::value::{DictView, RecordView, ValueView};
use crate::value_order;
use vstd::prelude::*;
use vstd::utf8::*;

verus! {

/// Whether two sequences agree before a place, and one of them ends or both differ there.
pub open spec fn first_differ_at<A>(x: Seq<A>, y: Seq<A>, i: int) -> bool {
    &&& 0 <= i <= x.len()
    &&& i <= y.len()
    &&& forall|j: int| #![trigger x[j], y[j]] 0 <= j < i ==> x[j] == y[j]
    &&& i < x.len() && i < y.len() ==> x[i] != y[i]
}

/// How two sequences stand to each other where one of them ends: the shorter comes first.
pub open spec fn where_one_ends<A>(x: Seq<A>, y: Seq<A>) -> Relation {
    if x.len() < y.len() {
        Relation::Less
    } else if x.len() > y.len() {
        Relation::Greater
    } else {
        Relation::Same
    }
}

/// Bytes are compared at the first place where they differ, and the beginning of others comes before
/// them.
pub proof fn bytes_compare_where_they_differ(x: Seq<u8>, y: Seq<u8>, i: int)
    requires
        first_differ_at(x, y, i),
    ensures
        order::byte_order(x, y) == if i == x.len() || i == y.len() {
            where_one_ends(x, y)
        } else if x[i] < y[i] {
            Relation::Less
        } else {
            Relation::Greater
        },
    decreases x.len(),
{
    if i > 0 {
        assert(x[0] == y[0]);
        let a = x.drop_first();
        let b = y.drop_first();
        assert forall|j: int| #![trigger a[j], b[j]] 0 <= j < i - 1 implies a[j] == b[j] by {
            assert(a[j] == x[j + 1] && b[j] == y[j + 1]);
        }
        bytes_compare_where_they_differ(a, b, i - 1);
    }
}

proof fn lemma_scalars_in_order(a: u32, b: u32)
    requires
        is_scalar(a),
        is_scalar(b),
        a < b,
    ensures
        exists|k: int|
            0 <= k < encode_scalar(a).len() && k < encode_scalar(b).len() && (forall|j: int|
                0 <= j < k ==> encode_scalar(a)[j] == encode_scalar(b)[j])
                && #[trigger] encode_scalar(a)[k] < encode_scalar(b)[k],
{
    let x = encode_scalar(a);
    let y = encode_scalar(b);
    if has_width_1_encoding(a) {
        assert(a <= 0x7f && a < b && b <= 0x7f ==> leading_byte_width_1(a) < leading_byte_width_1(b))
            by (bit_vector);
        assert(a <= 0x7f && 0x80 <= b <= 0x7ff ==> leading_byte_width_1(a) < leading_byte_width_2(b))
            by (bit_vector);
        assert(a <= 0x7f && 0x800 <= b <= 0xffff ==> leading_byte_width_1(a) < leading_byte_width_3(
            b,
        )) by (bit_vector);
        assert(a <= 0x7f && 0x10000 <= b <= 0x10ffff ==> leading_byte_width_1(a)
            < leading_byte_width_4(b)) by (bit_vector);
        assert(x[0] < y[0]);
    } else if has_width_2_encoding(a) {
        assert(0x80 <= a < b <= 0x7ff ==> leading_byte_width_2(a) < leading_byte_width_2(b) || (
        leading_byte_width_2(a) == leading_byte_width_2(b) && last_continuation_byte(a)
            < last_continuation_byte(b))) by (bit_vector);
        assert(0x80 <= a <= 0x7ff && 0x800 <= b <= 0xffff ==> leading_byte_width_2(a)
            < leading_byte_width_3(b)) by (bit_vector);
        assert(0x80 <= a <= 0x7ff && 0x10000 <= b <= 0x10ffff ==> leading_byte_width_2(a)
            < leading_byte_width_4(b)) by (bit_vector);
        assert(x[0] < y[0] || (x[0] == y[0] && x[1] < y[1]));
    } else if has_width_3_encoding(a) {
        assert(0x800 <= a < b <= 0xffff ==> leading_byte_width_3(a) < leading_byte_width_3(b) || (
        leading_byte_width_3(a) == leading_byte_width_3(b) && (second_last_continuation_byte(a)
            < second_last_continuation_byte(b) || (second_last_continuation_byte(a)
            == second_last_continuation_byte(b) && last_continuation_byte(a)
            < last_continuation_byte(b))))) by (bit_vector);
        assert(0x800 <= a <= 0xffff && 0x10000 <= b <= 0x10ffff ==> leading_byte_width_3(a)
            < leading_byte_width_4(b)) by (bit_vector);
        assert(x[0] < y[0] || (x[0] == y[0] && (x[1] < y[1] || (x[1] == y[1] && x[2] < y[2]))));
    } else {
        assert(0x10000 <= a < b <= 0x10ffff ==> leading_byte_width_4(a) < leading_byte_width_4(b)
            || (leading_byte_width_4(a) == leading_byte_width_4(b) && (third_last_continuation_byte(
            a,
        ) < third_last_continuation_byte(b) || (third_last_continuation_byte(a)
            == third_last_continuation_byte(b) && (second_last_continuation_byte(a)
            < second_last_continuation_byte(b) || (second_last_continuation_byte(a)
            == second_last_continuation_byte(b) && last_continuation_byte(a)
            < last_continuation_byte(b))))))) by (bit_vector);
        assert(x[0] < y[0] || (x[0] == y[0] && (x[1] < y[1] || (x[1] == y[1] && (x[2] < y[2] || (
        x[2] == y[2] && x[3] < y[3]))))));
    }
}

proof fn lemma_same_beginning(p: Seq<u8>, x: Seq<u8>, y: Seq<u8>)
    ensures
        order::byte_order(p + x, p + y) == order::byte_order(x, y),
    decreases p.len(),
{
    if p.len() == 0 {
        assert(p + x =~= x);
        assert(p + y =~= y);
    } else {
        lemma_same_beginning(p.drop_first(), x, y);
        assert((p + x).drop_first() =~= p.drop_first() + x);
        assert((p + y).drop_first() =~= p.drop_first() + y);
    }
}

proof fn lemma_chars_differ(c: char, d: char)
    requires
        c != d,
    ensures
        c as u32 != d as u32,
{
}

proof fn lemma_first_chars(a: Seq<char>, b: Seq<char>)
    requires
        a.len() > 0,
        b.len() > 0,
        (a[0] as u32) < (b[0] as u32),
    ensures
        order::text_order(a, b) == Relation::Less,
{
    char_is_scalar(a[0]);
    char_is_scalar(b[0]);
    let c = a[0] as u32;
    let d = b[0] as u32;
    lemma_scalars_in_order(c, d);
    let k = choose|k: int|
        0 <= k < encode_scalar(c).len() && k < encode_scalar(d).len() && (forall|j: int|
            0 <= j < k ==> encode_scalar(c)[j] == encode_scalar(d)[j]) && #[trigger] encode_scalar(
            c,
        )[k] < encode_scalar(d)[k];
    let x = encode_utf8(a);
    let y = encode_utf8(b);
    assert(x == encode_scalar(c) + encode_utf8(a.drop_first()));
    assert(y == encode_scalar(d) + encode_utf8(b.drop_first()));
    assert(x[k] == encode_scalar(c)[k] && y[k] == encode_scalar(d)[k]);
    assert forall|j: int| #![trigger x[j], y[j]] 0 <= j < k implies x[j] == y[j] by {
        assert(x[j] == encode_scalar(c)[j] && y[j] == encode_scalar(d)[j]);
    }
    bytes_compare_where_they_differ(x, y, k);
}

/// Texts are compared at the first character in which they differ, by its number, and the beginning
/// of a text comes before it.
pub proof fn texts_compare_where_they_differ(a: Seq<char>, b: Seq<char>, i: int)
    requires
        first_differ_at(a, b, i),
    ensures
        order::text_order(a, b) == if i == a.len() || i == b.len() {
            where_one_ends(a, b)
        } else if (a[i] as u32) < (b[i] as u32) {
            Relation::Less
        } else {
            Relation::Greater
        },
    decreases a.len(),
{
    if i > 0 {
        assert(a[0] == b[0]);
        let c = a.drop_first();
        let d = b.drop_first();
        assert forall|j: int| #![trigger c[j], d[j]] 0 <= j < i - 1 implies c[j] == d[j] by {
            assert(c[j] == a[j + 1] && d[j] == b[j + 1]);
        }
        texts_compare_where_they_differ(c, d, i - 1);
        lemma_same_beginning(encode_scalar(a[0] as u32), encode_utf8(c), encode_utf8(d));
    } else if a.len() == 0 || b.len() == 0 {
        if a.len() > 0 {
            assert(encode_utf8(a).len() > 0);
        }
        if b.len() > 0 {
            assert(encode_utf8(b).len() > 0);
        }
    } else {
        lemma_chars_differ(a[0], b[0]);
        if (a[0] as u32) < (b[0] as u32) {
            lemma_first_chars(a, b);
        } else {
            lemma_first_chars(b, a);
            order::text_order_reversed(b, a);
        }
    }
}

/// Lists are compared at the first item in which they differ, and the beginning of a list comes
/// before it.
pub proof fn lists_compare_where_they_differ(x: Seq<ValueView>, y: Seq<ValueView>, i: int)
    requires
        first_differ_at(x, y, i),
    ensures
        value_order::value_order(ValueView::List(x), ValueView::List(y)) == if i == x.len() || i
            == y.len() {
            where_one_ends(x, y)
        } else {
            value_order::value_order(x[i], y[i])
        },
    decreases x.len(),
{
    if i > 0 {
        assert(x[0] == y[0]);
        value_order::value_order_same(x[0], y[0]);
        let a = x.drop_first();
        let b = y.drop_first();
        assert forall|j: int| #![trigger a[j], b[j]] 0 <= j < i - 1 implies a[j] == b[j] by {
            assert(a[j] == x[j + 1] && b[j] == y[j + 1]);
        }
        lists_compare_where_they_differ(a, b, i - 1);
    } else if i < x.len() && i < y.len() {
        value_order::value_order_same(x[0], y[0]);
    }
}

proof fn lemma_dict_order_step(x: DictView, y: DictView)
    requires
        x.len() > 0,
        y.len() > 0,
    ensures
        x[0] == y[0] ==> value_order::dict_order(x, y) == value_order::dict_order(
            x.drop_first(),
            y.drop_first(),
        ),
        x[0] != y[0] ==> value_order::dict_order(x, y) == if x[0].0 != y[0].0 {
            order::text_order(x[0].0, y[0].0)
        } else {
            value_order::value_order(x[0].1, y[0].1)
        },
{
    order::text_order_equal(x[0].0, y[0].0);
    value_order::value_order_same(x[0].1, y[0].1);
    let keys = order::text_order(x[0].0, y[0].0);
    let values = value_order::value_order(x[0].1, y[0].1);
    let rest = value_order::dict_order(x.drop_first(), y.drop_first());
    assert(value_order::dict_order(x, y) == value_order::refined(
        value_order::refined(keys, values),
        rest,
    ));
    assert(x[0] == y[0] <==> x[0].0 == y[0].0 && x[0].1 == y[0].1);
}

/// Dictionaries are compared at the first entry in which they differ, by its key and then by its
/// value, and the beginning of a dictionary comes before it.
pub proof fn dictionaries_compare_where_they_differ(x: DictView, y: DictView, i: int)
    requires
        first_differ_at(x, y, i),
    ensures
        value_order::dict_order(x, y) == if i == x.len() || i == y.len() {
            where_one_ends(x, y)
        } else if x[i].0 != y[i].0 {
            order::text_order(x[i].0, y[i].0)
        } else {
            value_order::value_order(x[i].1, y[i].1)
        },
    decreases x.len(),
{
    if x.len() > 0 && y.len() > 0 {
        lemma_dict_order_step(x, y);
    }
    if i > 0 {
        assert(x[0] == y[0]);
        let a = x.drop_first();
        let b = y.drop_first();
        assert forall|j: int| #![trigger a[j], b[j]] 0 <= j < i - 1 implies a[j] == b[j] by {
            assert(a[j] == x[j + 1] && b[j] == y[j + 1]);
        }
        dictionaries_compare_where_they_differ(a, b, i - 1);
    }
}

/// Dictionaries are compared alike as values, as records and by themselves.
pub proof fn dictionaries_compare_alike(x: DictView, y: DictView)
    ensures
        value_order::value_order(ValueView::Dict(x), ValueView::Dict(y)) == value_order::dict_order(
            x,
            y,
        ),
        value_order::record_order(RecordView::Dict(x), RecordView::Dict(y))
            == value_order::dict_order(x, y),
{
}

/// What comes before what among plain values: a smaller number, and what is false; and among records,
/// a text before a dictionary.
pub proof fn plain_values_are_in_order(
    a: int,
    b: int,
    s: Seq<char>,
    t: Seq<char>,
    x: Seq<u8>,
    y: Seq<u8>,
    d: DictView,
)
    ensures
        i64::MIN <= a < b <= i64::MAX ==> value_order::value_order(
            ValueView::I64(a as i64),
            ValueView::I64(b as i64),
        ) == Relation::Less,
        0 <= a < b <= u64::MAX ==> value_order::value_order(
            ValueView::U64(a as u64),
            ValueView::U64(b as u64),
        ) == Relation::Less,
        value_order::value_order(ValueView::Bool(false), ValueView::Bool(true)) == Relation::Less,
        value_order::value_order(ValueView::String(s), ValueView::String(t)) == order::text_order(
            s,
            t,
        ),
        value_order::value_order(ValueView::Bytes(x), ValueView::Bytes(y)) == order::byte_order(
            x,
            y,
        ),
        value_order::record_order(RecordView::Text(s), RecordView::Text(t)) == order::text_order(
            s,
            t,
        ),
        value_order::record_order(RecordView::Text(s), RecordView::Dict(d)) == Relation::Less,
        value_order::record_order(RecordView::Dict(d), RecordView::Text(s)) == Relation::Greater,
{
}

/// Whether values of two kinds stand next to each other: texts come first, then bytes, signed and
/// unsigned numbers, fractions, truth values, what is missing, lists, and dictionaries.
pub open spec fn next_kinds(a: ValueView, b: ValueView) -> bool {
    ||| a is String && b is Bytes
    ||| a is Bytes && b is I64
    ||| a is I64 && b is U64
    ||| a is U64 && b is F64
    ||| a is F64 && b is Bool
    ||| a is Bool && b is Null
    ||| a is Null && b is List
    ||| a is List && b is Dict
}

/// Values of different kinds are ordered by kind alone.
pub proof fn kinds_are_in_order(a: ValueView, b: ValueView)
    requires
        next_kinds(a, b),
    ensures
        value_order::value_order(a, b) == Relation::Less,
        value_order::value_order(b, a) == Relation::Greater,
{
}

} // verus!
