//! Laws of the conversion of values: what they are spelled as, and that they stay apart.

use crate::record_laws;
use crate::records;
use crate::rendering;
use crate::text;
use crate::utils;
use crate::value;
use crate::value::{DictRecord, DictView, Record, RecordView, Value, ValueView};
use vstd::prelude::*;
use vstd::std_specs::convert::FromSpec;

verus! {

/// The number that decimal digits spell.
pub open spec fn number_read(s: Seq<char>) -> int
    decreases s.len(),
{
    if s.len() == 0 {
        0
    } else {
        10 * number_read(s.drop_last()) + (s.last() as u32 - 48)
    }
}

/// The number that decimal digits spell, with a minus sign before those of a negative one.
pub open spec fn signed_read(s: Seq<char>) -> int {
    if s.len() > 0 && s[0] == '-' {
        -number_read(s.skip(1))
    } else {
        number_read(s)
    }
}

/// The decimal representation of a number reads back as the number. It consists of digits alone,
/// and the first is no zero but for the number zero.
pub proof fn decimals_read_back(n: nat)
    ensures
        number_read(text::decimal(n)) == n,
        text::decimal(n).len() > 0,
        forall|i: int|
            0 <= i < text::decimal(n).len() ==> '0' <= #[trigger] text::decimal(n)[i] <= '9',
        text::decimal(n)[0] == '0' ==> n == 0,
        n < 10 ==> text::decimal(n).len() == 1,
    decreases n,
{
    let s = text::decimal(n);
    if n < 10 {
        assert(s.drop_last() =~= seq![]);
        reveal_with_fuel(number_read, 2);
        assert(s.last() == (48 + n) as char);
    } else {
        let front = text::decimal(n / 10);
        decimals_read_back(n / 10);
        assert(s.drop_last() =~= front);
        assert(s.last() == (48 + n % 10) as char);
        assert forall|i: int| 0 <= i < s.len() implies '0' <= #[trigger] s[i] <= '9' by {
            if i < front.len() {
                assert(s[i] == front[i]);
            }
        }
        assert(s[0] == front[0]);
    }
}

/// The decimal representation of an integer reads back as the integer.
pub proof fn signed_decimals_read_back(n: int)
    ensures
        signed_read(text::signed_decimal(n)) == n,
{
    let s = text::signed_decimal(n);
    if n < 0 {
        decimals_read_back((-n) as nat);
        assert(s.skip(1) =~= text::decimal((-n) as nat));
        assert(s[0] == '-');
    } else {
        decimals_read_back(n as nat);
        assert('0' <= text::decimal(n as nat)[0]);
    }
}

/// A number is handed to an encoder as its decimal representation, a truth value as its name with
/// a capital, and everything else as it is.
pub proof fn coercion_spells_values(v: ValueView)
    ensures
        match v {
            ValueView::I64(n) => utils::coerced(v) is String && signed_read(
                utils::coerced(v)->String_0,
            ) == n,
            ValueView::U64(n) => utils::coerced(v) is String && number_read(
                utils::coerced(v)->String_0,
            ) == n,
            ValueView::F64(x) => utils::coerced(v) == ValueView::String(x.display),
            ValueView::Bool(true) => utils::coerced(v) == ValueView::String("True"@),
            ValueView::Bool(false) => utils::coerced(v) == ValueView::String("False"@),
            _ => utils::coerced(v) == v,
        },
{
    match v {
        ValueView::I64(n) => {
            signed_decimals_read_back(n as int);
        },
        ValueView::U64(n) => {
            decimals_read_back(n as nat);
        },
        _ => {},
    }
}

/// Whether two values are of the same kind, one of those whose content is all there is to them:
/// texts, bytes, integers or truth values.
pub open spec fn same_plain_kind(v: ValueView, w: ValueView) -> bool {
    ||| v is String && w is String
    ||| v is Bytes && w is Bytes
    ||| v is I64 && w is I64
    ||| v is U64 && w is U64
    ||| v is Bool && w is Bool
}

/// Values of the same kind that differ stay apart when they are converted for an encoder, and when
/// they are taken into a key after that.
pub proof fn coercion_keeps_values_apart(v: ValueView, w: ValueView)
    requires
        same_plain_kind(v, w),
    ensures
        utils::coerced(v) == utils::coerced(w) <==> v == w,
        utils::hashable(utils::coerced(v)) == utils::hashable(utils::coerced(w)) <==> v == w,
{
    coercion_spells_values(v);
    coercion_spells_values(w);
    reveal_strlit("True");
    reveal_strlit("False");
    assert("True"@.len() != "False"@.len());
}

/// What a value is in a key: nested values are spelled out, and others are as they are.
pub proof fn keys_spell_out_nested_values(v: ValueView)
    ensures
        v is List || v is Dict ==> utils::hashable(v) == ValueView::String(
            rendering::canonical_text(v),
        ),
        !(v is List) && !(v is Dict) ==> utils::hashable(v) == v,
{
}

/// Two records that differ in a column, in values of the same kind, have different keys after their
/// columns were converted for an encoder.
pub proof fn records_that_differ_have_different_keys(
    d: DictView,
    e: DictView,
    columns: Seq<Seq<char>>,
    name: Seq<char>,
)
    requires
        value::dict_sorted(d),
        value::dict_sorted(e),
        columns.contains(name),
        value::dict_has(d, name),
        value::dict_has(e, name),
        same_plain_kind(value::dict_at(d, name), value::dict_at(e, name)),
        value::dict_at(d, name) != value::dict_at(e, name),
    ensures
        utils::key_of(records::coerced_dict(d, columns), columns) != utils::key_of(
            records::coerced_dict(e, columns),
            columns,
        ),
{
    record_laws::coercion_keeps_columns(d, columns, name);
    record_laws::coercion_keeps_columns(e, columns, name);
    record_laws::lemma_coerced_sorted(d, columns);
    record_laws::lemma_coerced_sorted(e, columns);
    utils::lemma_key_lookup(records::coerced_dict(d, columns), columns, name);
    utils::lemma_key_lookup(records::coerced_dict(e, columns), columns, name);
    coercion_keeps_values_apart(value::dict_at(d, name), value::dict_at(e, name));
}

/// The text that a value stands for: a text is itself, a null is nothing, and nested values are
/// spelled out; numbers and truth values are what they are for an encoder.
pub proof fn lossy_texts_of_values(v: ValueView)
    ensures
        match v {
            ValueView::String(s) => rendering::lossy_text(v) == s,
            ValueView::Null => rendering::lossy_text(v).len() == 0,
            ValueView::List(_) => rendering::lossy_text(v) == rendering::canonical_text(v),
            ValueView::Dict(_) => rendering::lossy_text(v) == rendering::canonical_text(v),
            ValueView::Bytes(b) => rendering::lossy_text(v) == text::utf8_lossy(b),
            _ => utils::coerced(v) == ValueView::String(rendering::lossy_text(v)),
        },
{
}

/// Plain data becomes the value that spells it, and a record holds what it is made from.
pub proof fn plain_data_becomes_values(
    small: i32,
    signed: i64,
    size: usize,
    unsigned: u64,
    truth: bool,
    text: String,
    bytes: Vec<u8>,
    d: DictRecord,
)
    ensures
        signed_read(rendering::lossy_text(<Value as FromSpec<i32>>::from_spec(small).deep_view()))
            == small,
        signed_read(rendering::lossy_text(<Value as FromSpec<i64>>::from_spec(signed).deep_view()))
            == signed,
        number_read(rendering::lossy_text(<Value as FromSpec<usize>>::from_spec(size).deep_view()))
            == size,
        number_read(
            rendering::lossy_text(<Value as FromSpec<u64>>::from_spec(unsigned).deep_view()),
        ) == unsigned,
        <Value as FromSpec<i32>>::from_spec(small).deep_view() is I64,
        <Value as FromSpec<i64>>::from_spec(signed).deep_view() is I64,
        <Value as FromSpec<usize>>::from_spec(size).deep_view() is U64,
        <Value as FromSpec<u64>>::from_spec(unsigned).deep_view() is U64,
        rendering::lossy_text(<Value as FromSpec<bool>>::from_spec(truth).deep_view()) == if truth {
            "True"@
        } else {
            "False"@
        },
        <Value as FromSpec<String>>::from_spec(text).deep_view() is String,
        rendering::lossy_text(<Value as FromSpec<String>>::from_spec(text).deep_view()) == text@,
        <Value as FromSpec<Vec<u8>>>::from_spec(bytes).deep_view() == ValueView::Bytes(bytes@),
        <Record as FromSpec<String>>::from_spec(text).deep_view() == RecordView::Text(text@),
        <Record as FromSpec<DictRecord>>::from_spec(d).deep_view() == RecordView::Dict(
            d.deep_view(),
        ),
{
    signed_decimals_read_back(small as int);
    signed_decimals_read_back(signed as int);
    decimals_read_back(size as nat);
    decimals_read_back(unsigned as nat);
}

} // verus!
