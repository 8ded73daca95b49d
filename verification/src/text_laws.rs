//! Laws of texts: words, escapes, nested values and records spelled out.

use crate::rendering;
use crate::text;
use crate::utils;
use crate::value;
use crate::value::{DictView, FloatView, RecordView, ValueView};
use vstd::prelude::*;

verus! {

// ---------------------------------------------------------------------------------------------
// Words

/// A text without white space is one word, and a text of nothing but white space has none.
pub proof fn runs_without_white_space_are_words(s: Seq<char>)
    ensures
        s.len() > 0 && (forall|i: int| 0 <= i < s.len() ==> !text::white_space(#[trigger] s[i]))
            ==> text::words(s) == seq![s],
        (forall|i: int| 0 <= i < s.len() ==> text::white_space(#[trigger] s[i])) ==> text::words(
            s,
        ).len() == 0,
    decreases s.len(),
{
    if s.len() > 0 {
        let init = s.drop_last();
        text::lemma_words_last(s);
        runs_without_white_space_are_words(init);
        assert(s[s.len() - 1] == s.last());
        if forall|i: int| 0 <= i < s.len() ==> !text::white_space(#[trigger] s[i]) {
            assert forall|i: int| 0 <= i < init.len() implies !text::white_space(
                #[trigger] init[i],
            ) by {
                assert(init[i] == s[i]);
            }
            assert(init.push(s.last()) =~= s);
            if init.len() > 0 {
                assert(!text::white_space(s[s.len() - 2]));
            } else {
                assert(text::words(init) =~= seq![]);
                assert(s =~= seq![s.last()]);
            }
            assert(text::words(s) =~= seq![s]);
        }
        if forall|i: int| 0 <= i < s.len() ==> text::white_space(#[trigger] s[i]) {
            assert forall|i: int| 0 <= i < init.len() implies text::white_space(
                #[trigger] init[i],
            ) by {
                assert(init[i] == s[i]);
            }
        }
    }
}

/// The characters that separate words.
pub open spec fn separators() -> Set<int> {
    set![
        0x9,
        0xa,
        0xb,
        0xc,
        0xd,
        0x20,
        0x85,
        0xa0,
        0x1680,
        0x2000,
        0x2001,
        0x2002,
        0x2003,
        0x2004,
        0x2005,
        0x2006,
        0x2007,
        0x2008,
        0x2009,
        0x200a,
        0x2028,
        0x2029,
        0x202f,
        0x205f,
        0x3000,
    ]
}

/// White space is what separates words.
pub proof fn separators_are_white_space(c: char)
    ensures
        text::white_space(c) <==> separators().contains(c as int),
{
}

/// Small letters of the Latin alphabet become capital, and everything else stays as it is.
pub proof fn what_capitals_are(s: Seq<char>, i: int)
    requires
        0 <= i < s.len(),
    ensures
        text::ascii_upper(s).len() == s.len(),
        'a' <= s[i] <= 'z' ==> text::ascii_upper(s)[i] as int - 'A' as int == s[i] as int - 'a' as int,
        !('a' <= s[i] <= 'z') ==> text::ascii_upper(s)[i] == s[i],
{
}

// ---------------------------------------------------------------------------------------------
// Escapes

/// Texts are escaped character by character.
pub proof fn escapes_follow_each_other(s: Seq<char>, t: Seq<char>)
    ensures
        text::escaped(s + t) == text::escaped(s) + text::escaped(t),
    decreases t.len(),
{
    if t.len() == 0 {
        assert(s + t =~= s);
        assert(text::escaped(s) + text::escaped(t) =~= text::escaped(s));
    } else {
        escapes_follow_each_other(s, t.drop_last());
        assert((s + t).drop_last() =~= s + t.drop_last());
        assert(text::escaped(s + t) =~= text::escaped(s) + text::escaped(t));
    }
}

proof fn lemma_literals()
    ensures
        "\\\""@ =~= seq!['\\', '"'],
        "\\\\"@ =~= seq!['\\', '\\'],
        "\\n"@ =~= seq!['\\', 'n'],
        "\\r"@ =~= seq!['\\', 'r'],
        "\\t"@ =~= seq!['\\', 't'],
        "\\u00"@ =~= seq!['\\', 'u', '0', '0'],
{
    reveal_strlit("\\\"");
    reveal_strlit("\\\\");
    reveal_strlit("\\n");
    reveal_strlit("\\r");
    reveal_strlit("\\t");
    reveal_strlit("\\u00");
}

/// The value of a hexadecimal digit.
pub open spec fn hex_value(c: char) -> int {
    if '0' <= c <= '9' {
        c as int - '0' as int
    } else {
        c as int - 'a' as int + 10
    }
}

/// The two hexadecimal digits of a byte read back as the byte.
pub proof fn hex_digits_read_back(b: u8)
    ensures
        text::hex_byte(b).len() == 2,
        16 * hex_value(text::hex_byte(b)[0]) + hex_value(text::hex_byte(b)[1]) == b,
{
}

/// Bytes are spelled out one by one.
pub proof fn hex_digits_follow_each_other(a: Seq<u8>, b: Seq<u8>, one: u8)
    ensures
        text::hex_bytes(a + b) == text::hex_bytes(a) + text::hex_bytes(b),
        text::hex_bytes(seq![one]) == text::hex_byte(one),
    decreases b.len(),
{
    if b.len() == 0 {
        assert(a + b =~= a);
        assert(text::hex_bytes(a) + text::hex_bytes(b) =~= text::hex_bytes(a));
    } else {
        hex_digits_follow_each_other(a, b.drop_last(), one);
        assert((a + b).drop_last() =~= a + b.drop_last());
        assert(text::hex_bytes(a + b) =~= text::hex_bytes(a) + text::hex_bytes(b));
    }
    assert(seq![one].drop_last() =~= seq![]);
    reveal_with_fuel(text::hex_bytes, 2);
    assert(text::hex_bytes(seq![one]) =~= text::hex_byte(one));
}

/// A text that is read back from its escapes.
pub open spec fn unescaped(t: Seq<char>) -> Seq<char>
    decreases t.len(),
{
    if t.len() == 0 {
        seq![]
    } else if t[0] != '\\' || t.len() == 1 {
        seq![t[0]] + unescaped(t.skip(1))
    } else if t[1] == 'n' {
        seq!['\n'] + unescaped(t.skip(2))
    } else if t[1] == 'r' {
        seq!['\r'] + unescaped(t.skip(2))
    } else if t[1] == 't' {
        seq!['\t'] + unescaped(t.skip(2))
    } else if t[1] == 'u' && t.len() >= 6 {
        seq![
            (4096 * hex_value(t[2]) + 256 * hex_value(t[3]) + 16 * hex_value(t[4]) + hex_value(
                t[5],
            )) as char,
        ] + unescaped(t.skip(6))
    } else {
        seq![t[1]] + unescaped(t.skip(2))
    }
}

proof fn lemma_first_escape_read(c: char, x: Seq<char>)
    ensures
        unescaped(text::escape_char(c) + x) == seq![c] + unescaped(x),
{
    lemma_literals();
    let e = text::escape_char(c);
    let t = e + x;
    if e.len() == 1 {
        assert(t[0] == c);
        assert(t.skip(1) =~= x);
    } else if e.len() == 2 {
        assert(t[0] == e[0] && t[1] == e[1]);
        assert(t.skip(2) =~= x);
    } else {
        hex_digits_read_back(c as u8);
        let h = text::hex_byte(c as u8);
        assert(e.len() == 6);
        assert(t[0] == '\\' && t[1] == 'u' && t[2] == '0' && t[3] == '0');
        assert(t[4] == h[0] && t[5] == h[1]);
        assert(hex_value('0') == 0);
        assert(4096 * hex_value(t[2]) + 256 * hex_value(t[3]) + 16 * hex_value(t[4]) + hex_value(
            t[5],
        ) == c as u8);
        assert((c as u8) as char == c);
        assert(t.skip(6) =~= x);
    }
    assert(unescaped(t) =~= seq![c] + unescaped(x));
}

/// A text is read back from its escapes, so no two texts are escaped to the same.
pub proof fn escapes_read_back(s: Seq<char>)
    ensures
        unescaped(text::escaped(s)) == s,
    decreases s.len(),
{
    if s.len() > 0 {
        lemma_escaped_first(s);
        lemma_first_escape_read(s[0], text::escaped(s.drop_first()));
        escapes_read_back(s.drop_first());
        assert(seq![s[0]] + s.drop_first() =~= s);
    } else {
        assert(unescaped(text::escaped(s)) =~= s);
    }
}

/// Whether a character may stand in an escaped text.
pub open spec fn printable(c: char) -> bool {
    c as u32 >= 0x20 && !(0x7f <= c as u32 <= 0x9f)
}

/// Quotes and backslashes get a backslash, other characters that may stand in an escaped text stay as
/// they are, and the rest is spelled out.
pub proof fn what_escapes_are(c: char)
    ensures
        c == '"' || c == '\\' ==> text::escape_char(c) == seq!['\\', c],
        c != '"' && c != '\\' && printable(c) ==> text::escape_char(c) == seq![c],
        forall|i: int|
            0 <= i < text::escape_char(c).len() ==> printable(#[trigger] text::escape_char(c)[i]),
{
    lemma_literals();
    if c != '"' && c != '\\' && c != '\n' && c != '\r' && c != '\t' && !printable(c) {
        let h = text::hex_byte(c as u8);
        hex_digits_read_back(c as u8);
        assert(printable(h[0]) && printable(h[1]));
    }
}

proof fn lemma_escaped_first(s: Seq<char>)
    requires
        s.len() > 0,
    ensures
        text::escaped(s) == text::escape_char(s[0]) + text::escaped(s.drop_first()),
{
    let first = seq![s[0]];
    assert(first + s.drop_first() =~= s);
    escapes_follow_each_other(first, s.drop_first());
    assert(first.drop_last() =~= seq![]);
    reveal_with_fuel(text::escaped, 2);
    assert(text::escaped(first) =~= text::escape_char(s[0]));
}

// ---------------------------------------------------------------------------------------------
// Nested values

/// A list is spelled out item by item: one more item follows the others after a comma.
pub proof fn lists_are_spelled_out(l: Seq<ValueView>, v: ValueView)
    ensures
        rendering::canonical_text(ValueView::List(seq![])) == "["@ + "]"@,
        rendering::canonical_text(ValueView::List(seq![v])) == "["@ + rendering::canonical_text(v)
            + "]"@,
        l.len() > 0 ==> rendering::canonical_text(ValueView::List(l.push(v)))
            == rendering::canonical_text(ValueView::List(l)).drop_last() + ","@
            + rendering::canonical_text(v) + "]"@,
{
    reveal_strlit("[");
    reveal_strlit("]");
    let none = Seq::<ValueView>::empty();
    assert(rendering::list_parts(none) =~= seq![]);
    assert(rendering::canonical_text(ValueView::List(none)) =~= "["@ + "]"@);
    let one = seq![v];
    assert(one.drop_last() =~= none);
    assert(rendering::list_parts(one) =~= seq![rendering::canonical_text(v)]);
    assert(rendering::canonical_text(ValueView::List(one)) =~= "["@ + rendering::canonical_text(v)
        + "]"@);
    if l.len() > 0 {
        let parts = rendering::list_parts(l);
        let more = rendering::list_parts(l.push(v));
        assert(l.push(v).drop_last() =~= l);
        lemma_list_parts_len(l);
        assert(more.drop_last() =~= parts);
        let text = rendering::canonical_text(ValueView::List(l));
        assert(text.drop_last() =~= "["@ + text::joined(parts, ","@));
        assert(rendering::canonical_text(ValueView::List(l.push(v))) =~= text.drop_last() + ","@
            + rendering::canonical_text(v) + "]"@);
    }
}

proof fn lemma_list_parts_len(l: Seq<ValueView>)
    ensures
        rendering::list_parts(l).len() == l.len(),
    decreases l.len(),
{
    if l.len() > 0 {
        lemma_list_parts_len(l.drop_last());
    }
}

proof fn lemma_dict_parts_len(d: DictView)
    ensures
        rendering::dict_parts(d).len() == d.len(),
    decreases d.len(),
{
    if d.len() > 0 {
        lemma_dict_parts_len(d.drop_last());
    }
}

/// A dictionary is spelled out entry by entry: the key between quotes, and its value.
pub proof fn dictionaries_are_spelled_out(d: DictView, key: Seq<char>, v: ValueView)
    ensures
        rendering::canonical_text(ValueView::Dict(seq![])) == "{"@ + "}"@,
        rendering::canonical_text(ValueView::Dict(seq![(key, v)])) == "{"@ + ("\""@ + text::escaped(
            key,
        ) + "\""@ + ":"@ + rendering::canonical_text(v)) + "}"@,
        d.len() > 0 ==> rendering::canonical_text(ValueView::Dict(d.push((key, v))))
            == rendering::canonical_text(ValueView::Dict(d)).drop_last() + ","@ + ("\""@
            + text::escaped(key) + "\""@ + ":"@ + rendering::canonical_text(v)) + "}"@,
{
    reveal_strlit("{");
    reveal_strlit("}");
    let none = DictView::empty();
    let entry = "\""@ + text::escaped(key) + "\""@ + ":"@ + rendering::canonical_text(v);
    assert(rendering::dict_parts(none) =~= seq![]);
    assert(rendering::canonical_text(ValueView::Dict(none)) =~= "{"@ + "}"@);
    let one = seq![(key, v)];
    assert(one.drop_last() =~= none);
    assert(rendering::dict_parts(one) =~= seq![entry]);
    assert(rendering::canonical_text(ValueView::Dict(one)) =~= "{"@ + entry + "}"@);
    if d.len() > 0 {
        let parts = rendering::dict_parts(d);
        let more = rendering::dict_parts(d.push((key, v)));
        assert(d.push((key, v)).drop_last() =~= d);
        lemma_dict_parts_len(d);
        assert(more.drop_last() =~= parts);
        assert(more.last() =~= entry);
        let text = rendering::canonical_text(ValueView::Dict(d));
        assert(text.drop_last() =~= "{"@ + text::joined(parts, ","@));
        assert(rendering::canonical_text(ValueView::Dict(d.push((key, v)))) =~= text.drop_last()
            + ","@ + entry + "}"@);
    }
}

/// What plain values are spelled out as: a text between quotes, bytes as hexadecimal digits, numbers
/// and truth values as themselves, and nothing as a null.
pub proof fn plain_values_are_spelled_out(v: ValueView)
    ensures
        match v {
            ValueView::String(s) => rendering::canonical_text(v) == "\""@ + text::escaped(s)
                + "\""@,
            ValueView::Bytes(b) => rendering::canonical_text(v) == "bytes:"@ + text::hex_bytes(b)
                && text::hex_bytes(b).len() == 2 * b.len(),
            ValueView::I64(n) => rendering::canonical_text(v) == text::signed_decimal(n as int),
            ValueView::U64(n) => rendering::canonical_text(v) == text::decimal(n as nat),
            ValueView::Bool(true) => rendering::canonical_text(v) == "true"@,
            ValueView::Bool(false) => rendering::canonical_text(v) == "false"@,
            ValueView::Null => rendering::canonical_text(v) == "null"@,
            _ => true,
        },
{
    match v {
        ValueView::Bytes(b) => {
            lemma_hex_len(b);
        },
        _ => {},
    }
}

proof fn lemma_hex_len(b: Seq<u8>)
    ensures
        text::hex_bytes(b).len() == 2 * b.len(),
    decreases b.len(),
{
    if b.len() > 0 {
        lemma_hex_len(b.drop_last());
    }
}

/// How values are shown: truth values and what is missing in words, and everything else as it is
/// spelled out for encoding.
pub proof fn how_values_are_shown(v: ValueView)
    ensures
        match v {
            ValueView::Bool(true) => rendering::display_text(v) == "true"@,
            ValueView::Bool(false) => rendering::display_text(v) == "false"@,
            ValueView::Null => rendering::display_text(v) == "None"@,
            _ => rendering::display_text(v) == rendering::lossy_text(v),
        },
{
}

/// How records are shown: a text as itself, and a dictionary spelled out.
pub proof fn how_records_are_shown(s: Seq<char>, d: DictView)
    ensures
        rendering::record_display_text(RecordView::Text(s)) == s,
        rendering::record_display_text(RecordView::Dict(d)) == rendering::canonical_text(
            ValueView::Dict(d),
        ),
{
}

/// A fraction is spelled out by its digits, unless it is infinite or no number.
pub proof fn fractions_are_spelled_out(x: FloatView)
    ensures
        ({
            let v = ValueView::F64(x);
            let exponent = (x.bits as nat / 0x10_0000_0000_0000) % 2048;
            let fraction = x.bits as nat % 0x10_0000_0000_0000;
            &&& exponent < 2047 ==> rendering::canonical_text(v) == x.debug
            &&& exponent == 2047 && fraction > 0 ==> rendering::canonical_text(v) == "NaN"@
            &&& exponent == 2047 && fraction == 0 && x.bits < 0x8000_0000_0000_0000
                ==> rendering::canonical_text(v) == "Infinity"@
            &&& exponent == 2047 && fraction == 0 && x.bits >= 0x8000_0000_0000_0000
                ==> rendering::canonical_text(v) == "-Infinity"@
        }),
{
}

// ---------------------------------------------------------------------------------------------
// Records as text

/// A record is one line of text: the texts of its columns, in the order of the columns and with a tab
/// between them. A column that the record does not have is left empty, and tabs within a column
/// become spaces.
pub proof fn records_are_lines_of_columns(d: DictView, columns: Seq<Seq<char>>, column: Seq<char>)
    ensures
        ({
            let own = if value::dict_has(d, column) {
                rendering::lossy_text(value::dict_at(d, column))
            } else {
                seq![]
            };
            let part = own.map_values(
                |c: char|
                    if c == '\t' {
                        ' '
                    } else {
                        c
                    },
            );
            &&& utils::dict_text(d, seq![]).len() == 0
            &&& utils::dict_text(d, seq![column]) == part
            &&& columns.len() > 0 ==> utils::dict_text(d, columns.push(column)) == utils::dict_text(
                d,
                columns,
            ) + "\t"@ + part
        }),
{
    let none = Seq::<Seq<char>>::empty();
    assert(utils::column_texts(d, none) =~= seq![]);
    let part = utils::column_text(d, column);
    assert(utils::column_texts(d, seq![column]) =~= seq![part]);
    let more = utils::column_texts(d, columns.push(column));
    assert(more.drop_last() =~= utils::column_texts(d, columns));
    assert(more.last() == part);
}

/// A selected record is found by its key: records with the same key are found as the same, whatever
/// they hold in other columns. A record that has no key, or is a text, is found by all it holds.
pub proof fn selected_records_are_found_by_key(d: DictView, e: DictView, columns: Seq<Seq<char>>, s: Seq<
    char,
>)
    ensures
        utils::first_missing(d, columns) is None && utils::first_missing(e, columns) is None
            && utils::key_of(d, columns) == utils::key_of(e, columns) ==> utils::selection_key(
            RecordView::Dict(d),
            Some(columns),
        ) == utils::selection_key(RecordView::Dict(e), Some(columns)),
        utils::first_missing(d, columns) is None ==> utils::selection_key(
            RecordView::Dict(d),
            Some(columns),
        ) == rendering::canonical_text(ValueView::Dict(utils::key_of(d, columns))),
        utils::first_missing(d, columns) is Some ==> utils::selection_key(
            RecordView::Dict(d),
            Some(columns),
        ) == rendering::canonical_text(ValueView::Dict(d)),
        utils::selection_key(RecordView::Dict(d), None) == rendering::canonical_text(
            ValueView::Dict(d),
        ),
        utils::selection_key(RecordView::Text(s), None) == "text:"@ + s,
        utils::selection_key(RecordView::Text(s), Some(columns)) == "text:"@ + s,
{
}

} // verus!
