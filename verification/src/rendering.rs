//! Values and records as text.

use crate::float::Float64;
use crate::text;
use crate::text::{
    escape_json, from_utf8_lossy, push_hex_bytes, push_part, signed_to_text, unsigned_to_text,
};
use crate::value::{DictRecord, DictView, FloatView, Record, RecordView, Value, ValueView};
use vstd::prelude::*;
use vstd::string::*;

verus! {

/// The bits of a double-precision number without its sign.
pub open spec fn float_magnitude(bits: u64) -> int {
    if bits >= 0x8000_0000_0000_0000 {
        bits - 0x8000_0000_0000_0000
    } else {
        bits as int
    }
}

/// A double-precision number as text that reads back as the same number.
pub open spec fn float_text(x: FloatView) -> Seq<char> {
    if float_magnitude(x.bits) > 0x7ff0_0000_0000_0000 {
        "NaN"@
    } else if x.bits == 0x7ff0_0000_0000_0000u64 {
        "Infinity"@
    } else if x.bits == 0xfff0_0000_0000_0000u64 {
        "-Infinity"@
    } else {
        x.debug
    }
}

/// A text between quotes, escaped.
pub open spec fn quoted(s: Seq<char>) -> Seq<char> {
    "\""@ + text::escaped(s) + "\""@
}

/// The JSON-like representation of a value.
pub open spec fn canonical_text(v: ValueView) -> Seq<char>
    decreases v,
{
    match v {
        ValueView::String(s) => quoted(s),
        ValueView::Bytes(b) => "bytes:"@ + text::hex_bytes(b),
        ValueView::I64(n) => text::signed_decimal(n as int),
        ValueView::U64(n) => text::decimal(n as nat),
        ValueView::F64(x) => float_text(x),
        ValueView::Bool(b) => if b {
            "true"@
        } else {
            "false"@
        },
        ValueView::Null => "null"@,
        ValueView::List(l) => "["@ + text::joined(list_parts(l), ","@) + "]"@,
        ValueView::Dict(d) => "{"@ + text::joined(dict_parts(d), ","@) + "}"@,
    }
}

/// The representations of the values of a list, one for each.
pub open spec fn list_parts(l: Seq<ValueView>) -> Seq<Seq<char>>
    decreases l,
{
    if l.len() == 0 {
        seq![]
    } else {
        list_parts(l.drop_last()).push(canonical_text(l.last()))
    }
}

/// The representations of the entries of a dictionary, one for each.
pub open spec fn dict_parts(d: DictView) -> Seq<Seq<char>>
    decreases d,
{
    if d.len() == 0 {
        seq![]
    } else {
        dict_parts(d.drop_last()).push(
            quoted(d.last().0) + ":"@ + canonical_text(d.last().1),
        )
    }
}

/// A value as the text that it stands for in a record: strings as they are, nothing for a null,
/// and the JSON-like representation of nested values.
pub open spec fn lossy_text(v: ValueView) -> Seq<char> {
    match v {
        ValueView::String(s) => s,
        ValueView::Bytes(b) => text::utf8_lossy(b),
        ValueView::I64(n) => text::signed_decimal(n as int),
        ValueView::U64(n) => text::decimal(n as nat),
        ValueView::F64(x) => x.display,
        ValueView::Bool(b) => if b {
            "True"@
        } else {
            "False"@
        },
        ValueView::Null => seq![],
        ValueView::List(_) => canonical_text(v),
        ValueView::Dict(_) => canonical_text(v),
    }
}

/// A value as it is shown to a reader.
pub open spec fn display_text(v: ValueView) -> Seq<char> {
    match v {
        ValueView::Bool(b) => if b {
            "true"@
        } else {
            "false"@
        },
        ValueView::Null => "None"@,
        _ => lossy_text(v),
    }
}

/// The JSON-like representation of a record; plain text carries a prefix.
pub open spec fn record_canonical_text(r: RecordView) -> Seq<char> {
    match r {
        RecordView::Text(s) => "text:"@ + s,
        RecordView::Dict(d) => canonical_text(ValueView::Dict(d)),
    }
}

/// A record as it is shown to a reader.
pub open spec fn record_display_text(r: RecordView) -> Seq<char> {
    match r {
        RecordView::Text(s) => s,
        RecordView::Dict(d) => canonical_text(ValueView::Dict(d)),
    }
}

fn quote(s: &str) -> (r: String)
    ensures
        r@ == quoted(s@),
{
    let mut out = "\"".to_owned();
    let escaped = escape_json(s);
    out.append(escaped.as_str());
    out.append("\"");
    out
}

fn float_to_text(x: &Float64) -> (r: String)
    ensures
        r@ == float_text(x.deep_view()),
{
    let bits: u64 = x.bits;
    let magnitude: u64 = if bits >= 0x8000_0000_0000_0000 {
        bits - 0x8000_0000_0000_0000
    } else {
        bits
    };
    if magnitude > 0x7ff0_0000_0000_0000 {
        "NaN".to_owned()
    } else if bits == 0x7ff0_0000_0000_0000 {
        "Infinity".to_owned()
    } else if bits == 0xfff0_0000_0000_0000 {
        "-Infinity".to_owned()
    } else {
        x.debug.clone()
    }
}

impl Value {
    /// A stable, JSON-like representation, used for display and for finding records again.
    pub fn canonical(&self) -> (r: String)
        ensures
            r@ == canonical_text(self.deep_view()),
        decreases self,
    {
        match self {
            Value::String(s) => quote(s.as_str()),
            Value::Bytes(bytes) => {
                let mut out = "bytes:".to_owned();
                push_hex_bytes(&mut out, bytes.as_slice());
                out
            },
            Value::I64(n) => signed_to_text(*n),
            Value::U64(n) => unsigned_to_text(*n),
            Value::F64(x) => float_to_text(x),
            Value::Bool(b) => if *b {
                "true".to_owned()
            } else {
                "false".to_owned()
            },
            Value::Null => "null".to_owned(),
            Value::List(values) => {
                let ghost l = self.deep_view()->List_0;
                let mut out = "[".to_owned();
                let mut i: usize = 0;
                assert(out@ =~= "["@ + text::joined(list_parts(l.take(0)), ","@));
                while i < values.len()
                    invariant
                        i <= values.len(),
                        *self == Value::List(*values),
                        l == self.deep_view()->List_0,
                        out@ == "["@ + text::joined(list_parts(l.take(i as int)), ","@),
                    decreases values.len() - i,
                {
                    assert(decreases_to!(*self => self->List_0));
                    assert(decreases_to!(*values => values[i as int]));
                    let part = values[i].canonical();
                    push_part(
                        &mut out,
                        i == 0,
                        ",",
                        part.as_str(),
                        Ghost("["@),
                        Ghost(list_parts(l.take(i as int))),
                    );
                    assert(l.take(i + 1).drop_last() =~= l.take(i as int));
                    i = i + 1;
                }
                assert(l.take(i as int) =~= l);
                out.append("]");
                out
            },
            Value::Dict(d) => d.canonical(),
        }
    }

    /// The value as text, used when records are joined back into text.
    pub fn as_string_lossy(&self) -> (r: String)
        ensures
            r@ == lossy_text(self.deep_view()),
    {
        match self {
            Value::String(s) => s.clone(),
            Value::Bytes(bytes) => from_utf8_lossy(bytes.as_slice()),
            Value::I64(n) => signed_to_text(*n),
            Value::U64(n) => unsigned_to_text(*n),
            Value::F64(x) => x.display.clone(),
            Value::Bool(b) => if *b {
                "True".to_owned()
            } else {
                "False".to_owned()
            },
            Value::Null => String::new(),
            Value::List(_) => self.canonical(),
            Value::Dict(_) => self.canonical(),
        }
    }

    /// The value as it is shown to a reader.
    pub fn to_string(&self) -> (r: String)
        ensures
            r@ == display_text(self.deep_view()),
    {
        match self {
            Value::Bool(b) => if *b {
                "true".to_owned()
            } else {
                "false".to_owned()
            },
            Value::Null => "None".to_owned(),
            _ => self.as_string_lossy(),
        }
    }
}

impl DictRecord {
    /// A stable, JSON-like representation: the entries in the order of their keys.
    pub fn canonical(&self) -> (r: String)
        ensures
            r@ == canonical_text(ValueView::Dict(self.deep_view())),
        decreases self,
    {
        let ghost d = self.deep_view();
        let mut out = "{".to_owned();
        let mut i: usize = 0;
        assert(out@ =~= "{"@ + text::joined(dict_parts(d.take(0)), ","@));
        proof {
            self.lemma_listed();
        }
        while i < self.entries.len()
            invariant
                i <= self.entries.len(),
                d == self.deep_view(),
                self.listed() == self.entries@,
                out@ == "{"@ + text::joined(dict_parts(d.take(i as int)), ","@),
            decreases self.entries.len() - i,
        {
            assert(decreases_to!(self.entries => self.entries[i as int]));
            let value = self.entries[i].1.canonical();
            let mut part = quote(self.entries[i].0.as_str());
            part.append(":");
            part.append(value.as_str());
            push_part(
                &mut out,
                i == 0,
                ",",
                part.as_str(),
                Ghost("{"@),
                Ghost(dict_parts(d.take(i as int))),
            );
            assert(d.take(i + 1).drop_last() =~= d.take(i as int));
            i = i + 1;
        }
        assert(d.take(i as int) =~= d);
        out.append("}");
        out
    }
}

impl Record {
    /// A stable representation that tells text from dictionaries.
    pub fn canonical(&self) -> (r: String)
        ensures
            r@ == record_canonical_text(self.deep_view()),
    {
        match self {
            Record::Text(s) => {
                let mut out = "text:".to_owned();
                out.append(s.as_str());
                out
            },
            Record::Dict(d) => d.canonical(),
        }
    }

    /// The record as it is shown to a reader.
    pub fn to_string(&self) -> (r: String)
        ensures
            r@ == record_display_text(self.deep_view()),
    {
        match self {
            Record::Text(s) => s.clone(),
            Record::Dict(d) => d.canonical(),
        }
    }
}

} // verus!
