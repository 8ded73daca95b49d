//! Values and records from plain data.

use crate::value::{DictRecord, Record, RecordView, Value, ValueView};
use vstd::prelude::*;
use vstd::std_specs::convert::FromSpecImpl;
use vstd::string::*;

verus! {

impl From<&str> for Value {
    fn from(value: &str) -> (r: Self)
        ensures
            r.deep_view() == ValueView::String(value@),
    {
        Value::String(value.to_owned())
    }
}

impl FromSpecImpl<&str> for Value {
    open spec fn obeys_from_spec() -> bool {
        false
    }

    open spec fn from_spec(value: &str) -> Self {
        Value::Null
    }
}

impl From<String> for Value {
    fn from(value: String) -> (r: Self) {
        Value::String(value)
    }
}

impl FromSpecImpl<String> for Value {
    open spec fn obeys_from_spec() -> bool {
        true
    }

    open spec fn from_spec(value: String) -> Self {
        Value::String(value)
    }
}

impl From<Vec<u8>> for Value {
    fn from(value: Vec<u8>) -> (r: Self) {
        Value::Bytes(value)
    }
}

impl FromSpecImpl<Vec<u8>> for Value {
    open spec fn obeys_from_spec() -> bool {
        true
    }

    open spec fn from_spec(value: Vec<u8>) -> Self {
        Value::Bytes(value)
    }
}

impl From<&[u8]> for Value {
    fn from(value: &[u8]) -> (r: Self)
        ensures
            r.deep_view() == ValueView::Bytes(value@),
    {
        let mut bytes: Vec<u8> = Vec::new();
        let mut i: usize = 0;
        while i < value.len()
            invariant
                i <= value.len(),
                bytes@ == value@.take(i as int),
            decreases value.len() - i,
        {
            bytes.push(value[i]);
            i = i + 1;
            assert(bytes@ =~= value@.take(i as int));
        }
        assert(value@.take(value.len() as int) =~= value@);
        Value::Bytes(bytes)
    }
}

impl FromSpecImpl<&[u8]> for Value {
    open spec fn obeys_from_spec() -> bool {
        false
    }

    open spec fn from_spec(value: &[u8]) -> Self {
        Value::Null
    }
}

impl From<i32> for Value {
    fn from(value: i32) -> (r: Self) {
        Value::I64(value as i64)
    }
}

impl FromSpecImpl<i32> for Value {
    open spec fn obeys_from_spec() -> bool {
        true
    }

    open spec fn from_spec(value: i32) -> Self {
        Value::I64(value as i64)
    }
}

impl From<i64> for Value {
    fn from(value: i64) -> (r: Self) {
        Value::I64(value)
    }
}

impl FromSpecImpl<i64> for Value {
    open spec fn obeys_from_spec() -> bool {
        true
    }

    open spec fn from_spec(value: i64) -> Self {
        Value::I64(value)
    }
}

impl From<usize> for Value {
    fn from(value: usize) -> (r: Self) {
        Value::U64(value as u64)
    }
}

impl FromSpecImpl<usize> for Value {
    open spec fn obeys_from_spec() -> bool {
        true
    }

    open spec fn from_spec(value: usize) -> Self {
        Value::U64(value as u64)
    }
}

impl From<u64> for Value {
    fn from(value: u64) -> (r: Self) {
        Value::U64(value)
    }
}

impl FromSpecImpl<u64> for Value {
    open spec fn obeys_from_spec() -> bool {
        true
    }

    open spec fn from_spec(value: u64) -> Self {
        Value::U64(value)
    }
}

impl From<bool> for Value {
    fn from(value: bool) -> (r: Self) {
        Value::Bool(value)
    }
}

impl FromSpecImpl<bool> for Value {
    open spec fn obeys_from_spec() -> bool {
        true
    }

    open spec fn from_spec(value: bool) -> Self {
        Value::Bool(value)
    }
}

impl From<&str> for Record {
    fn from(value: &str) -> (r: Self)
        ensures
            r.deep_view() == RecordView::Text(value@),
    {
        Record::Text(value.to_owned())
    }
}

impl FromSpecImpl<&str> for Record {
    open spec fn obeys_from_spec() -> bool {
        false
    }

    open spec fn from_spec(value: &str) -> Self {
        arbitrary()
    }
}

impl From<String> for Record {
    fn from(value: String) -> (r: Self) {
        Record::Text(value)
    }
}

impl FromSpecImpl<String> for Record {
    open spec fn obeys_from_spec() -> bool {
        true
    }

    open spec fn from_spec(value: String) -> Self {
        Record::Text(value)
    }
}

impl From<DictRecord> for Record {
    fn from(value: DictRecord) -> (r: Self) {
        Record::Dict(value)
    }
}

impl FromSpecImpl<DictRecord> for Record {
    open spec fn obeys_from_spec() -> bool {
        true
    }

    open spec fn from_spec(value: DictRecord) -> Self {
        Record::Dict(value)
    }
}

impl Record {
    /// A text record.
    pub fn text(text: String) -> (r: Self)
        ensures
            r == Record::Text(text),
    {
        Record::Text(text)
    }

    /// A dictionary record.
    pub fn dict(record: DictRecord) -> (r: Self)
        ensures
            r == Record::Dict(record),
    {
        Record::Dict(record)
    }

    /// The text of a text record.
    pub fn as_text(&self) -> (r: Option<&str>)
        ensures
            match self.deep_view() {
                RecordView::Text(s) => r matches Some(t) && t@ == s,
                RecordView::Dict(_) => r is None,
            },
    {
        match self {
            Record::Text(value) => Some(value.as_str()),
            Record::Dict(_) => None,
        }
    }

    /// The dictionary of a dictionary record.
    pub fn as_dict(&self) -> (r: Option<&DictRecord>)
        ensures
            match *self {
                Record::Text(_) => r is None,
                Record::Dict(d) => r matches Some(e) && *e == d,
            },
    {
        match self {
            Record::Dict(value) => Some(value),
            Record::Text(_) => None,
        }
    }
}

} // verus!
