//! Errors.

use vstd::prelude::*;
use vstd::string::*;

verus! {

/// Result alias used throughout the crate.
pub type Result<T> = std::result::Result<T, SemHashError>;

/// Errors returned by the library.
#[derive(Debug, Clone, PartialEq, Eq)]
pub enum SemHashError {
    /// The caller passed no records.
    EmptyRecords,
    /// Columns were required but not supplied.
    ColumnsRequired,
    /// A record collection mixed text and dictionary records.
    MixedRecordTypes { expected: &'static str },
    /// A text collection was passed to an instance built from dictionaries.
    OriginallyNotStrings,
    /// A record is missing a requested column.
    MissingColumn { column: String },
    /// A record contains a null value in a column that must be encoded.
    NoneValue { column: String, record: String },
    /// Embeddings are malformed or do not match the records.
    InvalidEmbeddings(String),
    /// An encoder failed.
    EncodeError(String),
    /// Threshold values cannot be lowered after deduplication.
    ThresholdTooSmall,
    /// Percentages must be between 0 and 1 inclusive.
    InvalidPercentage { name: &'static str },
    /// Any other user-facing error.
    Message(String),
}

/// What an error is.
pub enum ErrorView {
    EmptyRecords,
    ColumnsRequired,
    MixedRecordTypes { expected: Seq<char> },
    OriginallyNotStrings,
    MissingColumn { column: Seq<char> },
    NoneValue { column: Seq<char>, record: Seq<char> },
    InvalidEmbeddings(Seq<char>),
    EncodeError(Seq<char>),
    ThresholdTooSmall,
    InvalidPercentage { name: Seq<char> },
    Message(Seq<char>),
}

impl DeepView for SemHashError {
    type V = ErrorView;

    open spec fn deep_view(&self) -> ErrorView {
        match *self {
            SemHashError::EmptyRecords => ErrorView::EmptyRecords,
            SemHashError::ColumnsRequired => ErrorView::ColumnsRequired,
            SemHashError::MixedRecordTypes { expected } => ErrorView::MixedRecordTypes {
                expected: expected@,
            },
            SemHashError::OriginallyNotStrings => ErrorView::OriginallyNotStrings,
            SemHashError::MissingColumn { column } => ErrorView::MissingColumn { column: column@ },
            SemHashError::NoneValue { column, record } => ErrorView::NoneValue {
                column: column@,
                record: record@,
            },
            SemHashError::InvalidEmbeddings(message) => ErrorView::InvalidEmbeddings(message@),
            SemHashError::EncodeError(message) => ErrorView::EncodeError(message@),
            SemHashError::ThresholdTooSmall => ErrorView::ThresholdTooSmall,
            SemHashError::InvalidPercentage { name } => ErrorView::InvalidPercentage {
                name: name@,
            },
            SemHashError::Message(message) => ErrorView::Message(message@),
        }
    }
}

/// What a result is: what it holds, or what went wrong.
pub open spec fn outcome<T: DeepView>(r: Result<T>) -> std::result::Result<T::V, ErrorView> {
    match r {
        Ok(value) => Ok(value.deep_view()),
        Err(error) => Err(error.deep_view()),
    }
}

/// The message of an error.
pub open spec fn error_text(e: ErrorView) -> Seq<char> {
    match e {
        ErrorView::EmptyRecords => "records must not be empty"@,
        ErrorView::ColumnsRequired => "Columns must be specified when passing dictionaries."@,
        ErrorView::MixedRecordTypes { expected } => "All records must be "@ + expected + "."@,
        ErrorView::OriginallyNotStrings =>
            "Records were not originally strings, but you passed strings."@,
        ErrorView::MissingColumn { column } => "Missing column '"@ + column + "'"@,
        ErrorView::NoneValue { column, record } => "Column '"@ + column
            + "' has None value in record "@ + record,
        ErrorView::InvalidEmbeddings(message) => message,
        ErrorView::EncodeError(message) => message,
        ErrorView::ThresholdTooSmall => "Threshold is smaller than the given value."@,
        ErrorView::InvalidPercentage { name } => name + " must be between 0 and 1"@,
        ErrorView::Message(message) => message,
    }
}

impl SemHashError {
    /// The message of the error.
    pub fn to_string(&self) -> (r: String)
        ensures
            r@ == error_text(self.deep_view()),
    {
        match self {
            SemHashError::EmptyRecords => "records must not be empty".to_owned(),
            SemHashError::ColumnsRequired =>
                "Columns must be specified when passing dictionaries.".to_owned(),
            SemHashError::MixedRecordTypes { expected } => {
                let mut out = "All records must be ".to_owned();
                out.append(expected);
                out.append(".");
                out
            },
            SemHashError::OriginallyNotStrings =>
                "Records were not originally strings, but you passed strings.".to_owned(),
            SemHashError::MissingColumn { column } => {
                let mut out = "Missing column '".to_owned();
                out.append(column.as_str());
                out.append("'");
                out
            },
            SemHashError::NoneValue { column, record } => {
                let mut out = "Column '".to_owned();
                out.append(column.as_str());
                out.append("' has None value in record ");
                out.append(record.as_str());
                out
            },
            SemHashError::InvalidEmbeddings(message) => message.clone(),
            SemHashError::EncodeError(message) => message.clone(),
            SemHashError::ThresholdTooSmall =>
                "Threshold is smaller than the given value.".to_owned(),
            SemHashError::InvalidPercentage { name } => {
                let mut out = String::new();
                out.append(name);
                out.append(" must be between 0 and 1");
                out
            },
            SemHashError::Message(message) => message.clone(),
        }
    }
}

} // verus!
