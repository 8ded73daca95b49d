//! Laws of names and messages: what errors say, and what strategies are called.

use crate::error;
use crate::error::ErrorView;
use crate::features;
use crate::representatives;
use crate::strategy;
use crate::strategy::Strategy;
use crate::text;
use crate::value::ValueView;
use vstd::prelude::*;

verus! {

/// Errors name what they are about, between the same words for all names.
pub proof fn what_errors_say(name: Seq<char>, other: Seq<char>)
    ensures
        error::error_text(ErrorView::MissingColumn { column: name }) == "Missing column '"@ + name
            + "'"@,
        error::error_text(ErrorView::NoneValue { column: name, record: other }) == "Column '"@
            + name + "' has None value in record "@ + other,
        error::error_text(ErrorView::MixedRecordTypes { expected: name })
            == "All records must be "@ + name + "."@,
        error::error_text(ErrorView::InvalidPercentage { name }) == name
            + " must be between 0 and 1"@,
        error::error_text(ErrorView::InvalidEmbeddings(name)) == name,
        error::error_text(ErrorView::EncodeError(name)) == name,
        error::error_text(ErrorView::Message(name)) == name,
        error::error_text(ErrorView::EmptyRecords) == "records must not be empty"@,
        error::error_text(ErrorView::ColumnsRequired)
            == "Columns must be specified when passing dictionaries."@,
        error::error_text(ErrorView::OriginallyNotStrings)
            == "Records were not originally strings, but you passed strings."@,
        error::error_text(ErrorView::ThresholdTooSmall)
            == "Threshold is smaller than the given value."@,
        error::error_text(representatives::percentage_flaw())
            == "outlier_percentage must be between 0 and 1"@,
{
    reveal_strlit("outlier_percentage");
    reveal_strlit(" must be between 0 and 1");
    reveal_strlit("outlier_percentage must be between 0 and 1");
    assert("outlier_percentage"@ + " must be between 0 and 1"@
        =~= "outlier_percentage must be between 0 and 1"@);
}

/// What is said of counts that differ: the count that was found, and the one that was expected.
pub proof fn what_is_said_of_counts(found: nat, expected: nat)
    ensures
        features::row_count_text(found, expected) == "Number of embeddings ("@ + text::decimal(found)
            + ") must match number of records ("@ + text::decimal(expected) + ")"@,
        features::column_count_text(found, expected) == "embeddings must have "@ + text::decimal(
            expected,
        ) + " columns, got "@ + text::decimal(found),
        strategy::score_count_text(found, expected) == "Number of embeddings ("@ + text::decimal(
            found,
        ) + ") must match number of scores ("@ + text::decimal(expected) + ")"@,
{
}

/// The word for a kind of value.
pub open spec fn kind_word(v: ValueView) -> Seq<char> {
    if v is String {
        "str"@
    } else if v is Bytes {
        "bytes"@
    } else if v is I64 || v is U64 {
        "int"@
    } else if v is F64 {
        "float"@
    } else if v is Bool {
        "bool"@
    } else if v is Null {
        "None"@
    } else if v is List {
        "list"@
    } else {
        "dict"@
    }
}

/// What is said of a column that a model does not encode: its name, the kind of its first value, and
/// what the model said.
pub proof fn what_is_said_of_failed_columns(
    column: Seq<char>,
    values: Seq<ValueView>,
    source: ErrorView,
)
    ensures
        features::encode_failure_text(column, values, source) == "Failed to encode column '"@
            + column + "' (data type: "@ + (if values.len() == 0 {
            "unknown"@
        } else {
            kind_word(values.first())
        })
            + "). If encoding non-text data, provide a compatible encoder via the `model` parameter. See the SemHash documentation for more info. Source error: "@
            + error::error_text(source),
{
}

/// The name of a strategy.
pub open spec fn name_of(s: Strategy) -> Seq<char> {
    match s {
        Strategy::MMR => seq!['M', 'M', 'R'],
        Strategy::MSD => seq!['M', 'S', 'D'],
        Strategy::DPP => seq!['D', 'P', 'P'],
        Strategy::COVER => seq!['C', 'O', 'V', 'E', 'R'],
        Strategy::SSD => seq!['S', 'S', 'D'],
    }
}

/// A strategy is found by its name, in any case of its letters, and by no other.
pub proof fn strategies_are_found_by_name(name: Seq<char>, s: Strategy)
    ensures
        strategy::strategy_outcome(name) == Ok::<Strategy, ErrorView>(s) <==> text::ascii_upper(name)
            == name_of(s),
        strategy::strategy_outcome(name) is Err ==> strategy::strategy_outcome(name)->Err_0
            == ErrorView::Message("Unknown diversification strategy: "@ + text::ascii_upper(name)),
{
    reveal_strlit("MMR");
    reveal_strlit("MSD");
    reveal_strlit("DPP");
    reveal_strlit("COVER");
    reveal_strlit("SSD");
    assert("MMR"@ =~= name_of(Strategy::MMR));
    assert("MSD"@ =~= name_of(Strategy::MSD));
    assert("DPP"@ =~= name_of(Strategy::DPP));
    assert("COVER"@ =~= name_of(Strategy::COVER));
    assert("SSD"@ =~= name_of(Strategy::SSD));
    let upper = text::ascii_upper(name);
    let found = name_of(s);
    assert(upper == found ==> upper[0] == found[0] && upper[1] == found[1] && upper[2] == found[2]
        && upper.len() == found.len());
    assert(name_of(Strategy::MMR)[1] == 'M' && name_of(Strategy::MSD)[1] == 'S' && name_of(
        Strategy::SSD,
    )[0] == 'S' && name_of(Strategy::DPP)[0] == 'D');
    if strategy::strategy_outcome(name) is Ok {
        assert(upper == name_of(strategy::strategy_outcome(name)->Ok_0));
    }
}

} // verus!
