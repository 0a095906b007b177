//! Results in the shape that a host takes them in: ranges of lines and
//! columns in place of byte spans, and numbers in place of keys.

use crate::lines::{range_of, LineCharRange};
use crate::rule::{MeasureKey, Results};
use vstd::prelude::*;

verus! {

/// A range of lines and columns, columns in units of UTF-16.
#[derive(Copy, Clone, Debug, PartialEq, Eq, Structural)]
pub struct Range {
    pub start_line: u32,
    pub start_char_utf16: u32,
    pub end_line: u32,
    pub end_char_utf16: u32,
}

/// A warning, at a range.
#[derive(Clone, Debug, PartialEq, Eq)]
pub struct Warning {
    pub range: Range,
    pub message: String,
}

/// A measurement, at a range; the key by its number.
#[derive(Copy, Clone, Debug, PartialEq, Eq, Structural)]
pub struct Measurement {
    pub range: Range,
    pub key: u32,
}

/// What rules and measures found in a document.
#[derive(Clone, Debug, PartialEq, Eq)]
pub struct ExportedResults {
    pub warnings: Vec<Warning>,
    pub measurements: Vec<Measurement>,
}

/// The same range with the fields of the host.
pub open spec fn spec_to_range(range: LineCharRange) -> Range {
    Range {
        start_line: range.start_line,
        start_char_utf16: range.start_char_utf16,
        end_line: range.end_line,
        end_char_utf16: range.end_char_utf16,
    }
}

/// The same range with the fields of the host.
pub fn to_range(range: LineCharRange) -> (out: Range)
    ensures
        out == spec_to_range(range),
{
    Range {
        start_line: range.start_line,
        start_char_utf16: range.start_char_utf16,
        end_line: range.end_line,
        end_char_utf16: range.end_char_utf16,
    }
}

/// The number of a key.
pub fn key_number(key: MeasureKey) -> (number: u32)
    ensures
        number == key.spec_index(),
{
    match key {
        MeasureKey::AbstractNouns => 0,
        MeasureKey::AcademicAdWords => 1,
        MeasureKey::Adjectives => 2,
        MeasureKey::BeVerbs => 3,
        MeasureKey::Prepositions => 4,
    }
}

/// The results in the shape of the host: each warning with the range of its
/// span and its message, each measurement with the range of its word and
/// the number of its key, in the order of the results.
pub fn rule_results_to_results(results: &Results) -> (out: ExportedResults)
    ensures
        out.warnings@.len() == results.warnings().len(),
        forall|i: int|
            0 <= i < out.warnings@.len() ==> (#[trigger] out.warnings@[i]).range == spec_to_range(
                range_of(results.text(), results.warnings()[i].span),
            ) && out.warnings@[i].message@ == results.warnings()[i].message,
        out.measurements@.len() == results.measurements().len(),
        forall|i: int|
            0 <= i < out.measurements@.len() ==> (#[trigger] out.measurements@[i]).range
                == spec_to_range(range_of(results.text(), results.measurements()[i].span()))
                && out.measurements@[i].key == results.measurements()[i].key.spec_index(),
{
    let ranged = results.iter_warnings_with_ranges();
    let mut warnings: Vec<Warning> = Vec::new();
    let mut i: usize = 0;
    while i < ranged.len()
        invariant
            0 <= i <= ranged@.len(),
            ranged@.len() == results.warnings().len(),
            forall|k: int|
                0 <= k < ranged@.len() ==> (#[trigger] ranged@[k]).0 == range_of(
                    results.text(),
                    results.warnings()[k].span,
                ) && ranged@[k].1@ == results.warnings()[k],
            warnings@.len() == i,
            forall|k: int|
                0 <= k < i ==> (#[trigger] warnings@[k]).range == spec_to_range(
                    range_of(results.text(), results.warnings()[k].span),
                ) && warnings@[k].message@ == results.warnings()[k].message,
        decreases ranged@.len() - i,
    {
        let (range, warning) = &ranged[i];
        warnings.push(Warning { range: to_range(*range), message: warning.message.clone() });
        i += 1;
    }

    let ranged = results.iter_measurements_with_ranges();
    let mut measurements: Vec<Measurement> = Vec::new();
    let mut i: usize = 0;
    while i < ranged.len()
        invariant
            0 <= i <= ranged@.len(),
            ranged@.len() == results.measurements().len(),
            forall|k: int|
                0 <= k < ranged@.len() ==> (#[trigger] ranged@[k]).0 == range_of(
                    results.text(),
                    results.measurements()[k].span(),
                ) && ranged@[k].1@ == results.measurements()[k],
            measurements@.len() == i,
            forall|k: int|
                0 <= k < i ==> (#[trigger] measurements@[k]).range == spec_to_range(
                    range_of(results.text(), results.measurements()[k].span()),
                ) && measurements@[k].key == results.measurements()[k].key.spec_index(),
        decreases ranged@.len() - i,
    {
        let (range, measurement) = &ranged[i];
        measurements.push(Measurement { range: to_range(*range), key: key_number(measurement.key) });
        i += 1;
    }

    ExportedResults { warnings, measurements }
}

} // verus!
