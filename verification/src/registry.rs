//! The canonical diagnostic record and the registry that holds one record
//! per lowercase diagnostic code.

use crate::sorted_map::{keys_sorted, SortedMap};
use crate::text::to_lower;
use vstd::prelude::*;

verus! {

/// A source payload that lacks an expected structural element; fatal for the
/// run that read it.
#[derive(Clone, Copy, PartialEq, Eq, Structural, Debug)]
pub enum FormatError {
    /// The error-code table holds an enumerator whose value is not a decimal
    /// integer in range.
    BadInteger,
    /// An enumerator name whose three-byte prefix lies outside the severity
    /// table (or is shorter than three bytes).
    BadPrefix,
    /// The localization document is not well-formed markup.
    MalformedXml,
    /// The analyzer report is not well-formed structured data.
    MalformedJson,
    /// A rule in the analyzer report lacks a textual id, short description
    /// or default level.
    RuleField,
    /// A rule's default level lies outside the level vocabulary.
    BadLevel,
}

/// The canonical unit: display code, single-line message, severity text.
/// The severity is byte text because a user override is copied verbatim.
#[derive(Debug)]
pub struct DiagnosticRecord {
    pub code: Vec<u8>,
    pub message: Vec<u8>,
    pub severity: Vec<u8>,
}

/// The mathematical image of a record.
pub ghost struct RecordView {
    pub code: Seq<u8>,
    pub message: Seq<u8>,
    pub severity: Seq<u8>,
}

impl View for DiagnosticRecord {
    type V = RecordView;

    open spec fn view(&self) -> RecordView {
        RecordView { code: self.code@, message: self.message@, severity: self.severity@ }
    }
}

impl DiagnosticRecord {
    pub fn clone_rec(&self) -> (r: Self)
        ensures
            r@ == self@,
    {
        DiagnosticRecord {
            code: self.code.clone(),
            message: self.message.clone(),
            severity: self.severity.clone(),
        }
    }
}

/// The registry: one record per lowercase code, iterated in ascending key
/// order.
pub type Registry = SortedMap<DiagnosticRecord>;

/// Each key is the ASCII-lowercase form of its record's display code.
pub open spec fn reg_entries_ok(s: Seq<(Seq<u8>, RecordView)>) -> bool {
    forall|i: int| 0 <= i < s.len() ==> #[trigger] s[i].0 == to_lower(s[i].1.code)
}

/// Registry invariant: sorted unique keys, each the lowercase of the
/// record's display code.
pub open spec fn reg_wf(s: Seq<(Seq<u8>, RecordView)>) -> bool {
    keys_sorted(s) && reg_entries_ok(s)
}

} // verus!
