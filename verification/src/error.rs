//! Why a whole export, or its mapping file, is refused.

use vstd::prelude::*;
use crate::tiers::{FaultView, TierMapFault};

verus! {

/// Why an export or a mapping file could not be read at all. **Data.**
#[derive(Debug, Clone, PartialEq, Eq)]
pub enum IngestError {
    /// The export has no rows.
    NoRows,
    /// The mapping file declares no rule.
    NoTierRules,
    /// A line of the mapping file is at fault.
    TierMap {
        /// The line's number, counted from 1.
        line: usize,
        source: TierMapFault,
    },
    /// A `Submit` lies further from the start than an export may reach.
    ExportTooLong {
        /// The hours an export may reach.
        hours: u32,
    },
    /// The export spans a clock change that the operator has not allowed.
    DstCrossing {
        /// The local reading at the change.
        local: String,
        /// What the change does to a local hour.
        kind: &'static str,
    },
}

/// What an error holds.
#[verifier::ext_equal]
pub enum IngestErrorView {
    NoRows,
    NoTierRules,
    TierMap { line: nat, source: FaultView },
    ExportTooLong { hours: u32 },
    DstCrossing { local: Seq<char>, kind: Seq<char> },
}

impl View for IngestError {
    type V = IngestErrorView;

    open spec fn view(&self) -> IngestErrorView {
        match self {
            IngestError::NoRows => IngestErrorView::NoRows,
            IngestError::NoTierRules => IngestErrorView::NoTierRules,
            IngestError::TierMap { line, source } => IngestErrorView::TierMap {
                line: *line as nat,
                source: source@,
            },
            IngestError::ExportTooLong { hours } => IngestErrorView::ExportTooLong { hours: *hours },
            IngestError::DstCrossing { local, kind } => IngestErrorView::DstCrossing {
                local: local@,
                kind: kind@,
            },
        }
    }
}

}
