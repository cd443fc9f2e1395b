//! The comparison engine: status and grouping vocabularies, the comparison
//! unit model, correlation of unit sequences and the supporting passes.

pub mod ancestry;
pub mod atoms;
pub mod block_clone;
pub mod coalesce;
pub mod grid;
pub mod lcs;
pub mod lcs_score;
pub mod lcs_table;
pub mod lists;
pub mod moves;
pub mod para_text;
pub mod parts;
pub mod residuals;
pub mod preprocess;
pub mod produce;
pub mod revisions;
pub mod tables;
pub mod units;

use vstd::prelude::*;

verus! {

/// How a comparison unit (or atom) relates the original and revised documents.
#[derive(Clone, Copy, PartialEq, Eq, Debug, Structural)]
pub enum CorrelationStatus {
    /// Not yet classified.
    Nil,
    /// Unchanged, untouched by correlation.
    Normal,
    /// A pair of regions still to be resolved.
    Unknown,
    /// Present only in the revised document.
    Inserted,
    /// Present only in the original document.
    Deleted,
    /// Present in both documents.
    Equal,
    /// A structural grouping.
    Group,
    /// Origin of a detected move.
    MovedSource,
    /// Destination of a detected move.
    MovedDestination,
    /// Same text with changed formatting.
    FormatChanged,
}

/// The block-level element kind a comparison group stands for.
#[derive(Clone, Copy, PartialEq, Eq, Hash, Debug, Structural)]
pub enum ComparisonUnitGroupType {
    /// A `w:p`.
    Paragraph,
    /// A `w:tbl`.
    Table,
    /// A `w:tr`.
    Row,
    /// A `w:tc`.
    Cell,
    /// A `w:txbxContent`.
    Textbox,
}

/// The kinds of revision reported to consumers.
#[derive(Clone, Copy, PartialEq, Eq, Debug, Structural)]
pub enum WmlComparerRevisionType {
    /// Inserted content.
    Inserted,
    /// Deleted content.
    Deleted,
    /// Moved content.
    Moved,
    /// Formatting-only change.
    FormatChanged,
}

} // verus!
