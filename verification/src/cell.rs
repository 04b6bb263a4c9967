use vstd::prelude::*;

use crate::shape::SquareStep;

verus! {

/// A color identifier. Zero is the reserved null color meaning "no color";
/// non-null identifiers begin at 1 and are assigned in the order termini
/// pairs are added.
pub type AffiliationID = usize;

/// The state of one cell of a board.
#[derive(Clone, Copy, PartialEq, Eq, Hash, Debug)]
pub enum NumberlinkCell {
    /// A fixed endpoint of a path; the affiliation is non-null and known.
    Terminus { affiliation: AffiliationID },
    /// A non-terminus cell filled in by solving.
    Path { affiliation: AffiliationID },
    /// A single lane of a bridge: one of the two nodes sharing the bridge's
    /// location, carrying traffic along one forward axis.
    Bridge { affiliation: Option<AffiliationID>, direction: SquareStep },
    /// An uncolored non-terminus cell (the pre-solve state).
    Empty,
}

/// The kind of a cell frozen for printing.
#[derive(Clone, Debug)]
pub enum FrozenCellKind {
    Terminus { affiliation: AffiliationID },
    Path { affiliation: AffiliationID },
    /// A whole bridge; `affiliations` maps each forward axis to the lane's
    /// affiliation (0 when the lane is uncolored).
    Bridge { affiliations: Vec<(SquareStep, AffiliationID)> },
    Empty,
}

/// A cell frozen for output or printing: its kind, plus the directions in
/// which edges leave its location.
#[derive(Clone, Debug)]
pub struct FrozenNumberLinkCell {
    pub exits: Vec<SquareStep>,
    pub cell_type: FrozenCellKind,
}

} // verus!
