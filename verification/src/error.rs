use vstd::prelude::*;

verus! {

/// Why a carving operation was refused. An operation that fails leaves its
/// grid as it was.
#[derive(Clone, Copy, PartialEq, Eq, Debug, Structural)]
pub enum CarveError {
    /// The live band is empty, or wider than the grid it is applied to, or
    /// the grid has no line to scan.
    InvalidBorder,
    /// As many seams were asked for as the grid has positions along the
    /// carved axis, or more.
    InsufficientDimension,
    /// The grid has fewer than two scan lines, so there is nothing to trace.
    EmptySeam,
    /// An energy value left its integer type. Energies are kept in a width
    /// that holds every value a grid can produce, so no operation returns
    /// this.
    NumericOverflow,
}

} // verus!
