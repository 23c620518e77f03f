//! What can go wrong while reading a netlist.
use vstd::prelude::*;

verus! {

/// The field of a line that an error is about.
#[derive(Clone, Copy, Debug, PartialEq, Eq, Structural)]
pub enum Field {
    Tag,
    MaxVariables,
    NumberOfInputs,
    NumberOfLatches,
    NumberOfOutputs,
    NumberOfAnds,
    Input,
    Output,
    AndOutput,
    Child0,
    Child1,
}

/// A reason to reject a netlist, with the 1-based number of the offending
/// line of the file and the field concerned.
#[derive(Clone, Copy, Debug, PartialEq, Eq, Structural)]
pub enum AigError {
    /// The line has fewer tokens than its position requires (or is absent).
    Format { line: usize, field: Field },
    /// The token is not a non-negative integer that fits in `usize`.
    Parse { line: usize, field: Field },
    /// A literal or a count lies outside the range that the header allows.
    Index { line: usize, field: Field },
}

} // verus!
