use vstd::prelude::*;

verus! {

/// The ways a decode call can fail. Every one of them ends the call.
#[derive(Debug, Clone, Copy, PartialEq, Eq, Structural)]
pub enum DecodeError {
    /// Bad magic signature, or an unrecognized method, type or descriptor byte.
    InvalidHeader,
    /// The input ran out before a required field.
    Truncated,
    /// A count or index is inconsistent (an index at or past `num_points`).
    MalformedConnectivity,
    /// A point reachable from connectivity never received a sequence position.
    SequencingInconsistent,
    /// A prediction-scheme selector byte that is not known.
    UnknownPredictionScheme,
    /// A topological prediction scheme was selected without a corner table.
    PredictionRequiresTopology,
}

} // verus!
