//! What can go wrong in a command on the graph.

use crate::ident::{MioId, OpId};
use crate::kind::Unsupported;
use vstd::prelude::*;

verus! {

/// Why a command on the graph was not carried out.
#[derive(Debug)]
pub enum MioError {
    /// An operation was to be initiated on no specter at all.
    NoBase,
    /// The transformation is not legal on inputs of these kinds.
    Unsupported(Unsupported),
    /// A specter that was referred to is not in the live ring.
    NotFound(MioId),
    /// An operation that was referred to is not in the live ring.
    OperationNotFound(OpId),
    /// No ordinal is left to issue.
    Exhausted,
    /// A lazy specter was to be elevated before its content was on disk.
    NotActualized(MioId),
}

} // verus!
