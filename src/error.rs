//! What can go wrong while decoding.
use vstd::prelude::*;

verus! {

/// A decoding failure.
#[derive(Debug, Clone, Copy, PartialEq, Eq, Structural)]
pub enum DecodeError {
    /// Fewer bytes remain than the field needs.
    TruncatedInput,
}

} // verus!
