//! The error of the mask store's operations.
use vstd::prelude::*;

verus! {

/// An operation was refused; the text says why.
#[derive(Debug, Clone)]
pub struct CapbitError(pub String);

} // verus!
