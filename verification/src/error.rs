//! The ways in which a kernel rejects its input.

use vstd::prelude::*;

verus! {

/// Why a kernel refused to run.
#[derive(Clone, Copy, Debug, PartialEq, Eq, Structural)]
pub enum KernelError {
    /// The buffer's length does not match the stated dimensions.
    MalformedInput,
    /// A dimension, a level count or a distance limit is zero, or a
    /// fraction lies outside the unit interval.
    InvalidParameter,
}

} // verus!
