//! The error kinds that cross component boundaries.

use vstd::prelude::*;

verus! {

/// Why an operation was refused.
#[derive(Debug, Clone, Copy, PartialEq, Eq, Structural)]
pub enum Exceptions {
    /// The caller passed a value outside the operation's domain.
    IllegalArgumentException,
    /// An index lies outside the addressed sequence.
    IndexOutOfBoundsException,
    /// The image or row holds no sufficient evidence of a barcode.
    NotFoundException,
}

} // verus!
