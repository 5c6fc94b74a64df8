use vstd::prelude::*;

verus! {

/// The two failure kinds of every decode operation in this crate.
///
/// `InsufficientBytes` is returned when a buffer ends before a required
/// fixed-width field or a declared variable-length payload is fully present.
/// `InvalidFormat` is returned only at the identifier's text boundary, when a
/// hex string cannot be parsed into the strict 32-byte binary shape.
#[derive(Debug, PartialEq, Eq, Clone)]
pub enum BitcoinError {
    InsufficientBytes,
    InvalidFormat,
}

} // verus!
