use vstd::prelude::*;

verus! {

/// The failures a codec call can surface.
///
/// `Incomplete` is an internal wait-for-more-input signal: the decoder's
/// `read` contract proves it never escapes to a caller. `BadCode` is fatal:
/// the decoder consumed a code field with no dictionary entry, so the
/// stream is corrupt or the two sides are out of step.
#[derive(Debug, Clone, Copy, PartialEq, Eq, Structural)]
pub enum Error {
    /// Not enough buffered bits to decode the next field.
    Incomplete(usize),
    /// A decoded code value that no dictionary entry answers to.
    BadCode(u16),
}

} // verus!
