use vstd::prelude::*;

verus! {

/// The distinct, inspectable failures the codec can surface.
///
/// None of these are recovered locally: a failure means the input value or
/// the buffer state is invalid, and the caller must abort the current
/// witness-computation attempt.
#[derive(Clone, Copy, Debug, PartialEq, Eq, Structural)]
pub enum CodecError {
    /// A value cannot be represented in the requested form (defensive
    /// signal for values too wide even for the long layout).
    Range,
    /// A read or write falls outside the current extent of the buffer.
    Bounds,
    /// A long-format magnitude has an unexpected byte width.
    Format,
    /// A negative value would require long-format encoding, which is
    /// explicitly out of scope; it must fail rather than mis-encode.
    Unsupported,
}

} // verus!
