use vstd::prelude::*;

verus! {

/// A caller-supplied monotonic instant (for example Unix time in ns).
/// The book never reads a clock: it only compares these values.
#[derive(Clone, Copy, Debug, PartialEq, Eq, Structural)]
pub struct Timestamp(pub u64);

} // verus!
