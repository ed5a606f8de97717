//! Typed failures of the statistical core.
use vstd::prelude::*;

verus! {

/// Every way a core computation can fail. The core fails fast with one of
/// these instead of producing a NaN or an infinity.
#[derive(Clone, Copy, Debug, PartialEq, Eq, Structural)]
pub enum Error {
    /// A matrix dimension does not agree with its partner (for example the
    /// distance matrix is not square with side equal to the taxon count).
    InputShapeMismatch,
    /// A zero-length matrix or vector where data is needed.
    EmptyInput,
    /// Fewer than two randomization trials when standardizing.
    InsufficientTrials,
    /// A sample whose null ensemble has zero variance; its z-score would be
    /// undefined.
    DegenerateNullVariance,
    /// The niche calculation's divisor, the maximum per-species density, is
    /// zero for some gradient column.
    ZeroMaxDensity,
    /// An exact rational left the representable range (64-bit numerator or
    /// denominator after reduction).
    ArithmeticOverflow,
}

} // verus!
