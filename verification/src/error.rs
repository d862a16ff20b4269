//! Error values shared across the engine.

use vstd::prelude::*;

verus! {

/// The failures the engine's own operations can report.
#[derive(Debug, Clone, PartialEq, Eq)]
pub enum Error {
    /// A double-precision value would hold a NaN.
    FloatIsNaN,
    /// An integer cell could not be parsed.
    ParseInt,
    /// A floating-point cell could not be parsed.
    ParseFloat,
}

} // verus!
