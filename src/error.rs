use vstd::prelude::*;

verus! {

/// Why a matrix or an engine could not be built.
#[derive(Debug, Clone, Copy, PartialEq, Eq, Structural)]
pub enum ConstructionError {
    /// The row pitch is smaller than the row width.
    StrideTooSmall,
    /// The source buffer does not reach the last addressed element.
    SourceTooShort,
    /// A layer-width sequence needs at least an input and an output width.
    TooFewLayers,
    /// A dimension or buffer that must be non-empty was empty.
    ZeroDimension,
}

} // verus!
