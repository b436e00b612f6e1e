use vstd::prelude::*;

verus! {

// The activation variants an engine can be run with. Each names one elementwise
// formula and its derivative; the formulas work on floating point and are supplied to
// `Matrix::activate` and the engine as functions.

/// `1 / (1 + e^-x)`.
#[derive(Clone, Copy, Debug, PartialEq, Eq, Structural)]
pub struct Sigmoid;

/// `max(0, x)`.
#[derive(Clone, Copy, Debug, PartialEq, Eq, Structural)]
pub struct ReLU;

/// `tanh(x)`.
#[derive(Clone, Copy, Debug, PartialEq, Eq, Structural)]
pub struct Tanh;

/// `x` for positive `x`, else `x / 100`.
#[derive(Clone, Copy, Debug, PartialEq, Eq, Structural)]
pub struct LeakyReLU;

/// `ln(1 + e^x)`.
#[derive(Clone, Copy, Debug, PartialEq, Eq, Structural)]
pub struct Softplus;

/// `x * sigmoid(x)`.
#[derive(Clone, Copy, Debug, PartialEq, Eq, Structural)]
pub struct Swish;

} // verus!
