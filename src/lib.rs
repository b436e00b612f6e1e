//! A small feed-forward network engine over strided matrices.
//!
//! The matrix, tensor and engine logic here is generic over the element type and is
//! verified. Shapes, layouts, bounds, copies, construction errors, and the restoring of
//! parameters after estimation hold for every element type. The clauses about computed
//! values are stated with vstd's `add_spec`, `sub_spec`, `mul_spec` and `div_spec` and
//! hold only where vstd declares that the element type obeys them (its `obeys_*_spec`).
//! vstd declares this for no floating-point type, so for `f64` these clauses carry no
//! guarantee about the numbers computed.
//! `Matrix::add`, `Matrix::dot` and the descent step (`_learn`, `Arch::learn`) require
//! only that the operations they actually perform are defined (`dot_defined`,
//! `descent_ok`), so integer element types can use them from verified code. The
//! functions that run the network (`feed_forward`, `cost`, `finite_diff`, `train`)
//! combine values produced by the activation function, and require instead that `+`,
//! `-`, `*` and `/` be defined on every pair of values (`arith_total`, `ops_total`):
//! true of floats at run time, though vstd states no such fact for them.

mod activation;
mod arch;
mod error;
mod matrix;
mod tensor;

pub use activation::{LeakyReLU, ReLU, Sigmoid, Softplus, Swish, Tanh};
pub use arch::{
    _finite_diff, _learn, cost_with, descent_ok, count_up, descended, forward_output, gradient_estimated, is_cost,
    lemma_cost_of_parameters, round, round_with, training_run, layer_forwarded, layer_widths, ops_obeyed, ops_total, same_parameters,
    parameter, perturbed, slope, slope_with, sq_err_row, sq_err_rows, weights_fit, Arch,
};
pub use error::ConstructionError;
pub use matrix::{
    arith_total, column_of, descent_defined, descent_step_ok, dot_acc, dot_defined, dot_step_ok, drawn,
    is_from_u8, sub_mul_total, Matrix,
};
pub use tensor::Tensor;
