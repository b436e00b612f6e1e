use vstd::prelude::*;
use crate::matrix::{descent_defined, sub_mul_total, arith_total, column_of, dot_acc, is_from_u8, Matrix};
use vstd::std_specs::ops::{AddSpec, DivSpec, MulSpec, SubSpec};
use crate::tensor::Tensor;
use crate::ConstructionError;

verus! {

/// The layer widths of a network: the input width, the hidden widths, the output width.
pub open spec fn layer_widths(input_cols: nat, hidden: Seq<usize>, output_cols: nat) -> Seq<nat> {
    seq![input_cols] + hidden.map_values(|h: usize| h as nat) + seq![output_cols]
}

/// Every weight matrix of a network with these widths fits in memory.
pub open spec fn weights_fit(widths: Seq<nat>) -> bool {
    forall|i: int| 0 <= i < widths.len() - 1 ==> (#[trigger] widths[i]) * widths[i + 1] <= usize::MAX
}

/// Activation row `i + 1` of `t` is `act` applied to `activations[i] * weights[i] + biases[i]`.
pub open spec fn layer_forwarded<T, F: Fn(T) -> T>(t: Tensor<T>, i: int, act: F) -> bool where
    T: From<u8> + core::ops::Add<Output = T> + core::ops::Mul<Output = T>,
 {
    exists|z: T|
        is_from_u8(z, 0) && (T::obeys_add_spec() && T::obeys_mul_spec() ==> forall|c: int|
            0 <= c < t.widths()[i + 1] ==> act.ensures(
                (dot_acc(
                    z,
                    t.activations()[i]@[0],
                    column_of(t.weights()[i]@, c),
                    t.widths()[i],
                ).add_spec(t.biases()[i]@[0][c]),),
                #[trigger] t.activations()[i + 1]@[0][c],
            ))
}

/// `after` holds the parameters of `before`, with the same layout, and possibly other
/// activations.
pub open spec fn same_parameters<T>(before: Tensor<T>, after: Tensor<T>) -> bool {
    &&& after.wf()
    &&& after.same_layout(&before)
    &&& after.layers() == before.layers()
    &&& forall|i: int|
        0 <= i < after.weights().len() ==> (#[trigger] after.weights()[i])@ == before.weights()[i]@
    &&& forall|i: int|
        0 <= i < after.biases().len() ==> (#[trigger] after.biases()[i])@ == before.biases()[i]@
}

/// `+`, `-`, `*` and `/` of the element type are defined on every pair of values.
pub open spec fn ops_total<T>() -> bool where
    T: core::ops::Add<Output = T> + core::ops::Sub<Output = T> + core::ops::Mul<Output = T>
        + core::ops::Div<Output = T>,
 {
    forall|x: T, y: T|
        #![trigger x.add_req(y)]
        #![trigger x.sub_req(y)]
        #![trigger x.mul_req(y)]
        #![trigger x.div_req(y)]
        x.add_req(y) && x.sub_req(y) && x.mul_req(y) && x.div_req(y)
}

/// vstd's specifications of `+`, `-`, `*` and `/` hold for the element type.
pub open spec fn ops_obeyed<T>() -> bool where
    T: core::ops::Add<Output = T> + core::ops::Sub<Output = T> + core::ops::Mul<Output = T>
        + core::ops::Div<Output = T>,
 {
    T::obeys_add_spec() && T::obeys_sub_spec() && T::obeys_mul_spec() && T::obeys_div_spec()
}

/// `out` is the last activation row of some run of a network with the parameters of `t`
/// on input row `x`.
pub open spec fn forward_output<T, F: Fn(T) -> T>(t: Tensor<T>, x: Seq<T>, act: F, out: Seq<T>) -> bool where
    T: From<u8> + core::ops::Add<Output = T> + core::ops::Mul<Output = T>,
 {
    exists|run: Tensor<T>|
        {
            &&& same_parameters(t, run)
            &&& run.activations()[0]@[0] == x
            &&& forall|i: int| 0 <= i < t.layers() ==> #[trigger] layer_forwarded(run, i, act)
            &&& #[trigger] run.activations()[t.layers() as int]@[0] == out
        }
}

/// `acc` plus the squared differences of the first `n` columns of `out` and `y`.
pub open spec fn sq_err_row<T>(acc: T, out: Seq<T>, y: Seq<T>, n: nat) -> T where
    T: core::ops::Add<Output = T> + core::ops::Sub<Output = T> + core::ops::Mul<Output = T>,
    decreases n,
{
    if n == 0 {
        acc
    } else {
        let d = out[n - 1].sub_spec(y[n - 1]);
        sq_err_row(acc, out, y, (n - 1) as nat).add_spec(d.mul_spec(d))
    }
}

/// `z` plus the squared differences of the first `m` rows of `outs` and `ys`, `n`
/// columns each, summed row by row.
pub open spec fn sq_err_rows<T>(z: T, outs: Seq<Seq<T>>, ys: Seq<Seq<T>>, m: nat, n: nat) -> T where
    T: core::ops::Add<Output = T> + core::ops::Sub<Output = T> + core::ops::Mul<Output = T>,
    decreases m,
{
    if m == 0 {
        z
    } else {
        sq_err_row(sq_err_rows(z, outs, ys, (m - 1) as nat, n), outs[m - 1], ys[m - 1], n)
    }
}

/// The sum over the first `m` rows reads no row past them.
pub proof fn lemma_sq_err_rows_prefix<T>(
    z: T,
    a: Seq<Seq<T>>,
    b: Seq<Seq<T>>,
    ys: Seq<Seq<T>>,
    m: nat,
    n: nat,
) where
    T: core::ops::Add<Output = T> + core::ops::Sub<Output = T> + core::ops::Mul<Output = T>,

    requires
        m <= a.len(),
        m <= b.len(),
        forall|k: int| 0 <= k < m ==> a[k] == b[k],
    ensures
        sq_err_rows(z, a, ys, m, n) == sq_err_rows(z, b, ys, m, n),
    decreases m,
{
    if m > 0 {
        lemma_sq_err_rows_prefix(z, a, b, ys, (m - 1) as nat, n);
    }
}

/// `c` is the mean squared error of the network `t` over the rows of `xs` against the
/// rows of `ys`, where `outs` are its outputs, summed from `z` and divided by the
/// count of rows in ones.
pub open spec fn cost_with<T, F: Fn(T) -> T>(
    c: T,
    t: Tensor<T>,
    xs: Matrix<T>,
    ys: Matrix<T>,
    act: F,
    z: T,
    one: T,
    outs: Seq<Seq<T>>,
) -> bool where
    T: From<u8> + core::ops::Add<Output = T> + core::ops::Sub<Output = T> + core::ops::Mul<
        Output = T,
    > + core::ops::Div<Output = T>,
 {
    &&& is_from_u8(z, 0)
    &&& is_from_u8(one, 1)
    &&& outs.len() == xs.nrows()
    &&& forall|i: int| 0 <= i < outs.len() ==> forward_output(t, xs@[i], act, #[trigger] outs[i])
    &&& ops_obeyed::<T>() ==> c == sq_err_rows(z, outs, ys@, outs.len(), ys.ncols()).div_spec(
        count_up(z, one, outs.len()),
    )
}

/// `c` is the mean squared error of the network `t` over the rows of `xs` against the
/// rows of `ys`: squared differences over every output column of every row, summed, then
/// divided by the number of rows.
pub open spec fn is_cost<T, F: Fn(T) -> T>(c: T, t: Tensor<T>, xs: Matrix<T>, ys: Matrix<T>, act: F) -> bool where
    T: From<u8> + core::ops::Add<Output = T> + core::ops::Sub<Output = T> + core::ops::Mul<
        Output = T,
    > + core::ops::Div<Output = T>,
 {
    exists|z: T, one: T, outs: Seq<Seq<T>>| #[trigger] cost_with(c, t, xs, ys, act, z, one, outs)
}

/// `z + one + ... + one`, with `m` ones.
pub open spec fn count_up<T: core::ops::Add<Output = T>>(z: T, one: T, m: nat) -> T
    decreases m,
{
    if m == 0 {
        z
    } else {
        count_up(z, one, (m - 1) as nat).add_spec(one)
    }
}

/// Every weight and bias of `after` is that of `before` less `rate` times the same
/// element of `g`.
pub open spec fn descended<T>(before: Tensor<T>, g: Tensor<T>, rate: T, after: Tensor<T>) -> bool where
    T: core::ops::Sub<Output = T> + core::ops::Mul<Output = T>,
 {
    &&& forall|i: int, r: int, c: int|
        0 <= i < before.layers() && 0 <= r < before.weights()[i].nrows() && 0 <= c
            < before.weights()[i].ncols() ==> #[trigger] after.weights()[i]@[r][c]
            == before.weights()[i]@[r][c].sub_spec(rate.mul_spec(g.weights()[i]@[r][c]))
    &&& forall|i: int, r: int, c: int|
        0 <= i < before.layers() && 0 <= r < before.biases()[i].nrows() && 0 <= c
            < before.biases()[i].ncols() ==> #[trigger] after.biases()[i]@[r][c]
            == before.biases()[i]@[r][c].sub_spec(rate.mul_spec(g.biases()[i]@[r][c]))
}

/// vstd's specification of `*` holds for the element type, and `w - rate * g` is defined
/// for every weight and bias `w` of `model` and the same element `g` of `gradient`.
pub open spec fn descent_ok<T>(model: Tensor<T>, gradient: Tensor<T>, rate: T) -> bool where
    T: core::ops::Sub<Output = T> + core::ops::Mul<Output = T>,
 {
    &&& forall|i: int|
        0 <= i < model.layers() ==> descent_defined(
            &#[trigger] model.weights()[i],
            &gradient.weights()[i],
            rate,
        )
    &&& forall|i: int|
        0 <= i < model.layers() ==> descent_defined(
            &#[trigger] model.biases()[i],
            &gradient.biases()[i],
            rate,
        )
}

/// A gradient-descent step: subtracts `rate` times each element of `gradient` from the
/// same weight or bias of `model`. The activations are left as they are.
pub fn _learn<T>(model: &mut Tensor<T>, gradient: &Tensor<T>, rate: T) where
    T: Copy + core::ops::Sub<Output = T> + core::ops::Mul<Output = T>,

    requires
        old(model).wf(),
        gradient.wf(),
        gradient.layers() == old(model).layers(),
        gradient.widths() == old(model).widths(),
        sub_mul_total::<T>() || descent_ok(*old(model), *gradient, rate),
    ensures
        final(model).wf(),
        final(model).same_layout(old(model)),
        final(model).activations() == old(model).activations(),
        T::obeys_sub_spec() && T::obeys_mul_spec() ==> descended(*old(model), *gradient, rate, *final(model)),
{
    let count = model.count;
    let mut i: usize = 0;
    while i < count
        invariant
            count == model.layers() == old(model).layers(),
            i <= count,
            model.wf(),
            gradient.wf(),
            gradient.layers() == model.layers(),
            gradient.widths() == model.widths(),
            model.same_layout(old(model)),
            model.activations() == old(model).activations(),
            sub_mul_total::<T>() || descent_ok(*old(model), *gradient, rate),
            forall|k: int| i <= k < count ==> #[trigger] model.weights()[k] == old(model).weights()[k],
            forall|k: int| i <= k < count ==> #[trigger] model.biases()[k] == old(model).biases()[k],
            T::obeys_sub_spec() && T::obeys_mul_spec() ==> forall|k: int, r: int, c: int|
                0 <= k < i && 0 <= r < old(model).weights()[k].nrows() && 0 <= c
                    < old(model).weights()[k].ncols() ==> #[trigger] model.weights()[k]@[r][c]
                    == old(model).weights()[k]@[r][c].sub_spec(rate.mul_spec(gradient.weights()[k]@[r][c])),
            T::obeys_sub_spec() && T::obeys_mul_spec() ==> forall|k: int, r: int, c: int|
                0 <= k < i && 0 <= r < old(model).biases()[k].nrows() && 0 <= c
                    < old(model).biases()[k].ncols() ==> #[trigger] model.biases()[k]@[r][c]
                    == old(model).biases()[k]@[r][c].sub_spec(rate.mul_spec(gradient.biases()[k]@[r][c])),
        decreases count - i,
    {
        let ghost m0 = *model;
        assert(gradient.widths()[i as int] == model.widths()[i as int]);
        assert(gradient.widths()[i + 1] == model.widths()[i + 1]);
        model.wl[i].sub_scaled(&gradient.wl[i], rate);
        model.bl[i].sub_scaled(&gradient.bl[i], rate);
        proof {
            assert(model.widths() =~= m0.widths());
        }
        i += 1;
    }
}

/// `(c1 - c0) / eps`: the slope between the cost `c0` at a point and the cost `c1` at a
/// step of `eps` from it.
pub fn _finite_diff<T>(c0: T, c1: T, eps: T) -> (g: T) where
    T: Copy + core::ops::Add<Output = T> + core::ops::Sub<Output = T> + core::ops::Mul<Output = T>
        + core::ops::Div<Output = T>,

    requires
        ops_total::<T>(),
    ensures
        T::obeys_sub_spec() && T::obeys_div_spec() ==> g == c1.sub_spec(c0).div_spec(eps),
{
    (c1 - c0) / eps
}

/// `p` has the parameters of `t`, but for weight `(r, c)` of layer `i` (when `weight`)
/// or bias `(r, c)` of layer `i` (otherwise), which is `v`.
pub open spec fn perturbed<T>(t: Tensor<T>, p: Tensor<T>, weight: bool, i: int, r: int, c: int, v: T) -> bool {
    &&& p.wf()
    &&& p.same_layout(&t)
    &&& forall|k: int|
        0 <= k < t.layers() && (k != i || !weight) ==> (#[trigger] p.weights()[k])@
            == t.weights()[k]@
    &&& forall|k: int|
        0 <= k < t.layers() && (k != i || weight) ==> (#[trigger] p.biases()[k])@ == t.biases()[k]@
    &&& weight ==> p.weights()[i]@ == t.weights()[i]@.update(r, t.weights()[i]@[r].update(c, v))
    &&& !weight ==> p.biases()[i]@ == t.biases()[i]@.update(r, t.biases()[i]@[r].update(c, v))
}

/// The parameter selected by `weight`, `i`, `r`, `c` in `t`.
pub open spec fn parameter<T>(t: Tensor<T>, weight: bool, i: int, r: int, c: int) -> T {
    if weight {
        t.weights()[i]@[r][c]
    } else {
        t.biases()[i]@[r][c]
    }
}

/// `g` is `(c1 - c0) / eps`, where `c1` is the cost of `t` with one parameter moved to
/// `v`, which is that parameter plus `eps`.
pub open spec fn slope_with<T, F: Fn(T) -> T>(
    g: T,
    t: Tensor<T>,
    xs: Matrix<T>,
    ys: Matrix<T>,
    act: F,
    c0: T,
    eps: T,
    weight: bool,
    i: int,
    r: int,
    c: int,
    p: Tensor<T>,
    c1: T,
    v: T,
) -> bool where
    T: From<u8> + core::ops::Add<Output = T> + core::ops::Sub<Output = T> + core::ops::Mul<
        Output = T,
    > + core::ops::Div<Output = T>,
 {
    &&& T::obeys_add_spec() ==> v == parameter(t, weight, i, r, c).add_spec(eps)
    &&& perturbed(t, p, weight, i, r, c, v)
    &&& is_cost(c1, p, xs, ys, act)
    &&& ops_obeyed::<T>() ==> g == c1.sub_spec(c0).div_spec(eps)
}

/// `g` is the forward-difference estimate, from the base cost `c0`, of the cost's slope in
/// one parameter of `t`.
pub open spec fn slope<T, F: Fn(T) -> T>(
    g: T,
    t: Tensor<T>,
    xs: Matrix<T>,
    ys: Matrix<T>,
    act: F,
    c0: T,
    eps: T,
    weight: bool,
    i: int,
    r: int,
    c: int,
) -> bool where
    T: From<u8> + core::ops::Add<Output = T> + core::ops::Sub<Output = T> + core::ops::Mul<
        Output = T,
    > + core::ops::Div<Output = T>,
 {
    exists|p: Tensor<T>, c1: T, v: T|
        #[trigger] slope_with(g, t, xs, ys, act, c0, eps, weight, i, r, c, p, c1, v)
}

/// Every weight and bias of `g` is the forward-difference slope, from the base cost `c0`
/// and with step `eps`, of the cost of `t` in the same parameter.
pub open spec fn gradient_estimated<T, F: Fn(T) -> T>(
    g: Tensor<T>,
    t: Tensor<T>,
    xs: Matrix<T>,
    ys: Matrix<T>,
    act: F,
    c0: T,
    eps: T,
) -> bool where
    T: From<u8> + core::ops::Add<Output = T> + core::ops::Sub<Output = T> + core::ops::Mul<
        Output = T,
    > + core::ops::Div<Output = T>,
 {
    &&& forall|i: int, r: int, c: int|
        0 <= i < t.layers() && 0 <= r < t.weights()[i].nrows() && 0 <= c < t.weights()[i].ncols()
            ==> slope(#[trigger] g.weights()[i]@[r][c], t, xs, ys, act, c0, eps, true, i, r, c)
    &&& forall|i: int, r: int, c: int|
        0 <= i < t.layers() && 0 <= r < t.biases()[i].nrows() && 0 <= c < t.biases()[i].ncols()
            ==> slope(#[trigger] g.biases()[i]@[r][c], t, xs, ys, act, c0, eps, false, i, r, c)
}

/// The cost of a network depends on its parameters alone, not on the activations it
/// holds.
pub proof fn lemma_cost_of_parameters<T, F: Fn(T) -> T>(
    c: T,
    t1: Tensor<T>,
    t2: Tensor<T>,
    xs: Matrix<T>,
    ys: Matrix<T>,
    act: F,
) where
    T: From<u8> + core::ops::Add<Output = T> + core::ops::Sub<Output = T> + core::ops::Mul<
        Output = T,
    > + core::ops::Div<Output = T>,

    requires
        t1.wf(),
        same_parameters(t1, t2),
        is_cost(c, t1, xs, ys, act),
    ensures
        is_cost(c, t2, xs, ys, act),
{
    let (z, one, outs) = choose|z: T, one: T, outs: Seq<Seq<T>>|
        #[trigger] cost_with(c, t1, xs, ys, act, z, one, outs);
    assert forall|i: int| 0 <= i < outs.len() implies forward_output(t2, xs@[i], act, #[trigger] outs[i]) by {
        assert(forward_output(t1, xs@[i], act, outs[i]));
        let run = choose|run: Tensor<T>|
            {
                &&& same_parameters(t1, run)
                &&& run.activations()[0]@[0] == xs@[i]
                &&& forall|k: int| 0 <= k < t1.layers() ==> #[trigger] layer_forwarded(run, k, act)
                &&& #[trigger] run.activations()[t1.layers() as int]@[0] == outs[i]
            };
        assert forall|k: int| 0 <= k < run.weights().len() implies (#[trigger] run.weights()[k]).same_layout(&t2.weights()[k]) by {
            assert(run.weights()[k].same_layout(&t1.weights()[k]));
            assert(t2.weights()[k].same_layout(&t1.weights()[k]));
        }
        assert forall|k: int| 0 <= k < run.biases().len() implies (#[trigger] run.biases()[k]).same_layout(&t2.biases()[k]) by {
            assert(run.biases()[k].same_layout(&t1.biases()[k]));
            assert(t2.biases()[k].same_layout(&t1.biases()[k]));
        }
        assert forall|k: int| 0 <= k < run.activations().len() implies (#[trigger] run.activations()[k]).same_layout(&t2.activations()[k]) by {
            assert(run.activations()[k].same_layout(&t1.activations()[k]));
            assert(t2.activations()[k].same_layout(&t1.activations()[k]));
        }
        assert forall|k: int| 0 <= k < run.weights().len() implies (#[trigger] run.weights()[k])@ == t2.weights()[k]@ by {
            assert(run.weights()[k]@ == t1.weights()[k]@);
            assert(t2.weights()[k]@ == t1.weights()[k]@);
        }
        assert forall|k: int| 0 <= k < run.biases().len() implies (#[trigger] run.biases()[k])@ == t2.biases()[k]@ by {
            assert(run.biases()[k]@ == t1.biases()[k]@);
            assert(t2.biases()[k]@ == t1.biases()[k]@);
        }
        assert(same_parameters(t2, run));
    }
    assert(cost_with(c, t2, xs, ys, act, z, one, outs));
}

/// `after` is `before` after one training round with gradient `g`: `g` is the
/// forward-difference estimate with step `eps` from the base cost `c0` of `before`, and
/// every weight and bias of `after` is that of `before` less `rate` times `g`.
pub open spec fn round_with<T, F: Fn(T) -> T>(
    before: Tensor<T>,
    after: Tensor<T>,
    xs: Matrix<T>,
    ys: Matrix<T>,
    act: F,
    eps: T,
    rate: T,
    g: Tensor<T>,
    c0: T,
) -> bool where
    T: From<u8> + core::ops::Add<Output = T> + core::ops::Sub<Output = T> + core::ops::Mul<
        Output = T,
    > + core::ops::Div<Output = T>,
 {
    &&& after.wf()
    &&& after.same_layout(&before)
    &&& is_cost(c0, before, xs, ys, act)
    &&& gradient_estimated(g, before, xs, ys, act, c0, eps)
    &&& T::obeys_sub_spec() && T::obeys_mul_spec() ==> descended(before, g, rate, after)
}

/// `after` is `before` after one round of `finite_diff(eps)` followed by `learn(rate)`.
pub open spec fn round<T, F: Fn(T) -> T>(
    before: Tensor<T>,
    after: Tensor<T>,
    xs: Matrix<T>,
    ys: Matrix<T>,
    act: F,
    eps: T,
    rate: T,
) -> bool where
    T: From<u8> + core::ops::Add<Output = T> + core::ops::Sub<Output = T> + core::ops::Mul<
        Output = T,
    > + core::ops::Div<Output = T>,
 {
    exists|g: Tensor<T>, c0: T| #[trigger] round_with(before, after, xs, ys, act, eps, rate, g, c0)
}

/// `chain` holds `n + 1` models, from one with the parameters of `start` to one with the
/// parameters of `end`, each the one before it after a training round.
pub open spec fn training_run<T, F: Fn(T) -> T>(
    chain: Seq<Tensor<T>>,
    start: Tensor<T>,
    end: Tensor<T>,
    xs: Matrix<T>,
    ys: Matrix<T>,
    act: F,
    eps: T,
    rate: T,
    n: nat,
) -> bool where
    T: From<u8> + core::ops::Add<Output = T> + core::ops::Sub<Output = T> + core::ops::Mul<
        Output = T,
    > + core::ops::Div<Output = T>,
 {
    &&& chain.len() == n + 1
    &&& same_parameters(start, chain[0])
    &&& same_parameters(chain[n as int], end)
    &&& forall|k: int| 0 <= k < n ==> #[trigger] round(chain[k], chain[k + 1], xs, ys, act, eps, rate)
}

/// A training engine: a model, a gradient of the same shape, and two strided views of
/// the training rows, one over the input columns and one over the target columns.
pub struct Arch<T, F> {
    model: Tensor<T>,
    gradient: Tensor<T>,
    input: Matrix<T>,
    output: Matrix<T>,
    act: F,
}

impl<T, F: Fn(T) -> T> Arch<T, F> {
    /// The activation function applied after each layer.
    pub closed spec fn activation(&self) -> F {
        self.act
    }

    pub closed spec fn model(&self) -> Tensor<T> {
        self.model
    }

    pub closed spec fn gradient(&self) -> Tensor<T> {
        self.gradient
    }

    /// The input columns of the training rows.
    pub closed spec fn inputs(&self) -> Matrix<T> {
        self.input
    }

    /// The target columns of the training rows.
    pub closed spec fn targets(&self) -> Matrix<T> {
        self.output
    }

    pub open spec fn wf(&self) -> bool {
        &&& forall|x: T| #[trigger] self.activation().requires((x,))
        &&& self.model().wf()
        &&& self.gradient().wf()
        &&& self.gradient().layers() == self.model().layers()
        &&& self.gradient().widths() == self.model().widths()
        &&& self.inputs().wf()
        &&& self.targets().wf()
        &&& self.inputs().nrows() == self.targets().nrows()
        &&& self.inputs().nrows() >= 1
        &&& self.model().widths()[0] == self.inputs().ncols()
        &&& self.model().widths()[self.model().layers() as int] == self.targets().ncols()
    }

    /// Builds an engine over `rows` training rows, each `input_cols` inputs followed by
    /// `output_cols` targets, which applies `act` after every layer. The model's
    /// parameters and activations are drawn from `draw`; the gradient starts at zero.
    pub fn new<G: FnMut() -> T>(
        input_data: &[T],
        rows: usize,
        input_cols: usize,
        output_cols: usize,
        hidden_layers: &[usize],
        act: F,
        draw: &mut G,
    ) -> (res: Result<Arch<T, F>, ConstructionError>) where T: Copy + From<u8>
        requires
            weights_fit(layer_widths(input_cols as nat, hidden_layers@, output_cols as nat)),
            forall|x: T| #[trigger] act.requires((x,)),
            forall|s: G| #[trigger] s.requires(()),
        ensures
            input_data@.len() == 0 || rows == 0 || input_cols == 0 || output_cols == 0
                <==> res == Err::<Arch<T, F>, _>(ConstructionError::ZeroDimension),
            input_data@.len() > 0 && rows > 0 && input_cols > 0 && output_cols > 0 && rows * (
            input_cols + output_cols) > input_data@.len()
                <==> res == Err::<Arch<T, F>, _>(ConstructionError::SourceTooShort),
            input_data@.len() > 0 && rows > 0 && input_cols > 0 && output_cols > 0 && rows * (
            input_cols + output_cols) <= input_data@.len() ==> res is Ok,
            res matches Ok(a) ==> {
                let stride = input_cols + output_cols;
                &&& a.wf()
                &&& a.activation() == act
                &&& a.model().all_drawn::<G>()
                &&& a.model().widths() == layer_widths(
                    input_cols as nat,
                    hidden_layers@,
                    output_cols as nat,
                )
                &&& a.inputs().nrows() == rows
                &&& a.inputs().ncols() == input_cols
                &&& a.targets().ncols() == output_cols
                &&& forall|i: int, c: int|
                    0 <= i < rows && 0 <= c < input_cols ==> #[trigger] a.inputs()@[i][c]
                        == input_data@[i * stride + c]
                &&& forall|i: int, c: int|
                    0 <= i < rows && 0 <= c < output_cols ==> #[trigger] a.targets()@[i][c]
                        == input_data@[i * stride + input_cols + c]
                &&& exists|z: T| is_from_u8(z, 0) && a.gradient().filled_with(z)
            },
    {
        if input_data.len() == 0 || rows == 0 || input_cols == 0 || output_cols == 0 {
            return Err(ConstructionError::ZeroDimension);
        }
        let len = input_data.len();
        let stride = match input_cols.checked_add(output_cols) {
            Some(s) => s,
            None => {
                assert(rows * (input_cols + output_cols) > len) by (nonlinear_arith)
                    requires
                        rows >= 1,
                        input_cols + output_cols > usize::MAX,
                        len <= usize::MAX,
                ;
                return Err(ConstructionError::SourceTooShort);
            },
        };
        match rows.checked_mul(stride) {
            Some(total) => {
                if total > len {
                    return Err(ConstructionError::SourceTooShort);
                }
            },
            None => {
                return Err(ConstructionError::SourceTooShort);
            },
        }
        proof {
            assert((rows - 1) * stride + stride == rows * stride) by (nonlinear_arith);
        }
        let input = match Matrix::from(rows, input_cols, stride, input_data) {
            Ok(m) => m,
            Err(e) => {
                return Err(ConstructionError::SourceTooShort);
            },
        };
        let tail = &input_data[input_cols..len];
        let output = match Matrix::from(rows, output_cols, stride, tail) {
            Ok(m) => m,
            Err(e) => {
                return Err(ConstructionError::SourceTooShort);
            },
        };
        let mut layers: Vec<usize> = Vec::new();
        layers.push(input_cols);
        let mut i: usize = 0;
        while i < hidden_layers.len()
            invariant
                i <= hidden_layers@.len(),
                layers@.len() == i + 1,
                layers@[0] == input_cols,
                forall|k: int| 0 <= k < i ==> #[trigger] layers@[k + 1] == hidden_layers@[k],
            decreases hidden_layers@.len() - i,
        {
            layers.push(hidden_layers[i]);
            i += 1;
        }
        layers.push(output_cols);
        let ghost widths = layer_widths(input_cols as nat, hidden_layers@, output_cols as nat);
        proof {
            let n = hidden_layers@.len() as int;
            assert(widths.len() == layers@.len());
            assert forall|k: int| 0 <= k < layers@.len() implies #[trigger] widths[k] == layers@[k] by {
                if k == 0 {
                } else if k <= n {
                    assert(layers@[(k - 1) + 1] == hidden_layers@[k - 1]);
                    assert(widths[k] == hidden_layers@.map_values(|h: usize| h as nat)[k - 1]);
                } else {
                    assert(widths[k] == output_cols);
                }
            }
            assert forall|k: int| 0 <= k < layers@.len() - 1 implies (#[trigger] layers@[k]) * layers@[k + 1] <= usize::MAX by {
                assert(layers@[k] == widths[k]);
                assert(layers@[k + 1] == widths[k + 1]);
            }
        }
        let mut model = match Tensor::from(layers.as_slice()) {
            Ok(t) => t,
            Err(e) => {
                return Err(ConstructionError::TooFewLayers);
            },
        };
        let gradient = match Tensor::from(layers.as_slice()) {
            Ok(t) => t,
            Err(e) => {
                return Err(ConstructionError::TooFewLayers);
            },
        };
        let ghost zeros = model;
        model.fill_with(draw);
        proof {
            assert forall|k: int| 0 <= k < model.widths().len() implies #[trigger] model.widths()[k]
                == widths[k] by {
                assert(model.activations()[k].same_layout(&zeros.activations()[k]));
                assert(zeros.widths()[k] == layers@[k]);
            }
            assert(model.widths() =~= widths);
            assert(gradient.widths() =~= widths);
            assert forall|i: int, c: int|
                0 <= i < rows && 0 <= c < output_cols implies #[trigger] output@[i][c]
                == input_data@[i * stride + input_cols + c] by {
                assert(i * stride <= (rows - 1) * stride) by (nonlinear_arith)
                    requires
                        0 <= i < rows,
                ;
                assert(tail@ == input_data@.subrange(input_cols as int, len as int));
                assert(tail@[i * stride + c] == input_data@[input_cols + (i * stride + c)]);
            }
        }
        let a = Arch { model, gradient, input, output, act };
        proof {
            assert forall|x: T| #[trigger] a.activation().requires((x,)) by {
                assert(act.requires((x,)));
            }
        }
        Ok(a)
    }

    /// Runs the row held in the input activations through every layer:
    /// `activations[i + 1] = act(activations[i] * weights[i] + biases[i])`.
    pub fn feed_forward(&mut self) where
        T: Copy + From<u8> + core::ops::Add<Output = T> + core::ops::Mul<Output = T>,

        requires
            old(self).wf(),
            arith_total::<T>(),
        ensures
            final(self).wf(),
            final(self).activation() == old(self).activation(),
            same_parameters(old(self).model(), final(self).model()),
            final(self).model().activations()[0] == old(self).model().activations()[0],
            final(self).gradient() == old(self).gradient(),
            final(self).inputs() == old(self).inputs(),
            final(self).targets() == old(self).targets(),
            forall|i: int|
                0 <= i < old(self).model().layers() ==> #[trigger] layer_forwarded(
                    final(self).model(),
                    i,
                    old(self).activation(),
                ),
    {
        let count = self.model.count;
        let mut i: usize = 0;
        while i < count
            invariant
                count == self.model().layers(),
                i <= count,
                self.wf(),
                self.activation() == old(self).activation(),
                arith_total::<T>(),
                same_parameters(old(self).model(), self.model()),
                self.model().activations()[0] == old(self).model().activations()[0],
                self.gradient() == old(self).gradient(),
                self.inputs() == old(self).inputs(),
                self.targets() == old(self).targets(),
                forall|k: int| 0 <= k < i ==> #[trigger] layer_forwarded(self.model(), k, old(self).activation()),
            decreases count - i,
        {
            let ghost before = self.model;
            let (left, right) = self.model.al.as_mut_slice().split_at_mut(i + 1);
            let cur = &left[i];
            let nxt = &mut right[0];
            let ghost n0 = *nxt;
            nxt.dot(cur, &self.model.wl[i]);
            let ghost n1 = *nxt;
            nxt.add(&self.model.bl[i]);
            let ghost n2 = *nxt;
            nxt.activate(&self.act);
            let ghost n3 = *nxt;
            proof {
                assert(self.model.al@ =~= before.al@.update(i + 1, n3));
                assert(n3.same_layout(&before.al@[i + 1]));
                let t = self.model();
                assert(t.activations()[i as int] == before.al@[i as int]);
                assert forall|k: int| 0 <= k < i implies #[trigger] layer_forwarded(t, k, old(self).activation()) by {
                    assert(layer_forwarded(before, k, old(self).activation()));
                    assert(t.activations()[k] == before.activations()[k]);
                    assert(t.activations()[k + 1] == before.activations()[k + 1]);
                }
                let z = choose|z: T|
                    is_from_u8(z, 0) && (T::obeys_add_spec() && T::obeys_mul_spec() ==> forall|
                        r: int,
                        c: int,
                    |
                        0 <= r < before.al@[i as int].nrows() && 0 <= c < before.wl@[i as int].ncols()
                            ==> #[trigger] n1@[r][c] == dot_acc(
                            z,
                            before.al@[i as int]@[r],
                            column_of(before.wl@[i as int]@, c),
                            before.al@[i as int].ncols(),
                        ));
                if T::obeys_add_spec() && T::obeys_mul_spec() {
                    assert forall|c: int| 0 <= c < t.widths()[i + 1] implies old(self).activation().ensures(
                        (dot_acc(
                            z,
                            t.activations()[i as int]@[0],
                            column_of(t.weights()[i as int]@, c),
                            t.widths()[i as int],
                        ).add_spec(t.biases()[i as int]@[0][c]),),
                        #[trigger] t.activations()[i + 1]@[0][c],
                    ) by {
                        assert(n1@[0][c] == dot_acc(
                            z,
                            before.al@[i as int]@[0],
                            column_of(before.wl@[i as int]@, c),
                            before.al@[i as int].ncols(),
                        ));
                        assert(n2@[0][c] == n1@[0][c].add_spec(before.bl@[i as int]@[0][c]));
                        assert(old(self).activation().ensures((n2@[0][c],), n3@[0][c]));
                    }
                }
                assert(layer_forwarded(t, i as int, old(self).activation()));
                assert(t.widths() =~= before.widths());
                assert(t.wf());
            }
            i += 1;
        }
    }

    /// The mean squared error of the model over the training rows: the squared
    /// differences of every output column of every row, summed, divided by the number
    /// of rows. Leaves the last row's activations in the model.
    pub fn cost(&mut self) -> (c: T) where
        T: Copy + From<u8> + core::ops::Add<Output = T> + core::ops::Sub<Output = T>
            + core::ops::Mul<Output = T> + core::ops::Div<Output = T>,

        requires
            old(self).wf(),
            ops_total::<T>(),
        ensures
            final(self).wf(),
            final(self).activation() == old(self).activation(),
            same_parameters(old(self).model(), final(self).model()),
            final(self).gradient() == old(self).gradient(),
            final(self).inputs() == old(self).inputs(),
            final(self).targets() == old(self).targets(),
            is_cost(c, old(self).model(), old(self).inputs(), old(self).targets(), old(self).activation()),
            final(self).model().activations()[0]@[0] == old(self).inputs()@[old(self).inputs().nrows() - 1],
    {
        let z = T::from(0u8);
        let one = T::from(1u8);
        let mut c = z;
        let mut count = z;
        let n = self.input.get_row_count();
        let cols = self.output.get_col_count();
        let ghost mut outs: Seq<Seq<T>> = Seq::empty();
        proof {
            assert(arith_total::<T>());
        }
        let mut i: usize = 0;
        while i < n
            invariant
                n == self.inputs().nrows(),
                cols == self.targets().ncols(),
                i <= n,
                self.wf(),
                self.activation() == old(self).activation(),
                ops_total::<T>(),
                arith_total::<T>(),
                same_parameters(old(self).model(), self.model()),
                self.gradient() == old(self).gradient(),
                self.inputs() == old(self).inputs(),
                self.targets() == old(self).targets(),
                outs.len() == i,
                forall|k: int|
                    0 <= k < i ==> forward_output(
                        old(self).model(),
                        old(self).inputs()@[k],
                        old(self).activation(),
                        #[trigger] outs[k],
                    ),
                ops_obeyed::<T>() ==> c == sq_err_rows(z, outs, old(self).targets()@, i as nat, cols as nat),
                ops_obeyed::<T>() ==> count == count_up(z, one, i as nat),
                i > 0 ==> self.model().activations()[0]@[0] == old(self).inputs()@[i - 1],
            decreases n - i,
        {
            let x = self.input.get_row_ref(i);
            let ghost m0 = self.model;
            self.model.get_input_mut().copy_from_slice(x);
            let ghost m1 = self.model;
            proof {
                assert(m1.activations()[0].same_layout(&m0.activations()[0]));
                assert(m1.widths() =~= m0.widths());
                assert(m1.wf());
            }
            self.feed_forward();
            let y = self.output.get_row_ref(i);
            let ghost out = self.model().activations()[self.model().layers() as int]@[0];
            let ghost c0 = c;
            let mut j: usize = 0;
            while j < cols
                invariant
                    n == self.inputs().nrows(),
                    cols == self.targets().ncols(),
                    i < n,
                    j <= cols,
                    self.wf(),
                    self.activation() == old(self).activation(),
                    ops_total::<T>(),
                    y@ == self.targets()@[i as int],
                    out == self.model().activations()[self.model().layers() as int]@[0],
                    ops_obeyed::<T>() ==> c == sq_err_row(c0, out, y@, j as nat),
                decreases cols - j,
            {
                let o = *self.model.get_output().get_ref(0, j);
                let d = o - y[j];
                c = c + d * d;
                j += 1;
            }
            count = count + one;
            proof {
                let run = self.model();
                assert(run.activations()[0]@[0] =~= old(self).inputs()@[i as int]);
                assert(forward_output(old(self).model(), old(self).inputs()@[i as int], old(self).activation(), out));
                let prev = outs;
                outs = outs.push(out);
                lemma_sq_err_rows_prefix(z, prev, outs, old(self).targets()@, i as nat, cols as nat);
                assert(sq_err_rows(z, outs, old(self).targets()@, (i + 1) as nat, cols as nat)
                    == sq_err_row(sq_err_rows(z, outs, old(self).targets()@, i as nat, cols as nat), out, y@, cols as nat));
            }
            i += 1;
        }
        let r = c / count;
        assert(cost_with(r, old(self).model(), old(self).inputs(), old(self).targets(), old(self).activation(), z, one, outs));
        r
    }

    /// A gradient-descent step on the model with the current gradient.
    pub fn learn(&mut self, rate: T) where
        T: Copy + core::ops::Sub<Output = T> + core::ops::Mul<Output = T>,

        requires
            old(self).wf(),
            sub_mul_total::<T>() || descent_ok(old(self).model(), old(self).gradient(), rate),
        ensures
            final(self).wf(),
            final(self).activation() == old(self).activation(),
            final(self).model().same_layout(&old(self).model()),
            final(self).model().activations() == old(self).model().activations(),
            final(self).gradient() == old(self).gradient(),
            final(self).inputs() == old(self).inputs(),
            final(self).targets() == old(self).targets(),
            T::obeys_sub_spec() && T::obeys_mul_spec() ==> descended(
                old(self).model(),
                old(self).gradient(),
                rate,
                final(self).model(),
            ),
    {
        _learn(&mut self.model, &self.gradient, rate);
        proof {
            assert forall|x: T| #[trigger] self.activation().requires((x,)) by {
                assert(old(self).activation().requires((x,)));
            }
            assert(self.model().widths() =~= old(self).model().widths());
        }
    }

    /// Estimates the slope of the cost in one weight (when `weight`) or bias by moving it
    /// by `eps`, records it in the gradient, and puts the parameter back.
    fn estimate(
        &mut self,
        weight: bool,
        i: usize,
        r: usize,
        c: usize,
        c0: T,
        eps: T,
        Ghost(t0): Ghost<Tensor<T>>,
    ) -> (g: T) where
        T: Copy + From<u8> + core::ops::Add<Output = T> + core::ops::Sub<Output = T>
            + core::ops::Mul<Output = T> + core::ops::Div<Output = T>,

        requires
            old(self).wf(),
            ops_total::<T>(),
            same_parameters(t0, old(self).model()),
            i < old(self).model().layers(),
            weight ==> r < old(self).model().weights()[i as int].nrows(),
            weight ==> c < old(self).model().weights()[i as int].ncols(),
            !weight ==> r < old(self).model().biases()[i as int].nrows(),
            !weight ==> c < old(self).model().biases()[i as int].ncols(),
        ensures
            final(self).wf(),
            final(self).activation() == old(self).activation(),
            same_parameters(t0, final(self).model()),
            final(self).inputs() == old(self).inputs(),
            final(self).targets() == old(self).targets(),
            final(self).gradient().same_layout(&old(self).gradient()),
            final(self).gradient().activations() == old(self).gradient().activations(),
            final(self).gradient().layers() == old(self).gradient().layers(),
            forall|k: int|
                0 <= k < old(self).model().layers() && (k != i || !weight) ==> (#[trigger] final(self).gradient().weights()[k])@ == old(self).gradient().weights()[k]@,
            forall|k: int|
                0 <= k < old(self).model().layers() && (k != i || weight) ==> (#[trigger] final(self).gradient().biases()[k])@ == old(self).gradient().biases()[k]@,
            weight ==> final(self).gradient().weights()[i as int]@ == old(self).gradient().weights()[i as int]@.update(
                r as int,
                old(self).gradient().weights()[i as int]@[r as int].update(c as int, g),
            ),
            !weight ==> final(self).gradient().biases()[i as int]@ == old(self).gradient().biases()[i as int]@.update(
                r as int,
                old(self).gradient().biases()[i as int]@[r as int].update(c as int, g),
            ),
            slope(g, t0, old(self).inputs(), old(self).targets(), old(self).activation(), c0, eps, weight, i as int, r as int, c as int),
    {
        let ghost m0 = self.model;
        let ghost g0 = self.gradient;
        let saved = if weight {
            *self.model.wl[i].get_ref(r, c)
        } else {
            *self.model.bl[i].get_ref(r, c)
        };
        let v = saved + eps;
        if weight {
            self.model.wl[i].set_entry(r, c, v);
        } else {
            self.model.bl[i].set_entry(r, c, v);
        }
        let ghost p = self.model;
        proof {
            assert(p.widths() =~= m0.widths());
            assert(perturbed(t0, p, weight, i as int, r as int, c as int, v));
        }
        proof {
            assert forall|x: T| #[trigger] self.activation().requires((x,)) by {
                    assert(old(self).activation().requires((x,)));
                }
        }
        let c1 = self.cost();
        let g = _finite_diff(c0, c1, eps);
        assert(slope_with(g, t0, old(self).inputs(), old(self).targets(), old(self).activation(), c0, eps, weight, i as int, r as int, c as int, p, c1, v));
        proof {
            assert(self.gradient().widths()[i as int] == self.model().widths()[i as int]);
            assert(self.gradient().widths()[i + 1] == self.model().widths()[i + 1]);
        }
        if weight {
            self.gradient.wl[i].set_entry(r, c, g);
            self.model.wl[i].set_entry(r, c, saved);
        } else {
            self.gradient.bl[i].set_entry(r, c, g);
            self.model.bl[i].set_entry(r, c, saved);
        }
        proof {
            assert(self.model().widths() =~= m0.widths());
            assert(self.gradient().widths() =~= g0.widths());
            if weight {
                assert(self.model().weights()[i as int]@ =~~= m0.weights()[i as int]@);
            } else {
                assert(self.model().biases()[i as int]@ =~~= m0.biases()[i as int]@);
            }
        }
        g
    }

    /// Runs `estimate` on every element of one weight (when `weight`) or bias matrix.
    fn estimate_matrix(
        &mut self,
        weight: bool,
        i: usize,
        c0: T,
        eps: T,
        Ghost(t0): Ghost<Tensor<T>>,
    ) where
        T: Copy + From<u8> + core::ops::Add<Output = T> + core::ops::Sub<Output = T>
            + core::ops::Mul<Output = T> + core::ops::Div<Output = T>,

        requires
            old(self).wf(),
            ops_total::<T>(),
            same_parameters(t0, old(self).model()),
            i < old(self).model().layers(),
        ensures
            final(self).wf(),
            final(self).activation() == old(self).activation(),
            same_parameters(t0, final(self).model()),
            final(self).inputs() == old(self).inputs(),
            final(self).targets() == old(self).targets(),
            final(self).gradient().same_layout(&old(self).gradient()),
            final(self).gradient().activations() == old(self).gradient().activations(),
            final(self).gradient().layers() == old(self).gradient().layers(),
            forall|k: int|
                0 <= k < old(self).model().layers() && (k != i || !weight) ==> (#[trigger] final(self).gradient().weights()[k])@
                    == old(self).gradient().weights()[k]@,
            forall|k: int|
                0 <= k < old(self).model().layers() && (k != i || weight) ==> (#[trigger] final(self).gradient().biases()[k])@
                    == old(self).gradient().biases()[k]@,
            weight ==> forall|r: int, c: int|
                0 <= r < t0.weights()[i as int].nrows() && 0 <= c < t0.weights()[i as int].ncols()
                    ==> slope(
                    #[trigger] final(self).gradient().weights()[i as int]@[r][c],
                    t0,
                    old(self).inputs(),
                    old(self).targets(),
                    old(self).activation(),
                    c0,
                    eps,
                    true,
                    i as int,
                    r,
                    c,
                ),
            !weight ==> forall|r: int, c: int|
                0 <= r < t0.biases()[i as int].nrows() && 0 <= c < t0.biases()[i as int].ncols()
                    ==> slope(
                    #[trigger] final(self).gradient().biases()[i as int]@[r][c],
                    t0,
                    old(self).inputs(),
                    old(self).targets(),
                    old(self).activation(),
                    c0,
                    eps,
                    false,
                    i as int,
                    r,
                    c,
                ),
    {
        let rows = if weight {
            self.model.wl[i].get_row_count()
        } else {
            self.model.bl[i].get_row_count()
        };
        let cols = if weight {
            self.model.wl[i].get_col_count()
        } else {
            self.model.bl[i].get_col_count()
        };
        let mut r: usize = 0;
        while r < rows
            invariant
                weight ==> rows == t0.weights()[i as int].nrows() && cols == t0.weights()[i as int].ncols(),
                !weight ==> rows == t0.biases()[i as int].nrows() && cols == t0.biases()[i as int].ncols(),
                i < self.model().layers() == old(self).model().layers(),
                r <= rows,
                self.wf(),
                self.activation() == old(self).activation(),
                ops_total::<T>(),
                same_parameters(t0, self.model()),
                self.inputs() == old(self).inputs(),
                self.targets() == old(self).targets(),
                self.gradient().same_layout(&old(self).gradient()),
                self.gradient().activations() == old(self).gradient().activations(),
                self.gradient().layers() == old(self).gradient().layers(),
                forall|k: int|
                    0 <= k < old(self).model().layers() && (k != i || !weight) ==> (#[trigger] self.gradient().weights()[k])@
                        == old(self).gradient().weights()[k]@,
                forall|k: int|
                    0 <= k < old(self).model().layers() && (k != i || weight) ==> (#[trigger] self.gradient().biases()[k])@
                        == old(self).gradient().biases()[k]@,
                forall|a: int, b: int|
                    0 <= a < r && 0 <= b < cols ==> slope(
                        #[trigger] parameter(self.gradient(), weight, i as int, a, b),
                        t0,
                        old(self).inputs(),
                        old(self).targets(),
                        old(self).activation(),
                        c0,
                        eps,
                        weight,
                        i as int,
                        a,
                        b,
                    ),
            decreases rows - r,
        {
            let mut c: usize = 0;
            while c < cols
                invariant
                    weight ==> rows == t0.weights()[i as int].nrows() && cols == t0.weights()[i as int].ncols(),
                    !weight ==> rows == t0.biases()[i as int].nrows() && cols == t0.biases()[i as int].ncols(),
                    i < self.model().layers() == old(self).model().layers(),
                    r < rows,
                    c <= cols,
                    self.wf(),
                    self.activation() == old(self).activation(),
                    ops_total::<T>(),
                    same_parameters(t0, self.model()),
                    self.inputs() == old(self).inputs(),
                    self.targets() == old(self).targets(),
                    self.gradient().same_layout(&old(self).gradient()),
                    self.gradient().activations() == old(self).gradient().activations(),
                    self.gradient().layers() == old(self).gradient().layers(),
                    forall|k: int|
                        0 <= k < old(self).model().layers() && (k != i || !weight) ==> (#[trigger] self.gradient().weights()[k])@
                            == old(self).gradient().weights()[k]@,
                    forall|k: int|
                        0 <= k < old(self).model().layers() && (k != i || weight) ==> (#[trigger] self.gradient().biases()[k])@
                            == old(self).gradient().biases()[k]@,
                    forall|a: int, b: int|
                        (0 <= a < r && 0 <= b < cols) || (a == r && 0 <= b < c) ==> slope(
                            #[trigger] parameter(self.gradient(), weight, i as int, a, b),
                            t0,
                            old(self).inputs(),
                            old(self).targets(),
                            old(self).activation(),
                            c0,
                            eps,
                            weight,
                            i as int,
                            a,
                            b,
                        ),
                decreases cols - c,
            {
                let ghost before = self.gradient;
                proof {
                    assert(self.model().weights()[i as int].same_layout(&t0.weights()[i as int]));
                    assert(self.model().biases()[i as int].same_layout(&t0.biases()[i as int]));
                }
                proof {
                    assert(before.widths()[i as int] == self.model().widths()[i as int]);
                    assert(before.widths()[i + 1] == self.model().widths()[i + 1]);
                    assert(self.model().widths()[i as int] == t0.widths()[i as int]);
                    assert(self.model().widths()[i + 1] == t0.widths()[i + 1]);
                }
                let g = self.estimate(weight, i, r, c, c0, eps, Ghost(t0));
                proof {
                    assert forall|a: int, b: int|
                        (0 <= a < r && 0 <= b < cols) || (a == r && 0 <= b < c + 1) implies slope(
                            #[trigger] parameter(self.gradient(), weight, i as int, a, b),
                            t0,
                            old(self).inputs(),
                            old(self).targets(),
                            old(self).activation(),
                            c0,
                            eps,
                            weight,
                            i as int,
                            a,
                            b,
                        ) by {
                        if a == r && b == c {
                        } else {
                            assert(parameter(self.gradient(), weight, i as int, a, b) == parameter(before, weight, i as int, a, b));
                        }
                    }
                }
                c += 1;
            }
            r += 1;
        }
        proof {
            if weight {
                assert forall|a: int, b: int|
                    0 <= a < t0.weights()[i as int].nrows() && 0 <= b < t0.weights()[i as int].ncols()
                    implies slope(
                    #[trigger] self.gradient().weights()[i as int]@[a][b],
                    t0,
                    old(self).inputs(),
                    old(self).targets(),
                    old(self).activation(),
                    c0,
                    eps,
                    true,
                    i as int,
                    a,
                    b,
                ) by {
                    assert(parameter(self.gradient(), weight, i as int, a, b) == self.gradient().weights()[i as int]@[a][b]);
                }
            } else {
                assert forall|a: int, b: int|
                    0 <= a < t0.biases()[i as int].nrows() && 0 <= b < t0.biases()[i as int].ncols()
                    implies slope(
                    #[trigger] self.gradient().biases()[i as int]@[a][b],
                    t0,
                    old(self).inputs(),
                    old(self).targets(),
                    old(self).activation(),
                    c0,
                    eps,
                    false,
                    i as int,
                    a,
                    b,
                ) by {
                    assert(parameter(self.gradient(), weight, i as int, a, b) == self.gradient().biases()[i as int]@[a][b]);
                }
            }
        }
    }

    /// Estimates every partial derivative of the cost by forward differences: from the
    /// base cost `c0`, each weight and then each bias, layer by layer, is moved by `eps`,
    /// the cost `c1` is taken again, `(c1 - c0) / eps` is written into the gradient, and
    /// the parameter is put back.
    pub fn finite_diff(&mut self, eps: T) where
        T: Copy + From<u8> + core::ops::Add<Output = T> + core::ops::Sub<Output = T>
            + core::ops::Mul<Output = T> + core::ops::Div<Output = T>,

        requires
            old(self).wf(),
            ops_total::<T>(),
        ensures
            final(self).wf(),
            final(self).activation() == old(self).activation(),
            same_parameters(old(self).model(), final(self).model()),
            final(self).inputs() == old(self).inputs(),
            final(self).targets() == old(self).targets(),
            final(self).gradient().same_layout(&old(self).gradient()),
            final(self).gradient().activations() == old(self).gradient().activations(),
            exists|c0: T|
                #[trigger] is_cost(c0, old(self).model(), old(self).inputs(), old(self).targets(), old(self).activation())
                    && gradient_estimated(
                    final(self).gradient(),
                    old(self).model(),
                    old(self).inputs(),
                    old(self).targets(),
                    old(self).activation(),
                    c0,
                    eps,
                ),
    {
        let ghost t0 = self.model;
        let c0 = self.cost();
        let count = self.model.count;
        let mut i: usize = 0;
        while i < count
            invariant
                count == self.model().layers() == t0.layers(),
                i <= count,
                self.wf(),
                self.activation() == old(self).activation(),
                ops_total::<T>(),
                same_parameters(t0, self.model()),
                self.inputs() == old(self).inputs(),
                self.targets() == old(self).targets(),
                self.gradient().same_layout(&old(self).gradient()),
                self.gradient().activations() == old(self).gradient().activations(),
                self.gradient().layers() == old(self).gradient().layers(),
                is_cost(c0, t0, old(self).inputs(), old(self).targets(), old(self).activation()),
                forall|k: int, r: int, c: int|
                    0 <= k < i && 0 <= r < t0.weights()[k].nrows() && 0 <= c < t0.weights()[k].ncols()
                        ==> slope(#[trigger] self.gradient().weights()[k]@[r][c], t0, old(self).inputs(), old(self).targets(), old(self).activation(), c0, eps, true, k, r, c),
                forall|k: int, r: int, c: int|
                    0 <= k < i && 0 <= r < t0.biases()[k].nrows() && 0 <= c < t0.biases()[k].ncols()
                        ==> slope(#[trigger] self.gradient().biases()[k]@[r][c], t0, old(self).inputs(), old(self).targets(), old(self).activation(), c0, eps, false, k, r, c),
            decreases count - i,
        {
            let ghost g0 = self.gradient;
            self.estimate_matrix(true, i, c0, eps, Ghost(t0));
            let ghost g1 = self.gradient;
            self.estimate_matrix(false, i, c0, eps, Ghost(t0));
            proof {
                assert forall|k: int, r: int, c: int|
                    0 <= k < i + 1 && 0 <= r < t0.weights()[k].nrows() && 0 <= c < t0.weights()[k].ncols()
                        implies slope(#[trigger] self.gradient().weights()[k]@[r][c], t0, old(self).inputs(), old(self).targets(), old(self).activation(), c0, eps, true, k, r, c) by {
                    assert(self.gradient().weights()[k]@ == g1.weights()[k]@);
                    if k < i {
                        assert(g1.weights()[k]@ == g0.weights()[k]@);
                    }
                }
                assert forall|k: int, r: int, c: int|
                    0 <= k < i + 1 && 0 <= r < t0.biases()[k].nrows() && 0 <= c < t0.biases()[k].ncols()
                        implies slope(#[trigger] self.gradient().biases()[k]@[r][c], t0, old(self).inputs(), old(self).targets(), old(self).activation(), c0, eps, false, k, r, c) by {
                    if k < i {
                        assert(self.gradient().biases()[k]@ == g1.biases()[k]@);
                        assert(g1.biases()[k]@ == g0.biases()[k]@);
                    }
                }
            }
            i += 1;
        }
        assert(is_cost(c0, old(self).model(), old(self).inputs(), old(self).targets(), old(self).activation())
            && gradient_estimated(
            self.gradient(),
            old(self).model(),
            old(self).inputs(),
            old(self).targets(),
            old(self).activation(),
            c0,
            eps,
        ));
    }

    /// Runs `iterations` rounds of `finite_diff(eps)` followed by `learn(rate)`, and
    /// returns the cost before the first round and after the last.
    pub fn train(&mut self, eps: T, rate: T, iterations: usize) -> (costs: (T, T)) where
        T: Copy + From<u8> + core::ops::Add<Output = T> + core::ops::Sub<Output = T>
            + core::ops::Mul<Output = T> + core::ops::Div<Output = T>,

        requires
            old(self).wf(),
            ops_total::<T>(),
        ensures
            final(self).wf(),
            final(self).activation() == old(self).activation(),
            final(self).model().same_layout(&old(self).model()),
            final(self).gradient().same_layout(&old(self).gradient()),
            final(self).gradient().activations() == old(self).gradient().activations(),
            final(self).inputs() == old(self).inputs(),
            final(self).targets() == old(self).targets(),
            is_cost(costs.0, old(self).model(), old(self).inputs(), old(self).targets(), old(self).activation()),
            is_cost(costs.1, final(self).model(), old(self).inputs(), old(self).targets(), old(self).activation()),
            iterations == 0 ==> same_parameters(old(self).model(), final(self).model()),
            exists|chain: Seq<Tensor<T>>|
                #[trigger] training_run(
                    chain,
                    old(self).model(),
                    final(self).model(),
                    old(self).inputs(),
                    old(self).targets(),
                    old(self).activation(),
                    eps,
                    rate,
                    iterations as nat,
                ),
    {
        let before = self.cost();
        let ghost mut chain: Seq<Tensor<T>> = seq![self.model];
        let mut n: usize = 0;
        while n < iterations
            invariant
                n <= iterations,
                self.wf(),
                self.activation() == old(self).activation(),
                ops_total::<T>(),
                self.model().same_layout(&old(self).model()),
                self.gradient().same_layout(&old(self).gradient()),
                self.gradient().activations() == old(self).gradient().activations(),
                self.inputs() == old(self).inputs(),
                self.targets() == old(self).targets(),
                n == 0 ==> same_parameters(old(self).model(), self.model()),
                chain.len() == n + 1,
                same_parameters(old(self).model(), chain[0]),
                chain[n as int] == self.model(),
                forall|k: int|
                    0 <= k < n ==> #[trigger] round(
                        chain[k],
                        chain[k + 1],
                        old(self).inputs(),
                        old(self).targets(),
                        old(self).activation(),
                        eps,
                        rate,
                    ),
            decreases iterations - n,
        {
            let ghost mk = self.model;
            self.finite_diff(eps);
            let ghost m1 = self.model;
            let ghost g = self.gradient;
            self.learn(rate);
            let ghost m2 = self.model;
            proof {
                let xs = old(self).inputs();
                let ys = old(self).targets();
                let c0 = choose|c0: T|
                    #[trigger] is_cost(c0, mk, xs, ys, old(self).activation()) && gradient_estimated(g, mk, xs, ys, old(self).activation(), c0, eps);
                if T::obeys_sub_spec() && T::obeys_mul_spec() {
                    assert forall|i: int, r: int, c: int|
                        0 <= i < mk.layers() && 0 <= r < mk.weights()[i].nrows() && 0 <= c
                            < mk.weights()[i].ncols() implies #[trigger] m2.weights()[i]@[r][c]
                            == mk.weights()[i]@[r][c].sub_spec(rate.mul_spec(g.weights()[i]@[r][c])) by {
                        assert(m1.weights()[i].same_layout(&mk.weights()[i]));
                        assert(m1.weights()[i]@ == mk.weights()[i]@);
                    }
                    assert forall|i: int, r: int, c: int|
                        0 <= i < mk.layers() && 0 <= r < mk.biases()[i].nrows() && 0 <= c
                            < mk.biases()[i].ncols() implies #[trigger] m2.biases()[i]@[r][c]
                            == mk.biases()[i]@[r][c].sub_spec(rate.mul_spec(g.biases()[i]@[r][c])) by {
                        assert(m1.biases()[i].same_layout(&mk.biases()[i]));
                        assert(m1.biases()[i]@ == mk.biases()[i]@);
                    }
                    assert(descended(mk, g, rate, m2));
                }
                assert forall|k: int| 0 <= k < m2.weights().len() implies (#[trigger] m2.weights()[k]).same_layout(&mk.weights()[k]) by {
                    assert(m2.weights()[k].same_layout(&m1.weights()[k]));
                    assert(m1.weights()[k].same_layout(&mk.weights()[k]));
                }
                assert forall|k: int| 0 <= k < m2.biases().len() implies (#[trigger] m2.biases()[k]).same_layout(&mk.biases()[k]) by {
                    assert(m2.biases()[k].same_layout(&m1.biases()[k]));
                    assert(m1.biases()[k].same_layout(&mk.biases()[k]));
                }
                assert forall|k: int| 0 <= k < m2.activations().len() implies (#[trigger] m2.activations()[k]).same_layout(&mk.activations()[k]) by {
                    assert(m2.activations()[k].same_layout(&m1.activations()[k]));
                    assert(m1.activations()[k].same_layout(&mk.activations()[k]));
                }
                assert(round_with(mk, m2, xs, ys, old(self).activation(), eps, rate, g, c0));
                let prev = chain;
                chain = chain.push(m2);
                assert forall|k: int| 0 <= k < n + 1 implies #[trigger] round(
                    chain[k],
                    chain[k + 1],
                    xs,
                    ys,
                    old(self).activation(),
                    eps,
                    rate,
                ) by {
                    if k < n {
                        assert(chain[k] == prev[k] && chain[k + 1] == prev[k + 1]);
                    }
                }
            }
            n += 1;
        }
        let ghost last = self.model;
        let after = self.cost();
        proof {
            lemma_cost_of_parameters(after, last, self.model(), old(self).inputs(), old(self).targets(), old(self).activation());
            assert(self.model().same_layout(&last));
            assert(training_run(
                chain,
                old(self).model(),
                self.model(),
                old(self).inputs(),
                old(self).targets(),
                old(self).activation(),
                eps,
                rate,
                iterations as nat,
            ));
        }
        (before, after)
    }

    /// Loads training row `i` into the input activations and runs it through every layer.
    pub fn forward_row(&mut self, i: usize) where
        T: Copy + From<u8> + core::ops::Add<Output = T> + core::ops::Mul<Output = T>,

        requires
            old(self).wf(),
            i < old(self).inputs().nrows(),
            arith_total::<T>(),
        ensures
            final(self).wf(),
            final(self).activation() == old(self).activation(),
            same_parameters(old(self).model(), final(self).model()),
            final(self).model().activations()[0]@[0] == old(self).inputs()@[i as int],
            final(self).gradient() == old(self).gradient(),
            final(self).inputs() == old(self).inputs(),
            final(self).targets() == old(self).targets(),
            forall|k: int|
                0 <= k < old(self).model().layers() ==> #[trigger] layer_forwarded(
                    final(self).model(),
                    k,
                    old(self).activation(),
                ),
    {
        let x = self.input.get_row_ref(i);
        let ghost m0 = self.model;
        self.model.get_input_mut().copy_from_slice(x);
        proof {
            assert(self.model.activations()[0].same_layout(&m0.activations()[0]));
            assert(self.model.widths() =~= m0.widths());
            assert(self.model.activations()[0]@[0] =~= old(self).inputs()@[i as int]);
        }
        proof {
            assert forall|x: T| #[trigger] self.activation().requires((x,)) by {
                assert(old(self).activation().requires((x,)));
            }
        }
        self.feed_forward();
    }

    /// The model: weights, biases and the activations of the last evaluated row.
    pub fn get_model(&self) -> (r: &Tensor<T>)
        ensures
            *r == self.model(),
    {
        &self.model
    }

    /// The gradient estimated by the last call of `finite_diff`.
    pub fn get_gradient(&self) -> (r: &Tensor<T>)
        ensures
            *r == self.gradient(),
    {
        &self.gradient
    }

    /// The input columns of the training rows.
    pub fn get_input(&self) -> (r: &Matrix<T>)
        ensures
            *r == self.inputs(),
    {
        &self.input
    }

    /// The target columns of the training rows.
    pub fn get_output(&self) -> (r: &Matrix<T>)
        ensures
            *r == self.targets(),
    {
        &self.output
    }
}

} // verus!
