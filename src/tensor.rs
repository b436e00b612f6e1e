use vstd::prelude::*;
use crate::matrix::{drawn, is_from_u8, Matrix};
use crate::ConstructionError;

verus! {

/// The weights, biases and activations of a feed-forward network, one triple per layer.
///
/// Layer `i` maps activation row `i` (width `widths[i]`) to activation row `i + 1`
/// through a `widths[i]` by `widths[i + 1]` weight matrix and a one-row bias.
pub struct Tensor<T> {
    pub(crate) count: usize,
    pub(crate) wl: Vec<Matrix<T>>,
    pub(crate) bl: Vec<Matrix<T>>,
    pub(crate) al: Vec<Matrix<T>>,
}

impl<T> Tensor<T> {
    /// The number of layers.
    pub open(crate) spec fn layers(&self) -> nat {
        self.count as nat
    }

    pub open(crate) spec fn weights(&self) -> Seq<Matrix<T>> {
        self.wl@
    }

    pub open(crate) spec fn biases(&self) -> Seq<Matrix<T>> {
        self.bl@
    }

    /// One more than there are layers: the input row first, the output row last.
    pub open(crate) spec fn activations(&self) -> Seq<Matrix<T>> {
        self.al@
    }

    /// The width of each activation row.
    pub open spec fn widths(&self) -> Seq<nat> {
        Seq::new(self.layers() + 1, |i: int| self.activations()[i].ncols())
    }

    pub open spec fn wf(&self) -> bool {
        &&& self.layers() >= 1
        &&& self.weights().len() == self.layers()
        &&& self.biases().len() == self.layers()
        &&& self.activations().len() == self.layers() + 1
        &&& forall|i: int| 0 <= i <= self.layers() ==> {
            &&& (#[trigger] self.activations()[i]).wf()
            &&& self.activations()[i].nrows() == 1
            &&& self.activations()[i].pitch() == self.activations()[i].ncols()
            &&& self.activations()[i].buffer().len() == self.activations()[i].ncols()
        }
        &&& forall|i: int| 0 <= i < self.layers() ==> {
            &&& (#[trigger] self.weights()[i]).wf()
            &&& self.weights()[i].nrows() == self.activations()[i].ncols()
            &&& self.weights()[i].ncols() == self.activations()[i + 1].ncols()
        }
        &&& forall|i: int| 0 <= i < self.layers() ==> {
            &&& (#[trigger] self.biases()[i]).wf()
            &&& self.biases()[i].nrows() == 1
            &&& self.biases()[i].ncols() == self.activations()[i + 1].ncols()
            &&& self.biases()[i].pitch() == self.biases()[i].ncols()
            &&& self.biases()[i].buffer().len() == self.biases()[i].ncols()
        }
    }

    /// Matrix for matrix, the same shapes, pitches and buffer lengths.
    pub open spec fn same_layout(&self, o: &Tensor<T>) -> bool {
        &&& self.layers() == o.layers()
        &&& self.weights().len() == o.weights().len()
        &&& self.biases().len() == o.biases().len()
        &&& self.activations().len() == o.activations().len()
        &&& forall|i: int|
            0 <= i < self.weights().len() ==> (#[trigger] self.weights()[i]).same_layout(
                &o.weights()[i],
            )
        &&& forall|i: int|
            0 <= i < self.biases().len() ==> (#[trigger] self.biases()[i]).same_layout(
                &o.biases()[i],
            )
        &&& forall|i: int|
            0 <= i < self.activations().len() ==> (#[trigger] self.activations()[i]).same_layout(
                &o.activations()[i],
            )
    }

    /// Every element of every buffer is a value that a generator of type `F` returned.
    pub open spec fn all_drawn<F: FnMut() -> T>(&self) -> bool {
        &&& forall|i: int, j: int|
            0 <= i < self.weights().len() && 0 <= j < self.weights()[i].buffer().len() ==> drawn::<
                T,
                F,
            >(#[trigger] self.weights()[i].buffer()[j])
        &&& forall|i: int, j: int|
            0 <= i < self.biases().len() && 0 <= j < self.biases()[i].buffer().len() ==> drawn::<
                T,
                F,
            >(#[trigger] self.biases()[i].buffer()[j])
        &&& forall|i: int, j: int|
            0 <= i < self.activations().len() && 0 <= j < self.activations()[i].buffer().len()
                ==> drawn::<T, F>(#[trigger] self.activations()[i].buffer()[j])
    }

    /// Every element of every matrix is `v`.
    pub open spec fn filled_with(&self, v: T) -> bool {
        &&& forall|i: int, r: int, c: int|
            0 <= i < self.weights().len() && 0 <= r < self.weights()[i].nrows() && 0 <= c
                < self.weights()[i].ncols() ==> #[trigger] self.weights()[i]@[r][c] == v
        &&& forall|i: int, r: int, c: int|
            0 <= i < self.biases().len() && 0 <= r < self.biases()[i].nrows() && 0 <= c
                < self.biases()[i].ncols() ==> #[trigger] self.biases()[i]@[r][c] == v
        &&& forall|i: int, r: int, c: int|
            0 <= i < self.activations().len() && 0 <= r < self.activations()[i].nrows() && 0
                <= c < self.activations()[i].ncols() ==> #[trigger] self.activations()[i]@[r][c]
                == v
    }

    /// Builds a network of zeros from its layer widths, input width first.
    pub fn from(layers: &[usize]) -> (res: Result<Tensor<T>, ConstructionError>) where
        T: Copy + From<u8>,

        requires
            forall|i: int| 0 <= i < layers@.len() - 1 ==> (#[trigger] layers@[i]) * layers@[i + 1] <= usize::MAX,
        ensures
            layers@.len() < 2 <==> res == Err::<Tensor<T>, _>(ConstructionError::TooFewLayers),
            layers@.len() >= 2 ==> res is Ok,
            res matches Ok(t) ==> {
                &&& t.wf()
                &&& t.layers() == layers@.len() - 1
                &&& forall|i: int| 0 <= i < layers@.len() ==> #[trigger] t.widths()[i] == layers@[i]
                &&& exists|z: T| is_from_u8(z, 0) && t.filled_with(z)
            },
    {
        if layers.len() < 2 {
            return Err(ConstructionError::TooFewLayers);
        }
        let z = T::from(0u8);
        let count = layers.len() - 1;
        let mut wl: Vec<Matrix<T>> = Vec::with_capacity(count);
        let mut bl: Vec<Matrix<T>> = Vec::with_capacity(count);
        let mut al: Vec<Matrix<T>> = Vec::with_capacity(count + 1);
        al.push(Matrix::filled(1, layers[0], z));
        let mut i: usize = 1;
        while i <= count
            invariant
                count == layers@.len() - 1,
                1 <= i <= count + 1,
                forall|k: int| 0 <= k < layers@.len() - 1 ==> (#[trigger] layers@[k]) * layers@[k + 1] <= usize::MAX,
                wl@.len() == i - 1,
                bl@.len() == i - 1,
                al@.len() == i,
                forall|k: int| 0 <= k < i ==> {
                    &&& (#[trigger] al@[k]).wf()
                    &&& al@[k].nrows() == 1
                    &&& al@[k].ncols() == layers@[k]
                    &&& al@[k].pitch() == layers@[k]
                    &&& al@[k].buffer().len() == layers@[k]
                },
                forall|k: int| 0 <= k < i - 1 ==> {
                    &&& (#[trigger] wl@[k]).wf()
                    &&& wl@[k].nrows() == layers@[k]
                    &&& wl@[k].ncols() == layers@[k + 1]
                },
                forall|k: int| 0 <= k < i - 1 ==> {
                    &&& (#[trigger] bl@[k]).wf()
                    &&& bl@[k].nrows() == 1
                    &&& bl@[k].ncols() == layers@[k + 1]
                    &&& bl@[k].pitch() == layers@[k + 1]
                    &&& bl@[k].buffer().len() == layers@[k + 1]
                },
                forall|k: int, r: int, c: int|
                    0 <= k < al@.len() && 0 <= r < al@[k].nrows() && 0 <= c < al@[k].ncols()
                        ==> #[trigger] al@[k]@[r][c] == z,
                forall|k: int, r: int, c: int|
                    0 <= k < wl@.len() && 0 <= r < wl@[k].nrows() && 0 <= c < wl@[k].ncols()
                        ==> #[trigger] wl@[k]@[r][c] == z,
                forall|k: int, r: int, c: int|
                    0 <= k < bl@.len() && 0 <= r < bl@[k].nrows() && 0 <= c < bl@[k].ncols()
                        ==> #[trigger] bl@[k]@[r][c] == z,
            decreases count + 1 - i,
        {
            let a = Matrix::filled(1, layers[i], z);
            let b = Matrix::filled(1, layers[i], z);
            assert(layers@[(i - 1) as int] * layers@[i as int] <= usize::MAX);
            let w = Matrix::filled(layers[i - 1], layers[i], z);
            proof {
                lemma_filled_entries(&a, z);
                lemma_filled_entries(&b, z);
                lemma_filled_entries(&w, z);
            }
            al.push(a);
            bl.push(b);
            wl.push(w);
            i += 1;
        }
        let t = Tensor { count, wl, bl, al };
        assert(t.filled_with(z));
        Ok(t)
    }
}

impl<T> Tensor<T> {
    /// Sets every element of every weight, bias and activation matrix to `val`.
    pub fn fill(&mut self, val: T) -> (r: &mut Tensor<T>) where T: Copy
        requires
            old(self).wf(),
        ensures
            r.wf(),
            r.same_layout(old(self)),
            r.filled_with(val),
            *final(self) == *final(r),
    {
        let mut i: usize = 0;
        while i < self.wl.len()
            invariant
                self.count == old(self).count,
                self.bl@ == old(self).bl@,
                self.al@ == old(self).al@,
                self.wl@.len() == old(self).wl@.len(),
                old(self).wf(),
                i <= self.wl@.len(),
                forall|k: int| i <= k < self.wl@.len() ==> #[trigger] self.wl@[k] == old(self).wl@[k],
                forall|k: int| 0 <= k < i ==> {
                    &&& (#[trigger] self.wl@[k]).wf()
                    &&& self.wl@[k].same_layout(&old(self).wl@[k])
                    &&& forall|r: int, c: int| 0 <= r < self.wl@[k].nrows() && 0 <= c < self.wl@[k].ncols() ==> #[trigger] self.wl@[k]@[r][c] == val
                },
            decreases self.wl@.len() - i,
        {
            self.wl[i].fill(val);
            i += 1;
        }
        let mut i: usize = 0;
        while i < self.bl.len()
            invariant
                self.count == old(self).count,
                self.al@ == old(self).al@,
                self.bl@.len() == old(self).bl@.len(),
                self.wl@.len() == old(self).wl@.len(),
                old(self).wf(),
                i <= self.bl@.len(),
                forall|k: int| i <= k < self.bl@.len() ==> #[trigger] self.bl@[k] == old(self).bl@[k],
                forall|k: int| 0 <= k < i ==> {
                    &&& (#[trigger] self.bl@[k]).wf()
                    &&& self.bl@[k].same_layout(&old(self).bl@[k])
                    &&& forall|r: int, c: int| 0 <= r < self.bl@[k].nrows() && 0 <= c < self.bl@[k].ncols() ==> #[trigger] self.bl@[k]@[r][c] == val
                },
                forall|k: int| 0 <= k < self.wl@.len() ==> {
                    &&& (#[trigger] self.wl@[k]).wf()
                    &&& self.wl@[k].same_layout(&old(self).wl@[k])
                    &&& forall|r: int, c: int| 0 <= r < self.wl@[k].nrows() && 0 <= c < self.wl@[k].ncols() ==> #[trigger] self.wl@[k]@[r][c] == val
                },
            decreases self.bl@.len() - i,
        {
            self.bl[i].fill(val);
            i += 1;
        }
        let mut i: usize = 0;
        while i < self.al.len()
            invariant
                self.count == old(self).count,
                self.al@.len() == old(self).al@.len(),
                self.bl@.len() == old(self).bl@.len(),
                self.wl@.len() == old(self).wl@.len(),
                old(self).wf(),
                i <= self.al@.len(),
                forall|k: int| i <= k < self.al@.len() ==> #[trigger] self.al@[k] == old(self).al@[k],
                forall|k: int| 0 <= k < i ==> {
                    &&& (#[trigger] self.al@[k]).wf()
                    &&& self.al@[k].same_layout(&old(self).al@[k])
                    &&& forall|r: int, c: int| 0 <= r < self.al@[k].nrows() && 0 <= c < self.al@[k].ncols() ==> #[trigger] self.al@[k]@[r][c] == val
                },
                forall|k: int| 0 <= k < self.bl@.len() ==> {
                    &&& (#[trigger] self.bl@[k]).wf()
                    &&& self.bl@[k].same_layout(&old(self).bl@[k])
                    &&& forall|r: int, c: int| 0 <= r < self.bl@[k].nrows() && 0 <= c < self.bl@[k].ncols() ==> #[trigger] self.bl@[k]@[r][c] == val
                },
                forall|k: int| 0 <= k < self.wl@.len() ==> {
                    &&& (#[trigger] self.wl@[k]).wf()
                    &&& self.wl@[k].same_layout(&old(self).wl@[k])
                    &&& forall|r: int, c: int| 0 <= r < self.wl@[k].nrows() && 0 <= c < self.wl@[k].ncols() ==> #[trigger] self.wl@[k]@[r][c] == val
                },
            decreases self.al@.len() - i,
        {
            self.al[i].fill(val);
            i += 1;
        }
        self
    }
}

impl<T> Tensor<T> {
    /// Replaces every element of every matrix by a value drawn from `draw`, weights
    /// first, then biases, then activations.
    pub fn fill_with<F: FnMut() -> T>(&mut self, draw: &mut F)
        requires
            old(self).wf(),
            forall|s: F| #[trigger] s.requires(()),
        ensures
            final(self).wf(),
            final(self).same_layout(old(self)),
            final(self).all_drawn::<F>(),
    {
        let mut i: usize = 0;
        while i < self.wl.len()
            invariant
                self.count == old(self).count,
                self.bl@ == old(self).bl@,
                self.al@ == old(self).al@,
                self.wl@.len() == old(self).wl@.len(),
                old(self).wf(),
                forall|s: F| #[trigger] s.requires(()),
                i <= self.wl@.len(),
                forall|k: int| i <= k < self.wl@.len() ==> #[trigger] self.wl@[k] == old(self).wl@[k],
                forall|k: int| 0 <= k < i ==> (#[trigger] self.wl@[k]).wf() && self.wl@[k].same_layout(&old(self).wl@[k]) && forall|j: int| 0 <= j < self.wl@[k].buffer().len() ==> drawn::<T, F>(#[trigger] self.wl@[k].buffer()[j]),
            decreases self.wl@.len() - i,
        {
            self.wl[i].fill_with(draw);
            i += 1;
        }
        let mut i: usize = 0;
        while i < self.bl.len()
            invariant
                self.count == old(self).count,
                self.al@ == old(self).al@,
                self.bl@.len() == old(self).bl@.len(),
                self.wl@.len() == old(self).wl@.len(),
                old(self).wf(),
                forall|s: F| #[trigger] s.requires(()),
                i <= self.bl@.len(),
                forall|k: int| i <= k < self.bl@.len() ==> #[trigger] self.bl@[k] == old(self).bl@[k],
                forall|k: int| 0 <= k < i ==> (#[trigger] self.bl@[k]).wf() && self.bl@[k].same_layout(&old(self).bl@[k]) && forall|j: int| 0 <= j < self.bl@[k].buffer().len() ==> drawn::<T, F>(#[trigger] self.bl@[k].buffer()[j]),
                forall|k: int| 0 <= k < self.wl@.len() ==> (#[trigger] self.wl@[k]).wf() && self.wl@[k].same_layout(&old(self).wl@[k]) && forall|j: int| 0 <= j < self.wl@[k].buffer().len() ==> drawn::<T, F>(#[trigger] self.wl@[k].buffer()[j]),
            decreases self.bl@.len() - i,
        {
            self.bl[i].fill_with(draw);
            i += 1;
        }
        let mut i: usize = 0;
        while i < self.al.len()
            invariant
                self.count == old(self).count,
                self.al@.len() == old(self).al@.len(),
                self.bl@.len() == old(self).bl@.len(),
                self.wl@.len() == old(self).wl@.len(),
                old(self).wf(),
                forall|s: F| #[trigger] s.requires(()),
                i <= self.al@.len(),
                forall|k: int| i <= k < self.al@.len() ==> #[trigger] self.al@[k] == old(self).al@[k],
                forall|k: int| 0 <= k < i ==> (#[trigger] self.al@[k]).wf() && self.al@[k].same_layout(&old(self).al@[k]) && forall|j: int| 0 <= j < self.al@[k].buffer().len() ==> drawn::<T, F>(#[trigger] self.al@[k].buffer()[j]),
                forall|k: int| 0 <= k < self.bl@.len() ==> (#[trigger] self.bl@[k]).wf() && self.bl@[k].same_layout(&old(self).bl@[k]) && forall|j: int| 0 <= j < self.bl@[k].buffer().len() ==> drawn::<T, F>(#[trigger] self.bl@[k].buffer()[j]),
                forall|k: int| 0 <= k < self.wl@.len() ==> (#[trigger] self.wl@[k]).wf() && self.wl@[k].same_layout(&old(self).wl@[k]) && forall|j: int| 0 <= j < self.wl@[k].buffer().len() ==> drawn::<T, F>(#[trigger] self.wl@[k].buffer()[j]),
            decreases self.al@.len() - i,
        {
            self.al[i].fill_with(draw);
            i += 1;
        }
    }

    /// The number of layers.
    pub fn layer_count(&self) -> (r: usize)
        ensures
            r == self.layers(),
    {
        self.count
    }

    /// The weight matrix of layer `i`.
    pub fn get_weight(&self, i: usize) -> (r: &Matrix<T>)
        requires
            self.wf(),
            i < self.layers(),
        ensures
            *r == self.weights()[i as int],
    {
        &self.wl[i]
    }

    /// The bias row of layer `i`.
    pub fn get_bias(&self, i: usize) -> (r: &Matrix<T>)
        requires
            self.wf(),
            i < self.layers(),
        ensures
            *r == self.biases()[i as int],
    {
        &self.bl[i]
    }

    /// Activation row `i`: the input row for `0`, the output row for `layer_count()`.
    pub fn get_activation(&self, i: usize) -> (r: &Matrix<T>)
        requires
            self.wf(),
            i <= self.layers(),
        ensures
            *r == self.activations()[i as int],
    {
        &self.al[i]
    }

    /// The input row.
    pub fn get_input(&self) -> (r: &Matrix<T>)
        requires
            self.wf(),
        ensures
            *r == self.activations()[0],
    {
        &self.al[0]
    }

    /// The output row.
    pub fn get_output(&self) -> (r: &Matrix<T>)
        requires
            self.wf(),
        ensures
            *r == self.activations()[self.layers() as int],
    {
        &self.al[self.count]
    }

    /// The input row, for writing.
    pub fn get_input_mut(&mut self) -> (r: &mut Matrix<T>)
        requires
            old(self).wf(),
        ensures
            *r == old(self).activations()[0],
            final(self).layers() == old(self).layers(),
            final(self).weights() == old(self).weights(),
            final(self).biases() == old(self).biases(),
            final(self).activations() == old(self).activations().update(0, *final(r)),
    {
        &mut self.al[0]
    }

    /// The output row, for writing.
    pub fn get_output_mut(&mut self) -> (r: &mut Matrix<T>)
        requires
            old(self).wf(),
        ensures
            *r == old(self).activations()[old(self).layers() as int],
            final(self).layers() == old(self).layers(),
            final(self).weights() == old(self).weights(),
            final(self).biases() == old(self).biases(),
            final(self).activations() == old(self).activations().update(
                old(self).layers() as int,
                *final(r),
            ),
    {
        let last = self.count;
        &mut self.al[last]
    }
}

/// A matrix whose buffer holds copies of `v` holds `v` at every position.
proof fn lemma_filled_entries<T>(m: &Matrix<T>, v: T)
    requires
        m.wf(),
        forall|i: int| 0 <= i < m.buffer().len() ==> #[trigger] m.buffer()[i] == v,
    ensures
        forall|r: int, c: int| 0 <= r < m.nrows() && 0 <= c < m.ncols() ==> #[trigger] m@[r][c] == v,
{
    assert forall|r: int, c: int| 0 <= r < m.nrows() && 0 <= c < m.ncols() implies #[trigger] m@[r][c] == v by {
        m.lemma_offset_in_bounds(r, c);
    }
}

} // verus!
