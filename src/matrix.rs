use vstd::prelude::*;
use vstd::std_specs::ops::{AddSpec, MulSpec, SubSpec};

verus! {

/// `v` is what `T::from(n)` may return.
pub open spec fn is_from_u8<T: From<u8>>(v: T, n: u8) -> bool {
    call_ensures(T::from, (n,), v)
}

/// `v` is a value that a call of some state of a generator of type `F` may return.
pub open spec fn drawn<T, F: FnMut() -> T>(v: T) -> bool {
    exists|s: F| s.ensures((), v)
}

/// `+` and `*` of the element type are defined on every pair of values.
pub open spec fn arith_total<T: core::ops::Add<Output = T> + core::ops::Mul<Output = T>>() -> bool {
    forall|x: T, y: T|
        #![trigger x.add_req(y)]
        #![trigger x.mul_req(y)]
        x.add_req(y) && x.mul_req(y)
}

/// `z + xs[0]*ys[0] + ... + xs[n-1]*ys[n-1]`, summed from the left.
pub open spec fn dot_acc<T: core::ops::Add<Output = T> + core::ops::Mul<Output = T>>(
    z: T,
    xs: Seq<T>,
    ys: Seq<T>,
    n: nat,
) -> T
    decreases n,
{
    if n == 0 {
        z
    } else {
        dot_acc(z, xs, ys, (n - 1) as nat).add_spec(xs[n - 1].mul_spec(ys[n - 1]))
    }
}

/// Step `k` of entry `(r, c)` of the product of `a` and `b`, summed from `z`, is defined:
/// the product `a[r][k] * b[k][c]` and its addition to the sum so far.
pub open spec fn dot_step_ok<T: core::ops::Add<Output = T> + core::ops::Mul<Output = T>>(
    z: T,
    a: Seq<Seq<T>>,
    b: Seq<Seq<T>>,
    r: int,
    c: int,
    k: int,
) -> bool {
    &&& a[r][k].mul_req(b[k][c])
    &&& dot_acc(z, a[r], column_of(b, c), k as nat).add_req(a[r][k].mul_spec(b[k][c]))
}

/// vstd's specifications of `+` and `*` hold for the element type, and every product and
/// partial sum of `a * b`, summed from zero, is defined.
pub open spec fn dot_defined<T>(a: &Matrix<T>, b: &Matrix<T>) -> bool where
    T: From<u8> + core::ops::Add<Output = T> + core::ops::Mul<Output = T>,
 {
    &&& T::obeys_add_spec()
    &&& T::obeys_mul_spec()
    &&& forall|z: T, r: int, c: int, k: int|
        is_from_u8(z, 0) && 0 <= r < a.nrows() && 0 <= c < b.ncols() && 0 <= k < a.ncols()
            ==> #[trigger] dot_step_ok(z, a@, b@, r, c, k)
}

/// `-` and `*` of the element type are defined on every pair of values.
pub open spec fn sub_mul_total<T: core::ops::Sub<Output = T> + core::ops::Mul<Output = T>>() -> bool {
    forall|x: T, y: T|
        #![trigger x.sub_req(y)]
        #![trigger x.mul_req(y)]
        x.sub_req(y) && x.mul_req(y)
}

/// `w - rate * g` is defined.
pub open spec fn descent_step_ok<T: core::ops::Sub<Output = T> + core::ops::Mul<Output = T>>(
    w: T,
    rate: T,
    g: T,
) -> bool {
    rate.mul_req(g) && w.sub_req(rate.mul_spec(g))
}

/// vstd's specification of `*` holds for the element type, and `m[r][c] - rate * g[r][c]`
/// is defined for every element.
pub open spec fn descent_defined<T: core::ops::Sub<Output = T> + core::ops::Mul<Output = T>>(
    m: &Matrix<T>,
    g: &Matrix<T>,
    rate: T,
) -> bool {
    &&& T::obeys_mul_spec()
    &&& forall|r: int, c: int|
        0 <= r < m.nrows() && 0 <= c < m.ncols() ==> #[trigger] descent_step_ok(
            m@[r][c],
            rate,
            g@[r][c],
        )
}

/// Column `c` of a matrix given as its rows.
pub open spec fn column_of<T>(m: Seq<Seq<T>>, c: int) -> Seq<T> {
    Seq::new(m.len(), |k: int| m[k][c])
}

/// `r * cols + c` lies before `rows * cols`.
proof fn lemma_row_major(r: int, c: int, rows: int, cols: int)
    requires
        0 <= r < rows,
        0 <= c < cols,
    ensures
        0 <= r * cols + c < rows * cols,
{
    assert(0 <= r * cols + c < rows * cols) by (nonlinear_arith)
        requires
            0 <= r < rows,
            0 <= c < cols,
    ;
}

/// A dense matrix whose element `(r, c)` is `data[r * stride + c]`.
///
/// The row pitch may exceed the row width, so that one buffer of interleaved rows can
/// be read as two matrices side by side.
pub struct Matrix<T> {
    rows: usize,
    cols: usize,
    stride: usize,
    data: Vec<T>,
}

impl<T> View for Matrix<T> {
    type V = Seq<Seq<T>>;

    /// The rows of the matrix, each of `cols` elements.
    open spec fn view(&self) -> Seq<Seq<T>> {
        Seq::new(self.nrows(), |r: int| Seq::new(self.ncols(), |c: int| self.entry(r, c)))
    }
}

impl<T> Matrix<T> {
    pub closed spec fn nrows(&self) -> nat {
        self.rows as nat
    }

    pub closed spec fn ncols(&self) -> nat {
        self.cols as nat
    }

    pub closed spec fn pitch(&self) -> nat {
        self.stride as nat
    }

    /// The whole backing buffer.
    pub closed spec fn buffer(&self) -> Seq<T> {
        self.data@
    }

    pub open spec fn offset(&self, r: int, c: int) -> int {
        r * self.pitch() + c
    }

    pub open spec fn entry(&self, r: int, c: int) -> T {
        self.buffer()[self.offset(r, c)]
    }

    /// Buffer position `j` holds an element of the matrix.
    pub open spec fn addressed(&self, j: int) -> bool {
        exists|r: int, c: int|
            0 <= r < self.nrows() && 0 <= c < self.ncols() && j == #[trigger] self.offset(r, c)
    }

    /// Every addressed element lies in the buffer.
    pub open spec fn wf(&self) -> bool {
        &&& self.ncols() <= self.pitch()
        &&& self.buffer().len() <= usize::MAX
        &&& (self.nrows() == 0 || (self.nrows() - 1) * self.pitch() + self.ncols()
            <= self.buffer().len())
    }

    /// Same number of rows and of columns.
    pub open spec fn same_shape<U>(&self, o: &Matrix<U>) -> bool {
        self.nrows() == o.nrows() && self.ncols() == o.ncols()
    }

    /// Shape, pitch and buffer length agree.
    pub open spec fn same_layout<U>(&self, o: &Matrix<U>) -> bool {
        &&& self.same_shape(o)
        &&& self.pitch() == o.pitch()
        &&& self.buffer().len() == o.buffer().len()
    }

    pub proof fn lemma_offset_in_bounds(&self, r: int, c: int)
        requires
            self.wf(),
            0 <= r < self.nrows(),
            0 <= c < self.ncols(),
        ensures
            0 <= self.offset(r, c) < self.buffer().len(),
    {
        let p = self.pitch() as int;
        let n = self.nrows() as int;
        assert(0 <= r * p <= (n - 1) * p) by (nonlinear_arith)
            requires
                0 <= r <= n - 1,
                0 <= p,
        ;
    }

    pub proof fn lemma_offset_distinct(&self, r1: int, c1: int, r2: int, c2: int)
        requires
            self.ncols() <= self.pitch(),
            0 <= r1,
            0 <= r2,
            0 <= c1 < self.ncols(),
            0 <= c2 < self.ncols(),
            r1 != r2 || c1 != c2,
        ensures
            self.offset(r1, c1) != self.offset(r2, c2),
    {
        let p = self.pitch() as int;
        if r1 == r2 {
        } else if r1 < r2 {
            assert(r1 * p + p <= r2 * p) by (nonlinear_arith)
                requires
                    r1 < r2,
                    0 <= p,
            ;
        } else {
            assert(r2 * p + p <= r1 * p) by (nonlinear_arith)
                requires
                    r2 < r1,
                    0 <= p,
            ;
        }
    }

    /// Reads an interleaved buffer: element `(r, c)` of the result is
    /// `data[r * stride + c]`. The buffer is copied.
    pub fn from(rows: usize, cols: usize, stride: usize, data: &[T]) -> (res: Result<
        Matrix<T>,
        crate::ConstructionError,
    >) where T: Copy
        ensures
            cols > stride ==> res == Err::<Matrix<T>, _>(crate::ConstructionError::StrideTooSmall),
            cols <= stride && rows > 0 && (rows - 1) * stride + cols > data@.len() ==> res
                == Err::<Matrix<T>, _>(crate::ConstructionError::SourceTooShort),
            cols <= stride && (rows == 0 || (rows - 1) * stride + cols <= data@.len())
                ==> res is Ok,
            res matches Ok(m) ==> {
                &&& m.wf()
                &&& m.nrows() == rows
                &&& m.ncols() == cols
                &&& m.pitch() == stride
                &&& m.buffer() == data@
                &&& forall|r: int, c: int|
                    0 <= r < rows && 0 <= c < cols ==> #[trigger] m@[r][c] == data@[r * stride
                        + c]
            },
    {
        if cols > stride {
            return Err(crate::ConstructionError::StrideTooSmall);
        }
        let len = data.len();
        if rows > 0 {
            let fits = match (rows - 1).checked_mul(stride) {
                Some(start) => match start.checked_add(cols) {
                    Some(last) => last <= len,
                    None => false,
                },
                None => {
                    assert((rows - 1) * stride + cols > data@.len());
                    false
                },
            };
            if !fits {
                return Err(crate::ConstructionError::SourceTooShort);
            }
        }
        let mut copy: Vec<T> = Vec::with_capacity(data.len());
        let mut i: usize = 0;
        while i < data.len()
            invariant
                i <= data@.len(),
                copy@ == data@.subrange(0, i as int),
            decreases data@.len() - i,
        {
            copy.push(data[i]);
            i += 1;
        }
        assert(copy@ == data@);
        Ok(Matrix { rows, cols, stride, data: copy })
    }

    /// A `rows` by `cols` matrix of copies of one value.
    pub(crate) fn filled(rows: usize, cols: usize, value: T) -> (m: Matrix<T>) where T: Copy
        requires
            rows * cols <= usize::MAX,
        ensures
            m.wf(),
            m.nrows() == rows,
            m.ncols() == cols,
            m.pitch() == cols,
            m.buffer() == Seq::new((rows * cols) as nat, |i: int| value),
    {
        let n: usize = rows * cols;
        let mut data: Vec<T> = Vec::with_capacity(n);
        let mut i: usize = 0;
        while i < n
            invariant
                i <= n,
                data@ == Seq::new(i as nat, |j: int| value),
            decreases n - i,
        {
            data.push(value);
            i += 1;
            assert(data@ == Seq::new(i as nat, |j: int| value));
        }
        let m = Matrix { rows, cols, stride: cols, data };
        proof {
            if rows > 0 {
                assert((rows - 1) * cols + cols == rows * cols) by (nonlinear_arith)
                    requires
                        rows > 0,
                ;
            }
        }
        m
    }

    /// A `rows` by `cols` matrix of zeros, rows stored back to back.
    pub fn zero(rows: usize, cols: usize) -> (m: Matrix<T>) where T: Copy + From<u8>
        requires
            rows * cols <= usize::MAX,
        ensures
            m.wf(),
            m.nrows() == rows,
            m.ncols() == cols,
            m.pitch() == cols,
            m.buffer().len() == rows * cols,
            exists|z: T|
                is_from_u8(z, 0) && forall|i: int|
                    0 <= i < rows * cols ==> #[trigger] m.buffer()[i] == z,
    {
        let z = T::from(0u8);
        let m = Self::filled(rows, cols, z);
        assert(is_from_u8(z, 0) && forall|i: int|
            0 <= i < rows * cols ==> #[trigger] m.buffer()[i] == z);
        m
    }

    /// Writes one element; every other element keeps its value.
    pub(crate) fn set_entry(&mut self, row: usize, col: usize, v: T)
        requires
            old(self).wf(),
            row < old(self).nrows(),
            col < old(self).ncols(),
        ensures
            final(self).wf(),
            final(self).same_layout(old(self)),
            final(self)@ == old(self)@.update(row as int, old(self)@[row as int].update(col as int, v)),
            final(self).buffer() == old(self).buffer().update(old(self).offset(row as int, col as int), v),
    {
        proof {
            self.lemma_offset_in_bounds(row as int, col as int);
        }
        let i = row * self.stride + col;
        self.data.set(i, v);
        proof {
            assert forall|r: int, c: int|
                0 <= r < self.nrows() && 0 <= c < self.ncols() && (r != row || c != col)
                implies self.entry(r, c) == old(self).entry(r, c) by {
                old(self).lemma_offset_distinct(r, c, row as int, col as int);
                old(self).lemma_offset_in_bounds(r, c);
            }
            assert(self@ =~~= old(self)@.update(
                row as int,
                old(self)@[row as int].update(col as int, v),
            ));
        }
    }

    /// A `rows` by `cols` matrix with ones on the diagonal and zeros elsewhere.
    pub fn identity(rows: usize, cols: usize) -> (m: Matrix<T>) where T: Copy + From<u8>
        requires
            rows * cols <= usize::MAX,
        ensures
            m.wf(),
            m.nrows() == rows,
            m.ncols() == cols,
            m.pitch() == cols,
            m.buffer().len() == rows * cols,
            exists|z: T, one: T|
                is_from_u8(z, 0) && is_from_u8(one, 1) && forall|r: int, c: int|
                    0 <= r < rows && 0 <= c < cols ==> #[trigger] m@[r][c] == if r == c {
                        one
                    } else {
                        z
                    },
    {
        let z = T::from(0u8);
        let one = T::from(1u8);
        let mut m = Self::filled(rows, cols, z);
        proof {
            assert forall|r: int, c: int| 0 <= r < rows && 0 <= c < cols implies #[trigger] m@[r][c]
                == z by {
                m.lemma_offset_in_bounds(r, c);
            }
        }
        let n = if rows < cols {
            rows
        } else {
            cols
        };
        let mut i: usize = 0;
        while i < n
            invariant
                n <= rows,
                n <= cols,
                i <= n,
                m.wf(),
                m.nrows() == rows,
                m.ncols() == cols,
                m.pitch() == cols,
                m.buffer().len() == rows * cols,
                forall|r: int, c: int|
                    0 <= r < rows && 0 <= c < cols ==> #[trigger] m@[r][c] == if r == c && r < i {
                        one
                    } else {
                        z
                    },
            decreases n - i,
        {
            m.set_entry(i, i, one);
            i += 1;
        }
        assert(is_from_u8(z, 0) && is_from_u8(one, 1) && forall|r: int, c: int|
            0 <= r < rows && 0 <= c < cols ==> #[trigger] m@[r][c] == if r == c {
                one
            } else {
                z
            });
        m
    }

    /// The element at `(row, col)`.
    pub fn get_ref(&self, row: usize, col: usize) -> (r: &T)
        requires
            self.wf(),
            row < self.nrows(),
            col < self.ncols(),
        ensures
            *r == self@[row as int][col as int],
    {
        proof {
            self.lemma_offset_in_bounds(row as int, col as int);
        }
        &self.data[row * self.stride + col]
    }

    /// The element at `(row, col)`, for writing.
    pub fn get_ref_mut(&mut self, row: usize, col: usize) -> (r: &mut T)
        requires
            old(self).wf(),
            row < old(self).nrows(),
            col < old(self).ncols(),
        ensures
            *r == old(self)@[row as int][col as int],
            final(self).same_layout(old(self)),
            final(self).buffer() == old(self).buffer().update(
                old(self).offset(row as int, col as int),
                *final(r),
            ),
    {
        proof {
            self.lemma_offset_in_bounds(row as int, col as int);
        }
        let i = row * self.stride + col;
        &mut self.data[i]
    }

    /// Row `row`: `cols` elements starting at `row * stride`.
    pub fn get_row_ref(&self, row: usize) -> (r: &[T])
        requires
            self.wf(),
            row < self.nrows(),
        ensures
            r@ == self@[row as int],
    {
        proof {
            if self.ncols() > 0 {
                self.lemma_offset_in_bounds(row as int, self.ncols() - 1);
            } else {
                assert(row * self.pitch() <= (self.nrows() - 1) * self.pitch()) by (nonlinear_arith)
                    requires
                        row <= self.nrows() - 1,
                ;
            }
        }
        let start = row * self.stride;
        let r = &self.data.as_slice()[start..start + self.cols];
        assert(r@ =~= self@[row as int]);
        r
    }

    /// Row `row`, for writing.
    pub fn get_row_ref_mut(&mut self, row: usize) -> (r: &mut [T])
        requires
            old(self).wf(),
            row < old(self).nrows(),
        ensures
            r@ == old(self)@[row as int],
            final(self).nrows() == old(self).nrows(),
            final(self).ncols() == old(self).ncols(),
            final(self).pitch() == old(self).pitch(),
            final(self).buffer() == old(self).buffer().subrange(0, row * old(self).pitch())
                + final(r)@ + old(self).buffer().subrange(
                row * old(self).pitch() + old(self).ncols(),
                old(self).buffer().len() as int,
            ),
    {
        proof {
            if self.ncols() > 0 {
                self.lemma_offset_in_bounds(row as int, self.ncols() - 1);
            } else {
                assert(row * self.pitch() <= (self.nrows() - 1) * self.pitch()) by (nonlinear_arith)
                    requires
                        row <= self.nrows() - 1,
                ;
            }
        }
        let start = row * self.stride;
        let cols = self.cols;
        let (_, rest) = self.data.as_mut_slice().split_at_mut(start);
        let (r, _) = rest.split_at_mut(cols);
        assert(r@ =~= old(self)@[row as int]);
        r
    }

    /// The whole backing buffer.
    pub fn get_data_ref(&self) -> (r: &[T])
        ensures
            r@ == self.buffer(),
    {
        self.data.as_slice()
    }

    /// The whole backing buffer, for writing.
    pub fn get_data_ref_mut(&mut self) -> (r: &mut [T])
        ensures
            r@ == old(self).buffer(),
            final(self).nrows() == old(self).nrows(),
            final(self).ncols() == old(self).ncols(),
            final(self).pitch() == old(self).pitch(),
            final(self).buffer() == final(r)@,
    {
        self.data.as_mut_slice()
    }

    /// Sets every element of the buffer to `val`.
    pub fn fill(&mut self, val: T) where T: Copy
        requires
            old(self).wf(),
        ensures
            final(self).wf(),
            final(self).same_layout(old(self)),
            final(self).buffer() == Seq::new(old(self).buffer().len(), |i: int| val),
            forall|r: int, c: int|
                0 <= r < old(self).nrows() && 0 <= c < old(self).ncols() ==> #[trigger] final(self)@[r][c] == val,
    {
        let n = self.data.len();
        let mut i: usize = 0;
        while i < n
            invariant
                n == self.buffer().len(),
                i <= n,
                self.wf(),
                self.same_layout(old(self)),
                forall|j: int| 0 <= j < i ==> #[trigger] self.buffer()[j] == val,
            decreases n - i,
        {
            self.data.set(i, val);
            i += 1;
        }
        assert(self.buffer() =~= Seq::new(old(self).buffer().len(), |i: int| val));
        proof {
            assert forall|r: int, c: int|
                0 <= r < self.nrows() && 0 <= c < self.ncols() implies #[trigger] self@[r][c]
                == val by {
                self.lemma_offset_in_bounds(r, c);
            }
        }
    }

    /// Copies a flat slice in row-major order: element `(r, c)` becomes
    /// `src[r * cols + c]`.
    pub fn copy_from_slice(&mut self, src: &[T]) where T: Copy
        requires
            old(self).wf(),
            old(self).nrows() * old(self).ncols() == src@.len(),
        ensures
            final(self).wf(),
            final(self).same_layout(old(self)),
            forall|r: int, c: int|
                0 <= r < old(self).nrows() && 0 <= c < old(self).ncols() ==> #[trigger] final(self)@[r][c] == src@[r * old(self).ncols() + c],
    {
        let rows = self.rows;
        let cols = self.cols;
        let total = src.len();
        let mut r: usize = 0;
        while r < rows
            invariant
                rows == self.nrows(),
                cols == self.ncols(),
                rows * cols == src@.len() == total,
                r <= rows,
                self.wf(),
                self.same_layout(old(self)),
                forall|i: int, j: int|
                    0 <= i < r && 0 <= j < cols ==> #[trigger] self@[i][j] == src@[i * cols + j],
            decreases rows - r,
        {
            let mut c: usize = 0;
            while c < cols
                invariant
                    rows == self.nrows(),
                    cols == self.ncols(),
                    rows * cols == src@.len() == total,
                    r < rows,
                    c <= cols,
                    self.wf(),
                    self.same_layout(old(self)),
                    forall|i: int, j: int|
                        0 <= i < r && 0 <= j < cols ==> #[trigger] self@[i][j] == src@[i * cols
                            + j],
                    forall|j: int| 0 <= j < c ==> #[trigger] self@[r as int][j] == src@[r * cols + j],
                decreases cols - c,
            {
                proof {
                    lemma_row_major(r as int, c as int, rows as int, cols as int);
                }
                let v = src[r * cols + c];
                self.set_entry(r, c, v);
                c += 1;
            }
            r += 1;
        }
    }

    /// Copies every element of a matrix of the same shape.
    pub fn copy_from(&mut self, src: &Matrix<T>) where T: Copy
        requires
            old(self).wf(),
            src.wf(),
            old(self).same_shape(src),
        ensures
            final(self).wf(),
            final(self).same_layout(old(self)),
            final(self)@ == src@,
    {
        let rows = self.rows;
        let cols = self.cols;
        let mut r: usize = 0;
        while r < rows
            invariant
                rows == self.nrows(),
                cols == self.ncols(),
                self.same_shape(src),
                src.wf(),
                r <= rows,
                self.wf(),
                self.same_layout(old(self)),
                forall|i: int, j: int|
                    0 <= i < r && 0 <= j < cols ==> #[trigger] self@[i][j] == src@[i][j],
            decreases rows - r,
        {
            let mut c: usize = 0;
            while c < cols
                invariant
                    rows == self.nrows(),
                    cols == self.ncols(),
                    self.same_shape(src),
                    src.wf(),
                    r < rows,
                    c <= cols,
                    self.wf(),
                    self.same_layout(old(self)),
                    forall|i: int, j: int|
                        0 <= i < r && 0 <= j < cols ==> #[trigger] self@[i][j] == src@[i][j],
                    forall|j: int| 0 <= j < c ==> #[trigger] self@[r as int][j] == src@[r as int][j],
                decreases cols - c,
            {
                let v = *src.get_ref(r, c);
                self.set_entry(r, c, v);
                c += 1;
            }
            r += 1;
        }
        assert(self@ =~~= src@);
    }

    /// Adds `src` to this matrix over `src`'s whole backing buffer:
    /// `self.buffer[i] += src.buffer[i]` for every position `i` of `src`'s buffer. Where the
    /// two matrices share their pitch, this adds element `(r, c)` of `src` to element
    /// `(r, c)` of this matrix.
    pub fn add(&mut self, src: &Matrix<T>) where T: Copy + core::ops::Add<Output = T>
        requires
            old(self).wf(),
            src.wf(),
            old(self).same_shape(src),
            src.buffer().len() <= old(self).buffer().len(),
            forall|i: int|
                0 <= i < src.buffer().len() ==> #[trigger] old(self).buffer()[i].add_req(
                    src.buffer()[i],
                ),
        ensures
            final(self).wf(),
            final(self).same_layout(old(self)),
            T::obeys_add_spec() ==> forall|i: int|
                0 <= i < src.buffer().len() ==> #[trigger] final(self).buffer()[i]
                    == old(self).buffer()[i].add_spec(src.buffer()[i]),
            forall|i: int|
                src.buffer().len() <= i < old(self).buffer().len() ==> #[trigger] final(self).buffer()[i] == old(self).buffer()[i],
            T::obeys_add_spec() && old(self).pitch() == src.pitch() ==> forall|r: int, c: int|
                0 <= r < old(self).nrows() && 0 <= c < old(self).ncols() ==> #[trigger] final(self)@[r][c] == old(self)@[r][c].add_spec(src@[r][c]),
    {
        let n = src.data.len();
        let mut i: usize = 0;
        while i < n
            invariant
                n == src.buffer().len(),
                n <= self.buffer().len(),
                i <= n,
                self.wf(),
                self.same_layout(old(self)),
                forall|j: int|
                    0 <= j < src.buffer().len() ==> #[trigger] old(self).buffer()[j].add_req(
                        src.buffer()[j],
                    ),
                forall|j: int| i <= j < self.buffer().len() ==> #[trigger] self.buffer()[j] == old(self).buffer()[j],
                T::obeys_add_spec() ==> forall|j: int|
                    0 <= j < i ==> #[trigger] self.buffer()[j] == old(self).buffer()[j].add_spec(src.buffer()[j]),
            decreases n - i,
        {
            let v = self.data[i] + src.data[i];
            self.data.set(i, v);
            i += 1;
        }
        proof {
            if T::obeys_add_spec() && old(self).pitch() == src.pitch() {
                assert forall|r: int, c: int|
                    0 <= r < old(self).nrows() && 0 <= c < old(self).ncols() implies #[trigger] self@[r][c]
                    == old(self)@[r][c].add_spec(src@[r][c]) by {
                    src.lemma_offset_in_bounds(r, c);
                    old(self).lemma_offset_in_bounds(r, c);
                }
            }
        }
    }

    /// Overwrites this matrix with the product `a * b`:
    /// `self[r][c] = 0 + a[r][0] * b[0][c] + ... + a[r][n-1] * b[n-1][c]`.
    pub fn dot(&mut self, a: &Matrix<T>, b: &Matrix<T>) where
        T: Copy + From<u8> + core::ops::Add<Output = T> + core::ops::Mul<Output = T>,

        requires
            old(self).wf(),
            a.wf(),
            b.wf(),
            old(self).nrows() == a.nrows(),
            old(self).ncols() == b.ncols(),
            a.ncols() == b.nrows(),
            arith_total::<T>() || dot_defined(a, b),
        ensures
            final(self).wf(),
            final(self).same_layout(old(self)),
            forall|j: int|
                0 <= j < old(self).buffer().len() && !old(self).addressed(j) ==> #[trigger] final(self).buffer()[j]
                    == old(self).buffer()[j],
            exists|z: T|
                is_from_u8(z, 0) && (T::obeys_add_spec() && T::obeys_mul_spec() ==> forall|
                    r: int,
                    c: int,
                |
                    0 <= r < a.nrows() && 0 <= c < b.ncols() ==> #[trigger] final(self)@[r][c]
                        == dot_acc(z, a@[r], column_of(b@, c), a.ncols())),
    {
        let z = T::from(0u8);
        let rows = self.rows;
        let cols = self.cols;
        let inner = a.cols;
        let mut r: usize = 0;
        while r < rows
            invariant
                rows == self.nrows() == a.nrows(),
                cols == self.ncols() == b.ncols(),
                inner == a.ncols() == b.nrows(),
                a.wf(),
                b.wf(),
                arith_total::<T>() || dot_defined(a, b),
                is_from_u8(z, 0),
                r <= rows,
                self.wf(),
                self.same_layout(old(self)),
                forall|j: int|
                    0 <= j < old(self).buffer().len() && !old(self).addressed(j) ==> #[trigger] self.buffer()[j]
                        == old(self).buffer()[j],
                T::obeys_add_spec() && T::obeys_mul_spec() ==> forall|i: int, j: int|
                    0 <= i < r && 0 <= j < cols ==> #[trigger] self@[i][j] == dot_acc(
                        z,
                        a@[i],
                        column_of(b@, j),
                        inner as nat,
                    ),
            decreases rows - r,
        {
            let mut c: usize = 0;
            while c < cols
                invariant
                    rows == self.nrows() == a.nrows(),
                    cols == self.ncols() == b.ncols(),
                    inner == a.ncols() == b.nrows(),
                    a.wf(),
                    b.wf(),
                    arith_total::<T>() || dot_defined(a, b),
                    is_from_u8(z, 0),
                    r < rows,
                    c <= cols,
                    self.wf(),
                    self.same_layout(old(self)),
                    forall|j: int|
                    0 <= j < old(self).buffer().len() && !old(self).addressed(j) ==> #[trigger] self.buffer()[j]
                        == old(self).buffer()[j],
                    T::obeys_add_spec() && T::obeys_mul_spec() ==> forall|i: int, j: int|
                        0 <= i < r && 0 <= j < cols ==> #[trigger] self@[i][j] == dot_acc(
                            z,
                            a@[i],
                            column_of(b@, j),
                            inner as nat,
                        ),
                    T::obeys_add_spec() && T::obeys_mul_spec() ==> forall|j: int|
                        0 <= j < c ==> #[trigger] self@[r as int][j] == dot_acc(
                            z,
                            a@[r as int],
                            column_of(b@, j),
                            inner as nat,
                        ),
                decreases cols - c,
            {
                let mut acc = z;
                let mut k: usize = 0;
                while k < inner
                    invariant
                        rows == a.nrows(),
                        cols == b.ncols(),
                        inner == a.ncols() == b.nrows(),
                        a.wf(),
                        b.wf(),
                        arith_total::<T>() || dot_defined(a, b),
                        is_from_u8(z, 0),
                        r < rows,
                        c < cols,
                        k <= inner,
                        T::obeys_add_spec() && T::obeys_mul_spec() ==> acc == dot_acc(
                            z,
                            a@[r as int],
                            column_of(b@, c as int),
                            k as nat,
                        ),
                    decreases inner - k,
                {
                    let x = *a.get_ref(r, k);
                    let y = *b.get_ref(k, c);
                    proof {
                        if !arith_total::<T>() {
                            assert(dot_step_ok(z, a@, b@, r as int, c as int, k as int));
                        }
                    }
                    let p = x * y;
                    acc = acc + p;
                    k += 1;
                }
                let ghost before = *self;
                let ghost at = self.offset(r as int, c as int);
                self.set_entry(r, c, acc);
                proof {
                    before.lemma_offset_in_bounds(r as int, c as int);
                    assert(at == old(self).offset(r as int, c as int));
                    assert(old(self).addressed(at));
                    assert(self.buffer() == before.buffer().update(at, acc));
                    assert forall|j: int|
                        0 <= j < old(self).buffer().len() && !old(self).addressed(j) implies #[trigger] self.buffer()[j]
                            == old(self).buffer()[j] by {
                        assert(j != at);
                        assert(self.buffer()[j] == before.buffer()[j]);
                    }
                }
                c += 1;
            }
            r += 1;
        }
        assert(is_from_u8(z, 0));
    }

    /// Applies `f` to every element in place.
    pub fn activate<F: Fn(T) -> T>(&mut self, f: &F) where T: Copy
        requires
            old(self).wf(),
            forall|x: T| #[trigger] f.requires((x,)),
        ensures
            final(self).wf(),
            final(self).same_layout(old(self)),
            forall|r: int, c: int|
                0 <= r < old(self).nrows() && 0 <= c < old(self).ncols() ==> f.ensures(
                    (old(self)@[r][c],),
                    #[trigger] final(self)@[r][c],
                ),
    {
        let rows = self.rows;
        let cols = self.cols;
        let mut r: usize = 0;
        while r < rows
            invariant
                rows == self.nrows(),
                cols == self.ncols(),
                forall|x: T| #[trigger] f.requires((x,)),
                r <= rows,
                self.wf(),
                self.same_layout(old(self)),
                forall|i: int, j: int|
                    r <= i < rows && 0 <= j < cols ==> #[trigger] self@[i][j] == old(self)@[i][j],
                forall|i: int, j: int|
                    0 <= i < r && 0 <= j < cols ==> f.ensures((old(self)@[i][j],), #[trigger] self@[i][j]),
            decreases rows - r,
        {
            let mut c: usize = 0;
            while c < cols
                invariant
                    rows == self.nrows(),
                    cols == self.ncols(),
                    forall|x: T| #[trigger] f.requires((x,)),
                    r < rows,
                    c <= cols,
                    self.wf(),
                    self.same_layout(old(self)),
                    forall|i: int, j: int|
                        r < i < rows && 0 <= j < cols ==> #[trigger] self@[i][j] == old(self)@[i][j],
                    forall|j: int| c <= j < cols ==> #[trigger] self@[r as int][j] == old(self)@[r as int][j],
                    forall|i: int, j: int|
                        0 <= i < r && 0 <= j < cols ==> f.ensures((old(self)@[i][j],), #[trigger] self@[i][j]),
                    forall|j: int| 0 <= j < c ==> f.ensures((old(self)@[r as int][j],), #[trigger] self@[r as int][j]),
                decreases cols - c,
            {
                let x = *self.get_ref(r, c);
                let y = f(x);
                self.set_entry(r, c, y);
                c += 1;
            }
            r += 1;
        }
    }

    /// Subtracts `rate * g` element by element.
    pub(crate) fn sub_scaled(&mut self, g: &Matrix<T>, rate: T) where
        T: Copy + core::ops::Sub<Output = T> + core::ops::Mul<Output = T>,

        requires
            old(self).wf(),
            g.wf(),
            old(self).same_shape(g),
            sub_mul_total::<T>() || descent_defined(old(self), g, rate),
        ensures
            final(self).wf(),
            final(self).same_layout(old(self)),
            T::obeys_sub_spec() && T::obeys_mul_spec() ==> forall|r: int, c: int|
                0 <= r < old(self).nrows() && 0 <= c < old(self).ncols() ==> #[trigger] final(self)@[r][c]
                    == old(self)@[r][c].sub_spec(rate.mul_spec(g@[r][c])),
    {
        let rows = self.rows;
        let cols = self.cols;
        let mut r: usize = 0;
        while r < rows
            invariant
                rows == self.nrows(),
                cols == self.ncols(),
                self.same_shape(g),
                g.wf(),
                sub_mul_total::<T>() || descent_defined(old(self), g, rate),
                r <= rows,
                self.wf(),
                self.same_layout(old(self)),
                forall|i: int, j: int|
                    r <= i < rows && 0 <= j < cols ==> #[trigger] self@[i][j] == old(self)@[i][j],
                T::obeys_sub_spec() && T::obeys_mul_spec() ==> forall|i: int, j: int|
                    0 <= i < r && 0 <= j < cols ==> #[trigger] self@[i][j] == old(self)@[i][j].sub_spec(
                        rate.mul_spec(g@[i][j]),
                    ),
            decreases rows - r,
        {
            let mut c: usize = 0;
            while c < cols
                invariant
                    rows == self.nrows(),
                    cols == self.ncols(),
                    self.same_shape(g),
                    g.wf(),
                    sub_mul_total::<T>() || descent_defined(old(self), g, rate),
                    r < rows,
                    c <= cols,
                    self.wf(),
                    self.same_layout(old(self)),
                    forall|i: int, j: int|
                        r < i < rows && 0 <= j < cols ==> #[trigger] self@[i][j] == old(self)@[i][j],
                    forall|j: int| c <= j < cols ==> #[trigger] self@[r as int][j] == old(self)@[r as int][j],
                    T::obeys_sub_spec() && T::obeys_mul_spec() ==> forall|i: int, j: int|
                        0 <= i < r && 0 <= j < cols ==> #[trigger] self@[i][j] == old(self)@[i][j].sub_spec(
                            rate.mul_spec(g@[i][j]),
                        ),
                    T::obeys_sub_spec() && T::obeys_mul_spec() ==> forall|j: int|
                        0 <= j < c ==> #[trigger] self@[r as int][j] == old(self)@[r as int][j].sub_spec(
                            rate.mul_spec(g@[r as int][j]),
                        ),
                decreases cols - c,
            {
                let x = *self.get_ref(r, c);
                let y = *g.get_ref(r, c);
                proof {
                    if !sub_mul_total::<T>() {
                        assert(descent_step_ok(old(self)@[r as int][c as int], rate, g@[r as int][c as int]));
                    }
                }
                let v = x - rate * y;
                self.set_entry(r, c, v);
                c += 1;
            }
            r += 1;
        }
    }

    /// Replaces every element of the buffer by a value drawn from `draw`.
    pub fn fill_with<F: FnMut() -> T>(&mut self, draw: &mut F)
        requires
            old(self).wf(),
            forall|s: F| #[trigger] s.requires(()),
        ensures
            final(self).wf(),
            final(self).same_layout(old(self)),
            forall|i: int| 0 <= i < final(self).buffer().len() ==> drawn::<T, F>(#[trigger] final(self).buffer()[i]),
    {
        let n = self.data.len();
        let mut i: usize = 0;
        while i < n
            invariant
                n == self.buffer().len(),
                i <= n,
                self.wf(),
                self.same_layout(old(self)),
                forall|s: F| #[trigger] s.requires(()),
                forall|j: int| 0 <= j < i ==> drawn::<T, F>(#[trigger] self.buffer()[j]),
            decreases n - i,
        {
            let ghost d = *draw;
            let v = draw();
            assert(d.ensures((), v));
            self.data.set(i, v);
            i += 1;
        }
    }

    pub fn get_row_count(&self) -> (r: usize)
        ensures
            r == self.nrows(),
    {
        self.rows
    }

    pub fn get_col_count(&self) -> (r: usize)
        ensures
            r == self.ncols(),
    {
        self.cols
    }
}

} // verus!
