use vstd::prelude::*;

use crate::scalar::{ap1, ap2, call1, call2, is_fn1, is_fn2};

verus! {

/// What a matrix holds: its column count and its rows, each a sequence of
/// scalars.
pub struct MatModel<T> {
    pub cols: nat,
    pub rows: Seq<Seq<T>>,
}

impl<T> MatModel<T> {
    /// Every row has `cols` entries.
    pub open spec fn wf(self) -> bool {
        forall|i: int| 0 <= i < self.rows.len() ==> (#[trigger] self.rows[i]).len() == self.cols
    }

    pub open spec fn same_shape(self, o: Self) -> bool {
        self.rows.len() == o.rows.len() && self.cols == o.cols
    }

    pub open spec fn entry(self, i: int, j: int) -> T {
        self.rows[i][j]
    }

    /// A matrix of the given shape with every entry equal to `v`.
    pub open spec fn filled(r: nat, c: nat, v: T) -> Self {
        MatModel { cols: c, rows: Seq::new(r, |i: int| Seq::new(c, |j: int| v)) }
    }

    /// The same matrix with entry (i, j) replaced by `v`.
    pub open spec fn set(self, i: int, j: int, v: T) -> Self {
        MatModel { cols: self.cols, rows: self.rows.update(i, self.rows[i].update(j, v)) }
    }

    /// Entrywise combination of two matrices of one shape by `f`.
    pub open spec fn zip<F: Fn(T, T) -> T>(self, o: Self, f: F) -> Self {
        MatModel {
            cols: self.cols,
            rows: Seq::new(
                self.rows.len(),
                |i: int| Seq::new(self.cols, |j: int| ap2(f, self.entry(i, j), o.entry(i, j))),
            ),
        }
    }

    /// Entrywise image of a matrix under `f`.
    pub open spec fn map<F: Fn(T) -> T>(self, f: F) -> Self {
        MatModel {
            cols: self.cols,
            rows: Seq::new(
                self.rows.len(),
                |i: int| Seq::new(self.cols, |j: int| ap1(f, self.entry(i, j))),
            ),
        }
    }

    /// The running sum over k < n of row i of `self` times column j of `o`,
    /// started at `zero` and accumulated from k = 0 upwards.
    pub open spec fn dot_sum<M: Fn(T, T) -> T, A: Fn(T, T) -> T>(
        self,
        o: Self,
        zero: T,
        mul: M,
        plus: A,
        i: int,
        j: int,
        n: nat,
    ) -> T
        decreases n,
    {
        if n == 0 {
            zero
        } else {
            let k = n - 1;
            ap2(
                plus,
                self.dot_sum(o, zero, mul, plus, i, j, k as nat),
                ap2(mul, self.entry(i, k), o.entry(k, j)),
            )
        }
    }

    /// The matrix product of `self` and `o`.
    pub open spec fn product<M: Fn(T, T) -> T, A: Fn(T, T) -> T>(
        self,
        o: Self,
        zero: T,
        mul: M,
        plus: A,
    ) -> Self {
        MatModel {
            cols: o.cols,
            rows: Seq::new(
                self.rows.len(),
                |i: int| Seq::new(o.cols, |j: int| self.dot_sum(o, zero, mul, plus, i, j, self.cols)),
            ),
        }
    }
}

/// Two well-formed models of one shape whose entries agree are equal.
pub proof fn lemma_model_ext<T>(a: MatModel<T>, b: MatModel<T>)
    requires
        a.wf(),
        b.wf(),
        a.same_shape(b),
        forall|i: int, j: int|
            0 <= i < a.rows.len() && 0 <= j < a.cols ==> a.entry(i, j) == b.entry(i, j),
    ensures
        a == b,
{
    assert forall|i: int| 0 <= i < a.rows.len() implies a.rows[i] == b.rows[i] by {
        assert forall|j: int| 0 <= j < a.cols implies a.rows[i][j] == b.rows[i][j] by {
            assert(a.entry(i, j) == b.entry(i, j));
        }
        assert(a.rows[i] =~= b.rows[i]);
    }
    assert(a.rows =~= b.rows);
}

/// Entrywise addition: each entry of the sum is the sum of the two entries at
/// that place, and, for a commutative scalar addition, the sum does not depend
/// on the order of the operands.
pub proof fn lemma_add_entrywise_commutes<T, A: Fn(T, T) -> T>(a: MatModel<T>, b: MatModel<T>, plus: A)
    requires
        a.wf(),
        b.wf(),
        a.same_shape(b),
        forall|x: T, y: T| ap2(plus, x, y) == ap2(plus, y, x),
    ensures
        forall|i: int, j: int|
            0 <= i < a.rows.len() && 0 <= j < a.cols ==> #[trigger] a.zip(b, plus).entry(i, j)
                == ap2(plus, a.entry(i, j), b.entry(i, j)),
        a.zip(b, plus) == b.zip(a, plus),
{
    let ab = a.zip(b, plus);
    let ba = b.zip(a, plus);
    assert forall|i: int, j: int|
        0 <= i < ab.rows.len() && 0 <= j < ab.cols implies ab.entry(i, j) == ba.entry(i, j) by {
        assert(ap2(plus, a.entry(i, j), b.entry(i, j)) == ap2(plus, b.entry(i, j), a.entry(i, j)));
    }
    lemma_model_ext(ab, ba);
}

proof fn lemma_dot_sum_zero<T, M: Fn(T, T) -> T, A: Fn(T, T) -> T>(
    a: MatModel<T>,
    z: MatModel<T>,
    zero: T,
    mul: M,
    plus: A,
    i: int,
    j: int,
    n: nat,
)
    requires
        n <= a.cols,
        0 <= j < z.cols,
        z == MatModel::filled(a.cols, z.cols, zero),
        forall|x: T| #[trigger] ap2(mul, x, zero) == zero,
        ap2(plus, zero, zero) == zero,
    ensures
        a.dot_sum(z, zero, mul, plus, i, j, n) == zero,
    decreases n,
{
    if n > 0 {
        lemma_dot_sum_zero(a, z, zero, mul, plus, i, j, (n - 1) as nat);
        assert(z.entry(n - 1, j) == zero);
        assert(ap2(mul, a.entry(i, n - 1), zero) == zero);
    }
}

/// The product of any matrix with a zero matrix of compatible shape is the
/// zero matrix, where zero times anything is zero and zero plus zero is zero.
pub proof fn lemma_product_with_zero<T, M: Fn(T, T) -> T, A: Fn(T, T) -> T>(
    a: MatModel<T>,
    cols: nat,
    zero: T,
    mul: M,
    plus: A,
)
    requires
        a.wf(),
        forall|x: T| #[trigger] ap2(mul, x, zero) == zero,
        ap2(plus, zero, zero) == zero,
    ensures
        a.product(MatModel::filled(a.cols, cols, zero), zero, mul, plus) == MatModel::filled(
            a.rows.len(),
            cols,
            zero,
        ),
{
    let z = MatModel::filled(a.cols, cols, zero);
    let p = a.product(z, zero, mul, plus);
    let want = MatModel::filled(a.rows.len(), cols, zero);
    assert forall|i: int, j: int| 0 <= i < p.rows.len() && 0 <= j < p.cols implies p.entry(i, j)
        == want.entry(i, j) by {
        lemma_dot_sum_zero(a, z, zero, mul, plus, i, j, a.cols);
    }
    lemma_model_ext(p, want);
}

/// A dense matrix stored row by row in one contiguous buffer.
pub struct Matrix<T> {
    data: Vec<T>,
    row_count: usize,
    col_count: usize,
}

proof fn lemma_flat_index(i: int, j: int, r: int, c: int)
    requires
        0 <= i < r,
        0 <= j < c,
    ensures
        0 <= i * c + j < r * c,
        i * c + c <= r * c,
{
    assert(0 <= i * c + j < r * c) by (nonlinear_arith)
        requires
            0 <= i < r,
            0 <= j < c,
    ;
    assert(i * c + c <= r * c) by (nonlinear_arith)
        requires
            0 <= i < r,
            0 <= j < c,
    ;
}

impl<T> View for Matrix<T> {
    type V = MatModel<T>;

    closed spec fn view(&self) -> MatModel<T> {
        MatModel {
            cols: self.col_count as nat,
            rows: Seq::new(
                self.row_count as nat,
                |i: int| Seq::new(self.col_count as nat, |j: int| self.data@[i * self.col_count + j]),
            ),
        }
    }
}

impl<T: Copy> Matrix<T> {
    /// The buffer holds exactly one scalar for each entry.
    pub closed spec fn inv(&self) -> bool {
        &&& self.data@.len() == self.row_count * self.col_count
        &&& self.row_count * self.col_count <= usize::MAX
    }

    /// A sound matrix has a well-formed model of its own shape.
    pub proof fn lemma_view_wf(&self)
        requires
            self.inv(),
        ensures
            self@.wf(),
    {
    }

    proof fn lemma_entry(&self, i: int, j: int)
        requires
            self.inv(),
            0 <= i < self.row_count,
            0 <= j < self.col_count,
        ensures
            0 <= i * self.col_count + j < self.data@.len(),
            self@.entry(i, j) == self.data@[i * self.col_count + j],
    {
        lemma_flat_index(i, j, self.row_count as int, self.col_count as int);
    }

    /// A matrix of the given shape with every entry equal to `zero`.
    pub fn new(rows: usize, cols: usize, zero: T) -> (r: Self)
        requires
            rows * cols <= usize::MAX,
        ensures
            r.inv(),
            r@ == MatModel::filled(rows as nat, cols as nat, zero),
    {
        let n: usize = rows * cols;
        let mut data: Vec<T> = Vec::with_capacity(n);
        let mut k: usize = 0;
        while k < n
            invariant
                k <= n,
                data@.len() == k,
                forall|p: int| 0 <= p < k ==> data@[p] == zero,
            decreases n - k,
        {
            data.push(zero);
            k = k + 1;
        }
        let r = Matrix { data, row_count: rows, col_count: cols };
        proof {
            assert forall|i: int, j: int| 0 <= i < rows && 0 <= j < cols implies r@.entry(i, j)
                == zero by {
                r.lemma_entry(i, j);
            }
            lemma_model_ext(r@, MatModel::filled(rows as nat, cols as nat, zero));
        }
        r
    }

    /// Number of rows.
    pub fn row_count(&self) -> (r: usize)
        requires
            self.inv(),
        ensures
            r == self@.rows.len(),
    {
        self.row_count
    }

    /// Number of columns.
    pub fn col_count(&self) -> (r: usize)
        ensures
            r == self@.cols,
    {
        self.col_count
    }

    /// Entry (i, j).
    pub fn get(&self, i: usize, j: usize) -> (r: T)
        requires
            self.inv(),
            i < self@.rows.len(),
            j < self@.cols,
        ensures
            r == self@.entry(i as int, j as int),
    {
        proof {
            self.lemma_entry(i as int, j as int);
        }
        self.data[i * self.col_count + j]
    }

    /// Replaces entry (i, j) by `v`.
    pub fn set(&mut self, i: usize, j: usize, v: T)
        requires
            old(self).inv(),
            i < old(self)@.rows.len(),
            j < old(self)@.cols,
        ensures
            final(self).inv(),
            final(self)@ == old(self)@.set(i as int, j as int, v),
    {
        proof {
            self.lemma_entry(i as int, j as int);
        }
        let k: usize = i * self.col_count + j;
        self.data.set(k, v);
        proof {
            let c = self.col_count as int;
            assert forall|p: int, q: int| 0 <= p < self.row_count && 0 <= q < c implies self@.entry(
                p,
                q,
            ) == old(self)@.set(i as int, j as int, v).entry(p, q) by {
                self.lemma_entry(p, q);
                old(self).lemma_entry(p, q);
                if p != i {
                    lemma_flat_index(p, q, self.row_count as int, c);
                    if p < i {
                        assert(p * c + c <= i * c) by (nonlinear_arith)
                            requires
                                p < i,
                                0 <= c,
                        ;
                    } else {
                        assert(i * c + c <= p * c) by (nonlinear_arith)
                            requires
                                i < p,
                                0 <= c,
                        ;
                    }
                }
            }
            lemma_model_ext(self@, old(self)@.set(i as int, j as int, v));
        }
    }

    /// A copy of row i.
    pub fn row(&self, i: usize) -> (r: Vec<T>)
        requires
            self.inv(),
            i < self@.rows.len(),
        ensures
            r@ == self@.rows[i as int],
    {
        let mut r: Vec<T> = Vec::with_capacity(self.col_count);
        let mut j: usize = 0;
        while j < self.col_count
            invariant
                self.inv(),
                i < self.row_count,
                j <= self.col_count,
                r@.len() == j,
                forall|q: int| 0 <= q < j ==> r@[q] == self@.entry(i as int, q),
            decreases self.col_count - j,
        {
            proof {
                self.lemma_entry(i as int, j as int);
            }
            r.push(self.data[i * self.col_count + j]);
            j = j + 1;
        }
        assert(r@ =~= self@.rows[i as int]);
        r
    }

    /// Sets every entry to `value`.
    pub fn fill(&mut self, value: T)
        requires
            old(self).inv(),
        ensures
            final(self).inv(),
            final(self)@ == MatModel::filled(old(self)@.rows.len(), old(self)@.cols, value),
    {
        let n: usize = self.data.len();
        let mut k: usize = 0;
        while k < n
            invariant
                n == self.data@.len(),
                self.inv(),
                self.row_count == old(self).row_count,
                self.col_count == old(self).col_count,
                k <= n,
                forall|p: int| 0 <= p < k ==> self.data@[p] == value,
            decreases n - k,
        {
            self.data.set(k, value);
            k = k + 1;
        }
        proof {
            assert forall|i: int, j: int|
                0 <= i < self.row_count && 0 <= j < self.col_count implies self@.entry(i, j)
                == value by {
                self.lemma_entry(i, j);
            }
            lemma_model_ext(self@, MatModel::filled(old(self)@.rows.len(), old(self)@.cols, value));
        }
    }

    /// Builds a matrix from its rows. Fails when there are no rows or when
    /// two rows differ in length.
    pub fn from_slice(slice: &Vec<Vec<T>>) -> (r: Option<Self>)
        requires
            slice@.len() > 0 ==> slice@.len() * slice@[0]@.len() <= usize::MAX,
        ensures
            r is None <==> (slice@.len() == 0 || exists|i: int|
                0 <= i < slice@.len() && (#[trigger] slice@[i])@.len() != slice@[0]@.len()),
            r matches Some(m) ==> {
                &&& m.inv()
                &&& m@.cols == slice@[0]@.len()
                &&& m@.rows == slice@.map_values(|v: Vec<T>| v@)
            },
    {
        if slice.len() == 0 {
            return None;
        }
        let row_count: usize = slice.len();
        let col_count: usize = slice[0].len();
        let mut i: usize = 0;
        while i < row_count
            invariant
                row_count == slice@.len(),
                col_count == slice@[0]@.len(),
                i <= row_count,
                forall|p: int| 0 <= p < i ==> (#[trigger] slice@[p])@.len() == col_count,
            decreases row_count - i,
        {
            if slice[i].len() != col_count {
                return None;
            }
            i = i + 1;
        }
        let mut data: Vec<T> = Vec::with_capacity(row_count * col_count);
        let mut i: usize = 0;
        while i < row_count
            invariant
                row_count == slice@.len(),
                col_count == slice@[0]@.len(),
                row_count * col_count <= usize::MAX,
                i <= row_count,
                forall|p: int| 0 <= p < row_count ==> (#[trigger] slice@[p])@.len() == col_count,
                data@.len() == i * col_count,
                forall|p: int, q: int|
                    0 <= p < i && 0 <= q < col_count ==> data@[p * col_count + q] == slice@[p]@[q],
            decreases row_count - i,
        {
            let row = &slice[i];
            let mut j: usize = 0;
            proof {
                assert(i * col_count + col_count <= row_count * col_count) by (nonlinear_arith)
                    requires
                        i < row_count,
                ;
            }
            while j < col_count
                invariant
                    row_count == slice@.len(),
                    col_count == slice@[0]@.len(),
                    row_count * col_count <= usize::MAX,
                    i < row_count,
                    i * col_count + col_count <= row_count * col_count,
                    row@ == slice@[i as int]@,
                    row@.len() == col_count,
                    j <= col_count,
                    data@.len() == i * col_count + j,
                    forall|p: int, q: int|
                        0 <= p < i && 0 <= q < col_count ==> data@[p * col_count + q]
                            == slice@[p]@[q],
                    forall|q: int| 0 <= q < j ==> data@[i * col_count + q] == slice@[i as int]@[q],
                decreases col_count - j,
            {
                let ghost prev = data@;
                data.push(row[j]);
                proof {
                    assert forall|p: int, q: int| 0 <= p < i && 0 <= q < col_count implies #[trigger] data@[
                        p * col_count + q] == slice@[p]@[q] by {
                        lemma_flat_index(p, q, i as int, col_count as int);
                        assert(data@[p * col_count + q] == prev[p * col_count + q]);
                    }
                }
                j = j + 1;
            }
            proof {
                assert((i + 1) * col_count == i * col_count + col_count) by (nonlinear_arith);
            }
            i = i + 1;
        }
        let m = Matrix { data, row_count, col_count };
        proof {
            assert forall|p: int| 0 <= p < row_count implies #[trigger] m@.rows[p]
                == slice@.map_values(|v: Vec<T>| v@)[p] by {
                assert forall|q: int| 0 <= q < col_count implies m@.rows[p][q] == slice@[p]@[q] by {
                    assert(m@.entry(p, q) == m.data@[p * col_count + q]);
                }
                assert(m@.rows[p] =~= slice@.map_values(|v: Vec<T>| v@)[p]);
            }
            assert(m@.rows =~= slice@.map_values(|v: Vec<T>| v@));
        }
        Some(m)
    }

    /// Replaces every entry by a fresh value from `draw`, one call per entry.
    pub fn randomize<F: Fn() -> T>(&mut self, draw: &F)
        requires
            old(self).inv(),
            draw.requires(()),
        ensures
            final(self).inv(),
            final(self)@.same_shape(old(self)@),
            forall|i: int, j: int|
                0 <= i < final(self)@.rows.len() && 0 <= j < final(self)@.cols ==> draw.ensures(
                    (),
                    #[trigger] final(self)@.entry(i, j),
                ),
    {
        let n: usize = self.data.len();
        let mut k: usize = 0;
        while k < n
            invariant
                n == self.data@.len(),
                self.inv(),
                self.row_count == old(self).row_count,
                self.col_count == old(self).col_count,
                draw.requires(()),
                k <= n,
                forall|p: int| 0 <= p < k ==> draw.ensures((), #[trigger] self.data@[p]),
            decreases n - k,
        {
            let v = draw();
            self.data.set(k, v);
            k = k + 1;
        }
        proof {
            assert forall|i: int, j: int|
                0 <= i < self@.rows.len() && 0 <= j < self@.cols implies draw.ensures(
                (),
                #[trigger] self@.entry(i, j),
            ) by {
                self.lemma_entry(i, j);
            }
        }
    }

    /// Entrywise sum. Fails unless both matrices have the same shape.
    pub fn add<A: Fn(T, T) -> T>(&self, other: &Self, plus: &A) -> (r: Option<Self>)
        requires
            self.inv(),
            other.inv(),
            is_fn2(*plus),
        ensures
            r is None <==> !self@.same_shape(other@),
            r matches Some(m) ==> m.inv() && m@ == self@.zip(other@, *plus),
    {
        if self.row_count != other.row_count || self.col_count != other.col_count {
            return None;
        }
        let n: usize = self.data.len();
        let mut data: Vec<T> = Vec::with_capacity(n);
        let mut k: usize = 0;
        while k < n
            invariant
                self.inv(),
                other.inv(),
                is_fn2(*plus),
                n == self.data@.len(),
                n == other.data@.len(),
                k <= n,
                data@.len() == k,
                forall|p: int|
                    0 <= p < k ==> data@[p] == ap2(*plus, self.data@[p], other.data@[p]),
            decreases n - k,
        {
            let v = call2(plus, self.data[k], other.data[k]);
            data.push(v);
            k = k + 1;
        }
        let m = Matrix { data, row_count: self.row_count, col_count: self.col_count };
        proof {
            assert forall|i: int, j: int|
                0 <= i < m@.rows.len() && 0 <= j < m@.cols implies m@.entry(i, j) == self@.zip(
                other@,
                *plus,
            ).entry(i, j) by {
                m.lemma_entry(i, j);
                self.lemma_entry(i, j);
                other.lemma_entry(i, j);
            }
            lemma_model_ext(m@, self@.zip(other@, *plus));
        }
        Some(m)
    }

    /// Entrywise image under the activation `act` (the logistic function, in
    /// a network).
    pub fn sigmoid<S: Fn(T) -> T>(&self, act: &S) -> (r: Self)
        requires
            self.inv(),
            is_fn1(*act),
        ensures
            r.inv(),
            r@ == self@.map(*act),
    {
        let n: usize = self.data.len();
        let mut data: Vec<T> = Vec::with_capacity(n);
        let mut k: usize = 0;
        while k < n
            invariant
                self.inv(),
                is_fn1(*act),
                n == self.data@.len(),
                k <= n,
                data@.len() == k,
                forall|p: int| 0 <= p < k ==> data@[p] == ap1(*act, self.data@[p]),
            decreases n - k,
        {
            let v = call1(act, self.data[k]);
            data.push(v);
            k = k + 1;
        }
        let m = Matrix { data, row_count: self.row_count, col_count: self.col_count };
        proof {
            assert forall|i: int, j: int|
                0 <= i < m@.rows.len() && 0 <= j < m@.cols implies m@.entry(i, j) == self@.map(
                *act,
            ).entry(i, j) by {
                m.lemma_entry(i, j);
                self.lemma_entry(i, j);
            }
            lemma_model_ext(m@, self@.map(*act));
        }
        m
    }

    /// Matrix product. Fails unless the column count of `self` equals the
    /// row count of `other`. Entry (i, j) of the result is accumulated from
    /// `zero` by adding `self[i][k] * other[k][j]` for k = 0, 1, ... in turn.
    pub fn dot<M: Fn(T, T) -> T, A: Fn(T, T) -> T>(
        &self,
        other: &Self,
        zero: T,
        mul: &M,
        plus: &A,
    ) -> (r: Option<Self>)
        requires
            self.inv(),
            other.inv(),
            is_fn2(*mul),
            is_fn2(*plus),
            self@.rows.len() * other@.cols <= usize::MAX,
        ensures
            r is None <==> self@.cols != other@.rows.len(),
            r matches Some(m) ==> m.inv() && m@ == self@.product(other@, zero, *mul, *plus),
    {
        if self.col_count != other.row_count {
            return None;
        }
        let rows: usize = self.row_count;
        let cols: usize = other.col_count;
        let inner: usize = self.col_count;
        let mut data: Vec<T> = Vec::with_capacity(rows * cols);
        let mut i: usize = 0;
        while i < rows
            invariant
                self.inv(),
                other.inv(),
                is_fn2(*mul),
                is_fn2(*plus),
                rows == self@.rows.len(),
                cols == other@.cols,
                inner == self@.cols,
                inner == other@.rows.len(),
                rows * cols <= usize::MAX,
                i <= rows,
                data@.len() == i * cols,
                forall|p: int, q: int|
                    0 <= p < i && 0 <= q < cols ==> data@[p * cols + q] == self@.dot_sum(
                        other@,
                        zero,
                        *mul,
                        *plus,
                        p,
                        q,
                        inner as nat,
                    ),
            decreases rows - i,
        {
            assert(i * cols + cols <= rows * cols) by (nonlinear_arith)
                requires
                    i < rows,
            ;
            let mut j: usize = 0;
            while j < cols
                invariant
                    self.inv(),
                    other.inv(),
                    is_fn2(*mul),
                    is_fn2(*plus),
                    rows == self@.rows.len(),
                    cols == other@.cols,
                    inner == self@.cols,
                    inner == other@.rows.len(),
                    rows * cols <= usize::MAX,
                    i < rows,
                    i * cols + cols <= rows * cols,
                    j <= cols,
                    data@.len() == i * cols + j,
                    forall|p: int, q: int|
                        0 <= p < i && 0 <= q < cols ==> data@[p * cols + q] == self@.dot_sum(
                            other@,
                            zero,
                            *mul,
                            *plus,
                            p,
                            q,
                            inner as nat,
                        ),
                    forall|q: int|
                        0 <= q < j ==> data@[i * cols + q] == self@.dot_sum(
                            other@,
                            zero,
                            *mul,
                            *plus,
                            i as int,
                            q,
                            inner as nat,
                        ),
                decreases cols - j,
            {
                let mut acc: T = zero;
                let mut k: usize = 0;
                while k < inner
                    invariant
                        self.inv(),
                        other.inv(),
                        is_fn2(*mul),
                        is_fn2(*plus),
                        rows == self@.rows.len(),
                        cols == other@.cols,
                        inner == self@.cols,
                        inner == other@.rows.len(),
                        i < rows,
                        j < cols,
                        k <= inner,
                        acc == self@.dot_sum(other@, zero, *mul, *plus, i as int, j as int, k as nat),
                    decreases inner - k,
                {
                    let prod = call2(mul, self.get(i, k), other.get(k, j));
                    acc = call2(plus, acc, prod);
                    k = k + 1;
                }
                let ghost prev = data@;
                data.push(acc);
                proof {
                    assert forall|p: int, q: int| 0 <= p < i && 0 <= q < cols implies #[trigger] data@[
                        p * cols + q] == prev[p * cols + q] by {
                        lemma_flat_index(p, q, i as int, cols as int);
                    }
                }
                j = j + 1;
            }
            proof {
                assert((i + 1) * cols == i * cols + cols) by (nonlinear_arith);
            }
            i = i + 1;
        }
        let m = Matrix { data, row_count: rows, col_count: cols };
        proof {
            let want = self@.product(other@, zero, *mul, *plus);
            assert forall|p: int, q: int|
                0 <= p < m@.rows.len() && 0 <= q < m@.cols implies m@.entry(p, q) == want.entry(
                p,
                q,
            ) by {
                m.lemma_entry(p, q);
            }
            lemma_model_ext(m@, want);
        }
        Some(m)
    }

    /// A copy of this matrix.
    pub fn duplicate(&self) -> (r: Self)
        requires
            self.inv(),
        ensures
            r.inv(),
            r@ == self@,
    {
        let n: usize = self.data.len();
        let mut data: Vec<T> = Vec::with_capacity(n);
        let mut k: usize = 0;
        while k < n
            invariant
                n == self.data@.len(),
                k <= n,
                data@ == self.data@.subrange(0, k as int),
            decreases n - k,
        {
            data.push(self.data[k]);
            k = k + 1;
            assert(data@ =~= self.data@.subrange(0, k as int));
        }
        assert(data@ =~= self.data@);
        Matrix { data, row_count: self.row_count, col_count: self.col_count }
    }

    /// A matrix of one row holding `v`.
    pub fn from_row(v: &Vec<T>) -> (r: Self)
        ensures
            r.inv(),
            r@ == (MatModel { cols: v@.len(), rows: seq![v@] }),
    {
        let n: usize = v.len();
        let mut data: Vec<T> = Vec::with_capacity(n);
        let mut k: usize = 0;
        while k < n
            invariant
                n == v@.len(),
                k <= n,
                data@ == v@.subrange(0, k as int),
            decreases n - k,
        {
            data.push(v[k]);
            k = k + 1;
            assert(data@ =~= v@.subrange(0, k as int));
        }
        assert(data@ =~= v@);
        let m = Matrix { data, row_count: 1, col_count: n };
        proof {
            let want = MatModel { cols: v@.len(), rows: seq![v@] };
            assert forall|i: int, j: int|
                0 <= i < m@.rows.len() && 0 <= j < m@.cols implies m@.entry(i, j) == want.entry(
                i,
                j,
            ) by {
                m.lemma_entry(i, j);
                assert(i * n + j == j) by (nonlinear_arith)
                    requires
                        i == 0,
                ;
                assert(want.rows[0] == v@);
            }
            lemma_model_ext(m@, want);
        }
        m
    }

    /// The shape of a matrix fits in machine words.
    pub proof fn lemma_shape_bounds(&self)
        ensures
            self@.rows.len() <= usize::MAX,
            self@.cols <= usize::MAX,
    {
    }
}

} // verus!
