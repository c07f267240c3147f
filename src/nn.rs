use vstd::prelude::*;

use crate::matrix::{MatModel, Matrix};
use crate::scalar::{ap1, ap2, call1, call2, is_fn1, is_fn2};

verus! {

/// What a network's parameters are: one weight matrix and one bias row per
/// layer.
pub struct ParamsModel<T> {
    pub w: Seq<MatModel<T>>,
    pub b: Seq<MatModel<T>>,
}

impl<T> ParamsModel<T> {
    /// At least one layer; layer i maps a width of `w[i].rows.len()` to a
    /// width of `w[i].cols`, its bias is one row of that width, and each layer
    /// takes the width that the one before it gives.
    pub open spec fn wf(self) -> bool {
        &&& self.w.len() >= 1
        &&& self.b.len() == self.w.len()
        &&& forall|i: int|
            0 <= i < self.w.len() ==> {
                &&& (#[trigger] self.w[i]).wf()
                &&& self.b[i].wf()
                &&& self.b[i].rows.len() == 1
                &&& self.b[i].cols == self.w[i].cols
            }
        &&& forall|i: int|
            1 <= i < self.w.len() ==> (#[trigger] self.w[i]).rows.len() == self.w[i - 1].cols
    }

    /// Number of layers.
    pub open spec fn layers(self) -> nat {
        self.w.len()
    }

    /// Width of the input.
    pub open spec fn in_width(self) -> nat {
        self.w[0].rows.len()
    }

    /// Width of the output.
    pub open spec fn out_width(self) -> nat {
        self.w[self.w.len() - 1].cols
    }

    /// The layer widths: the input width, then the output width of each layer.
    pub open spec fn structure(self) -> Seq<usize> {
        seq![self.w[0].rows.len() as usize] + Seq::new(self.w.len(), |i: int| self.w[i].cols as usize)
    }

    /// Both hold matrices of the same shapes, layer by layer.
    pub open spec fn same_shape(self, o: Self) -> bool {
        &&& self.w.len() == o.w.len()
        &&& self.b.len() == o.b.len()
        &&& forall|i: int| 0 <= i < self.w.len() ==> (#[trigger] self.w[i]).same_shape(o.w[i])
        &&& forall|i: int| 0 <= i < self.b.len() ==> (#[trigger] self.b[i]).same_shape(o.b[i])
    }

    /// The parameters of a network of the given widths, all equal to `zero`.
    pub open spec fn zeroed(s: Seq<usize>, zero: T) -> Self {
        ParamsModel {
            w: Seq::new(
                (s.len() - 1) as nat,
                |i: int| MatModel::filled(s[i] as nat, s[i + 1] as nat, zero),
            ),
            b: Seq::new((s.len() - 1) as nat, |i: int| MatModel::filled(1, s[i + 1] as nat, zero)),
        }
    }
}

/// The widths of a network built for the widths `s` are `s` again.
pub proof fn lemma_structure_of_zeroed<T>(s: Seq<usize>, zero: T)
    requires
        s.len() >= 2,
    ensures
        ParamsModel::zeroed(s, zero).wf(),
        ParamsModel::zeroed(s, zero).structure() == s,
{
    let p = ParamsModel::<T>::zeroed(s, zero);
    assert forall|i: int| 0 <= i < p.w.len() implies (#[trigger] p.w[i]).wf() && p.b[i].wf() by {
        assert(p.w[i].wf());
    }
    assert(p.structure() =~= s);
}

/// The scalar arithmetic that a network runs on: the additive zero,
/// multiplication, addition, the activation applied after every layer, the
/// squared error of a guess against a target, and the division of a summed
/// error by the number of samples.
pub struct Arith<T, M, A, S, E, D> {
    pub zero: T,
    pub mul: M,
    pub plus: A,
    pub act: S,
    pub sq_err: E,
    pub mean: D,
}

impl<
    T,
    M: Fn(T, T) -> T,
    A: Fn(T, T) -> T,
    S: Fn(T) -> T,
    E: Fn(T, T) -> T,
    D: Fn(T, usize) -> T,
> Arith<T, M, A, S, E, D> {
    /// Every operation is total and deterministic.
    pub open spec fn wf(self) -> bool {
        &&& is_fn2(self.mul)
        &&& is_fn2(self.plus)
        &&& is_fn1(self.act)
        &&& is_fn2(self.sq_err)
        &&& is_fn2(self.mean)
    }

    /// One layer applied to the activations `a`: `act(a . w + b)`.
    pub open spec fn layer(self, a: MatModel<T>, w: MatModel<T>, b: MatModel<T>) -> MatModel<T> {
        a.product(w, self.zero, self.mul, self.plus).zip(b, self.plus).map(self.act)
    }

    /// The activations after the first `n` layers, starting from the input
    /// `x` as a single row.
    pub open spec fn activation(self, p: ParamsModel<T>, x: Seq<T>, n: nat) -> MatModel<T>
        decreases n,
    {
        if n == 0 {
            MatModel { cols: x.len(), rows: seq![x] }
        } else {
            self.layer(self.activation(p, x, (n - 1) as nat), p.w[n - 1], p.b[n - 1])
        }
    }

    /// The output of the network `p` on the input `x`.
    pub open spec fn output(self, p: ParamsModel<T>, x: Seq<T>) -> Seq<T> {
        self.activation(p, x, p.layers()).rows[0]
    }

    /// Adds to `acc` the squared errors of the first `n` coordinates of the
    /// guess `g` against the target `y`, one coordinate after another.
    pub open spec fn sample_err(self, acc: T, g: Seq<T>, y: Seq<T>, n: nat) -> T
        decreases n,
    {
        if n == 0 {
            acc
        } else {
            ap2(
                self.plus,
                self.sample_err(acc, g, y, (n - 1) as nat),
                ap2(self.sq_err, g[n - 1], y[n - 1]),
            )
        }
    }

    /// The summed squared error of `p` over the first `s` samples.
    pub open spec fn total_err(
        self,
        p: ParamsModel<T>,
        ins: Seq<Seq<T>>,
        outs: Seq<Seq<T>>,
        s: nat,
    ) -> T
        decreases s,
    {
        if s == 0 {
            self.zero
        } else {
            self.sample_err(
                self.total_err(p, ins, outs, (s - 1) as nat),
                self.output(p, ins[s - 1]),
                outs[s - 1],
                p.out_width(),
            )
        }
    }

    /// The finite-difference estimate for entry (j, k) of `part(bias, l)`:
    /// `slope(c1, c0)`, where `c1` is the cost with that one parameter moved
    /// by `nudge` and `c0` the cost of `p` itself.
    pub open spec fn probe<N: Fn(T) -> T, Q: Fn(T, T) -> T>(
        self,
        p: ParamsModel<T>,
        ins: Seq<Seq<T>>,
        outs: Seq<Seq<T>>,
        nudge: N,
        slope: Q,
        bias: bool,
        l: int,
        j: int,
        k: int,
    ) -> T {
        let moved = p.with_param(bias, l, j, k, ap1(nudge, p.part(bias, l).entry(j, k)));
        ap2(slope, self.cost(moved, ins, outs), self.cost(p, ins, outs))
    }

    /// The estimates for every entry of `part(bias, l)`, in its shape.
    pub open spec fn grad_part<N: Fn(T) -> T, Q: Fn(T, T) -> T>(
        self,
        p: ParamsModel<T>,
        ins: Seq<Seq<T>>,
        outs: Seq<Seq<T>>,
        nudge: N,
        slope: Q,
        bias: bool,
        l: int,
    ) -> MatModel<T> {
        let part = p.part(bias, l);
        MatModel {
            cols: part.cols,
            rows: Seq::new(
                part.rows.len(),
                |j: int|
                    Seq::new(
                        part.cols,
                        |k: int| self.probe(p, ins, outs, nudge, slope, bias, l, j, k),
                    ),
            ),
        }
    }

    /// The finite-difference gradient of the cost at `p`, in the shape of `p`.
    pub open spec fn gradient<N: Fn(T) -> T, Q: Fn(T, T) -> T>(
        self,
        p: ParamsModel<T>,
        ins: Seq<Seq<T>>,
        outs: Seq<Seq<T>>,
        nudge: N,
        slope: Q,
    ) -> ParamsModel<T> {
        ParamsModel {
            w: Seq::new(p.w.len(), |l: int| self.grad_part(p, ins, outs, nudge, slope, false, l)),
            b: Seq::new(p.b.len(), |l: int| self.grad_part(p, ins, outs, nudge, slope, true, l)),
        }
    }

    /// The cost of `p` on a training set: the summed squared error divided by
    /// the number of samples (not by the number of output values).
    pub open spec fn cost(self, p: ParamsModel<T>, ins: Seq<Seq<T>>, outs: Seq<Seq<T>>) -> T {
        ap2(self.mean, self.total_err(p, ins, outs, ins.len()), ins.len() as usize)
    }
}

impl<T> ParamsModel<T> {
    /// The weight matrix (`bias` false) or the bias row (`bias` true) of
    /// layer `l`.
    pub open spec fn part(self, bias: bool, l: int) -> MatModel<T> {
        if bias {
            self.b[l]
        } else {
            self.w[l]
        }
    }

    /// The same parameters with entry (j, k) of `part(bias, l)` replaced by
    /// `v`.
    pub open spec fn with_param(self, bias: bool, l: int, j: int, k: int, v: T) -> Self {
        if bias {
            ParamsModel { w: self.w, b: self.b.update(l, self.b[l].set(j, k, v)) }
        } else {
            ParamsModel { w: self.w.update(l, self.w[l].set(j, k, v)), b: self.b }
        }
    }

    /// Every parameter replaced by `step(parameter, g's parameter at the same
    /// place)`.
    pub open spec fn descended<U: Fn(T, T) -> T>(self, g: Self, step: U) -> Self {
        ParamsModel {
            w: Seq::new(self.w.len(), |l: int| self.w[l].zip(g.w[l], step)),
            b: Seq::new(self.b.len(), |l: int| self.b[l].zip(g.b[l], step)),
        }
    }
}

/// The rows of a list of vectors.
pub open spec fn rows_of<T>(v: Seq<Vec<T>>) -> Seq<Seq<T>> {
    v.map_values(|r: Vec<T>| r@)
}

impl<T> ParamsModel<T> {
    /// A training set for this network: as many targets as inputs, at least
    /// one sample, every input as wide as the input layer and every target as
    /// wide as the output layer.
    pub open spec fn fits(self, ins: Seq<Seq<T>>, outs: Seq<Seq<T>>) -> bool {
        &&& ins.len() > 0
        &&& ins.len() == outs.len()
        &&& forall|i: int| 0 <= i < ins.len() ==> (#[trigger] ins[i]).len() == self.in_width()
        &&& forall|i: int| 0 <= i < outs.len() ==> (#[trigger] outs[i]).len() == self.out_width()
    }
}

/// Parameters that have the shapes of well-formed parameters, with each
/// matrix well-formed, are well-formed too.
proof fn lemma_wf_by_shape<T>(p: ParamsModel<T>, q: ParamsModel<T>)
    requires
        p.wf(),
        p.same_shape(q),
        forall|i: int| 0 <= i < q.w.len() ==> (#[trigger] q.w[i]).wf() && q.b[i].wf(),
    ensures
        q.wf(),
{
    assert forall|i: int| 0 <= i < q.w.len() implies {
        &&& (#[trigger] q.w[i]).wf()
        &&& q.b[i].wf()
        &&& q.b[i].rows.len() == 1
        &&& q.b[i].cols == q.w[i].cols
    } by {
        assert(p.w[i].same_shape(q.w[i]));
        assert(p.b[i].same_shape(q.b[i]));
    }
    assert forall|i: int| 1 <= i < q.w.len() implies (#[trigger] q.w[i]).rows.len() == q.w[i
        - 1].cols by {
        assert(p.w[i].same_shape(q.w[i]));
        assert(p.w[i - 1].same_shape(q.w[i - 1]));
    }
}

proof fn lemma_same_shape_symmetric<T>(p: ParamsModel<T>, q: ParamsModel<T>)
    requires
        p.same_shape(q),
    ensures
        q.same_shape(p),
{
    assert forall|i: int| 0 <= i < q.w.len() implies (#[trigger] q.w[i]).same_shape(p.w[i]) by {
        assert(p.w[i].same_shape(q.w[i]));
    }
    assert forall|i: int| 0 <= i < q.b.len() implies (#[trigger] q.b[i]).same_shape(p.b[i]) by {
        assert(p.b[i].same_shape(q.b[i]));
    }
}

/// Parameters of the same shapes have the same structure and accept the same
/// training sets.
pub proof fn lemma_same_shape_structure<T>(p: ParamsModel<T>, q: ParamsModel<T>)
    requires
        p.wf(),
        p.same_shape(q),
    ensures
        p.structure() == q.structure(),
        forall|ins: Seq<Seq<T>>, outs: Seq<Seq<T>>| #[trigger] p.fits(ins, outs) == q.fits(ins, outs),
{
    assert(p.w[0].same_shape(q.w[0]));
    assert(p.w[p.w.len() - 1].same_shape(q.w[q.w.len() - 1]));
    assert forall|i: int| 0 <= i < p.w.len() implies p.w[i].cols == q.w[i].cols by {
        assert(p.w[i].same_shape(q.w[i]));
    }
    assert(p.structure() =~= q.structure());
}

/// The weights and biases of a fully connected feed-forward network.
pub struct ModelParams<T> {
    w: Vec<Matrix<T>>,
    b: Vec<Matrix<T>>,
}

impl<T> View for ModelParams<T> {
    type V = ParamsModel<T>;

    closed spec fn view(&self) -> ParamsModel<T> {
        ParamsModel { w: self.w@.map_values(|m: Matrix<T>| m@), b: self.b@.map_values(|m: Matrix<T>| m@) }
    }
}

impl<T: Copy> ModelParams<T> {
    /// Every matrix is sound and the shapes fit together.
    pub closed spec fn inv(&self) -> bool {
        &&& self.w@.len() == self.b@.len()
        &&& forall|i: int| 0 <= i < self.w@.len() ==> (#[trigger] self.w@[i]).inv()
        &&& forall|i: int| 0 <= i < self.b@.len() ==> (#[trigger] self.b@[i]).inv()
        &&& self@.wf()
    }

    /// Parameters for a network with the given layer widths, all set to
    /// `zero`. Fails when fewer than two widths are given.
    pub fn new(structure: &Vec<usize>, zero: T) -> (r: Option<Self>)
        requires
            forall|i: int|
                0 <= i < structure@.len() - 1 ==> #[trigger] structure@[i] * structure@[i + 1] <= usize::MAX,
        ensures
            r is None <==> structure@.len() < 2,
            r matches Some(p) ==> p.inv() && p@ == ParamsModel::zeroed(structure@, zero),
    {
        if structure.len() < 2 {
            return None;
        }
        let layer_count: usize = structure.len() - 1;
        let mut w: Vec<Matrix<T>> = Vec::with_capacity(layer_count);
        let mut b: Vec<Matrix<T>> = Vec::with_capacity(layer_count);
        let ghost want = ParamsModel::zeroed(structure@, zero);
        let mut i: usize = 0;
        while i < layer_count
            invariant
                layer_count == structure@.len() - 1,
                want == ParamsModel::zeroed(structure@, zero),
                forall|i: int|
                    0 <= i < structure@.len() - 1 ==> #[trigger] structure@[i] * structure@[i + 1]
                        <= usize::MAX,
                i <= layer_count,
                w@.len() == i,
                b@.len() == i,
                forall|p: int| 0 <= p < i ==> (#[trigger] w@[p]).inv() && w@[p]@ == want.w[p],
                forall|p: int| 0 <= p < i ==> (#[trigger] b@[p]).inv() && b@[p]@ == want.b[p],
            decreases layer_count - i,
        {
            w.push(Matrix::new(structure[i], structure[i + 1], zero));
            b.push(Matrix::new(1, structure[i + 1], zero));
            i = i + 1;
        }
        let p = ModelParams { w, b };
        proof {
            lemma_structure_of_zeroed(structure@, zero);
            assert(p@.w =~= want.w);
            assert(p@.b =~= want.b);
        }
        Some(p)
    }

    /// A copy of these parameters.
    pub fn duplicate(&self) -> (r: Self)
        requires
            self.inv(),
        ensures
            r.inv(),
            r@ == self@,
    {
        let n: usize = self.w.len();
        let mut w: Vec<Matrix<T>> = Vec::with_capacity(n);
        let mut b: Vec<Matrix<T>> = Vec::with_capacity(n);
        let mut i: usize = 0;
        while i < n
            invariant
                self.inv(),
                n == self.w@.len(),
                i <= n,
                w@.len() == i,
                b@.len() == i,
                forall|p: int| 0 <= p < i ==> (#[trigger] w@[p]).inv() && w@[p]@ == self.w@[p]@,
                forall|p: int| 0 <= p < i ==> (#[trigger] b@[p]).inv() && b@[p]@ == self.b@[p]@,
            decreases n - i,
        {
            w.push(self.w[i].duplicate());
            b.push(self.b[i].duplicate());
            i = i + 1;
        }
        let r = ModelParams { w, b };
        assert(r@.w =~= self@.w);
        assert(r@.b =~= self@.b);
        r
    }

    /// Entry (j, k) of the weights (`bias` false) or biases (`bias` true) of
    /// layer `l`.
    pub fn param(&self, bias: bool, l: usize, j: usize, k: usize) -> (r: T)
        requires
            self.inv(),
            l < self@.layers(),
            j < self@.part(bias, l as int).rows.len(),
            k < self@.part(bias, l as int).cols,
        ensures
            r == self@.part(bias, l as int).entry(j as int, k as int),
    {
        assert(self.w@[l as int].inv() && self.b@[l as int].inv());
        if bias {
            self.b[l].get(j, k)
        } else {
            self.w[l].get(j, k)
        }
    }

    /// Replaces entry (j, k) of the weights (`bias` false) or biases (`bias`
    /// true) of layer `l` by `v`.
    pub fn set_param(&mut self, bias: bool, l: usize, j: usize, k: usize, v: T)
        requires
            old(self).inv(),
            l < old(self)@.layers(),
            j < old(self)@.part(bias, l as int).rows.len(),
            k < old(self)@.part(bias, l as int).cols,
        ensures
            final(self).inv(),
            final(self)@ == old(self)@.with_param(bias, l as int, j as int, k as int, v),
    {
        assert(self.w@[l as int].inv() && self.b@[l as int].inv());
        if bias {
            let mut part = self.b[l].duplicate();
            part.set(j, k, v);
            self.b.set(l, part);
        } else {
            let mut part = self.w[l].duplicate();
            part.set(j, k, v);
            self.w.set(l, part);
        }
        proof {
            let want = old(self)@.with_param(bias, l as int, j as int, k as int, v);
            assert(self@.w =~= want.w);
            assert(self@.b =~= want.b);
            assert forall|i: int| 0 <= i < self.w@.len() implies (#[trigger] self.w@[i]).inv() by {
                assert(old(self).w@[i].inv());
            }
            assert forall|i: int| 0 <= i < self.b@.len() implies (#[trigger] self.b@[i]).inv() by {
                assert(old(self).b@[i].inv());
            }
            assert forall|i: int| 1 <= i < self@.w.len() implies (#[trigger] self@.w[i]).rows.len()
                == self@.w[i - 1].cols by {
                assert(old(self)@.w[i].rows.len() == old(self)@.w[i - 1].cols);
            }
            assert forall|i: int| 0 <= i < self@.w.len() implies (#[trigger] self@.w[i]).wf()
                && self@.b[i].wf() && self@.b[i].rows.len() == 1 && self@.b[i].cols
                == self@.w[i].cols by {
                assert(old(self)@.w[i].wf());
            }
        }
    }

    /// Replaces every weight and bias by a fresh value from `draw`, each one
    /// drawn by its own call.
    pub fn randomize<F: Fn() -> T>(&mut self, draw: &F)
        requires
            old(self).inv(),
            draw.requires(()),
        ensures
            final(self).inv(),
            final(self)@.same_shape(old(self)@),
            final(self)@.structure() == old(self)@.structure(),
            forall|bias: bool, l: int, j: int, k: int|
                0 <= l < final(self)@.layers() && 0 <= j < final(self)@.part(bias, l).rows.len()
                    && 0 <= k < final(self)@.part(bias, l).cols ==> draw.ensures(
                    (),
                    #[trigger] final(self)@.part(bias, l).entry(j, k),
                ),
    {
        let layer_count: usize = self.w.len();
        let mut i: usize = 0;
        while i < layer_count
            invariant
                self.inv(),
                draw.requires(()),
                layer_count == self@.layers(),
                self@.same_shape(old(self)@),
                i <= layer_count,
                forall|bias: bool, l: int, j: int, k: int|
                    0 <= l < i && 0 <= j < self@.part(bias, l).rows.len() && 0 <= k < self@.part(
                        bias,
                        l,
                    ).cols ==> draw.ensures((), #[trigger] self@.part(bias, l).entry(j, k)),
            decreases layer_count - i,
        {
            let ghost before = *self;
            assert(self.w@[i as int].inv() && self.b@[i as int].inv());
            let mut wi = self.w[i].duplicate();
            wi.randomize(draw);
            self.w.set(i, wi);
            let mut bi = self.b[i].duplicate();
            bi.randomize(draw);
            self.b.set(i, bi);
            proof {
                assert forall|p: int| 0 <= p < self.w@.len() implies (#[trigger] self.w@[p]).inv() by {
                    assert(before.w@[p].inv());
                }
                assert forall|p: int| 0 <= p < self.b@.len() implies (#[trigger] self.b@[p]).inv() by {
                    assert(before.b@[p].inv());
                }
                assert forall|p: int| 1 <= p < self@.w.len() implies (#[trigger] self@.w[p]).rows.len()
                    == self@.w[p - 1].cols by {
                    assert(before@.w[p].rows.len() == before@.w[p - 1].cols);
                }
                assert forall|p: int| 0 <= p < self@.w.len() implies (#[trigger] self@.w[p]).wf()
                    && self@.b[p].wf() && self@.b[p].rows.len() == 1 && self@.b[p].cols
                    == self@.w[p].cols by {
                    assert(before@.w[p].wf());
                    assert(before@.w[p].same_shape(old(self)@.w[p]));
                    assert(before@.b[p].same_shape(old(self)@.b[p]));
                    self.w@[p].lemma_view_wf();
                    self.b@[p].lemma_view_wf();
                }
                assert forall|p: int| 0 <= p < self@.w.len() implies (#[trigger] self@.w[p]).same_shape(
                    old(self)@.w[p]) by {
                    assert(before@.w[p].same_shape(old(self)@.w[p]));
                }
                assert forall|p: int| 0 <= p < self@.b.len() implies (#[trigger] self@.b[p]).same_shape(
                    old(self)@.b[p]) by {
                    assert(before@.b[p].same_shape(old(self)@.b[p]));
                }
                assert forall|bias: bool, l: int, j: int, k: int|
                    0 <= l < i + 1 && 0 <= j < self@.part(bias, l).rows.len() && 0 <= k < self@.part(
                        bias,
                        l,
                    ).cols implies draw.ensures((), #[trigger] self@.part(bias, l).entry(j, k)) by {
                    if l < i {
                        assert(self@.part(bias, l) == before@.part(bias, l));
                    }
                }
            }
            i = i + 1;
        }
        proof {
            lemma_same_shape_symmetric(self@, old(self)@);
            lemma_same_shape_structure(old(self)@, self@);
        }
    }

    /// The layer widths of the network.
    pub fn structure(&self) -> (r: Vec<usize>)
        requires
            self.inv(),
        ensures
            r@ == self@.structure(),
    {
        let mut r: Vec<usize> = Vec::new();
        r.push(self.w[0].row_count());
        let mut i: usize = 0;
        while i < self.w.len()
            invariant
                self.inv(),
                i <= self.w@.len(),
                r@ == self@.structure().subrange(0, i + 1),
            decreases self.w@.len() - i,
        {
            r.push(self.w[i].col_count());
            i = i + 1;
            assert(r@ =~= self@.structure().subrange(0, i + 1));
        }
        assert(r@ =~= self@.structure());
        r
    }
}


/// The output of the network on one input vector: every layer in turn maps
/// the activations `a` to `act(a . w + b)`.
pub fn forward<
    T: Copy,
    M: Fn(T, T) -> T,
    A: Fn(T, T) -> T,
    S: Fn(T) -> T,
    E: Fn(T, T) -> T,
    D: Fn(T, usize) -> T,
>(m: &ModelParams<T>, inputs: &Vec<T>, ops: &Arith<T, M, A, S, E, D>) -> (r: Vec<T>)
    requires
        m.inv(),
        ops.wf(),
        inputs@.len() == m@.in_width(),
    ensures
        r@ == ops.output(m@, inputs@),
        r@.len() == m@.out_width(),
{
    let layers_count: usize = m.w.len();
    let mut a = Matrix::from_row(inputs);
    let mut i: usize = 0;
    while i < layers_count
        invariant
            m.inv(),
            ops.wf(),
            layers_count == m@.layers(),
            i <= layers_count,
            inputs@.len() == m@.in_width(),
            a.inv(),
            a@ == ops.activation(m@, inputs@, i as nat),
            a@.rows.len() == 1,
            a@.cols == if i == 0 {
                m@.in_width()
            } else {
                m@.w[i - 1].cols
            },
        decreases layers_count - i,
    {
        proof {
            assert(m.w@[i as int].inv());
            assert(m.b@[i as int].inv());
            assert(m@.w[i as int] == m.w@[i as int]@);
            assert(m@.b[i as int] == m.b@[i as int]@);
            assert(m@.w[i as int].wf());
            m.w@[i as int].lemma_shape_bounds();
            if i > 0 {
                assert(m@.w[i as int].rows.len() == m@.w[i - 1].cols);
            }
        }
        let p = a.dot(&m.w[i], ops.zero, &ops.mul, &ops.plus).unwrap();
        let q = p.add(&m.b[i], &ops.plus).unwrap();
        a = q.sigmoid(&ops.act);
        i = i + 1;
    }
    a.row(0)
}


/// The mean squared error of the network over a training set. Fails when the
/// set is empty, when there are not as many targets as inputs, or when an
/// input or a target has the wrong width.
pub fn cost<
    T: Copy,
    M: Fn(T, T) -> T,
    A: Fn(T, T) -> T,
    S: Fn(T) -> T,
    E: Fn(T, T) -> T,
    D: Fn(T, usize) -> T,
>(
    m: &ModelParams<T>,
    train_in: &Vec<Vec<T>>,
    train_out: &Vec<Vec<T>>,
    ops: &Arith<T, M, A, S, E, D>,
) -> (r: Option<T>)
    requires
        m.inv(),
        ops.wf(),
    ensures
        r is None <==> !m@.fits(rows_of(train_in@), rows_of(train_out@)),
        r matches Some(c) ==> c == ops.cost(m@, rows_of(train_in@), rows_of(train_out@)),
{
    let ghost ins = rows_of(train_in@);
    let ghost outs = rows_of(train_out@);
    let samples_count: usize = train_in.len();
    if samples_count == 0 || train_out.len() != samples_count {
        return None;
    }
    let in_width: usize = m.w[0].row_count();
    let out_width: usize = m.w[m.w.len() - 1].col_count();
    let mut i: usize = 0;
    while i < samples_count
        invariant
            m.inv(),
            samples_count == train_in@.len(),
            samples_count == train_out@.len(),
            ins == rows_of(train_in@),
            outs == rows_of(train_out@),
            in_width == m@.in_width(),
            out_width == m@.out_width(),
            i <= samples_count,
            forall|p: int| 0 <= p < i ==> (#[trigger] ins[p]).len() == in_width,
            forall|p: int| 0 <= p < i ==> (#[trigger] outs[p]).len() == out_width,
        decreases samples_count - i,
    {
        if train_in[i].len() != in_width || train_out[i].len() != out_width {
            proof {
                assert(ins[i as int].len() == train_in@[i as int]@.len());
                assert(outs[i as int].len() == train_out@[i as int]@.len());
            }
            return None;
        }
        i = i + 1;
    }
    let mut total: T = ops.zero;
    let mut i: usize = 0;
    while i < samples_count
        invariant
            m.inv(),
            ops.wf(),
            m@.fits(ins, outs),
            samples_count == train_in@.len(),
            samples_count == train_out@.len(),
            ins == rows_of(train_in@),
            outs == rows_of(train_out@),
            out_width == m@.out_width(),
            i <= samples_count,
            total == ops.total_err(m@, ins, outs, i as nat),
        decreases samples_count - i,
    {
        let x = &train_in[i];
        let y = &train_out[i];
        assert(x@ == ins[i as int]);
        assert(y@ == outs[i as int]);
        let guessed_y = forward(m, x, ops);
        let ghost start = total;
        let mut j: usize = 0;
        while j < out_width
            invariant
                ops.wf(),
                out_width == m@.out_width(),
                guessed_y@.len() == out_width,
                y@.len() == out_width,
                j <= out_width,
                total == ops.sample_err(start, guessed_y@, y@, j as nat),
            decreases out_width - j,
        {
            let e = call2(&ops.sq_err, guessed_y[j], y[j]);
            total = call2(&ops.plus, total, e);
            j = j + 1;
        }
        i = i + 1;
    }
    Some(call2(&ops.mean, total, samples_count))
}


/// The finite-difference estimates for every entry of one weight matrix
/// (`bias` false) or bias row (`bias` true), given the cost `c0` of `m`.
fn grad_part<
    T: Copy,
    M: Fn(T, T) -> T,
    A: Fn(T, T) -> T,
    S: Fn(T) -> T,
    E: Fn(T, T) -> T,
    D: Fn(T, usize) -> T,
    N: Fn(T) -> T,
    Q: Fn(T, T) -> T,
>(
    m: &ModelParams<T>,
    train_in: &Vec<Vec<T>>,
    train_out: &Vec<Vec<T>>,
    ops: &Arith<T, M, A, S, E, D>,
    nudge: &N,
    slope: &Q,
    bias: bool,
    l: usize,
    c0: T,
) -> (r: Matrix<T>)
    requires
        m.inv(),
        ops.wf(),
        is_fn1(*nudge),
        is_fn2(*slope),
        m@.fits(rows_of(train_in@), rows_of(train_out@)),
        c0 == ops.cost(m@, rows_of(train_in@), rows_of(train_out@)),
        l < m@.layers(),
    ensures
        r.inv(),
        r@ == ops.grad_part(m@, rows_of(train_in@), rows_of(train_out@), *nudge, *slope, bias, l as int),
{
    let ghost ins = rows_of(train_in@);
    let ghost outs = rows_of(train_out@);
    let ghost want = ops.grad_part(m@, ins, outs, *nudge, *slope, bias, l as int);
    assert(m.w@[l as int].inv() && m.b@[l as int].inv());
    let mut g = if bias {
        m.b[l].duplicate()
    } else {
        m.w[l].duplicate()
    };
    let rows: usize = g.row_count();
    let cols: usize = g.col_count();
    let mut j: usize = 0;
    while j < rows
        invariant
            m.inv(),
            ops.wf(),
            is_fn1(*nudge),
            is_fn2(*slope),
            m@.fits(ins, outs),
            ins == rows_of(train_in@),
            outs == rows_of(train_out@),
            c0 == ops.cost(m@, ins, outs),
            l < m@.layers(),
            want == ops.grad_part(m@, ins, outs, *nudge, *slope, bias, l as int),
            g.inv(),
            g@.same_shape(m@.part(bias, l as int)),
            rows == g@.rows.len(),
            cols == g@.cols,
            j <= rows,
            forall|p: int, q: int| 0 <= p < j && 0 <= q < cols ==> g@.entry(p, q) == want.entry(p, q),
        decreases rows - j,
    {
        let mut k: usize = 0;
        while k < cols
            invariant
                m.inv(),
                ops.wf(),
                is_fn1(*nudge),
                is_fn2(*slope),
                m@.fits(ins, outs),
                ins == rows_of(train_in@),
                outs == rows_of(train_out@),
                c0 == ops.cost(m@, ins, outs),
                l < m@.layers(),
                want == ops.grad_part(m@, ins, outs, *nudge, *slope, bias, l as int),
                g.inv(),
                g@.same_shape(m@.part(bias, l as int)),
                rows == g@.rows.len(),
                cols == g@.cols,
                j < rows,
                k <= cols,
                forall|p: int, q: int|
                    0 <= p < j && 0 <= q < cols ==> g@.entry(p, q) == want.entry(p, q),
                forall|q: int| 0 <= q < k ==> g@.entry(j as int, q) == want.entry(j as int, q),
            decreases cols - k,
        {
            let orig = m.param(bias, l, j, k);
            let mut probe = m.duplicate();
            probe.set_param(bias, l, j, k, call1(nudge, orig));
            proof {
                let mp = m@;
                let pp = probe@;
                assert(pp.w.len() == mp.w.len());
                assert(pp.w[0].rows.len() == mp.w[0].rows.len());
                assert(pp.w[pp.w.len() - 1].cols == mp.w[mp.w.len() - 1].cols);
                assert(pp.fits(ins, outs));
            }
            let c1 = cost(&probe, train_in, train_out, ops).unwrap();
            let v = call2(slope, c1, c0);
            assert(v == want.entry(j as int, k as int));
            proof {
                g.lemma_view_wf();
            }
            g.set(j, k, v);
            k = k + 1;
        }
        j = j + 1;
    }
    proof {
        g.lemma_view_wf();
        crate::matrix::lemma_model_ext(g@, want);
    }
    g
}

/// The finite-difference estimate of the gradient of the cost at `m`: for
/// every weight and bias in turn, the cost with that one parameter moved by
/// `nudge` (which adds a small step `eps`) is compared with the cost at `m` by
/// `slope` (which gives `(c1 - c0) / eps`). Fails exactly when `cost` does.
pub fn finite_diff<
    T: Copy,
    M: Fn(T, T) -> T,
    A: Fn(T, T) -> T,
    S: Fn(T) -> T,
    E: Fn(T, T) -> T,
    D: Fn(T, usize) -> T,
    N: Fn(T) -> T,
    Q: Fn(T, T) -> T,
>(
    m: &ModelParams<T>,
    train_in: &Vec<Vec<T>>,
    train_out: &Vec<Vec<T>>,
    ops: &Arith<T, M, A, S, E, D>,
    nudge: &N,
    slope: &Q,
) -> (r: Option<ModelParams<T>>)
    requires
        m.inv(),
        ops.wf(),
        is_fn1(*nudge),
        is_fn2(*slope),
    ensures
        r is None <==> !m@.fits(rows_of(train_in@), rows_of(train_out@)),
        r matches Some(g) ==> g.inv() && g@ == ops.gradient(
            m@,
            rows_of(train_in@),
            rows_of(train_out@),
            *nudge,
            *slope,
        ) && g@.same_shape(m@),
{
    let ghost ins = rows_of(train_in@);
    let ghost outs = rows_of(train_out@);
    let c = match cost(m, train_in, train_out, ops) {
        Some(c) => c,
        None => {
            return None;
        },
    };
    let ghost want = ops.gradient(m@, ins, outs, *nudge, *slope);
    let layers_count: usize = m.w.len();
    let mut w: Vec<Matrix<T>> = Vec::with_capacity(layers_count);
    let mut b: Vec<Matrix<T>> = Vec::with_capacity(layers_count);
    let mut l: usize = 0;
    while l < layers_count
        invariant
            m.inv(),
            ops.wf(),
            is_fn1(*nudge),
            is_fn2(*slope),
            m@.fits(ins, outs),
            ins == rows_of(train_in@),
            outs == rows_of(train_out@),
            c == ops.cost(m@, ins, outs),
            layers_count == m@.layers(),
            want == ops.gradient(m@, ins, outs, *nudge, *slope),
            l <= layers_count,
            w@.len() == l,
            b@.len() == l,
            forall|p: int| 0 <= p < l ==> (#[trigger] w@[p]).inv() && w@[p]@ == want.w[p],
            forall|p: int| 0 <= p < l ==> (#[trigger] b@[p]).inv() && b@[p]@ == want.b[p],
        decreases layers_count - l,
    {
        w.push(grad_part(m, train_in, train_out, ops, nudge, slope, false, l, c));
        b.push(grad_part(m, train_in, train_out, ops, nudge, slope, true, l, c));
        l = l + 1;
    }
    let g = ModelParams { w, b };
    proof {
        assert(g@.w =~= want.w);
        assert(g@.b =~= want.b);
        assert forall|i: int| 0 <= i < g@.w.len() implies (#[trigger] g@.w[i]).wf() && g@.b[i].wf() by {
            g.w@[i].lemma_view_wf();
            g.b@[i].lemma_view_wf();
        }
        assert forall|i: int| 0 <= i < m@.w.len() implies (#[trigger] m@.w[i]).same_shape(g@.w[i]) by {
            assert(m.w@[i].inv());
            m.w@[i].lemma_view_wf();
        }
        assert forall|i: int| 0 <= i < m@.b.len() implies (#[trigger] m@.b[i]).same_shape(g@.b[i]) by {
            assert(m.b@[i].inv());
        }
        lemma_wf_by_shape(m@, g@);
        lemma_same_shape_symmetric(m@, g@);
    }
    Some(g)
}

/// One step of gradient descent: every parameter `p`, with `g` the gradient
/// entry at the same place, becomes `step(p, g)` (that is, `p - rate * g`).
/// Neither argument is changed.
pub fn descend<T: Copy, U: Fn(T, T) -> T>(m: &ModelParams<T>, grad: &ModelParams<T>, step: &U) -> (r:
    ModelParams<T>)
    requires
        m.inv(),
        grad.inv(),
        m@.same_shape(grad@),
        is_fn2(*step),
    ensures
        r.inv(),
        r@ == m@.descended(grad@, *step),
        r@.same_shape(m@),
        r@.structure() == m@.structure(),
{
    let ghost want = m@.descended(grad@, *step);
    let layers_count: usize = m.w.len();
    let mut w: Vec<Matrix<T>> = Vec::with_capacity(layers_count);
    let mut b: Vec<Matrix<T>> = Vec::with_capacity(layers_count);
    let mut l: usize = 0;
    while l < layers_count
        invariant
            m.inv(),
            grad.inv(),
            m@.same_shape(grad@),
            is_fn2(*step),
            layers_count == m@.layers(),
            want == m@.descended(grad@, *step),
            l <= layers_count,
            w@.len() == l,
            b@.len() == l,
            forall|p: int| 0 <= p < l ==> (#[trigger] w@[p]).inv() && w@[p]@ == want.w[p],
            forall|p: int| 0 <= p < l ==> (#[trigger] b@[p]).inv() && b@[p]@ == want.b[p],
        decreases layers_count - l,
    {
        assert(m.w@[l as int].inv() && m.b@[l as int].inv());
        assert(grad.w@[l as int].inv() && grad.b@[l as int].inv());
        assert(m@.w[l as int].same_shape(grad@.w[l as int]));
        assert(m@.b[l as int].same_shape(grad@.b[l as int]));
        w.push(m.w[l].add(&grad.w[l], step).unwrap());
        b.push(m.b[l].add(&grad.b[l], step).unwrap());
        l = l + 1;
    }
    let r = ModelParams { w, b };
    proof {
        assert(r@.w =~= want.w);
        assert(r@.b =~= want.b);
        assert forall|i: int| 0 <= i < r@.w.len() implies (#[trigger] r@.w[i]).wf() && r@.b[i].wf() by {
            r.w@[i].lemma_view_wf();
            r.b@[i].lemma_view_wf();
        }
        assert forall|i: int| 0 <= i < m@.w.len() implies (#[trigger] m@.w[i]).same_shape(r@.w[i]) by {
            assert(m.w@[i].inv());
        }
        assert forall|i: int| 0 <= i < m@.b.len() implies (#[trigger] m@.b[i]).same_shape(r@.b[i]) by {
            assert(m.b@[i].inv());
        }
        lemma_wf_by_shape(m@, r@);
        lemma_same_shape_symmetric(m@, r@);
        lemma_same_shape_structure(r@, m@);
    }
    r
}


/// The activations after any number of layers form one row, as wide as the
/// last layer applied.
pub proof fn lemma_activation_shape<
    T,
    M: Fn(T, T) -> T,
    A: Fn(T, T) -> T,
    S: Fn(T) -> T,
    E: Fn(T, T) -> T,
    D: Fn(T, usize) -> T,
>(ops: Arith<T, M, A, S, E, D>, p: ParamsModel<T>, x: Seq<T>, n: nat)
    requires
        p.wf(),
        n <= p.layers(),
    ensures
        ops.activation(p, x, n).rows.len() == 1,
        n > 0 ==> ops.activation(p, x, n).cols == p.w[n - 1].cols,
        n == 0 ==> ops.activation(p, x, n).cols == x.len(),
    decreases n,
{
    if n > 0 {
        lemma_activation_shape(ops, p, x, (n - 1) as nat);
    }
}

/// Where every value of the activation satisfies `bounded` (for the logistic
/// function: lies strictly between 0 and 1), so does every coordinate of the
/// network's output, whatever the parameters and the input.
pub proof fn lemma_output_bounded<
    T,
    M: Fn(T, T) -> T,
    A: Fn(T, T) -> T,
    S: Fn(T) -> T,
    E: Fn(T, T) -> T,
    D: Fn(T, usize) -> T,
>(ops: Arith<T, M, A, S, E, D>, p: ParamsModel<T>, x: Seq<T>, bounded: spec_fn(T) -> bool)
    requires
        p.wf(),
        forall|v: T| #[trigger] bounded(ap1(ops.act, v)),
    ensures
        ops.output(p, x).len() == p.out_width(),
        forall|k: int| 0 <= k < p.out_width() ==> bounded(#[trigger] ops.output(p, x)[k]),
{
    let n = p.layers();
    lemma_activation_shape(ops, p, x, n);
    let prev = ops.activation(p, x, (n - 1) as nat);
    let pre = prev.product(p.w[n - 1], ops.zero, ops.mul, ops.plus).zip(p.b[n - 1], ops.plus);
    assert(ops.activation(p, x, n) == pre.map(ops.act));
    assert forall|k: int| 0 <= k < p.out_width() implies bounded(#[trigger] ops.output(p, x)[k]) by {
        assert(ops.output(p, x)[k] == ap1(ops.act, pre.entry(0, k)));
    }
}

proof fn lemma_sample_err_nonneg<
    T,
    M: Fn(T, T) -> T,
    A: Fn(T, T) -> T,
    S: Fn(T) -> T,
    E: Fn(T, T) -> T,
    D: Fn(T, usize) -> T,
>(ops: Arith<T, M, A, S, E, D>, acc: T, g: Seq<T>, y: Seq<T>, n: nat, nonneg: spec_fn(T) -> bool)
    requires
        nonneg(acc),
        forall|a: T, e: T| nonneg(a) && nonneg(e) ==> #[trigger] nonneg(ap2(ops.plus, a, e)),
        forall|u: T, v: T| #[trigger] nonneg(ap2(ops.sq_err, u, v)),
    ensures
        nonneg(ops.sample_err(acc, g, y, n)),
    decreases n,
{
    if n > 0 {
        lemma_sample_err_nonneg(ops, acc, g, y, (n - 1) as nat, nonneg);
        assert(nonneg(ap2(ops.sq_err, g[n - 1], y[n - 1])));
    }
}

proof fn lemma_total_err_nonneg<
    T,
    M: Fn(T, T) -> T,
    A: Fn(T, T) -> T,
    S: Fn(T) -> T,
    E: Fn(T, T) -> T,
    D: Fn(T, usize) -> T,
>(
    ops: Arith<T, M, A, S, E, D>,
    p: ParamsModel<T>,
    ins: Seq<Seq<T>>,
    outs: Seq<Seq<T>>,
    s: nat,
    nonneg: spec_fn(T) -> bool,
)
    requires
        nonneg(ops.zero),
        forall|a: T, e: T| nonneg(a) && nonneg(e) ==> #[trigger] nonneg(ap2(ops.plus, a, e)),
        forall|u: T, v: T| #[trigger] nonneg(ap2(ops.sq_err, u, v)),
    ensures
        nonneg(ops.total_err(p, ins, outs, s)),
    decreases s,
{
    if s > 0 {
        lemma_total_err_nonneg(ops, p, ins, outs, (s - 1) as nat, nonneg);
        lemma_sample_err_nonneg(
            ops,
            ops.total_err(p, ins, outs, (s - 1) as nat),
            ops.output(p, ins[s - 1]),
            outs[s - 1],
            p.out_width(),
            nonneg,
        );
    }
}

/// The cost is never negative: where zero is non-negative, squared errors are
/// non-negative, adding two non-negative values and dividing a non-negative
/// value by a count give non-negative values, so is the cost.
pub proof fn lemma_cost_nonneg<
    T,
    M: Fn(T, T) -> T,
    A: Fn(T, T) -> T,
    S: Fn(T) -> T,
    E: Fn(T, T) -> T,
    D: Fn(T, usize) -> T,
>(
    ops: Arith<T, M, A, S, E, D>,
    p: ParamsModel<T>,
    ins: Seq<Seq<T>>,
    outs: Seq<Seq<T>>,
    nonneg: spec_fn(T) -> bool,
)
    requires
        nonneg(ops.zero),
        forall|a: T, e: T| nonneg(a) && nonneg(e) ==> #[trigger] nonneg(ap2(ops.plus, a, e)),
        forall|u: T, v: T| #[trigger] nonneg(ap2(ops.sq_err, u, v)),
        forall|a: T, n: usize| nonneg(a) ==> #[trigger] nonneg(ap2(ops.mean, a, n)),
    ensures
        nonneg(ops.cost(p, ins, outs)),
{
    lemma_total_err_nonneg(ops, p, ins, outs, ins.len(), nonneg);
}


/// The facts about the error arithmetic under which a zero cost means an
/// exact fit: a sum of two non-negative values is zero exactly when both
/// are, a squared error is zero exactly when guess and target agree, and a
/// non-negative value divided by a positive count is zero exactly when the
/// value is.
pub open spec fn exact_zero<
    T,
    M: Fn(T, T) -> T,
    A: Fn(T, T) -> T,
    S: Fn(T) -> T,
    E: Fn(T, T) -> T,
    D: Fn(T, usize) -> T,
>(ops: Arith<T, M, A, S, E, D>, nonneg: spec_fn(T) -> bool) -> bool {
    &&& nonneg(ops.zero)
    &&& forall|a: T, e: T| nonneg(a) && nonneg(e) ==> #[trigger] nonneg(ap2(ops.plus, a, e))
    &&& forall|u: T, v: T| #[trigger] nonneg(ap2(ops.sq_err, u, v))
    &&& forall|a: T, n: usize| nonneg(a) ==> #[trigger] nonneg(ap2(ops.mean, a, n))
    &&& forall|a: T, e: T|
        nonneg(a) && nonneg(e) ==> (#[trigger] ap2(ops.plus, a, e) == ops.zero <==> a == ops.zero
            && e == ops.zero)
    &&& forall|u: T, v: T| #[trigger] ap2(ops.sq_err, u, v) == ops.zero <==> u == v
    &&& forall|a: T, n: usize|
        nonneg(a) && n > 0 ==> (#[trigger] ap2(ops.mean, a, n) == ops.zero <==> a == ops.zero)
}

proof fn lemma_sample_err_zero<
    T,
    M: Fn(T, T) -> T,
    A: Fn(T, T) -> T,
    S: Fn(T) -> T,
    E: Fn(T, T) -> T,
    D: Fn(T, usize) -> T,
>(ops: Arith<T, M, A, S, E, D>, acc: T, g: Seq<T>, y: Seq<T>, n: nat, nonneg: spec_fn(T) -> bool)
    requires
        exact_zero(ops, nonneg),
        nonneg(acc),
    ensures
        ops.sample_err(acc, g, y, n) == ops.zero <==> (acc == ops.zero && forall|k: int|
            0 <= k < n ==> g[k] == y[k]),
    decreases n,
{
    if n > 0 {
        lemma_sample_err_zero(ops, acc, g, y, (n - 1) as nat, nonneg);
        lemma_sample_err_nonneg(ops, acc, g, y, (n - 1) as nat, nonneg);
        let e = ap2(ops.sq_err, g[n - 1], y[n - 1]);
        assert(nonneg(e));
        assert(e == ops.zero <==> g[n - 1] == y[n - 1]);
        if ops.sample_err(acc, g, y, n) == ops.zero {
            assert forall|k: int| 0 <= k < n implies g[k] == y[k] by {
                if k < n - 1 {
                } else {
                    assert(k == n - 1);
                }
            }
        }
    }
}

proof fn lemma_total_err_zero<
    T,
    M: Fn(T, T) -> T,
    A: Fn(T, T) -> T,
    S: Fn(T) -> T,
    E: Fn(T, T) -> T,
    D: Fn(T, usize) -> T,
>(
    ops: Arith<T, M, A, S, E, D>,
    p: ParamsModel<T>,
    ins: Seq<Seq<T>>,
    outs: Seq<Seq<T>>,
    s: nat,
    nonneg: spec_fn(T) -> bool,
)
    requires
        exact_zero(ops, nonneg),
        p.wf(),
        p.fits(ins, outs),
        s <= ins.len(),
    ensures
        ops.total_err(p, ins, outs, s) == ops.zero <==> forall|i: int|
            0 <= i < s ==> #[trigger] ops.output(p, ins[i]) == outs[i],
    decreases s,
{
    if s > 0 {
        let i = s - 1;
        lemma_total_err_zero(ops, p, ins, outs, (s - 1) as nat, nonneg);
        lemma_total_err_nonneg(ops, p, ins, outs, (s - 1) as nat, nonneg);
        let g = ops.output(p, ins[i]);
        let prev = ops.total_err(p, ins, outs, (s - 1) as nat);
        lemma_sample_err_zero(ops, prev, g, outs[i], p.out_width(), nonneg);
        lemma_output_bounded(ops, p, ins[i], |v: T| true);
        assert(outs[i].len() == p.out_width());
        if forall|k: int| 0 <= k < p.out_width() ==> g[k] == outs[i][k] {
            assert(g =~= outs[i]);
        }
        if ops.total_err(p, ins, outs, s) == ops.zero {
            assert forall|q: int| 0 <= q < s implies #[trigger] ops.output(p, ins[q]) == outs[q] by {
                if q < s - 1 {
                } else {
                    assert(g =~= outs[i]);
                }
            }
        }
    }
}

/// On a training set that fits the network, the cost is zero exactly when
/// the network's output on every input equals its target, given arithmetic
/// under which errors are never negative and cancel only when zero.
pub proof fn lemma_cost_zero_iff_exact<
    T,
    M: Fn(T, T) -> T,
    A: Fn(T, T) -> T,
    S: Fn(T) -> T,
    E: Fn(T, T) -> T,
    D: Fn(T, usize) -> T,
>(
    ops: Arith<T, M, A, S, E, D>,
    p: ParamsModel<T>,
    ins: Seq<Seq<T>>,
    outs: Seq<Seq<T>>,
    nonneg: spec_fn(T) -> bool,
)
    requires
        exact_zero(ops, nonneg),
        p.wf(),
        p.fits(ins, outs),
        ins.len() <= usize::MAX,
    ensures
        ops.cost(p, ins, outs) == ops.zero <==> forall|i: int|
            0 <= i < ins.len() ==> #[trigger] ops.output(p, ins[i]) == outs[i],
{
    lemma_total_err_zero(ops, p, ins, outs, ins.len(), nonneg);
    lemma_total_err_nonneg(ops, p, ins, outs, ins.len(), nonneg);
}


impl<
    T,
    M: Fn(T, T) -> T,
    A: Fn(T, T) -> T,
    S: Fn(T) -> T,
    E: Fn(T, T) -> T,
    D: Fn(T, usize) -> T,
> Arith<T, M, A, S, E, D> {
    /// The parameters after `n` full-batch steps of gradient descent from
    /// `p`, each step estimating the gradient by `gradient` and applying it
    /// by `descended`.
    pub open spec fn trained<N: Fn(T) -> T, Q: Fn(T, T) -> T, U: Fn(T, T) -> T>(
        self,
        p: ParamsModel<T>,
        ins: Seq<Seq<T>>,
        outs: Seq<Seq<T>>,
        nudge: N,
        slope: Q,
        step: U,
        n: nat,
    ) -> ParamsModel<T>
        decreases n,
    {
        if n == 0 {
            p
        } else {
            let q = self.trained(p, ins, outs, nudge, slope, step, (n - 1) as nat);
            q.descended(self.gradient(q, ins, outs, nudge, slope), step)
        }
    }
}

/// Trains the network for exactly `iterations` full-batch steps, with no
/// early exit. Each step evaluates the cost, estimates the gradient by
/// `finite_diff` and applies it by `descend`, in that order. Returns the
/// trained parameters and the cost measured at each step. Fails exactly when
/// the training set does not fit the network.
pub fn train<
    T: Copy,
    M: Fn(T, T) -> T,
    A: Fn(T, T) -> T,
    S: Fn(T) -> T,
    E: Fn(T, T) -> T,
    D: Fn(T, usize) -> T,
    N: Fn(T) -> T,
    Q: Fn(T, T) -> T,
    U: Fn(T, T) -> T,
>(
    m: &ModelParams<T>,
    train_in: &Vec<Vec<T>>,
    train_out: &Vec<Vec<T>>,
    ops: &Arith<T, M, A, S, E, D>,
    nudge: &N,
    slope: &Q,
    step: &U,
    iterations: usize,
) -> (r: Option<(ModelParams<T>, Vec<T>)>)
    requires
        m.inv(),
        ops.wf(),
        is_fn1(*nudge),
        is_fn2(*slope),
        is_fn2(*step),
    ensures
        r is None <==> !m@.fits(rows_of(train_in@), rows_of(train_out@)),
        r matches Some((p, costs)) ==> {
            let ins = rows_of(train_in@);
            let outs = rows_of(train_out@);
            &&& p.inv()
            &&& p@ == ops.trained(m@, ins, outs, *nudge, *slope, *step, iterations as nat)
            &&& p@.structure() == m@.structure()
            &&& costs@.len() == iterations
            &&& forall|i: int|
                0 <= i < iterations ==> #[trigger] costs@[i] == ops.cost(
                    ops.trained(m@, ins, outs, *nudge, *slope, *step, i as nat),
                    ins,
                    outs,
                )
        },
{
    let ghost ins = rows_of(train_in@);
    let ghost outs = rows_of(train_out@);
    let ghost fits = m@.fits(ins, outs);
    if cost(m, train_in, train_out, ops).is_none() {
        return None;
    }
    let mut p = m.duplicate();
    let mut costs: Vec<T> = Vec::with_capacity(iterations);
    let mut i: usize = 0;
    while i < iterations
        invariant
            m.inv(),
            ops.wf(),
            is_fn1(*nudge),
            is_fn2(*slope),
            is_fn2(*step),
            ins == rows_of(train_in@),
            outs == rows_of(train_out@),
            fits == m@.fits(ins, outs),
            fits,
            p.inv(),
            p@ == ops.trained(m@, ins, outs, *nudge, *slope, *step, i as nat),
            p@.fits(ins, outs),
            p@.structure() == m@.structure(),
            i <= iterations,
            costs@.len() == i,
            forall|q: int|
                0 <= q < i ==> #[trigger] costs@[q] == ops.cost(
                    ops.trained(m@, ins, outs, *nudge, *slope, *step, q as nat),
                    ins,
                    outs,
                ),
        decreases iterations - i,
    {
        let c = cost(&p, train_in, train_out, ops).unwrap();
        costs.push(c);
        let grad = finite_diff(&p, train_in, train_out, ops, nudge, slope).unwrap();
        proof {
            lemma_same_shape_symmetric(grad@, p@);
        }
        let next = descend(&p, &grad, step);
        proof {
            lemma_same_shape_structure(p@, next@);
        }
        p = next;
        i = i + 1;
    }
    Some((p, costs))
}

} // verus!
