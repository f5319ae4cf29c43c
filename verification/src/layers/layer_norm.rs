//! Layer normalisation.

use vstd::prelude::*;

use crate::layers::gradients::{
    is_layer_norm, is_norm_gradient, law_layer_gradients, law_layer_norm, layer_out, takes_rows,
};
use crate::matrix::{covers, grid, has_shape, shorter};
use crate::numbers::{one, sum, total, zero, Arithmetic, Term};
use crate::param::Param;
use crate::reals::{exact, Reals};
use crate::rows::{make_row, uniform_row};

verus! {

/// Brings every row to mean zero and deviation one, then scales and shifts it.
pub struct LayerNorm<T> {
    /// The scale, one row.
    pub gamma: Param<T>,
    /// The shift, one row.
    pub beta: Param<T>,
    /// Keeps the deviation away from zero.
    pub eps: T,
    /// The normalised rows of the last forward pass.
    pub cache_x_hat: Vec<Vec<T>>,
    /// The deviation of each of these rows.
    pub cache_std: Vec<T>,
    /// The gradient of the scale.
    pub d_gamma: Vec<T>,
    /// The gradient of the shift.
    pub d_beta: Vec<T>,
}

/// The mean of a row.
pub open spec fn mean<N: Arithmetic>(n: &N, row: Seq<N::Num>) -> N::Num {
    n.value(Term::Div(total(n, row), n.value(Term::Count(row.len() as usize))))
}

/// The squared distances of a row to its mean.
pub open spec fn squared_distances<N: Arithmetic>(n: &N, row: Seq<N::Num>) -> Seq<N::Num> {
    row.map_values(|v: N::Num| n.value(Term::PowInt(n.value(Term::Sub(v, mean(n, row))), 2)))
}

/// The deviation of a row, kept away from zero.
pub open spec fn deviation<N: Arithmetic>(n: &N, eps: N::Num, row: Seq<N::Num>) -> N::Num {
    n.value(Term::Sqrt(n.value(Term::Add(mean(n, squared_distances(n, row)), eps))))
}

/// A row with mean zero and deviation one.
pub open spec fn normalised<N: Arithmetic>(n: &N, eps: N::Num, row: Seq<N::Num>) -> Seq<N::Num> {
    row.map_values(
        |v: N::Num| n.value(Term::Div(n.value(Term::Sub(v, mean(n, row))), deviation(n, eps, row))),
    )
}

/// A row scaled and shifted, as far as scale and shift go.
pub open spec fn scaled<N: Arithmetic>(n: &N, gamma: Seq<N::Num>, beta: Seq<N::Num>, x_hat: Seq<N::Num>) -> Seq<N::Num> {
    Seq::new(
        shorter(shorter(x_hat.len(), gamma.len()), beta.len()),
        |j: int| n.value(Term::Add(n.value(Term::Mul(gamma[j], x_hat[j])), beta[j])),
    )
}

fn normalise_row<N: Arithmetic>(n: &N, eps: N::Num, row: &Vec<N::Num>) -> (r: (Vec<N::Num>, N::Num))
    requires
        n.wf(),
    ensures
        r.0@ == normalised(n, eps, row@),
        r.1 == deviation(n, eps, row@),
{
    let count = n.eval(Term::Count(row.len()));
    let centre = n.eval(Term::Div(sum(n, row), count));
    let mut squares: Vec<N::Num> = Vec::new();
    let mut j: usize = 0;
    while j < row.len()
        invariant
            n.wf(),
            centre == mean(n, row@),
            j <= row@.len(),
            squares@ == squared_distances(n, row@).take(j as int),
        decreases row@.len() - j,
    {
        squares.push(n.eval(Term::PowInt(n.eval(Term::Sub(row[j], centre)), 2)));
        j += 1;
        assert(squares@ =~= squared_distances(n, row@).take(j as int));
    }
    assert(squares@ =~= squared_distances(n, row@));
    let variance = n.eval(Term::Div(sum(n, &squares), count));
    let std_dev = n.eval(Term::Sqrt(n.eval(Term::Add(variance, eps))));
    let mut x_hat: Vec<N::Num> = Vec::new();
    let mut k: usize = 0;
    while k < row.len()
        invariant
            n.wf(),
            centre == mean(n, row@),
            std_dev == deviation(n, eps, row@),
            k <= row@.len(),
            x_hat@ == normalised(n, eps, row@).take(k as int),
        decreases row@.len() - k,
    {
        x_hat.push(n.eval(Term::Div(n.eval(Term::Sub(row[k], centre)), std_dev)));
        k += 1;
        assert(x_hat@ =~= normalised(n, eps, row@).take(k as int));
    }
    assert(x_hat@ =~= normalised(n, eps, row@));
    (x_hat, std_dev)
}

fn scale_row<N: Arithmetic>(n: &N, gamma: &Vec<N::Num>, beta: &Vec<N::Num>, x_hat: &Vec<N::Num>) -> (r: Vec<N::Num>)
    requires
        n.wf(),
    ensures
        r@ == scaled(n, gamma@, beta@, x_hat@),
{
    let ghost goal = scaled(n, gamma@, beta@, x_hat@);
    let mut out: Vec<N::Num> = Vec::new();
    let mut j: usize = 0;
    while j < x_hat.len() && j < gamma.len() && j < beta.len()
        invariant
            n.wf(),
            goal == scaled(n, gamma@, beta@, x_hat@),
            j <= x_hat@.len(),
            j <= gamma@.len(),
            j <= beta@.len(),
            out@ == goal.take(j as int),
        decreases x_hat@.len() - j,
    {
        out.push(n.eval(Term::Add(n.eval(Term::Mul(gamma[j], x_hat[j])), beta[j])));
        j += 1;
        assert(out@ =~= goal.take(j as int));
    }
    assert(goal.take(j as int) =~= goal);
    out
}

/// The products of two rows, as far as both go.
pub open spec fn products<N: Arithmetic>(n: &N, a: Seq<N::Num>, b: Seq<N::Num>) -> Seq<N::Num> {
    Seq::new(shorter(a.len(), b.len()), |j: int| n.value(Term::Mul(a[j], b[j])))
}

fn multiply_rows<N: Arithmetic>(n: &N, a: &Vec<N::Num>, b: &Vec<N::Num>) -> (r: Vec<N::Num>)
    requires
        n.wf(),
    ensures
        r@ == products(n, a@, b@),
{
    let ghost goal = products(n, a@, b@);
    let mut out: Vec<N::Num> = Vec::new();
    let mut j: usize = 0;
    while j < a.len() && j < b.len()
        invariant
            n.wf(),
            goal == products(n, a@, b@),
            j <= a@.len(),
            j <= b@.len(),
            out@ == goal.take(j as int),
        decreases a@.len() - j,
    {
        out.push(n.eval(Term::Mul(a[j], b[j])));
        j += 1;
        assert(out@ =~= goal.take(j as int));
    }
    assert(goal.take(j as int) =~= goal);
    out
}

/// The gradient of the scale at place `j` after `k` rows.
pub open spec fn gamma_gradient<N: Arithmetic>(
    n: &N,
    d_out: Seq<Seq<N::Num>>,
    x_hat: Seq<Seq<N::Num>>,
    j: int,
    k: nat,
) -> N::Num
    decreases k,
{
    if k == 0 {
        zero(n)
    } else {
        n.value(
            Term::Add(
                gamma_gradient(n, d_out, x_hat, j, (k - 1) as nat),
                n.value(Term::Mul(d_out[k - 1][j], x_hat[k - 1][j])),
            ),
        )
    }
}

/// The gradient of the shift at place `j` after `k` rows.
pub open spec fn beta_gradient<N: Arithmetic>(n: &N, d_out: Seq<Seq<N::Num>>, j: int, k: nat) -> N::Num
    decreases k,
{
    if k == 0 {
        zero(n)
    } else {
        n.value(Term::Add(beta_gradient(n, d_out, j, (k - 1) as nat), d_out[k - 1][j]))
    }
}

/// The gradient of one input row.
pub open spec fn row_gradient<N: Arithmetic>(
    n: &N,
    gamma: Seq<N::Num>,
    x_hat: Seq<N::Num>,
    std_dev: N::Num,
    d_row: Seq<N::Num>,
) -> Seq<N::Num> {
    let count = n.value(Term::Count(gamma.len() as usize));
    let d_x_hat = products(n, d_row.take(gamma.len() as int), gamma);
    let plain = n.value(Term::Div(total(n, d_x_hat), count));
    let weighted = total(n, products(n, d_x_hat, x_hat));
    let inverse = n.value(Term::Div(one(n), std_dev));
    Seq::new(
        gamma.len(),
        |j: int|
            n.value(
                Term::Mul(
                    inverse,
                    n.value(
                        Term::Sub(
                            n.value(Term::Sub(d_x_hat[j], plain)),
                            n.value(Term::Div(n.value(Term::Mul(x_hat[j], weighted)), count)),
                        ),
                    ),
                ),
            ),
    )
}

fn row_backward<N: Arithmetic>(
    n: &N,
    gamma: &Vec<N::Num>,
    x_hat: &Vec<N::Num>,
    std_dev: N::Num,
    d_row: &Vec<N::Num>,
) -> (r: Vec<N::Num>)
    requires
        n.wf(),
        d_row@.len() >= gamma@.len(),
        x_hat@.len() >= gamma@.len(),
    ensures
        r@ == row_gradient(n, gamma@, x_hat@, std_dev, d_row@),
{
    let count = n.eval(Term::Count(gamma.len()));
    let d_x_hat = multiply_rows(n, d_row, gamma);
    assert(d_x_hat@ =~= products(n, d_row@.take(gamma@.len() as int), gamma@));
    let plain = n.eval(Term::Div(sum(n, &d_x_hat), count));
    let weighted = sum(n, &multiply_rows(n, &d_x_hat, x_hat));
    let inverse = n.eval(Term::Div(n.eval(Term::Decimal(1, 0)), std_dev));
    let ghost goal = row_gradient(n, gamma@, x_hat@, std_dev, d_row@);
    let mut out: Vec<N::Num> = Vec::new();
    let mut j: usize = 0;
    while j < gamma.len()
        invariant
            n.wf(),
            goal == row_gradient(n, gamma@, x_hat@, std_dev, d_row@),
            count == n.value(Term::Count(gamma@.len() as usize)),
            d_x_hat@ == products(n, d_row@.take(gamma@.len() as int), gamma@),
            d_x_hat@.len() == gamma@.len(),
            x_hat@.len() >= gamma@.len(),
            plain == n.value(Term::Div(total(n, d_x_hat@), count)),
            weighted == total(n, products(n, d_x_hat@, x_hat@)),
            inverse == n.value(Term::Div(one(n), std_dev)),
            j <= gamma@.len(),
            out@ == goal.take(j as int),
        decreases gamma@.len() - j,
    {
        let first = n.eval(Term::Sub(d_x_hat[j], plain));
        let second = n.eval(Term::Div(n.eval(Term::Mul(x_hat[j], weighted)), count));
        out.push(n.eval(Term::Mul(inverse, n.eval(Term::Sub(first, second)))));
        j += 1;
        assert(out@ =~= goal.take(j as int));
    }
    assert(goal.take(j as int) =~= goal);
    out
}

impl<T: Copy> LayerNorm<T> {
    /// There is a row of scales and a row of shifts.
    pub open spec fn wf(&self) -> bool {
        self.gamma.data@.len() > 0 && self.beta.data@.len() > 0
    }

    /// A normalisation for rows of `d_model` elements: scale one, shift zero, epsilon 1e-5.
    pub fn new<N: Arithmetic<Num = T>>(n: &N, d_model: usize) -> (r: Self)
        requires
            n.wf(),
        ensures
            r.wf(),
            grid(r.gamma.data@) == seq![uniform_row(one(n), d_model as nat)],
            grid(r.gamma.grad@) == seq![uniform_row(zero(n), d_model as nat)],
            grid(r.beta.data@) == seq![uniform_row(zero(n), d_model as nat)],
            grid(r.beta.grad@) == seq![uniform_row(zero(n), d_model as nat)],
            r.eps == n.value(Term::Decimal(1, 5)),
            r.cache_x_hat@.len() == 0,
            r.cache_std@.len() == 0,
            r.d_gamma@ == uniform_row(zero(n), d_model as nat),
            r.d_beta@ == uniform_row(zero(n), d_model as nat),
    {
        let unit = n.eval(Term::Decimal(1, 0));
        let nothing = n.eval(Term::Decimal(0, 0));
        let mut scales: Vec<Vec<T>> = Vec::new();
        scales.push(make_row(unit, d_model));
        let mut shifts: Vec<Vec<T>> = Vec::new();
        shifts.push(make_row(nothing, d_model));
        let r = LayerNorm {
            gamma: Param::new(n, scales),
            beta: Param::new(n, shifts),
            eps: n.eval(Term::Decimal(1, 5)),
            cache_x_hat: Vec::new(),
            cache_std: Vec::new(),
            d_gamma: make_row(nothing, d_model),
            d_beta: make_row(nothing, d_model),
        };
        assert(grid(r.gamma.data@)[0] =~= uniform_row(one(n), d_model as nat));
        assert(grid(r.gamma.data@) =~= seq![uniform_row(one(n), d_model as nat)]);
        assert(grid(r.beta.data@)[0] =~= uniform_row(zero(n), d_model as nat));
        assert(grid(r.beta.data@) =~= seq![uniform_row(zero(n), d_model as nat)]);
        assert(grid(r.gamma.grad@)[0] =~= uniform_row(zero(n), d_model as nat));
        assert(grid(r.gamma.grad@) =~= seq![uniform_row(zero(n), d_model as nat)]);
        assert(grid(r.beta.grad@)[0] =~= uniform_row(zero(n), d_model as nat));
        assert(grid(r.beta.grad@) =~= seq![uniform_row(zero(n), d_model as nat)]);
        assert(r.d_gamma@ =~= uniform_row(zero(n), d_model as nat));
        assert(r.d_beta@ =~= uniform_row(zero(n), d_model as nat));
        r
    }

    /// Normalises, scales and shifts every row, and remembers the normalised rows.
    pub fn forward<N: Arithmetic<Num = T>>(&mut self, n: &N, x: &Vec<Vec<T>>) -> (r: Vec<Vec<T>>)
        requires
            n.wf(),
            old(self).wf(),
        ensures
            final(self).gamma == old(self).gamma,
            final(self).beta == old(self).beta,
            final(self).eps == old(self).eps,
            final(self).d_gamma == old(self).d_gamma,
            final(self).d_beta == old(self).d_beta,
            grid(final(self).cache_x_hat@) == grid(x@).map_values(
                |row: Seq<T>| normalised(n, old(self).eps, row),
            ),
            final(self).cache_std@ == grid(x@).map_values(|row: Seq<T>| deviation(n, old(self).eps, row)),
            grid(r@) == grid(x@).map_values(
                |row: Seq<T>|
                    scaled(
                        n,
                        old(self).gamma.data@[0]@,
                        old(self).beta.data@[0]@,
                        normalised(n, old(self).eps, row),
                    ),
            ),
            forall|q: Reals<T>|
                #![trigger exact(n, q)]
                exact(n, q) && takes_rows(
                    q,
                    old(self).eps,
                    old(self).gamma.data@[0]@,
                    old(self).beta.data@[0]@,
                    grid(x@),
                ) ==> is_layer_norm(
                    q,
                    q.at(old(self).eps),
                    old(self).gamma.data@[0]@,
                    old(self).beta.data@[0]@,
                    grid(x@),
                    grid(r@),
                ),
    {
        let ghost eps = self.eps;
        let ghost gamma = self.gamma.data@[0]@;
        let ghost beta = self.beta.data@[0]@;
        let ghost hats = grid(x@).map_values(|row: Seq<T>| normalised(n, eps, row));
        let ghost stds = grid(x@).map_values(|row: Seq<T>| deviation(n, eps, row));
        let ghost goal = grid(x@).map_values(|row: Seq<T>| scaled(n, gamma, beta, normalised(n, eps, row)));
        let mut x_hats: Vec<Vec<T>> = Vec::new();
        let mut std_devs: Vec<T> = Vec::new();
        let mut out: Vec<Vec<T>> = Vec::new();
        let mut i: usize = 0;
        while i < x.len()
            invariant
                n.wf(),
                self.wf(),
                *self == *old(self),
                eps == self.eps,
                gamma == self.gamma.data@[0]@,
                beta == self.beta.data@[0]@,
                hats == grid(x@).map_values(|row: Seq<T>| normalised(n, eps, row)),
                stds == grid(x@).map_values(|row: Seq<T>| deviation(n, eps, row)),
                goal == grid(x@).map_values(|row: Seq<T>| scaled(n, gamma, beta, normalised(n, eps, row))),
                i <= x@.len(),
                grid(x_hats@) == hats.take(i as int),
                std_devs@ == stds.take(i as int),
                grid(out@) == goal.take(i as int),
            decreases x@.len() - i,
        {
            let ghost hats_before = grid(x_hats@);
            let ghost out_before = grid(out@);
            let (x_hat, std_dev) = normalise_row(n, self.eps, &x[i]);
            let row = scale_row(n, &self.gamma.data[0], &self.beta.data[0], &x_hat);
            x_hats.push(x_hat);
            std_devs.push(std_dev);
            out.push(row);
            assert(grid(x_hats@) =~= hats_before.push(x_hat@));
            assert(grid(out@) =~= out_before.push(row@));
            i += 1;
            assert(grid(x_hats@) =~= hats.take(i as int));
            assert(std_devs@ =~= stds.take(i as int));
            assert(grid(out@) =~= goal.take(i as int));
        }
        self.cache_x_hat = x_hats;
        self.cache_std = std_devs;
        assert(grid(self.cache_x_hat@) =~= hats);
        assert(self.cache_std@ =~= stds);
        assert(grid(out@) =~= goal);
        proof {
            assert(self.gamma.data[0].len() == gamma.len());
            assert forall|q: Reals<T>|
                #![trigger exact(n, q)]
                exact(n, q) && takes_rows(q, eps, gamma, beta, grid(x@)) implies is_layer_norm(
                q,
                q.at(eps),
                gamma,
                beta,
                grid(x@),
                grid(out@),
            ) by {
                law_layer_norm(n, q, eps, gamma, beta, grid(x@));
                assert(layer_out(n, eps, gamma, beta, grid(x@)) =~= goal);
            }
        }
        out
    }

    /// Whether the backward pass can be run for gradients of this shape.
    pub open spec fn backward_fits(&self, d_out: Seq<Seq<T>>) -> bool {
        let width = self.gamma.data@[0]@.len();
        &&& self.wf()
        &&& self.d_gamma@.len() >= width
        &&& self.d_beta@.len() >= width
        &&& self.cache_std@.len() >= d_out.len()
        &&& self.cache_x_hat@.len() >= d_out.len()
        &&& covers(d_out, d_out.len(), width)
        &&& covers(grid(self.cache_x_hat@), d_out.len(), width)
    }

    /// Whether the last forward pass was one of `x`, and `x` and the gradient to come are matrices of
    /// real numbers.
    pub open spec fn came_from<N: Arithmetic<Num = T>>(
        &self,
        n: &N,
        r: Reals<T>,
        x: Seq<Seq<T>>,
        d_out: Seq<Seq<T>>,
    ) -> bool {
        let width = self.gamma.data@[0]@.len();
        &&& takes_rows(r, self.eps, self.gamma.data@[0]@, self.beta.data@[0]@, x)
        &&& has_shape(d_out, x.len(), width)
        &&& r.grid(d_out)
        &&& grid(self.cache_x_hat@) == x.map_values(|row: Seq<T>| normalised(n, self.eps, row))
        &&& self.cache_std@ == x.map_values(|row: Seq<T>| deviation(n, self.eps, row))
    }

    /// Sets the gradients of scale and shift, and gives the gradient of the input.
    pub fn backward<N: Arithmetic<Num = T>>(&mut self, n: &N, d_out: &Vec<Vec<T>>) -> (r: Vec<Vec<T>>)
        requires
            n.wf(),
            old(self).backward_fits(grid(d_out@)),
        ensures
            final(self).gamma == old(self).gamma,
            final(self).beta == old(self).beta,
            final(self).eps == old(self).eps,
            final(self).cache_x_hat == old(self).cache_x_hat,
            final(self).cache_std == old(self).cache_std,
            ({
                let gamma = old(self).gamma.data@[0]@;
                let hats = grid(old(self).cache_x_hat@);
                let d = grid(d_out@);
                &&& final(self).d_gamma@ == Seq::new(
                    old(self).d_gamma@.len(),
                    |j: int|
                        if j < gamma.len() {
                            gamma_gradient(n, d, hats, j, d.len())
                        } else {
                            old(self).d_gamma@[j]
                        },
                )
                &&& final(self).d_beta@ == Seq::new(
                    old(self).d_beta@.len(),
                    |j: int|
                        if j < gamma.len() {
                            beta_gradient(n, d, j, d.len())
                        } else {
                            old(self).d_beta@[j]
                        },
                )
                &&& grid(r@) == Seq::new(
                    d.len(),
                    |i: int| row_gradient(n, gamma, hats[i], old(self).cache_std@[i], d[i]),
                )
            }),
            forall|q: Reals<T>, x: Seq<Seq<T>>|
                exact(n, q) && #[trigger] old(self).came_from(n, q, x, grid(d_out@)) ==> is_norm_gradient(
                    n,
                    q,
                    old(self).eps,
                    old(self).gamma.data@[0]@,
                    old(self).beta.data@[0]@,
                    x,
                    grid(d_out@),
                    grid(r@),
                    final(self).d_gamma@,
                    final(self).d_beta@,
                ),
    {
        let ghost gamma = self.gamma.data@[0]@;
        let ghost hats = grid(self.cache_x_hat@);
        let ghost d = grid(d_out@);
        let ghost goal = Seq::new(d.len(), |i: int| row_gradient(n, gamma, hats[i], old(self).cache_std@[i], d[i]));
        let width: usize = self.gamma.data[0].len();
        let nothing = n.eval(Term::Decimal(0, 0));
        let mut j: usize = 0;
        while j < width
            invariant
                j <= width,
                width == gamma.len(),
                nothing == zero(n),
                old(self).backward_fits(d),
                gamma == old(self).gamma.data@[0]@,
                self.gamma == old(self).gamma,
                self.beta == old(self).beta,
                self.eps == old(self).eps,
                self.cache_x_hat == old(self).cache_x_hat,
                self.cache_std == old(self).cache_std,
                self.d_gamma@.len() == old(self).d_gamma@.len(),
                self.d_beta@.len() == old(self).d_beta@.len(),
                forall|k: int| 0 <= k < j ==> #[trigger] self.d_gamma@[k] == zero(n),
                forall|k: int| 0 <= k < j ==> #[trigger] self.d_beta@[k] == zero(n),
                forall|k: int| j <= k < self.d_gamma@.len() ==> #[trigger] self.d_gamma@[k] == old(self).d_gamma@[k],
                forall|k: int| j <= k < self.d_beta@.len() ==> #[trigger] self.d_beta@[k] == old(self).d_beta@[k],
            decreases width - j,
        {
            self.d_gamma[j] = nothing;
            self.d_beta[j] = nothing;
            j += 1;
        }
        let mut d_x: Vec<Vec<T>> = Vec::new();
        let mut i: usize = 0;
        while i < d_out.len()
            invariant
                n.wf(),
                i <= d_out@.len(),
                d == grid(d_out@),
                hats == grid(old(self).cache_x_hat@),
                gamma == old(self).gamma.data@[0]@,
                width == gamma.len(),
                goal == Seq::new(d.len(), |i: int| row_gradient(n, gamma, hats[i], old(self).cache_std@[i], d[i])),
                old(self).backward_fits(d),
                self.gamma == old(self).gamma,
                self.beta == old(self).beta,
                self.eps == old(self).eps,
                self.cache_x_hat == old(self).cache_x_hat,
                self.cache_std == old(self).cache_std,
                self.d_gamma@.len() == old(self).d_gamma@.len(),
                self.d_beta@.len() == old(self).d_beta@.len(),
                forall|k: int| 0 <= k < width ==> #[trigger] self.d_gamma@[k] == gamma_gradient(n, d, hats, k, i as nat),
                forall|k: int| 0 <= k < width ==> #[trigger] self.d_beta@[k] == beta_gradient(n, d, k, i as nat),
                forall|k: int| width <= k < self.d_gamma@.len() ==> #[trigger] self.d_gamma@[k] == old(self).d_gamma@[k],
                forall|k: int| width <= k < self.d_beta@.len() ==> #[trigger] self.d_beta@[k] == old(self).d_beta@[k],
                grid(d_x@) == goal.take(i as int),
            decreases d_out@.len() - i,
        {
            assert(d[i as int].len() >= width && hats[i as int].len() >= width);
            assert(d[i as int] == d_out@[i as int]@ && hats[i as int] == self.cache_x_hat@[i as int]@);
            let mut q: usize = 0;
            while q < width
                invariant
                    n.wf(),
                    i < d_out@.len(),
                    i < self.cache_x_hat@.len(),
                    q <= width,
                    d == grid(d_out@),
                    hats == grid(old(self).cache_x_hat@),
                    width == gamma.len(),
                    d[i as int].len() >= width,
                    hats[i as int].len() >= width,
                    d[i as int] == d_out@[i as int]@,
                    hats[i as int] == self.cache_x_hat@[i as int]@,
                    old(self).backward_fits(d),
                    gamma == old(self).gamma.data@[0]@,
                    self.gamma == old(self).gamma,
                    self.beta == old(self).beta,
                    self.eps == old(self).eps,
                    self.cache_x_hat == old(self).cache_x_hat,
                    self.cache_std == old(self).cache_std,
                    self.d_gamma@.len() == old(self).d_gamma@.len(),
                    self.d_beta@.len() == old(self).d_beta@.len(),
                    forall|k: int|
                        0 <= k < q ==> #[trigger] self.d_gamma@[k] == gamma_gradient(n, d, hats, k, (i + 1) as nat),
                    forall|k: int| 0 <= k < q ==> #[trigger] self.d_beta@[k] == beta_gradient(n, d, k, (i + 1) as nat),
                    forall|k: int|
                        q <= k < width ==> #[trigger] self.d_gamma@[k] == gamma_gradient(n, d, hats, k, i as nat),
                    forall|k: int| q <= k < width ==> #[trigger] self.d_beta@[k] == beta_gradient(n, d, k, i as nat),
                    forall|k: int|
                        width <= k < self.d_gamma@.len() ==> #[trigger] self.d_gamma@[k] == old(self).d_gamma@[k],
                    forall|k: int|
                        width <= k < self.d_beta@.len() ==> #[trigger] self.d_beta@[k] == old(self).d_beta@[k],
                decreases width - q,
            {
                let g = d_out[i][q];
                let at = self.d_gamma[q];
                let change = n.eval(Term::Mul(g, self.cache_x_hat[i][q]));
                self.d_gamma[q] = n.eval(Term::Add(at, change));
                let bt = self.d_beta[q];
                self.d_beta[q] = n.eval(Term::Add(bt, g));
                q += 1;
            }
            let row = row_backward(n, &self.gamma.data[0], &self.cache_x_hat[i], self.cache_std[i], &d_out[i]);
            let ghost before = grid(d_x@);
            d_x.push(row);
            assert(grid(d_x@) =~= before.push(row@));
            i += 1;
            assert(grid(d_x@) =~= goal.take(i as int));
        }
        assert(grid(d_x@) =~= goal);
        proof {
            assert(self.gamma.data[0].len() == gamma.len());
            assert forall|q: Reals<T>, x: Seq<Seq<T>>|
                exact(n, q) && #[trigger] old(self).came_from(n, q, x, d) implies is_norm_gradient(
                n,
                q,
                old(self).eps,
                gamma,
                old(self).beta.data@[0]@,
                x,
                d,
                grid(d_x@),
                self.d_gamma@,
                self.d_beta@,
            ) by {
                let eps = old(self).eps;
                assert(goal =~= Seq::new(
                    x.len(),
                    |i: int| row_gradient(n, gamma, normalised(n, eps, x[i]), deviation(n, eps, x[i]), d[i]),
                ));
                law_layer_gradients(
                    n,
                    q,
                    eps,
                    gamma,
                    old(self).beta.data@[0]@,
                    x,
                    d,
                    grid(d_x@),
                    self.d_gamma@,
                    self.d_beta@,
                );
            }
        }
        d_x
    }

    /// The trainable rows: the scale, then the shift.
    pub fn parameters(&mut self) -> (r: Vec<&mut Param<T>>)
        ensures
            r@.len() == 2,
            *r@[0] == old(self).gamma,
            *r@[1] == old(self).beta,
            *final(self) == (LayerNorm { gamma: *final(r@[0]), beta: *final(r@[1]), ..*old(self) }),
    {
        let mut all: Vec<&mut Param<T>> = Vec::new();
        all.push(&mut self.gamma);
        all.push(&mut self.beta);
        all
    }
}

} // verus!
