//! What the layers and their gradients are over real numbers.

use vstd::prelude::*;

use crate::calculus::{law_total_is_the_sum, pull};
use crate::layers::layer_norm::{
    beta_gradient, deviation, gamma_gradient, mean, normalised, products, row_gradient, scaled, squared_distances,
};
use crate::matrix::has_shape;
use crate::numbers::{one, total, zero, Arithmetic, Term};
use crate::reals::{
    exact, lemma_apart, lemma_cancel, lemma_commute, lemma_difference, lemma_doubled, lemma_factor_nonnegative, lemma_four,
    lemma_group, lemma_less, lemma_less_two, lemma_negated, lemma_over_add, lemma_over_same, lemma_over_swap,
    lemma_product_positive, lemma_root_positive, lemma_spread, lemma_square, lemma_sum_add, lemma_sum_nonnegative,
    lemma_sum_same, lemma_sum_scale, lemma_times_zero, lemma_zero, rpow, sum_of, sum_over, Reals,
};

verus! {

proof fn lemma_mean<N: Arithmetic>(n: &N, r: Reals<N::Num>, row: Seq<N::Num>)
    requires
        exact(n, r),
        r.all(row),
        0 < row.len() <= usize::MAX,
    ensures
        r.holds(mean(n, row)),
        (row.len() as real) * r.at(mean(n, row)) == sum_of(row.len(), |j: int| r.at(row[j])),
        (row.len() as real) * r.rate(mean(n, row)) == sum_of(row.len(), |j: int| r.rate(row[j])),
{
    law_total_is_the_sum(n, r, row);
    let c = n.value(Term::Count(row.len() as usize));
    let m = row.len() as real;
    assert(r.at(c) == m && m > 0 as real);
    let v = mean(n, row);
    let a = r.at(v);
    let d = r.rate(v);
    let t = r.at(total(n, row));
    let dt = r.rate(total(n, row));
    lemma_commute(a, m);
    lemma_commute(d, m);
    lemma_times_zero(a);
}

/// Whether a row is another one, moved to mean zero and divided by its deviation: the square of the
/// deviation is the mean of the squared distances to the mean, `eps` added.
pub open spec fn is_normal<T>(r: Reals<T>, eps: real, row: Seq<T>, x_hat: Seq<T>, centre: real, width: real) -> bool {
    let m = row.len() as real;
    &&& x_hat.len() == row.len()
    &&& r.all(x_hat)
    &&& width > 0 as real
    &&& m * centre == sum_of(row.len(), |j: int| r.at(row[j]))
    &&& m * (width * width) == sum_of(
        row.len(),
        |j: int| (r.at(row[j]) - centre) * (r.at(row[j]) - centre),
    ) + m * eps
    &&& forall|j: int| 0 <= j < row.len() ==> r.at(#[trigger] x_hat[j]) * width == r.at(row[j]) - centre
}

/// How a normalised row moves.
pub open spec fn moves_normally<T>(r: Reals<T>, row: Seq<T>, x_hat: Seq<T>, width: real) -> bool {
    let m = row.len() as real;
    let all = sum_of(row.len(), |j: int| r.rate(row[j]));
    let along = sum_of(row.len(), |j: int| r.at(x_hat[j]) * r.rate(row[j]));
    forall|j: int|
        0 <= j < row.len() ==> m * (width * r.rate(#[trigger] x_hat[j])) == m * r.rate(row[j]) - all - r.at(x_hat[j])
            * along
}

/// A row is normalised, and its movement is what is left of the movement of the row when its mean and
/// its part along the normalised row are taken away.
pub proof fn law_normalised<N: Arithmetic>(n: &N, r: Reals<N::Num>, eps: N::Num, row: Seq<N::Num>)
    requires
        exact(n, r),
        r.all(row),
        0 < row.len() <= usize::MAX,
        r.holds(eps),
        r.at(eps) > 0 as real,
        r.rate(eps) == 0 as real,
    ensures
        is_normal(
            r,
            r.at(eps),
            row,
            normalised(n, eps, row),
            r.at(mean(n, row)),
            r.at(deviation(n, eps, row)),
        ),
        moves_normally(r, row, normalised(n, eps, row), r.at(deviation(n, eps, row))),
        r.holds(deviation(n, eps, row)),
{
    let len = row.len();
    let m = len as real;
    assert(m > 0 as real);
    let mu = mean(n, row);
    lemma_mean(n, r, row);
    let c = r.at(mu);
    let rc = r.rate(mu);
    let sq = squared_distances(n, row);
    let d = |j: int| r.at(row[j]) - c;
    let rd = |j: int| r.rate(row[j]) - rc;
    assert forall|j: int| 0 <= j < len implies r.holds(#[trigger] sq[j]) && r.at(sq[j]) == d(j) * d(j) && r.rate(sq[j])
        == (2 as real) * (d(j) * rd(j)) by {
        assert(r.holds(row[j]));
        let s = n.value(Term::Sub(row[j], mu));
        assert(r.holds(s));
        let v = n.value(Term::PowInt(s, 2));
        assert(sq[j] == v);
        let e = r.at(s);
        let re = r.rate(s);
        reveal_with_fuel(rpow, 3);
        assert(rpow(e, 2) == rpow(e, 1) * e && rpow(e, 1) == (1 as real) * e);
        assert(r.rate(v) == (2 as real) * rpow(e, 1) * re);
        lemma_times_zero(e);
        lemma_group(2 as real, e, re);
    }
    lemma_mean(n, r, sq);
    let var = mean(n, sq);
    let v = r.at(var);
    let squares = |j: int| d(j) * d(j);
    lemma_sum_same(len, |j: int| r.at(sq[j]), squares);
    assert forall|j: int| 0 <= j < len implies #[trigger] squares(j) >= 0 as real by {
        let e = d(j);
        lemma_square(e);
    }
    lemma_sum_nonnegative(len, squares);
    let total_sq = sum_of(len, squares);
    lemma_factor_nonnegative(m, v);
    let raised = n.value(Term::Add(var, eps));
    let dev = deviation(n, eps, row);
    let w = r.at(dev);
    let rw = r.rate(dev);
    let e = r.at(eps);
    assert(r.at(raised) == v + e && r.at(raised) > 0 as real);
    assert(w >= 0 as real && w * w == v + e);
    lemma_root_positive(w, v + e);
    lemma_spread(m, v, e);
    lemma_sum_same(len, squares, |j: int| (r.at(row[j]) - c) * (r.at(row[j]) - c));
    let hat = normalised(n, eps, row);
    assert forall|j: int| 0 <= j < len implies r.holds(#[trigger] hat[j]) && r.at(hat[j]) * w == d(j) && r.rate(hat[j]) * w
        + r.at(hat[j]) * rw == rd(j) by {
        assert(r.holds(row[j]));
        let s = n.value(Term::Sub(row[j], mu));
        assert(r.holds(s));
        assert(hat[j] == n.value(Term::Div(s, dev)));
    }
    // The distances to the mean add up to nothing.
    let values = |j: int| r.at(row[j]);
    let flat = |j: int| -c * (1 as real);
    let ones = |j: int| 1 as real;
    lemma_sum_ones(len);
    lemma_sum_scale(len, -c, ones, flat);
    assert forall|j: int| 0 <= j < len implies #[trigger] d(j) == values(j) + flat(j) by {
        lemma_times_zero(-c);
    }
    lemma_sum_add(len, values, flat, d);
    lemma_sum_same(len, values, |j: int| r.at(row[j]));
    let total_d = sum_of(len, d);
    lemma_negated(c, m);
    assert(total_d == 0 as real);
    // The deviation moves along the normalised row.
    let dx = |j: int| d(j) * r.rate(row[j]);
    let rest = |j: int| -rc * d(j);
    let drd = |j: int| d(j) * rd(j);
    assert forall|j: int| 0 <= j < len implies #[trigger] drd(j) == dx(j) + rest(j) by {
        let p = d(j);
        let q = r.rate(row[j]);
        lemma_difference(p, q, rc);
    }
    lemma_sum_add(len, dx, rest, drd);
    lemma_sum_scale(len, -rc, d, rest);
    lemma_times_zero(-rc);
    let doubled = |j: int| (2 as real) * drd(j);
    lemma_sum_scale(len, 2 as real, drd, doubled);
    lemma_sum_same(len, |j: int| r.rate(sq[j]), doubled);
    let along_d = sum_of(len, dx);
    let rv = r.rate(var);
    assert(m * rv == (2 as real) * along_d);
    assert((2 as real) * w * rw == rv);
    let hx = |j: int| r.at(hat[j]) * r.rate(row[j]);
    assert forall|j: int| 0 <= j < len implies #[trigger] dx(j) == w * hx(j) by {
        assert(r.holds(hat[j]));
        let p = r.at(hat[j]);
        let q = r.rate(row[j]);
        let s = d(j);
        lemma_group(w, p, q);
        lemma_commute(w, p);
    }
    lemma_sum_scale(len, w, hx, dx);
    let along = sum_of(len, hx);
    lemma_doubled(m, w, rw);
    assert(w * (m * rw) == w * along);
    lemma_cancel(w, m * rw, along);
    lemma_sum_same(len, hx, |j: int| r.at(hat[j]) * r.rate(row[j]));
    let all = sum_of(len, |j: int| r.rate(row[j]));
    assert forall|j: int| 0 <= j < len implies m * (w * r.rate(#[trigger] hat[j])) == m * r.rate(row[j]) - all - r.at(
        hat[j],
    ) * along by {
        let p = r.at(hat[j]);
        let u = r.rate(hat[j]);
        let q = r.rate(row[j]);
        assert(u * w + p * rw == q - rc);
        lemma_apart(m, u, w, p, rw);
        lemma_spread(m, q, rc);
    }
}

proof fn lemma_sum_ones(k: nat)
    ensures
        sum_of(k, |j: int| 1 as real) == k as real,
    decreases k,
{
    if k > 0 {
        lemma_sum_ones((k - 1) as nat);
    }
}

/// Two ways to take the part along a row and the mean away.
proof fn lemma_taken_away(
    len: nat,
    width: real,
    a: spec_fn(int) -> real,
    b: spec_fn(int) -> real,
    h: spec_fn(int) -> real,
    u: spec_fn(int) -> real,
    d: spec_fn(int) -> real,
)
    requires
        len > 0,
        width > 0 as real,
        forall|j: int|
            0 <= j < len ==> (len as real) * (width * #[trigger] u(j)) == (len as real) * b(j) - sum_of(len, b) - h(j)
                * sum_of(len, |k: int| h(k) * b(k)),
        forall|j: int|
            0 <= j < len ==> (len as real) * (width * #[trigger] d(j)) == (len as real) * a(j) - sum_of(len, a) - h(j)
                * sum_of(len, |k: int| h(k) * a(k)),
    ensures
        sum_of(len, |j: int| a(j) * u(j)) == sum_of(len, |j: int| d(j) * b(j)),
{
    let m = len as real;
    let s = m * width;
    let sa = sum_of(len, a);
    let sb = sum_of(len, b);
    let ha = |k: int| h(k) * a(k);
    let hb = |k: int| h(k) * b(k);
    let wa = sum_of(len, ha);
    let wb = sum_of(len, hb);
    let ab = |j: int| a(j) * b(j);
    let mab = |j: int| m * ab(j);
    lemma_sum_scale(len, m, ab, mab);
    // The first way.
    let au = |j: int| a(j) * u(j);
    let sau = |j: int| s * au(j);
    lemma_sum_scale(len, s, au, sau);
    let a1 = |j: int| -sb * a(j);
    let a2 = |j: int| -wb * ha(j);
    let a12 = |j: int| a1(j) + a2(j);
    lemma_sum_scale(len, -sb, a, a1);
    lemma_sum_scale(len, -wb, ha, a2);
    lemma_sum_add(len, a1, a2, a12);
    assert forall|j: int| 0 <= j < len implies #[trigger] sau(j) == mab(j) + a12(j) by {
        let p = a(j);
        let q = b(j);
        let t = h(j);
        let v = u(j);
        assert(m * (width * v) == m * q - sb - t * wb);
        lemma_four(m, width, p, v);
        lemma_less_two(p, m, q, sb, t, wb);
    }
    lemma_sum_add(len, mab, a12, sau);
    // The second way.
    let db = |j: int| d(j) * b(j);
    let sdb = |j: int| s * db(j);
    lemma_sum_scale(len, s, db, sdb);
    let b1 = |j: int| -sa * b(j);
    let b2 = |j: int| -wa * hb(j);
    let b12 = |j: int| b1(j) + b2(j);
    lemma_sum_scale(len, -sa, b, b1);
    lemma_sum_scale(len, -wa, hb, b2);
    lemma_sum_add(len, b1, b2, b12);
    assert forall|j: int| 0 <= j < len implies #[trigger] sdb(j) == mab(j) + b12(j) by {
        let p = a(j);
        let q = b(j);
        let t = h(j);
        let v = d(j);
        assert(m * (width * v) == m * p - sa - t * wa);
        lemma_four(m, width, q, v);
        lemma_commute(q, v);
        lemma_commute(q, p);
        lemma_less_two(q, m, p, sa, t, wa);
    }
    lemma_sum_add(len, mab, b12, sdb);
    let x = sum_of(len, au);
    let y = sum_of(len, db);
    lemma_negated(sb, sa);
    lemma_negated(wb, wa);
    lemma_negated(sa, sb);
    lemma_negated(wa, wb);
    lemma_product_positive(m, width);
    lemma_cancel(s, x, y);
    lemma_sum_same(len, au, |j: int| a(j) * u(j));
    lemma_sum_same(len, db, |j: int| d(j) * b(j));
}

/// The gradient of a row is the derivative of its normalisation: the movement of the normalised row,
/// weighed by a gradient and the scale, comes from the row by the gradient of the row.
pub proof fn law_row_gradient<N: Arithmetic>(
    n: &N,
    r: Reals<N::Num>,
    eps: N::Num,
    gamma: Seq<N::Num>,
    row: Seq<N::Num>,
    d_row: Seq<N::Num>,
)
    requires
        exact(n, r),
        0 < row.len() <= usize::MAX,
        gamma.len() == row.len(),
        d_row.len() == row.len(),
        r.all(row),
        r.all(gamma),
        r.all(d_row),
        r.holds(eps),
        r.at(eps) > 0 as real,
        r.rate(eps) == 0 as real,
    ensures
        ({
            let hat = normalised(n, eps, row);
            let d_x = row_gradient(n, gamma, hat, deviation(n, eps, row), d_row);
            &&& d_x.len() == row.len()
            &&& r.all(d_x)
            &&& sum_of(row.len(), |j: int| (r.at(d_row[j]) * r.at(gamma[j])) * r.rate(hat[j])) == sum_of(
                row.len(),
                |j: int| r.at(d_x[j]) * r.rate(row[j]),
            )
        }),
{
    let len = row.len();
    let m = len as real;
    let hat = normalised(n, eps, row);
    let dev = deviation(n, eps, row);
    let w = r.at(dev);
    law_normalised(n, r, eps, row);
    lemma_zero(n, r);
    let count = n.value(Term::Count(gamma.len() as usize));
    let d_hat = products(n, d_row.take(gamma.len() as int), gamma);
    let a = |j: int| r.at(d_row[j]) * r.at(gamma[j]);
    assert forall|j: int| 0 <= j < len implies r.holds(#[trigger] d_hat[j]) && r.at(d_hat[j]) == a(j) by {
        assert(r.holds(d_row[j]) && r.holds(gamma[j]));
        assert(d_hat[j] == n.value(Term::Mul(d_row[j], gamma[j])));
    }
    law_total_is_the_sum(n, r, d_hat);
    lemma_sum_same(len, |j: int| r.at(d_hat[j]), a);
    let weighed = products(n, d_hat, hat);
    let h = |j: int| r.at(hat[j]);
    let ha = |k: int| h(k) * a(k);
    assert forall|j: int| 0 <= j < len implies r.holds(#[trigger] weighed[j]) && r.at(weighed[j]) == ha(j) by {
        assert(r.holds(d_hat[j]) && r.holds(hat[j]));
        assert(weighed[j] == n.value(Term::Mul(d_hat[j], hat[j])));
        let p = a(j);
        let q = h(j);
        lemma_commute(p, q);
    }
    law_total_is_the_sum(n, r, weighed);
    lemma_sum_same(len, |j: int| r.at(weighed[j]), ha);
    let sa = r.at(total(n, d_hat));
    let wa = r.at(total(n, weighed));
    let plain = n.value(Term::Div(total(n, d_hat), count));
    let inverse = n.value(Term::Div(one(n), dev));
    assert(r.at(count) == m && m > 0 as real);
    let d_x = row_gradient(n, gamma, hat, dev, d_row);
    let d = |j: int| r.at(d_x[j]);
    assert forall|j: int| 0 <= j < len implies r.holds(#[trigger] d_x[j]) && m * (w * d(j)) == m * a(j) - sa - h(j) * wa by {
        assert(r.holds(d_hat[j]) && r.holds(hat[j]));
        let first = n.value(Term::Sub(d_hat[j], plain));
        let mul = n.value(Term::Mul(hat[j], total(n, weighed)));
        let second = n.value(Term::Div(mul, count));
        let diff = n.value(Term::Sub(first, second));
        assert(r.holds(first) && r.holds(mul) && r.holds(second) && r.holds(diff) && r.holds(inverse));
        assert(d_x[j] == n.value(Term::Mul(inverse, diff)));
        let i = r.at(inverse);
        let p = r.at(plain);
        let s = r.at(second);
        let x = a(j);
        let t = h(j);
        let v = d(j);
        assert(v == i * (x - p - s));
        lemma_group(w, i, x - p - s);
        lemma_commute(w, i);
        lemma_times_zero(x - p - s);
        lemma_less(m, x, p, s);
    }
    let b = |j: int| r.rate(row[j]);
    let u = |j: int| r.rate(hat[j]);
    let hb = |k: int| h(k) * b(k);
    lemma_sum_same(len, b, |j: int| r.rate(row[j]));
    lemma_sum_same(len, hb, |j: int| r.at(hat[j]) * r.rate(row[j]));
    assert forall|j: int| 0 <= j < len implies m * (w * #[trigger] u(j)) == m * b(j) - sum_of(len, b) - h(j) * sum_of(
        len,
        |k: int| h(k) * b(k),
    ) by {
        lemma_sum_same(len, hb, |k: int| h(k) * b(k));
        assert(m * (w * r.rate(hat[j])) == m * r.rate(row[j]) - sum_of(len, |j: int| r.rate(row[j])) - r.at(hat[j])
            * sum_of(len, |j: int| r.at(hat[j]) * r.rate(row[j])));
    }
    assert forall|j: int| 0 <= j < len implies m * (w * #[trigger] d(j)) == m * a(j) - sum_of(len, a) - h(j) * sum_of(
        len,
        |k: int| h(k) * a(k),
    ) by {
        lemma_sum_same(len, ha, |k: int| h(k) * a(k));
        assert(r.holds(d_x[j]));
    }
    lemma_taken_away(len, w, a, b, h, u, d);
    lemma_sum_same(len, |j: int| a(j) * u(j), |j: int| (r.at(d_row[j]) * r.at(gamma[j])) * r.rate(hat[j]));
    lemma_sum_same(len, |j: int| d(j) * b(j), |j: int| r.at(d_x[j]) * r.rate(row[j]));
}

/// Whether a row is another one normalised, then scaled and shifted.
pub open spec fn is_scaled<T>(
    r: Reals<T>,
    eps: real,
    gamma: Seq<T>,
    beta: Seq<T>,
    row: Seq<T>,
    out: Seq<T>,
    x_hat: Seq<T>,
    centre: real,
    width: real,
) -> bool {
    &&& is_normal(r, eps, row, x_hat, centre, width)
    &&& out.len() == row.len()
    &&& r.all(out)
    &&& forall|j: int| 0 <= j < row.len() ==> r.at(#[trigger] out[j]) == r.at(gamma[j]) * r.at(x_hat[j]) + r.at(beta[j])
}

/// Whether a row is another one normalised, whatever its mean and deviation, then scaled and shifted.
pub open spec fn is_norm_row<T>(r: Reals<T>, eps: real, gamma: Seq<T>, beta: Seq<T>, row: Seq<T>, out: Seq<T>) -> bool {
    exists|x_hat: Seq<T>, centre: real, width: real| #[trigger]
        is_scaled(r, eps, gamma, beta, row, out, x_hat, centre, width)
}

/// Whether every row of a matrix is that row of another one normalised, scaled and shifted.
pub open spec fn is_layer_norm<T>(
    r: Reals<T>,
    eps: real,
    gamma: Seq<T>,
    beta: Seq<T>,
    x: Seq<Seq<T>>,
    out: Seq<Seq<T>>,
) -> bool {
    &&& out.len() == x.len()
    &&& forall|i: int| 0 <= i < x.len() ==> is_norm_row(r, eps, gamma, beta, x[i], #[trigger] out[i])
}

/// Whether scale, shift and epsilon fit rows of real numbers.
pub open spec fn takes_rows<T>(r: Reals<T>, eps: T, gamma: Seq<T>, beta: Seq<T>, x: Seq<Seq<T>>) -> bool {
    &&& gamma.len() > 0
    &&& beta.len() == gamma.len()
    &&& has_shape(x, x.len(), gamma.len())
    &&& r.grid(x)
    &&& r.all(gamma)
    &&& r.all(beta)
    &&& r.holds(eps)
    &&& r.at(eps) > 0 as real
    &&& r.rate(eps) == 0 as real
}

/// What comes out of a layer.
pub open spec fn layer_out<N: Arithmetic>(
    n: &N,
    eps: N::Num,
    gamma: Seq<N::Num>,
    beta: Seq<N::Num>,
    x: Seq<Seq<N::Num>>,
) -> Seq<Seq<N::Num>> {
    x.map_values(|row: Seq<N::Num>| scaled(n, gamma, beta, normalised(n, eps, row)))
}

/// A layer normalises every row, then scales and shifts it.
pub proof fn law_layer_norm<N: Arithmetic>(
    n: &N,
    r: Reals<N::Num>,
    eps: N::Num,
    gamma: Seq<N::Num>,
    beta: Seq<N::Num>,
    x: Seq<Seq<N::Num>>,
)
    requires
        exact(n, r),
        takes_rows(r, eps, gamma, beta, x),
        gamma.len() <= usize::MAX,
    ensures
        is_layer_norm(r, r.at(eps), gamma, beta, x, layer_out(n, eps, gamma, beta, x)),
{
    let out = layer_out(n, eps, gamma, beta, x);
    assert forall|i: int| 0 <= i < x.len() implies is_norm_row(r, r.at(eps), gamma, beta, x[i], #[trigger] out[i]) by {
        let row = x[i];
        assert(r.all(row) && row.len() == gamma.len());
        law_normalised(n, r, eps, row);
        let hat = normalised(n, eps, row);
        assert forall|j: int| 0 <= j < row.len() implies r.holds(#[trigger] out[i][j]) && r.at(out[i][j]) == r.at(gamma[j])
            * r.at(hat[j]) + r.at(beta[j]) by {
            assert(r.holds(gamma[j]) && r.holds(beta[j]) && r.holds(hat[j]));
            let p = n.value(Term::Mul(gamma[j], hat[j]));
            assert(r.holds(p));
            assert(out[i][j] == n.value(Term::Add(p, beta[j])));
        }
        assert(is_scaled(
            r,
            r.at(eps),
            gamma,
            beta,
            x[i],
            out[i],
            hat,
            r.at(mean(n, row)),
            r.at(deviation(n, eps, row)),
        ));
    }
}

proof fn lemma_column_sums<N: Arithmetic>(
    n: &N,
    r: Reals<N::Num>,
    d: Seq<Seq<N::Num>>,
    hats: Seq<Seq<N::Num>>,
    j: int,
    k: nat,
)
    requires
        exact(n, r),
        forall|i: int| 0 <= i < k ==> r.holds(#[trigger] d[i][j]) && r.holds(hats[i][j]),
    ensures
        r.holds(gamma_gradient(n, d, hats, j, k)),
        r.holds(beta_gradient(n, d, j, k)),
        r.at(gamma_gradient(n, d, hats, j, k)) == sum_of(k, |i: int| r.at(d[i][j]) * r.at(hats[i][j])),
        r.at(beta_gradient(n, d, j, k)) == sum_of(k, |i: int| r.at(d[i][j])),
    decreases k,
{
    lemma_zero(n, r);
    if k > 0 {
        lemma_column_sums(n, r, d, hats, j, (k - 1) as nat);
        assert(r.holds(d[k - 1][j]) && r.holds(hats[k - 1][j]));
        assert(r.holds(n.value(Term::Mul(d[k - 1][j], hats[k - 1][j]))));
    }
}

/// How much of a movement comes from a row by its gradient.
pub open spec fn row_pull<T>(r: Reals<T>, gradient: Seq<T>, row: Seq<T>) -> real {
    sum_of(row.len(), |j: int| r.at(gradient[j]) * r.rate(row[j]))
}

/// A sum over a rectangle in which every column has a factor of its own.
proof fn lemma_by_columns(rows: nat, cols: nat, f: spec_fn(int, int) -> real, c: spec_fn(int) -> real, g: spec_fn(int) -> real)
    requires
        forall|j: int| 0 <= j < cols ==> #[trigger] g(j) == sum_of(rows, |i: int| f(i, j)),
    ensures
        sum_over(rows, cols, |i: int, j: int| f(i, j) * c(j)) == sum_of(cols, |j: int| g(j) * c(j)),
{
    let whole = |i: int, j: int| f(i, j) * c(j);
    let turned = |j: int, i: int| whole(i, j);
    lemma_over_swap(rows, cols, whole);
    let left = |j: int| sum_of(rows, |i: int| turned(j, i));
    let right = |j: int| g(j) * c(j);
    assert forall|j: int| 0 <= j < cols implies #[trigger] left(j) == right(j) by {
        let column = |i: int| f(i, j);
        let times = |i: int| turned(j, i);
        let k = c(j);
        assert forall|i: int| 0 <= i < rows implies #[trigger] times(i) == k * column(i) by {
            lemma_commute(f(i, j), k);
        }
        lemma_sum_scale(rows, k, column, times);
        lemma_sum_same(rows, column, |i: int| f(i, j));
        lemma_sum_same(rows, times, |i: int| turned(j, i));
        lemma_commute(g(j), k);
    }
    lemma_sum_same(cols, left, right);
    lemma_over_same(cols, rows, turned, |j: int, i: int| whole(i, j));
}

/// Whether gradients are the derivative of a layer: the movement of what comes out, weighed by a
/// gradient, comes from the input, the scale and the shift by their gradients.
pub open spec fn is_norm_gradient<N: Arithmetic>(
    n: &N,
    r: Reals<N::Num>,
    eps: N::Num,
    gamma: Seq<N::Num>,
    beta: Seq<N::Num>,
    x: Seq<Seq<N::Num>>,
    d: Seq<Seq<N::Num>>,
    d_x: Seq<Seq<N::Num>>,
    d_gamma: Seq<N::Num>,
    d_beta: Seq<N::Num>,
) -> bool {
    pull(r, x.len(), gamma.len(), d, layer_out(n, eps, gamma, beta, x)) == pull(r, x.len(), gamma.len(), d_x, x) + row_pull(
        r,
        d_gamma,
        gamma,
    ) + row_pull(r, d_beta, beta)
}

/// The gradients of a layer are its derivative.
pub proof fn law_layer_gradients<N: Arithmetic>(
    n: &N,
    r: Reals<N::Num>,
    eps: N::Num,
    gamma: Seq<N::Num>,
    beta: Seq<N::Num>,
    x: Seq<Seq<N::Num>>,
    d: Seq<Seq<N::Num>>,
    d_x: Seq<Seq<N::Num>>,
    d_gamma: Seq<N::Num>,
    d_beta: Seq<N::Num>,
)
    requires
        exact(n, r),
        takes_rows(r, eps, gamma, beta, x),
        gamma.len() <= usize::MAX,
        has_shape(d, x.len(), gamma.len()),
        r.grid(d),
        d_x == Seq::new(
            x.len(),
            |i: int| row_gradient(n, gamma, normalised(n, eps, x[i]), deviation(n, eps, x[i]), d[i]),
        ),
        forall|j: int|
            0 <= j < gamma.len() ==> #[trigger] d_gamma[j] == gamma_gradient(
                n,
                d,
                x.map_values(|row: Seq<N::Num>| normalised(n, eps, row)),
                j,
                x.len(),
            ),
        forall|j: int| 0 <= j < gamma.len() ==> #[trigger] d_beta[j] == beta_gradient(n, d, j, x.len()),
    ensures
        is_norm_gradient(n, r, eps, gamma, beta, x, d, d_x, d_gamma, d_beta),
{
    let rows = x.len();
    let cols = gamma.len();
    let out = layer_out(n, eps, gamma, beta, x);
    let hats = x.map_values(|row: Seq<N::Num>| normalised(n, eps, row));
    assert forall|i: int, j: int| 0 <= i < rows && 0 <= j < cols implies r.holds(#[trigger] hats[i][j]) && r.holds(d[i][j])
        && r.rate(out[i][j]) == r.rate(gamma[j]) * r.at(hats[i][j]) + r.at(gamma[j]) * r.rate(hats[i][j]) + r.rate(
        beta[j],
    ) by {
        let row = x[i];
        assert(r.all(row) && row.len() == cols);
        law_normalised(n, r, eps, row);
        assert(r.all(d[i]) && d[i].len() == cols);
        assert(r.holds(gamma[j]) && r.holds(beta[j]) && r.holds(hats[i][j]) && r.holds(d[i][j]));
        let p = n.value(Term::Mul(gamma[j], hats[i][j]));
        assert(r.holds(p));
        assert(out[i][j] == n.value(Term::Add(p, beta[j])));
    }
    let from_x = |i: int, j: int| (r.at(d[i][j]) * r.at(gamma[j])) * r.rate(hats[i][j]);
    let weighed = |i: int, j: int| r.at(d[i][j]) * r.at(hats[i][j]);
    let plain = |i: int, j: int| r.at(d[i][j]);
    let moved_scale = |j: int| r.rate(gamma[j]);
    let moved_shift = |j: int| r.rate(beta[j]);
    let from_gamma = |i: int, j: int| weighed(i, j) * moved_scale(j);
    let from_beta = |i: int, j: int| plain(i, j) * moved_shift(j);
    let rest = |i: int, j: int| from_gamma(i, j) + from_beta(i, j);
    let whole = |i: int, j: int| r.at(d[i][j]) * r.rate(out[i][j]);
    assert forall|i: int, j: int| 0 <= i < rows && 0 <= j < cols implies #[trigger] whole(i, j) == from_x(i, j) + rest(i, j) by {
        assert(r.holds(hats[i][j]));
        let e = r.at(d[i][j]);
        let h = r.at(hats[i][j]);
        let dh = r.rate(hats[i][j]);
        let g = r.at(gamma[j]);
        let dg = r.rate(gamma[j]);
        let db = r.rate(beta[j]);
        lemma_spread(e, dg * h + g * dh, db);
        lemma_spread(e, dg * h, g * dh);
        lemma_commute(dg, h);
        lemma_group(e, h, dg);
        lemma_group(e, g, dh);
    }
    lemma_over_add(rows, cols, from_x, rest, whole);
    lemma_over_add(rows, cols, from_gamma, from_beta, rest);
    lemma_over_same(rows, cols, whole, |i: int, j: int| r.at(d[i][j]) * r.rate(out[i][j]));
    let g_sum = |j: int| r.at(d_gamma[j]);
    let b_sum = |j: int| r.at(d_beta[j]);
    assert forall|j: int| 0 <= j < cols implies #[trigger] g_sum(j) == sum_of(rows, |i: int| weighed(i, j)) by {
        assert forall|i: int| 0 <= i < rows implies r.holds(#[trigger] d[i][j]) && r.holds(hats[i][j]) by {
            assert(r.holds(hats[i][j]));
        }
        lemma_column_sums(n, r, d, hats, j, rows);
        lemma_sum_same(rows, |i: int| weighed(i, j), |i: int| r.at(d[i][j]) * r.at(hats[i][j]));
        assert(d_gamma[j] == gamma_gradient(n, d, hats, j, rows));
    }
    assert forall|j: int| 0 <= j < cols implies #[trigger] b_sum(j) == sum_of(rows, |i: int| plain(i, j)) by {
        assert forall|i: int| 0 <= i < rows implies r.holds(#[trigger] d[i][j]) && r.holds(hats[i][j]) by {
            assert(r.holds(hats[i][j]));
        }
        lemma_column_sums(n, r, d, hats, j, rows);
        lemma_sum_same(rows, |i: int| plain(i, j), |i: int| r.at(d[i][j]));
        assert(d_beta[j] == beta_gradient(n, d, j, rows));
    }
    lemma_by_columns(rows, cols, weighed, moved_scale, g_sum);
    lemma_over_same(rows, cols, from_gamma, |i: int, j: int| weighed(i, j) * moved_scale(j));
    lemma_sum_same(cols, |j: int| g_sum(j) * moved_scale(j), |j: int| r.at(d_gamma[j]) * r.rate(gamma[j]));
    lemma_by_columns(rows, cols, plain, moved_shift, b_sum);
    lemma_over_same(rows, cols, from_beta, |i: int, j: int| plain(i, j) * moved_shift(j));
    lemma_sum_same(cols, |j: int| b_sum(j) * moved_shift(j), |j: int| r.at(d_beta[j]) * r.rate(beta[j]));
    let left = |i: int| sum_of(cols, |j: int| from_x(i, j));
    let back = |i: int, j: int| r.at(d_x[i][j]) * r.rate(x[i][j]);
    let right = |i: int| sum_of(cols, |j: int| back(i, j));
    assert forall|i: int| 0 <= i < rows implies #[trigger] left(i) == right(i) by {
        let row = x[i];
        assert(r.all(row) && row.len() == cols && r.all(d[i]) && d[i].len() == cols);
        law_row_gradient(n, r, eps, gamma, row, d[i]);
        let hat = normalised(n, eps, row);
        let own = row_gradient(n, gamma, hat, deviation(n, eps, row), d[i]);
        assert(d_x[i] == own && hats[i] == hat);
        lemma_sum_same(
            cols,
            |j: int| from_x(i, j),
            |j: int| (r.at(d[i][j]) * r.at(gamma[j])) * r.rate(hat[j]),
        );
        lemma_sum_same(cols, |j: int| back(i, j), |j: int| r.at(own[j]) * r.rate(row[j]));
    }
    lemma_sum_same(rows, left, right);
    lemma_over_same(rows, cols, back, |i: int, j: int| r.at(d_x[i][j]) * r.rate(x[i][j]));
}

} // verus!
