//! What sums, products and their gradients are over real numbers.
//!
//! Numbers move, and what is computed from them moves with them. A gradient says how much of the
//! movement of a result comes from each of the numbers it was computed from.

use vstd::prelude::*;

use crate::matrix::{dot, has_shape, product, transposed};
use crate::numbers::{total, Arithmetic, Term};
use crate::reals::{
    exact, lemma_over_add, lemma_over_swap, lemma_sum_add, lemma_sum_same, lemma_sum_scale, lemma_zero,
    sum_of, sum_over, Reals,
};

verus! {

/// How fast the sum of a matrix, each number weighed by a gradient, moves.
pub open spec fn pull<T>(r: Reals<T>, rows: nat, cols: nat, gradient: Seq<Seq<T>>, x: Seq<Seq<T>>) -> real {
    sum_over(rows, cols, |i: int, j: int| r.at(gradient[i][j]) * r.rate(x[i][j]))
}

/// A list adds up to the sum of its numbers.
pub proof fn law_total_is_the_sum<N: Arithmetic>(n: &N, r: Reals<N::Num>, list: Seq<N::Num>)
    requires
        exact(n, r),
        r.all(list),
    ensures
        r.holds(total(n, list)),
        r.at(total(n, list)) == sum_of(list.len(), |i: int| r.at(list[i])),
        r.rate(total(n, list)) == sum_of(list.len(), |i: int| r.rate(list[i])),
    decreases list.len(),
{
    lemma_zero(n, r);
    if list.len() > 0 {
        let init = list.drop_last();
        assert forall|i: int| 0 <= i < init.len() implies r.holds(#[trigger] init[i]) by {
            assert(init[i] == list[i]);
        }
        law_total_is_the_sum(n, r, init);
        assert(r.holds(list[list.len() - 1]));
        lemma_sum_same(init.len(), |i: int| r.at(init[i]), |i: int| r.at(list[i]));
        lemma_sum_same(init.len(), |i: int| r.rate(init[i]), |i: int| r.rate(list[i]));
    }
}

proof fn lemma_dot<N: Arithmetic>(
    n: &N,
    r: Reals<N::Num>,
    a: Seq<Seq<N::Num>>,
    b: Seq<Seq<N::Num>>,
    i: int,
    j: int,
    k: nat,
)
    requires
        exact(n, r),
        forall|t: int| 0 <= t < k ==> r.holds(#[trigger] a[i][t]) && r.holds(b[t][j]),
    ensures
        r.holds(dot(n, a, b, i, j, k)),
        r.at(dot(n, a, b, i, j, k)) == sum_of(k, |t: int| r.at(a[i][t]) * r.at(b[t][j])),
        r.rate(dot(n, a, b, i, j, k)) == sum_of(
            k,
            |t: int| r.rate(a[i][t]) * r.at(b[t][j]) + r.at(a[i][t]) * r.rate(b[t][j]),
        ),
    decreases k,
{
    lemma_zero(n, r);
    if k > 0 {
        lemma_dot(n, r, a, b, i, j, (k - 1) as nat);
        assert(r.holds(a[i][k - 1]) && r.holds(b[k - 1][j]));
        let p = n.value(Term::Mul(a[i][k - 1], b[k - 1][j]));
        assert(r.holds(p));
    }
}

/// An element of a matrix product is the sum, along a row of the first and a column of the second, of
/// the products, and moves as that does.
pub proof fn law_product_is_the_product<N: Arithmetic>(
    n: &N,
    r: Reals<N::Num>,
    a: Seq<Seq<N::Num>>,
    b: Seq<Seq<N::Num>>,
    rows: nat,
    inner: nat,
    cols: nat,
)
    requires
        exact(n, r),
        has_shape(a, rows, inner),
        has_shape(b, inner, cols),
        inner > 0,
        r.grid(a),
        r.grid(b),
    ensures
        has_shape(product(n, a, b), rows, cols),
        r.grid(product(n, a, b)),
        forall|i: int, j: int|
            0 <= i < rows && 0 <= j < cols ==> r.at(#[trigger] product(n, a, b)[i][j]) == sum_of(
                inner,
                |t: int| r.at(a[i][t]) * r.at(b[t][j]),
            ) && r.rate(product(n, a, b)[i][j]) == sum_of(
                inner,
                |t: int| r.rate(a[i][t]) * r.at(b[t][j]) + r.at(a[i][t]) * r.rate(b[t][j]),
            ),
{
    let p = product(n, a, b);
    assert(b[0].len() == cols);
    assert forall|i: int, j: int| 0 <= i < rows && 0 <= j < cols implies r.holds(#[trigger] p[i][j]) && r.at(p[i][j])
        == sum_of(inner, |t: int| r.at(a[i][t]) * r.at(b[t][j])) && r.rate(p[i][j]) == sum_of(
        inner,
        |t: int| r.rate(a[i][t]) * r.at(b[t][j]) + r.at(a[i][t]) * r.rate(b[t][j]),
    ) by {
        assert(a[0].len() == inner);
        assert forall|t: int| 0 <= t < inner implies r.holds(#[trigger] a[i][t]) && r.holds(b[t][j]) by {
            assert(r.all(a[i]) && r.all(b[t]));
            assert(a[i].len() == inner && b[t].len() == cols);
        }
        lemma_dot(n, r, a, b, i, j, inner);
    }
    assert forall|i: int| 0 <= i < p.len() implies r.all(#[trigger] p[i]) by {
        assert forall|j: int| 0 <= j < p[i].len() implies r.holds(#[trigger] p[i][j]) by {}
    }
}

/// What holds of the numbers of a matrix holds of those of its transpose.
pub proof fn lemma_transposed<T>(r: Reals<T>, m: Seq<Seq<T>>, rows: nat, cols: nat)
    requires
        has_shape(m, rows, cols),
        rows > 0,
        r.grid(m),
    ensures
        has_shape(transposed(m), cols, rows),
        r.grid(transposed(m)),
        forall|i: int, j: int| 0 <= i < rows && 0 <= j < cols ==> #[trigger] transposed(m)[j][i] == m[i][j],
{
    let t = transposed(m);
    assert(m[0].len() == cols);
    assert forall|j: int| 0 <= j < t.len() implies r.all(#[trigger] t[j]) by {
        assert forall|i: int| 0 <= i < t[j].len() implies r.holds(#[trigger] t[j][i]) by {
            assert(r.all(m[i]));
            assert(r.holds(m[i][j]));
        }
    }
}

/// The gradients of a matrix product: the movement of the product, weighed by a gradient, comes from
/// the first matrix by that gradient times the second one transposed, and from the second by the
/// first one transposed times that gradient.
pub proof fn law_product_gradients<N: Arithmetic>(
    n: &N,
    r: Reals<N::Num>,
    a: Seq<Seq<N::Num>>,
    b: Seq<Seq<N::Num>>,
    g: Seq<Seq<N::Num>>,
    rows: nat,
    inner: nat,
    cols: nat,
)
    requires
        exact(n, r),
        has_shape(a, rows, inner),
        has_shape(b, inner, cols),
        has_shape(g, rows, cols),
        rows > 0,
        inner > 0,
        cols > 0,
        r.grid(a),
        r.grid(b),
        r.grid(g),
    ensures
        has_shape(product(n, g, transposed(b)), rows, inner),
        r.grid(product(n, g, transposed(b))),
        has_shape(product(n, transposed(a), g), inner, cols),
        r.grid(product(n, transposed(a), g)),
        pull(r, rows, cols, g, product(n, a, b)) == pull(r, rows, inner, product(n, g, transposed(b)), a) + pull(
            r,
            inner,
            cols,
            product(n, transposed(a), g),
            b,
        ),
{
    let p = product(n, a, b);
    let da = product(n, g, transposed(b));
    let db = product(n, transposed(a), g);
    law_product_is_the_product(n, r, a, b, rows, inner, cols);
    lemma_transposed(r, b, inner, cols);
    lemma_transposed(r, a, rows, inner);
    law_product_is_the_product(n, r, g, transposed(b), rows, cols, inner);
    law_product_is_the_product(n, r, transposed(a), g, inner, rows, cols);
    // Both sides are sums over the places of the first and the second matrix.
    let first = |i: int, j: int, t: int| r.at(g[i][j]) * (r.rate(a[i][t]) * r.at(b[t][j]));
    let second = |i: int, j: int, t: int| r.at(g[i][j]) * (r.at(a[i][t]) * r.rate(b[t][j]));
    let whole = |i: int, j: int| r.at(g[i][j]) * r.rate(p[i][j]);
    let one = |i: int, j: int| sum_of(inner, |t: int| first(i, j, t));
    let two = |i: int, j: int| sum_of(inner, |t: int| second(i, j, t));
    assert forall|i: int, j: int| 0 <= i < rows && 0 <= j < cols implies #[trigger] whole(i, j) == one(i, j) + two(i, j) by {
        let f = |t: int| r.rate(a[i][t]) * r.at(b[t][j]) + r.at(a[i][t]) * r.rate(b[t][j]);
        let f1 = |t: int| r.rate(a[i][t]) * r.at(b[t][j]);
        let f2 = |t: int| r.at(a[i][t]) * r.rate(b[t][j]);
        assert(r.rate(p[i][j]) == sum_of(inner, f));
        lemma_sum_add(inner, f1, f2, f);
        let c = r.at(g[i][j]);
        lemma_sum_scale(inner, c, f1, |t: int| first(i, j, t));
        lemma_sum_scale(inner, c, f2, |t: int| second(i, j, t));
        let s1 = sum_of(inner, f1);
        let s2 = sum_of(inner, f2);
        assert(c * (s1 + s2) == c * s1 + c * s2) by (nonlinear_arith);
    }
    lemma_over_add(rows, cols, one, two, whole);
    // The part that comes from the first matrix, row by row.
    let left = |i: int, t: int| r.at(da[i][t]) * r.rate(a[i][t]);
    let by_row = |i: int| sum_of(cols, |j: int| one(i, j));
    let by_row_left = |i: int| sum_of(inner, |t: int| left(i, t));
    assert forall|i: int| 0 <= i < rows implies #[trigger] by_row(i) == by_row_left(i) by {
        let f = |j: int, t: int| first(i, j, t);
        let h = |t: int, j: int| f(j, t);
        lemma_over_swap(cols, inner, f);
        let turned = |t: int| sum_of(cols, |j: int| h(t, j));
        assert forall|t: int| 0 <= t < inner implies #[trigger] turned(t) == left(i, t) by {
            let e = |j: int| r.at(g[i][j]) * r.at(transposed(b)[j][t]);
            assert(r.at(da[i][t]) == sum_of(cols, e));
            let c = r.rate(a[i][t]);
            assert forall|j: int| 0 <= j < cols implies #[trigger] h(t, j) == c * e(j) by {
                assert(transposed(b)[j][t] == b[t][j]);
                let x = r.at(g[i][j]);
                let y = r.at(b[t][j]);
                assert(x * (c * y) == c * (x * y)) by (nonlinear_arith);
            }
            lemma_sum_scale(cols, c, e, |j: int| h(t, j));
            let total_e = sum_of(cols, e);
            assert(c * total_e == total_e * c) by (nonlinear_arith);
        }
        lemma_sum_same(inner, turned, |t: int| left(i, t));
        let across = |j: int| sum_of(inner, |t: int| f(j, t));
        assert forall|j: int| 0 <= j < cols implies one(i, j) == #[trigger] across(j) by {
            lemma_sum_same(inner, |t: int| first(i, j, t), |t: int| f(j, t));
        }
        lemma_sum_same(cols, across, |j: int| one(i, j));
    }
    lemma_sum_same(rows, by_row, by_row_left);
    // The part that comes from the second matrix.
    let right = |t: int, j: int| r.at(db[t][j]) * r.rate(b[t][j]);
    lemma_over_swap(rows, cols, two);
    let two_t = |j: int, i: int| two(i, j);
    let by_col = |j: int| sum_of(rows, |i: int| two_t(j, i));
    let by_col_right = |j: int| sum_of(inner, |t: int| right(t, j));
    assert forall|j: int| 0 <= j < cols implies #[trigger] by_col(j) == by_col_right(j) by {
        let f = |i: int, t: int| second(i, j, t);
        let h = |t: int, i: int| f(i, t);
        lemma_over_swap(rows, inner, f);
        let turned = |t: int| sum_of(rows, |i: int| h(t, i));
        assert forall|t: int| 0 <= t < inner implies #[trigger] turned(t) == right(t, j) by {
            let e = |i: int| r.at(transposed(a)[t][i]) * r.at(g[i][j]);
            assert(r.at(db[t][j]) == sum_of(rows, e));
            let c = r.rate(b[t][j]);
            assert forall|i: int| 0 <= i < rows implies #[trigger] h(t, i) == c * e(i) by {
                assert(transposed(a)[t][i] == a[i][t]);
                let x = r.at(g[i][j]);
                let y = r.at(a[i][t]);
                assert(x * (y * c) == c * (y * x)) by (nonlinear_arith);
            }
            lemma_sum_scale(rows, c, e, |i: int| h(t, i));
            let total_e = sum_of(rows, e);
            assert(c * total_e == total_e * c) by (nonlinear_arith);
        }
        lemma_sum_same(inner, turned, |t: int| right(t, j));
        let across = |i: int| sum_of(inner, |t: int| f(i, t));
        assert forall|i: int| 0 <= i < rows implies two_t(j, i) == #[trigger] across(i) by {
            lemma_sum_same(inner, |t: int| second(i, j, t), |t: int| f(i, t));
        }
        lemma_sum_same(rows, across, |i: int| two_t(j, i));
    }
    lemma_sum_same(cols, by_col, by_col_right);
    lemma_over_swap(inner, cols, right);
    assert(sum_over(rows, cols, one) == sum_over(rows, inner, left));
    let right_t = |j: int, t: int| right(t, j);
    assert(sum_over(rows, cols, two) == sum_over(cols, rows, two_t));
    assert(sum_over(cols, rows, two_t) == sum_over(cols, inner, right_t)) by {
        let a1 = |j: int| sum_of(inner, |t: int| right_t(j, t));
        assert forall|j: int| 0 <= j < cols implies #[trigger] by_col_right(j) == a1(j) by {
            lemma_sum_same(inner, |t: int| right(t, j), |t: int| right_t(j, t));
        }
        lemma_sum_same(cols, by_col_right, a1);
    }
    assert(sum_over(inner, cols, right) == sum_over(cols, inner, right_t));
    assert(pull(r, rows, cols, g, p) == sum_over(rows, cols, whole));
    assert(pull(r, rows, inner, da, a) == sum_over(rows, inner, left));
    assert(pull(r, inner, cols, db, b) == sum_over(inner, cols, right));
}

} // verus!
