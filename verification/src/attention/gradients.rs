//! What attention and its gradients are over real numbers.

use vstd::prelude::*;

use crate::activation::{law_softmax_shares_out, shares_of, softmaxed};
use crate::attention::self_attention::{
    attended, attention_weights, key_scale, masked_scores, row_dot, score_gradient, SelfAttention,
};
use crate::calculus::{law_product_gradients, law_product_is_the_product, lemma_transposed, pull};
use crate::matrix::{grid, has_shape, law_transpose_twice, product, transposed};
use crate::numbers::{Arithmetic, Term};
use crate::reals::{
    exact, lemma_over_add, lemma_over_same, lemma_over_swap, lemma_sum_add, lemma_sum_same, lemma_sum_scale, lemma_zero,
    sum_of, sum_over, Reals,
};
use crate::rows::{accumulated, divided};

verus! {

/// How well a query matches a key.
pub open spec fn match_of<T>(r: Reals<T>, query: Seq<T>, key: Seq<T>, width: nat) -> real {
    sum_of(width, |t: int| r.at(query[t]) * r.at(key[t]))
}

/// Whether the weights are those of causal attention: each query shares one out among the keys up to
/// its own position, to each in proportion to the exponential of how well they match, divided by
/// `root`, the square root of `d_k`; later keys get nothing.
pub open spec fn attends<N: Arithmetic>(
    n: &N,
    r: Reals<N::Num>,
    q: Seq<Seq<N::Num>>,
    k: Seq<Seq<N::Num>>,
    width: nat,
    d_k: usize,
    offset: nat,
    weights: Seq<Seq<N::Num>>,
    root: real,
) -> bool {
    &&& root > 0 as real
    &&& root * root == d_k as real
    &&& has_shape(weights, q.len(), k.len())
    &&& r.grid(weights)
    &&& forall|i: int| 0 <= i < q.len() ==> sum_of(k.len(), |j: int| r.at((#[trigger] weights[i])[j])) == 1 as real
    &&& forall|i: int, j: int|
        0 <= i < q.len() && 0 <= j < k.len() ==> if j <= offset + i {
            r.at(#[trigger] weights[i][j]) > 0 as real
        } else {
            r.at(weights[i][j]) == 0 as real
        }
    &&& forall|i: int, j: int, l: int|
        0 <= i < q.len() && 0 <= j < k.len() && 0 <= l < k.len() && j <= offset + i && l <= offset + i ==> r.at(
            #[trigger] weights[i][j],
        ) * r.exp(match_of(r, q[i], k[l], width) / root) == r.at(#[trigger] weights[i][l]) * r.exp(
            match_of(r, q[i], k[j], width) / root,
        )
}

proof fn lemma_scale<N: Arithmetic>(n: &N, r: Reals<N::Num>, d_k: usize)
    requires
        exact(n, r),
        d_k > 0,
    ensures
        r.holds(key_scale(n, d_k)),
        r.at(key_scale(n, d_k)) > 0 as real,
        r.at(key_scale(n, d_k)) * r.at(key_scale(n, d_k)) == d_k as real,
        r.rate(key_scale(n, d_k)) == 0 as real,
{
    let c = n.value(Term::Count(d_k));
    let s = key_scale(n, d_k);
    assert(r.at(c) == d_k as real && r.rate(c) == 0 as real);
    let a = r.at(s);
    let d = r.rate(s);
    let w = d_k as real;
    assert(w > 0 as real);
    assert(a > 0 as real) by (nonlinear_arith)
        requires
            a >= 0 as real,
            a * a == w,
            w > 0 as real,
    ;
    assert(d == 0 as real) by (nonlinear_arith)
        requires
            (2 as real) * a * d == 0 as real,
            a > 0 as real,
    ;
}

/// The scores: where they are open, they are the matches divided by the scale, and move as those do;
/// elsewhere they are negative infinity.
proof fn lemma_scores<N: Arithmetic>(
    n: &N,
    r: Reals<N::Num>,
    q: Seq<Seq<N::Num>>,
    k: Seq<Seq<N::Num>>,
    width: nat,
    d_k: usize,
    offset: nat,
)
    requires
        exact(n, r),
        q.len() > 0,
        k.len() > 0,
        width > 0,
        d_k > 0,
        has_shape(q, q.len(), width),
        has_shape(k, k.len(), width),
        r.grid(q),
        r.grid(k),
    ensures
        ({
            let p = product(n, q, transposed(k));
            let s = masked_scores(n, q, k, d_k, offset);
            let scale = key_scale(n, d_k);
            &&& has_shape(s, q.len(), k.len())
            &&& has_shape(p, q.len(), k.len())
            &&& r.grid(p)
            &&& forall|i: int, j: int|
                0 <= i < q.len() && 0 <= j < k.len() ==> if j <= offset + i {
                    &&& r.holds(#[trigger] s[i][j])
                    &&& r.at(s[i][j]) * r.at(scale) == r.at(p[i][j])
                    &&& r.rate(s[i][j]) * r.at(scale) == r.rate(p[i][j])
                } else {
                    s[i][j] == n.value(Term::NegInfinity)
                }
            &&& forall|i: int, j: int|
                0 <= i < q.len() && 0 <= j < k.len() ==> r.at(#[trigger] p[i][j]) == match_of(r, q[i], k[j], width)
        }),
{
    let p = product(n, q, transposed(k));
    let s = masked_scores(n, q, k, d_k, offset);
    let scale = key_scale(n, d_k);
    let d = divided(n, p, scale);
    lemma_scale(n, r, d_k);
    lemma_transposed(r, k, k.len(), width);
    law_product_is_the_product(n, r, q, transposed(k), q.len(), width, k.len());
    assert(d[0].len() == k.len()) by {
        assert(p[0].len() == k.len());
    }
    assert forall|i: int| 0 <= i < q.len() implies (#[trigger] s[i]).len() == k.len() by {
        assert(p[i].len() == k.len());
    }
    assert forall|i: int, j: int| 0 <= i < q.len() && 0 <= j < k.len() implies (if j <= offset + i {
        &&& r.holds(#[trigger] s[i][j])
        &&& r.at(s[i][j]) * r.at(scale) == r.at(p[i][j])
        &&& r.rate(s[i][j]) * r.at(scale) == r.rate(p[i][j])
    } else {
        s[i][j] == n.value(Term::NegInfinity)
    }) by {
        assert(p[i].len() == k.len());
        assert(r.all(p[i]));
        assert(r.holds(p[i][j]));
        if j <= offset + i {
            assert(s[i][j] == d[i][j]);
            assert(d[i][j] == n.value(Term::Div(p[i][j], scale)));
            let v = r.at(s[i][j]);
            assert(v * (0 as real) == 0 as real) by (nonlinear_arith);
        }
    }
    assert forall|i: int, j: int| 0 <= i < q.len() && 0 <= j < k.len() implies r.at(#[trigger] p[i][j]) == match_of(
        r,
        q[i],
        k[j],
        width,
    ) by {
        assert forall|t: int| 0 <= t < width implies #[trigger] transposed(k)[t][j] == k[j][t] by {}
        lemma_sum_same(
            width,
            |t: int| r.at(q[i][t]) * r.at(transposed(k)[t][j]),
            |t: int| r.at(q[i][t]) * r.at(k[j][t]),
        );
    }
}

proof fn lemma_weights<N: Arithmetic>(
    n: &N,
    r: Reals<N::Num>,
    q: Seq<Seq<N::Num>>,
    k: Seq<Seq<N::Num>>,
    width: nat,
    d_k: usize,
    offset: nat,
)
    requires
        exact(n, r),
        q.len() > 0,
        k.len() > 0,
        width > 0,
        d_k > 0,
        has_shape(q, q.len(), width),
        has_shape(k, k.len(), width),
        r.grid(q),
        r.grid(k),
    ensures
        ({
            let s = masked_scores(n, q, k, d_k, offset);
            let w = attention_weights(n, q, k, d_k, offset);
            &&& has_shape(w, q.len(), k.len())
            &&& r.grid(w)
            &&& forall|i: int| 0 <= i < q.len() ==> shares_of(n, r, s[i], #[trigger] w[i])
        }),
{
    let s = masked_scores(n, q, k, d_k, offset);
    let w = attention_weights(n, q, k, d_k, offset);
    lemma_scores(n, r, q, k, width, d_k, offset);
    assert forall|i: int| 0 <= i < q.len() implies shares_of(n, r, s[i], #[trigger] w[i]) && w[i].len() == k.len() && r.all(
        w[i],
    ) by {
        assert(s[i].len() == k.len());
        assert forall|j: int| 0 <= j < s[i].len() implies r.holds(#[trigger] s[i][j]) || s[i][j] == n.value(
            Term::NegInfinity,
        ) by {}
        assert(r.holds(s[i][0]));
        law_softmax_shares_out(n, r, s[i], 0);
        assert(w[i] == softmaxed(n, s[i]));
    }
}

/// Attention is causal and shares out by the exponentials of the matches.
pub proof fn law_attention_weights<N: Arithmetic>(
    n: &N,
    r: Reals<N::Num>,
    q: Seq<Seq<N::Num>>,
    k: Seq<Seq<N::Num>>,
    width: nat,
    d_k: usize,
    offset: nat,
) -> (root: real)
    requires
        exact(n, r),
        q.len() > 0,
        k.len() > 0,
        width > 0,
        d_k > 0,
        has_shape(q, q.len(), width),
        has_shape(k, k.len(), width),
        r.grid(q),
        r.grid(k),
    ensures
        attends(n, r, q, k, width, d_k, offset, attention_weights(n, q, k, d_k, offset), root),
{
    let p = product(n, q, transposed(k));
    let s = masked_scores(n, q, k, d_k, offset);
    let w = attention_weights(n, q, k, d_k, offset);
    let root = r.at(key_scale(n, d_k));
    lemma_scale(n, r, d_k);
    lemma_scores(n, r, q, k, width, d_k, offset);
    lemma_weights(n, r, q, k, width, d_k, offset);
    assert forall|i: int| 0 <= i < q.len() implies sum_of(k.len(), |j: int| r.at((#[trigger] w[i])[j])) == 1 as real by {
        assert(shares_of(n, r, s[i], w[i]));
        assert(s[i].len() == k.len());
    }
    assert forall|i: int, j: int| 0 <= i < q.len() && 0 <= j < k.len() implies (if j <= offset + i {
        r.at(#[trigger] w[i][j]) > 0 as real
    } else {
        r.at(w[i][j]) == 0 as real
    }) by {
        assert(shares_of(n, r, s[i], w[i]));
        assert(s[i].len() == k.len());
        assert(r.holds(s[i][j]) == (j <= offset + i));
    }
    assert forall|i: int, j: int, l: int|
        0 <= i < q.len() && 0 <= j < k.len() && 0 <= l < k.len() && j <= offset + i && l <= offset + i implies r.at(
        #[trigger] w[i][j],
    ) * r.exp(match_of(r, q[i], k[l], width) / root) == r.at(#[trigger] w[i][l]) * r.exp(
        match_of(r, q[i], k[j], width) / root,
    ) by {
        assert(shares_of(n, r, s[i], w[i]));
        assert(s[i].len() == k.len());
        assert(r.holds(s[i][j]) && r.holds(s[i][l]));
        lemma_quotient(r.at(s[i][j]), root, r.at(p[i][j]));
        lemma_quotient(r.at(s[i][l]), root, r.at(p[i][l]));
        assert(r.at(p[i][j]) == match_of(r, q[i], k[j], width));
        assert(r.at(p[i][l]) == match_of(r, q[i], k[l], width));
    }
    root
}

proof fn lemma_quotient(x: real, y: real, z: real)
    requires
        y > 0 as real,
        x * y == z,
    ensures
        x == z / y,
{
    let d = z / y;
    assert(x == d) by (nonlinear_arith)
        requires
            d == z / y,
            x * y == z,
            y > 0 as real,
    ;
}

/// What comes out of attention is the values, each taken as much as its weight says.
pub proof fn law_attention_blends<N: Arithmetic>(
    n: &N,
    r: Reals<N::Num>,
    q: Seq<Seq<N::Num>>,
    k: Seq<Seq<N::Num>>,
    v: Seq<Seq<N::Num>>,
    width: nat,
    out_width: nat,
    d_k: usize,
    offset: nat,
)
    requires
        exact(n, r),
        q.len() > 0,
        k.len() > 0,
        width > 0,
        d_k > 0,
        has_shape(q, q.len(), width),
        has_shape(k, k.len(), width),
        has_shape(v, k.len(), out_width),
        r.grid(q),
        r.grid(k),
        r.grid(v),
    ensures
        ({
            let w = attention_weights(n, q, k, d_k, offset);
            let out = attended(n, q, k, v, d_k, offset);
            &&& has_shape(out, q.len(), out_width)
            &&& r.grid(out)
            &&& forall|i: int, c: int|
                0 <= i < q.len() && 0 <= c < out_width ==> r.at(#[trigger] out[i][c]) == sum_of(
                    k.len(),
                    |j: int| r.at(w[i][j]) * r.at(v[j][c]),
                )
        }),
{
    lemma_weights(n, r, q, k, width, d_k, offset);
    law_product_is_the_product(
        n,
        r,
        attention_weights(n, q, k, d_k, offset),
        v,
        q.len(),
        k.len(),
        out_width,
    );
}

proof fn lemma_row_dot<N: Arithmetic>(n: &N, r: Reals<N::Num>, a: Seq<N::Num>, b: Seq<N::Num>, k: nat)
    requires
        exact(n, r),
        k <= a.len(),
        k <= b.len(),
        r.all(a),
        r.all(b),
    ensures
        r.holds(row_dot(n, a, b, k)),
        r.at(row_dot(n, a, b, k)) == sum_of(k, |j: int| r.at(a[j]) * r.at(b[j])),
    decreases k,
{
    lemma_zero(n, r);
    if k > 0 {
        lemma_row_dot(n, r, a, b, (k - 1) as nat);
        assert(r.holds(a[k - 1]) && r.holds(b[k - 1]));
        assert(r.holds(n.value(Term::Mul(a[k - 1], b[k - 1]))));
    }
}

/// The gradient through a softmax: the movement of the shares, weighed by a gradient, comes from each
/// score by its share times how far its gradient is above the mean of all, weighed by the shares.
proof fn lemma_softmax_gradient<N: Arithmetic>(
    n: &N,
    r: Reals<N::Num>,
    x: Seq<N::Num>,
    y: Seq<N::Num>,
    g: Seq<N::Num>,
)
    requires
        shares_of(n, r, x, y),
        g.len() == x.len(),
    ensures
        sum_of(x.len(), |j: int| r.at(g[j]) * r.rate(y[j])) == sum_of(
            x.len(),
            |j: int|
                r.at(y[j]) * (r.at(g[j]) - sum_of(x.len(), |l: int| r.at(g[l]) * r.at(y[l]))) * r.rate(x[j]),
        ),
{
    let len = x.len();
    let mean_rate = sum_of(len, |k: int| r.at(y[k]) * r.rate(x[k]));
    let mean_grad = sum_of(len, |l: int| r.at(g[l]) * r.at(y[l]));
    let left = |j: int| r.at(g[j]) * r.rate(y[j]);
    let shared = |j: int| r.at(g[j]) * r.at(y[j]) * r.rate(x[j]);
    let gy = |l: int| r.at(g[l]) * r.at(y[l]);
    let yx = |k: int| r.at(y[k]) * r.rate(x[k]);
    let a = |j: int| -mean_rate * gy(j);
    let b = |j: int| -mean_grad * yx(j);
    let right = |j: int| r.at(y[j]) * (r.at(g[j]) - mean_grad) * r.rate(x[j]);
    assert forall|j: int| 0 <= j < len implies #[trigger] left(j) == shared(j) + a(j) by {
        let p = r.at(g[j]);
        let u = r.at(y[j]);
        let v = r.rate(x[j]);
        let d = r.rate(y[j]);
        assert(p * d == p * u * v + -mean_rate * (p * u)) by (nonlinear_arith)
            requires
                d == u * (v - mean_rate),
        ;
    }
    lemma_sum_add(len, shared, a, left);
    lemma_sum_scale(len, -mean_rate, gy, a);
    assert forall|j: int| 0 <= j < len implies #[trigger] right(j) == shared(j) + b(j) by {
        let p = r.at(g[j]);
        let u = r.at(y[j]);
        let v = r.rate(x[j]);
        assert(u * (p - mean_grad) * v == p * u * v + -mean_grad * (u * v)) by (nonlinear_arith);
    }
    lemma_sum_add(len, shared, b, right);
    lemma_sum_scale(len, -mean_grad, yx, b);
    lemma_sum_same(len, gy, |l: int| r.at(g[l]) * r.at(y[l]));
    lemma_sum_same(len, yx, |k: int| r.at(y[k]) * r.rate(x[k]));
    assert(-mean_rate * mean_grad == -mean_grad * mean_rate) by (nonlinear_arith);
    lemma_sum_same(len, left, |j: int| r.at(g[j]) * r.rate(y[j]));
    lemma_sum_same(
        len,
        right,
        |j: int| r.at(y[j]) * (r.at(g[j]) - sum_of(len, |l: int| r.at(g[l]) * r.at(y[l]))) * r.rate(x[j]),
    );
}

/// The gradient of the scores is the derivative of the weights: the movement of the weights, weighed
/// by their gradient, comes from the matches of queries and keys by the gradient of the scores.
pub proof fn law_score_gradient<N: Arithmetic>(
    n: &N,
    r: Reals<N::Num>,
    q: Seq<Seq<N::Num>>,
    k: Seq<Seq<N::Num>>,
    d_weights: Seq<Seq<N::Num>>,
    width: nat,
    d_k: usize,
)
    requires
        exact(n, r),
        q.len() > 0,
        k.len() == q.len(),
        width > 0,
        d_k > 0,
        has_shape(q, q.len(), width),
        has_shape(k, k.len(), width),
        has_shape(d_weights, q.len(), q.len()),
        r.grid(q),
        r.grid(k),
        r.grid(d_weights),
    ensures
        ({
            let len = q.len();
            let w = attention_weights(n, q, k, d_k, 0);
            let g = score_gradient(n, w, d_weights, key_scale(n, d_k), len);
            &&& has_shape(g, len, len)
            &&& r.grid(g)
            &&& pull(r, len, len, d_weights, w) == pull(r, len, len, g, product(n, q, transposed(k)))
        }),
{
    let len = q.len();
    let p = product(n, q, transposed(k));
    let s = masked_scores(n, q, k, d_k, 0);
    let w = attention_weights(n, q, k, d_k, 0);
    let scale = key_scale(n, d_k);
    let g = score_gradient(n, w, d_weights, scale, len);
    lemma_zero(n, r);
    lemma_scale(n, r, d_k);
    lemma_scores(n, r, q, k, width, d_k, 0);
    lemma_weights(n, r, q, k, width, d_k, 0);
    let left = |i: int| sum_of(len, |j: int| r.at(d_weights[i][j]) * r.rate(w[i][j]));
    let right = |i: int| sum_of(len, |j: int| r.at(g[i][j]) * r.rate(p[i][j]));
    assert forall|i: int| 0 <= i < len implies r.all(#[trigger] g[i]) && left(i) == right(i) by {
        let c = r.at(scale);
        let dw = d_weights[i];
        let y = w[i];
        assert(shares_of(n, r, s[i], y));
        assert(s[i].len() == len && y.len() == len && dw.len() == len);
        assert(r.all(dw) && r.all(y) && r.all(p[i]) && p[i].len() == len);
        lemma_row_dot(n, r, dw, y, len);
        let mean = r.at(row_dot(n, dw, y, len));
        lemma_softmax_gradient(n, r, s[i], y, dw);
        let by_score = |j: int| r.at(y[j]) * (r.at(dw[j]) - mean) * r.rate(s[i][j]);
        lemma_sum_same(
            len,
            by_score,
            |j: int|
                r.at(y[j]) * (r.at(dw[j]) - sum_of(len, |l: int| r.at(dw[l]) * r.at(y[l]))) * r.rate(s[i][j]),
        );
        let by_match = |j: int| r.at(g[i][j]) * r.rate(p[i][j]);
        assert forall|j: int| 0 <= j < len implies r.holds(#[trigger] g[i][j]) && by_score(j) == by_match(j) by {
            assert(r.holds(dw[j]) && r.holds(y[j]) && r.holds(p[i][j]));
            let a = r.at(y[j]);
            let b = r.at(dw[j]) - mean;
            let v = r.rate(s[i][j]);
            let u = r.rate(p[i][j]);
            let e = r.at(g[i][j]);
            if j <= i {
                assert(r.holds(s[i][j]));
                assert(v * c == u);
                assert(e * c == a * b);
                assert(a * b * v == e * u) by (nonlinear_arith)
                    requires
                        v * c == u,
                        e * c == a * b,
                ;
            } else {
                assert(s[i][j] == n.value(Term::NegInfinity));
                assert(a == 0 as real);
                assert(a * b * v == e * u) by (nonlinear_arith)
                    requires
                        a == 0 as real,
                        e == 0 as real,
                ;
            }
        }
        assert forall|j: int| 0 <= j < len implies #[trigger] by_score(j) == by_match(j) by {
            assert(r.holds(g[i][j]));
        }
        lemma_sum_same(len, by_score, by_match);
        lemma_sum_same(len, |j: int| r.at(dw[j]) * r.rate(y[j]), |j: int| r.at(d_weights[i][j]) * r.rate(w[i][j]));
        lemma_sum_same(len, by_match, |j: int| r.at(g[i][j]) * r.rate(p[i][j]));
    }
    lemma_sum_same(len, left, right);
    lemma_by_rows(r, len, len, d_weights, w, left);
    lemma_by_rows(r, len, len, g, p, right);
}

/// The movement of a matrix, row by row.
pub proof fn lemma_by_rows<T>(
    r: Reals<T>,
    rows: nat,
    cols: nat,
    g: Seq<Seq<T>>,
    x: Seq<Seq<T>>,
    row: spec_fn(int) -> real,
)
    requires
        forall|i: int|
            0 <= i < rows ==> #[trigger] row(i) == sum_of(cols, |j: int| r.at(g[i][j]) * r.rate(x[i][j])),
    ensures
        pull(r, rows, cols, g, x) == sum_of(rows, row),
{
    let f = |i: int, j: int| r.at(g[i][j]) * r.rate(x[i][j]);
    let a = |i: int| sum_of(cols, |j: int| f(i, j));
    assert forall|i: int| 0 <= i < rows implies #[trigger] a(i) == row(i) by {
        assert(row(i) == sum_of(cols, |j: int| r.at(g[i][j]) * r.rate(x[i][j])));
        lemma_sum_same(cols, |j: int| f(i, j), |j: int| r.at(g[i][j]) * r.rate(x[i][j]));
    }
    lemma_sum_same(rows, a, row);
    assert(pull(r, rows, cols, g, x) == sum_over(rows, cols, f));
}

/// The gradients of attention: the movement of what comes out, weighed by a gradient, comes from the
/// queries, keys and values by the gradients that the backward pass gives them.
pub proof fn law_attention_gradients<N: Arithmetic>(
    n: &N,
    r: Reals<N::Num>,
    q: Seq<Seq<N::Num>>,
    k: Seq<Seq<N::Num>>,
    v: Seq<Seq<N::Num>>,
    d_out: Seq<Seq<N::Num>>,
    width: nat,
    out_width: nat,
    d_k: usize,
)
    requires
        exact(n, r),
        q.len() > 0,
        k.len() == q.len(),
        width > 0,
        out_width > 0,
        d_k > 0,
        has_shape(q, q.len(), width),
        has_shape(k, q.len(), width),
        has_shape(v, q.len(), out_width),
        has_shape(d_out, q.len(), out_width),
        r.grid(q),
        r.grid(k),
        r.grid(v),
        r.grid(d_out),
    ensures
        ({
            let len = q.len();
            let w = attention_weights(n, q, k, d_k, 0);
            let d_weights = product(n, d_out, transposed(v));
            let d_scores = score_gradient(n, w, d_weights, key_scale(n, d_k), len);
            let d_q = product(n, d_scores, k);
            let d_key = product(n, transposed(d_scores), q);
            let d_v = product(n, transposed(w), d_out);
            &&& has_shape(d_q, len, width)
            &&& has_shape(d_key, len, width)
            &&& has_shape(d_v, len, out_width)
            &&& r.grid(d_q)
            &&& r.grid(d_key)
            &&& r.grid(d_v)
            &&& pull(r, len, out_width, d_out, attended(n, q, k, v, d_k, 0)) == pull(r, len, width, d_q, q) + pull(
                r,
                len,
                width,
                d_key,
                k,
            ) + pull(r, len, out_width, d_v, v)
        }),
{
    let len = q.len();
    let w = attention_weights(n, q, k, d_k, 0);
    let p = product(n, q, transposed(k));
    let d_weights = product(n, d_out, transposed(v));
    let d_scores = score_gradient(n, w, d_weights, key_scale(n, d_k), len);
    let d_q = product(n, d_scores, k);
    let d_key = product(n, transposed(d_scores), q);
    lemma_weights(n, r, q, k, width, d_k, 0);
    law_product_gradients(n, r, w, v, d_out, len, len, out_width);
    law_score_gradient(n, r, q, k, d_weights, width, d_k);
    lemma_transposed(r, k, len, width);
    law_product_gradients(n, r, q, transposed(k), d_scores, len, width, len);
    law_transpose_twice(k, len, width);
    // The gradient of the transposed keys is that of the keys, transposed.
    let turned = product(n, transposed(q), d_scores);
    lemma_transposed(r, q, len, width);
    lemma_transposed(r, d_scores, len, len);
    law_product_is_the_product(n, r, transposed(q), d_scores, width, len, len);
    law_product_is_the_product(n, r, transposed(d_scores), q, len, len, width);
    let across = |t: int, j: int| r.at(turned[t][j]) * r.rate(transposed(k)[t][j]);
    let along = |j: int, t: int| r.at(d_key[j][t]) * r.rate(k[j][t]);
    lemma_over_swap(width, len, across);
    assert forall|j: int, t: int| 0 <= j < len && 0 <= t < width implies #[trigger] along(j, t) == across(t, j) by {
        assert(transposed(k)[t][j] == k[j][t]);
        let f = |i: int| r.at(transposed(q)[t][i]) * r.at(d_scores[i][j]);
        let h = |i: int| r.at(transposed(d_scores)[j][i]) * r.at(q[i][t]);
        assert(r.at(turned[t][j]) == sum_of(len, f));
        assert(r.at(d_key[j][t]) == sum_of(len, h));
        assert forall|i: int| 0 <= i < len implies #[trigger] f(i) == h(i) by {
            assert(transposed(q)[t][i] == q[i][t]);
            assert(transposed(d_scores)[j][i] == d_scores[i][j]);
            let a = r.at(q[i][t]);
            let b = r.at(d_scores[i][j]);
            assert(a * b == b * a) by (nonlinear_arith);
        }
        lemma_sum_same(len, f, h);
    }
    let across_t = |j: int, t: int| across(t, j);
    lemma_over_same(len, width, along, across_t);
    assert(pull(r, width, len, turned, transposed(k)) == sum_over(width, len, across));
    assert(pull(r, len, width, d_key, k) == sum_over(len, width, along));
    law_product_is_the_product(n, r, d_scores, k, len, len, width);
}

/// An element of the product of two matrices of real numbers.
pub open spec fn projected<T>(r: Reals<T>, x: Seq<Seq<T>>, w: Seq<Seq<T>>, width: nat, i: int, c: int) -> real {
    sum_of(width, |t: int| r.at(x[i][t]) * r.at(w[t][c]))
}

/// An element of what was kept, or behind it of an input turned by weights.
pub open spec fn kept_or_projected<T>(
    r: Reals<T>,
    past: Seq<Seq<T>>,
    x: Seq<Seq<T>>,
    w: Seq<Seq<T>>,
    width: nat,
    j: int,
    c: int,
) -> real {
    if j < past.len() {
        r.at(past[j][c])
    } else {
        projected(r, x, w, width, j - past.len(), c)
    }
}

/// How well the query of token `i` matches key `j`.
pub open spec fn head_match<T: Copy>(r: Reals<T>, head: SelfAttention<T>, x: Seq<Seq<T>>, i: int, j: int) -> real {
    sum_of(
        head.d_k as nat,
        |c: int|
            projected(r, x, grid(head.w_q.data@), head.d_model as nat, i, c) * kept_or_projected(
                r,
                head.past_keys(),
                x,
                grid(head.w_k.data@),
                head.d_model as nat,
                j,
                c,
            ),
    )
}

/// The sum of a row.
pub open spec fn row_sum(cols: nat, f: spec_fn(int, int) -> real, i: int) -> real {
    sum_of(cols, |j: int| f(i, j))
}

/// Whether what comes out is the values, taken by shares of one: token `i` takes from keys up to its
/// own position, from each in proportion to the exponential of their match over `root`.
pub open spec fn taken_by<T: Copy>(
    r: Reals<T>,
    head: SelfAttention<T>,
    x: Seq<Seq<T>>,
    out: Seq<Seq<T>>,
    share: spec_fn(int, int) -> real,
    root: real,
) -> bool {
    let past = head.past_keys().len();
    let all = past + x.len();
    &&& root > 0 as real
    &&& root * root == head.d_k as real
    &&& has_shape(out, x.len(), head.d_v as nat)
    &&& r.grid(out)
    &&& forall|i: int| 0 <= i < x.len() ==> #[trigger] row_sum(all, share, i) == 1 as real
    &&& forall|i: int, j: int|
        0 <= i < x.len() && 0 <= j < all ==> if j <= past + i {
            #[trigger] share(i, j) > 0 as real
        } else {
            share(i, j) == 0 as real
        }
    &&& forall|i: int, j: int, l: int|
        0 <= i < x.len() && 0 <= j <= past + i && 0 <= l <= past + i ==> #[trigger] share(i, j) * r.exp(
            head_match(r, head, x, i, l) / root,
        ) == #[trigger] share(i, l) * r.exp(head_match(r, head, x, i, j) / root)
    &&& forall|i: int, c: int|
        0 <= i < x.len() && 0 <= c < head.d_v ==> r.at(#[trigger] out[i][c]) == sum_of(
            all,
            |j: int|
                share(i, j) * kept_or_projected(
                    r,
                    head.past_values(),
                    x,
                    grid(head.w_v.data@),
                    head.d_model as nat,
                    j,
                    c,
                ),
        )
}

/// Whether `out` is what causal attention makes of `x`.
pub open spec fn is_attention<T: Copy>(r: Reals<T>, head: SelfAttention<T>, x: Seq<Seq<T>>, out: Seq<Seq<T>>) -> bool {
    exists|share: spec_fn(int, int) -> real, root: real| #[trigger] taken_by(r, head, x, out, share, root)
}

proof fn lemma_kept<N: Arithmetic>(
    n: &N,
    r: Reals<N::Num>,
    past: Seq<Seq<N::Num>>,
    x: Seq<Seq<N::Num>>,
    w: Seq<Seq<N::Num>>,
    width: nat,
    cols: nat,
)
    requires
        exact(n, r),
        width > 0,
        has_shape(past, past.len(), cols),
        has_shape(x, x.len(), width),
        has_shape(w, width, cols),
        r.grid(past),
        r.grid(x),
        r.grid(w),
    ensures
        ({
            let all = past + product(n, x, w);
            &&& has_shape(all, past.len() + x.len(), cols)
            &&& r.grid(all)
            &&& forall|j: int, c: int|
                0 <= j < all.len() && 0 <= c < cols ==> r.at(#[trigger] all[j][c]) == kept_or_projected(
                    r,
                    past,
                    x,
                    w,
                    width,
                    j,
                    c,
                )
        }),
{
    let made = product(n, x, w);
    let all = past + made;
    law_product_is_the_product(n, r, x, w, x.len(), width, cols);
    assert forall|j: int| 0 <= j < all.len() implies (#[trigger] all[j]).len() == cols && r.all(all[j]) by {
        if j < past.len() {
            assert(all[j] == past[j]);
        } else {
            assert(all[j] == made[j - past.len()]);
        }
    }
    assert forall|j: int, c: int| 0 <= j < all.len() && 0 <= c < cols implies r.at(#[trigger] all[j][c])
        == kept_or_projected(r, past, x, w, width, j, c) by {
        if j >= past.len() {
            assert(all[j] == made[j - past.len()]);
            assert(r.at(made[j - past.len()][c]) == sum_of(
                width,
                |t: int| r.at(x[j - past.len()][t]) * r.at(w[t][c]),
            ));
        }
    }
}

/// A head lets every token take from the tokens up to its own, by how well they match.
pub proof fn law_head_attends<N: Arithmetic>(
    n: &N,
    r: Reals<N::Num>,
    head: SelfAttention<N::Num>,
    x: Seq<Seq<N::Num>>,
)
    requires
        exact(n, r),
        head.looks_at(r, x),
    ensures
        is_attention(
            r,
            head,
            x,
            attended(
                n,
                head.queries(n, x),
                head.keys(n, x),
                head.values(n, x),
                head.d_k,
                head.past_keys().len(),
            ),
        ),
{
    let q = head.queries(n, x);
    let k = head.keys(n, x);
    let v = head.values(n, x);
    let past = head.past_keys().len();
    let model = head.d_model as nat;
    let width = head.d_k as nat;
    law_product_is_the_product(n, r, x, grid(head.w_q.data@), x.len(), model, width);
    lemma_kept(n, r, head.past_keys(), x, grid(head.w_k.data@), model, width);
    lemma_kept(n, r, head.past_values(), x, grid(head.w_v.data@), model, head.d_v as nat);
    let root = law_attention_weights(n, r, q, k, width, head.d_k, past);
    law_attention_blends(n, r, q, k, v, width, head.d_v as nat, head.d_k, past);
    let w = attention_weights(n, q, k, head.d_k, past);
    let out = attended(n, q, k, v, head.d_k, past);
    let all = past + x.len();
    let share = |i: int, j: int| r.at(w[i][j]);
    assert forall|i: int| 0 <= i < x.len() implies #[trigger] row_sum(all, share, i) == 1 as real by {
        lemma_sum_same(all, |j: int| r.at(w[i][j]), |j: int| share(i, j));
        assert(sum_of(k.len(), |j: int| r.at(w[i][j])) == 1 as real);
    }
    assert forall|i: int, j: int| 0 <= i < x.len() && 0 <= j < all implies match_of(r, q[i], k[j], width)
        == #[trigger] head_match(r, head, x, i, j) by {
        let f = |t: int| r.at(q[i][t]) * r.at(k[j][t]);
        let g = |c: int|
            projected(r, x, grid(head.w_q.data@), model, i, c) * kept_or_projected(
                r,
                head.past_keys(),
                x,
                grid(head.w_k.data@),
                model,
                j,
                c,
            );
        assert forall|c: int| 0 <= c < width implies #[trigger] f(c) == g(c) by {
            assert(r.at(q[i][c]) == sum_of(model, |t: int| r.at(x[i][t]) * r.at(grid(head.w_q.data@)[t][c])));
            assert(r.at(k[j][c]) == kept_or_projected(r, head.past_keys(), x, grid(head.w_k.data@), model, j, c));
        }
        lemma_sum_same(width, f, g);
    }
    assert forall|i: int, j: int, l: int| 0 <= i < x.len() && 0 <= j <= past + i && 0 <= l <= past + i implies #[trigger] share(
        i,
        j,
    ) * r.exp(head_match(r, head, x, i, l) / root) == #[trigger] share(i, l) * r.exp(
        head_match(r, head, x, i, j) / root,
    ) by {
        assert(match_of(r, q[i], k[j], width) == head_match(r, head, x, i, j));
        assert(match_of(r, q[i], k[l], width) == head_match(r, head, x, i, l));
        assert(r.at(w[i][j]) * r.exp(match_of(r, q[i], k[l], width) / root) == r.at(w[i][l]) * r.exp(
            match_of(r, q[i], k[j], width) / root,
        ));
    }
    assert forall|i: int, c: int| 0 <= i < x.len() && 0 <= c < head.d_v implies r.at(#[trigger] out[i][c]) == sum_of(
        all,
        |j: int|
            share(i, j) * kept_or_projected(r, head.past_values(), x, grid(head.w_v.data@), model, j, c),
    ) by {
        let f = |j: int| r.at(w[i][j]) * r.at(v[j][c]);
        let g = |j: int|
            share(i, j) * kept_or_projected(r, head.past_values(), x, grid(head.w_v.data@), model, j, c);
        assert(r.at(out[i][c]) == sum_of(k.len(), f));
        assert forall|j: int| 0 <= j < all implies #[trigger] f(j) == g(j) by {
            assert(r.at(v[j][c]) == kept_or_projected(r, head.past_values(), x, grid(head.w_v.data@), model, j, c));
        }
        lemma_sum_same(all, f, g);
    }
    assert(taken_by(r, head, x, out, share, root));
}

/// How much of a movement comes from weights by what was added to their gradients.
pub open spec fn gained<T>(
    r: Reals<T>,
    rows: nat,
    cols: nat,
    before: Seq<Seq<T>>,
    after: Seq<Seq<T>>,
    weights: Seq<Seq<T>>,
) -> real {
    sum_over(rows, cols, |i: int, j: int| (r.at(after[i][j]) - r.at(before[i][j])) * r.rate(weights[i][j]))
}

/// Whether a backward pass found the derivative of the forward pass: the movement of what came out,
/// weighed by a gradient, comes from the input by the gradient that is handed back, and from the
/// weights by what is added to their gradients.
pub open spec fn descends<N: Arithmetic>(
    n: &N,
    r: Reals<N::Num>,
    before: SelfAttention<N::Num>,
    after: SelfAttention<N::Num>,
    d_out: Seq<Seq<N::Num>>,
    d_x: Seq<Seq<N::Num>>,
) -> bool {
    let x = grid(before.cache_x@);
    let model = before.d_model as nat;
    let width = before.d_k as nat;
    let wide = before.d_v as nat;
    let out = attended(n, grid(before.cache_q@), grid(before.cache_k@), grid(before.cache_v@), before.d_k, 0);
    pull(r, x.len(), wide, d_out, out) == pull(r, x.len(), model, d_x, x) + gained(
        r,
        model,
        width,
        grid(before.w_q.grad@),
        grid(after.w_q.grad@),
        grid(before.w_q.data@),
    ) + gained(r, model, width, grid(before.w_k.grad@), grid(after.w_k.grad@), grid(before.w_k.data@)) + gained(
        r,
        model,
        wide,
        grid(before.w_v.grad@),
        grid(after.w_v.grad@),
        grid(before.w_v.data@),
    )
}

/// What is added to gradients is what weights gain.
pub proof fn lemma_gained<N: Arithmetic>(
    n: &N,
    r: Reals<N::Num>,
    rows: nat,
    cols: nat,
    before: Seq<Seq<N::Num>>,
    added: Seq<Seq<N::Num>>,
    weights: Seq<Seq<N::Num>>,
)
    requires
        exact(n, r),
        has_shape(before, rows, cols),
        has_shape(added, rows, cols),
        r.grid(before),
        r.grid(added),
    ensures
        gained(r, rows, cols, before, accumulated(n, before, added, rows, cols), weights) == pull(
            r,
            rows,
            cols,
            added,
            weights,
        ),
{
    let after = accumulated(n, before, added, rows, cols);
    let f = |i: int, j: int| (r.at(after[i][j]) - r.at(before[i][j])) * r.rate(weights[i][j]);
    let g = |i: int, j: int| r.at(added[i][j]) * r.rate(weights[i][j]);
    assert forall|i: int, j: int| 0 <= i < rows && 0 <= j < cols implies #[trigger] f(i, j) == g(i, j) by {
        assert(r.all(before[i]) && r.all(added[i]));
        assert(before[i].len() == cols && added[i].len() == cols);
        assert(r.holds(before[i][j]) && r.holds(added[i][j]));
        assert(after[i][j] == n.value(Term::Add(before[i][j], added[i][j])));
    }
    lemma_over_same(rows, cols, f, g);
    assert(gained(r, rows, cols, before, after, weights) == sum_over(rows, cols, f));
    assert(pull(r, rows, cols, added, weights) == sum_over(rows, cols, g));
}

/// The backward pass of a head is the derivative of its forward pass.
pub proof fn law_head_gradients<N: Arithmetic>(
    n: &N,
    r: Reals<N::Num>,
    head: SelfAttention<N::Num>,
    after: SelfAttention<N::Num>,
    d_out: Seq<Seq<N::Num>>,
)
    requires
        exact(n, r),
        head.learns(n, r, d_out),
        ({
            let g = head.gradients(n, d_out);
            let model = head.d_model as nat;
            &&& grid(after.w_q.grad@) == accumulated(n, grid(head.w_q.grad@), g.w_q, model, head.d_k as nat)
            &&& grid(after.w_k.grad@) == accumulated(n, grid(head.w_k.grad@), g.w_k, model, head.d_k as nat)
            &&& grid(after.w_v.grad@) == accumulated(n, grid(head.w_v.grad@), g.w_v, model, head.d_v as nat)
        }),
    ensures
        descends(n, r, head, after, d_out, head.input_gradient(n, d_out)),
{
    let x = grid(head.cache_x@);
    let len = x.len();
    let model = head.d_model as nat;
    let width = head.d_k as nat;
    let wide = head.d_v as nat;
    let w_q = grid(head.w_q.data@);
    let w_k = grid(head.w_k.data@);
    let w_v = grid(head.w_v.data@);
    let q = grid(head.cache_q@);
    let k = grid(head.cache_k@);
    let v = grid(head.cache_v@);
    law_product_is_the_product(n, r, x, w_q, len, model, width);
    law_product_is_the_product(n, r, x, w_k, len, model, width);
    law_product_is_the_product(n, r, x, w_v, len, model, wide);
    law_attention_gradients(n, r, q, k, v, d_out, width, wide, head.d_k);
    let g = head.gradients(n, d_out);
    law_product_gradients(n, r, x, w_q, g.q, len, model, width);
    law_product_gradients(n, r, x, w_k, g.k, len, model, width);
    law_product_gradients(n, r, x, w_v, g.v, len, model, wide);
    lemma_gained(n, r, model, width, grid(head.w_q.grad@), g.w_q, w_q);
    lemma_gained(n, r, model, width, grid(head.w_k.grad@), g.w_k, w_k);
    lemma_gained(n, r, model, wide, grid(head.w_v.grad@), g.w_v, w_v);
    let a = product(n, g.q, transposed(w_q));
    let b = product(n, g.k, transposed(w_k));
    let c = product(n, g.v, transposed(w_v));
    let d_x = head.input_gradient(n, d_out);
    let fa = |i: int, j: int| r.at(a[i][j]) * r.rate(x[i][j]);
    let fb = |i: int, j: int| r.at(b[i][j]) * r.rate(x[i][j]);
    let fc = |i: int, j: int| r.at(c[i][j]) * r.rate(x[i][j]);
    let fab = |i: int, j: int| fa(i, j) + fb(i, j);
    let fx = |i: int, j: int| r.at(d_x[i][j]) * r.rate(x[i][j]);
    assert forall|i: int, j: int| 0 <= i < len && 0 <= j < model implies #[trigger] fx(i, j) == fab(i, j) + fc(i, j) by {
        assert(r.all(a[i]) && r.all(b[i]) && r.all(c[i]));
        assert(a[i].len() == model && b[i].len() == model && c[i].len() == model);
        assert(r.holds(a[i][j]) && r.holds(b[i][j]) && r.holds(c[i][j]));
        let ab = n.value(Term::Add(a[i][j], b[i][j]));
        assert(d_x[i][j] == n.value(Term::Add(ab, c[i][j])));
        let u = r.at(a[i][j]);
        let t = r.at(b[i][j]);
        let s = r.at(c[i][j]);
        let m = r.rate(x[i][j]);
        assert((u + t + s) * m == u * m + t * m + s * m) by (nonlinear_arith);
    }
    lemma_over_add(len, model, fa, fb, fab);
    lemma_over_add(len, model, fab, fc, fx);
    assert(pull(r, len, model, a, x) == sum_over(len, model, fa));
    assert(pull(r, len, model, b, x) == sum_over(len, model, fb));
    assert(pull(r, len, model, c, x) == sum_over(len, model, fc));
    assert(pull(r, len, model, d_x, x) == sum_over(len, model, fx));
}

} // verus!
