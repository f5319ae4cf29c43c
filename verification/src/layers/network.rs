//! What the two-layer network and its gradients are over real numbers.

use vstd::prelude::*;

use crate::attention::gradients::{gained, lemma_gained};
use crate::calculus::{law_product_gradients, law_product_is_the_product, pull};
use crate::layers::feed_forward::{passed_gradient, rectified, FeedForward};
use crate::matrix::{grid, has_shape, product, transposed};
use crate::numbers::{zero, Arithmetic, Question, Term};
use crate::reals::{exact, lemma_over_same, lemma_sum_same, lemma_times_zero, lemma_zero, sum_of, Reals};
use crate::rows::accumulated;

verus! {

/// A number, or zero where it is negative.
pub open spec fn positive_part(x: real) -> real {
    if x > 0 as real {
        x
    } else {
        0 as real
    }
}

/// The sum of the products of a row and a column.
pub open spec fn meets<T>(r: Reals<T>, inner: nat, a: Seq<Seq<T>>, b: Seq<Seq<T>>, i: int, j: int) -> real {
    sum_of(inner, |t: int| r.at(a[i][t]) * r.at(b[t][j]))
}

/// Whether `out` is what a network makes of `x`: the tokens widened, their negative numbers left out,
/// and narrowed.
pub open spec fn is_network<T>(
    r: Reals<T>,
    model: nat,
    wide: nat,
    x: Seq<Seq<T>>,
    w_1: Seq<Seq<T>>,
    w_2: Seq<Seq<T>>,
    out: Seq<Seq<T>>,
) -> bool {
    &&& has_shape(out, x.len(), model)
    &&& r.grid(out)
    &&& forall|i: int, j: int|
        0 <= i < x.len() && 0 <= j < model ==> r.at(#[trigger] out[i][j]) == sum_of(
            wide,
            |t: int| positive_part(meets(r, model, x, w_1, i, t)) * r.at(w_2[t][j]),
        )
}

/// Whether input and weights are real numbers and have the shapes that the widths say.
pub open spec fn is_real_network<T>(
    r: Reals<T>,
    model: nat,
    wide: nat,
    x: Seq<Seq<T>>,
    w_1: Seq<Seq<T>>,
    w_2: Seq<Seq<T>>,
) -> bool {
    &&& model > 0
    &&& wide > 0
    &&& x.len() > 0
    &&& has_shape(x, x.len(), model)
    &&& has_shape(w_1, model, wide)
    &&& has_shape(w_2, wide, model)
    &&& r.grid(x)
    &&& r.grid(w_1)
    &&& r.grid(w_2)
}

proof fn lemma_rectified<N: Arithmetic>(n: &N, r: Reals<N::Num>, hidden: Seq<Seq<N::Num>>, rows: nat, cols: nat)
    requires
        exact(n, r),
        has_shape(hidden, rows, cols),
        r.grid(hidden),
    ensures
        has_shape(rectified(n, hidden), rows, cols),
        r.grid(rectified(n, hidden)),
        forall|i: int, j: int|
            0 <= i < rows && 0 <= j < cols ==> r.at(#[trigger] rectified(n, hidden)[i][j]) == positive_part(
                r.at(hidden[i][j]),
            ) && (r.at(hidden[i][j]) > 0 as real ==> r.rate(rectified(n, hidden)[i][j]) == r.rate(hidden[i][j])) && (r.at(
                hidden[i][j],
            ) < 0 as real ==> r.rate(rectified(n, hidden)[i][j]) == 0 as real),
{
    let act = rectified(n, hidden);
    lemma_zero(n, r);
    assert forall|i: int, j: int| 0 <= i < rows && 0 <= j < cols implies r.holds(#[trigger] act[i][j]) && r.at(act[i][j])
        == positive_part(r.at(hidden[i][j])) && (r.at(hidden[i][j]) > 0 as real ==> r.rate(act[i][j]) == r.rate(
        hidden[i][j],
    )) && (r.at(hidden[i][j]) < 0 as real ==> r.rate(act[i][j]) == 0 as real) by {
        assert(r.all(hidden[i]) && hidden[i].len() == cols);
        assert(r.holds(hidden[i][j]));
        assert(act[i][j] == n.value(Term::Max(hidden[i][j], zero(n))));
    }
    assert forall|i: int| 0 <= i < act.len() implies r.all(#[trigger] act[i]) by {
        assert(hidden[i].len() == cols);
        assert forall|j: int| 0 <= j < act[i].len() implies r.holds(#[trigger] act[i][j]) by {}
    }
}

/// The network widens the tokens, leaves the negative numbers out, and narrows them again.
pub proof fn law_network<N: Arithmetic>(
    n: &N,
    r: Reals<N::Num>,
    model: nat,
    wide: nat,
    x: Seq<Seq<N::Num>>,
    w_1: Seq<Seq<N::Num>>,
    w_2: Seq<Seq<N::Num>>,
)
    requires
        exact(n, r),
        is_real_network(r, model, wide, x, w_1, w_2),
    ensures
        is_network(r, model, wide, x, w_1, w_2, product(n, rectified(n, product(n, x, w_1)), w_2)),
{
    let hidden = product(n, x, w_1);
    let act = rectified(n, hidden);
    let out = product(n, act, w_2);
    law_product_is_the_product(n, r, x, w_1, x.len(), model, wide);
    lemma_rectified(n, r, hidden, x.len(), wide);
    law_product_is_the_product(n, r, act, w_2, x.len(), wide, model);
    assert forall|i: int, j: int| 0 <= i < x.len() && 0 <= j < model implies r.at(#[trigger] out[i][j]) == sum_of(
        wide,
        |t: int| positive_part(meets(r, model, x, w_1, i, t)) * r.at(w_2[t][j]),
    ) by {
        let a = |t: int| r.at(act[i][t]) * r.at(w_2[t][j]);
        let b = |t: int| positive_part(meets(r, model, x, w_1, i, t)) * r.at(w_2[t][j]);
        assert forall|t: int| 0 <= t < wide implies #[trigger] a(t) == b(t) by {
            assert(r.at(act[i][t]) == positive_part(r.at(hidden[i][t])));
            assert(r.at(hidden[i][t]) == sum_of(model, |s: int| r.at(x[i][s]) * r.at(w_1[s][t])));
            lemma_sum_same(
                model,
                |s: int| r.at(x[i][s]) * r.at(w_1[s][t]),
                |s: int| r.at(x[i][s]) * r.at(w_1[s][t]),
            );
        }
        lemma_sum_same(wide, a, b);
        lemma_sum_same(wide, a, |t: int| r.at(act[i][t]) * r.at(w_2[t][j]));
        lemma_sum_same(wide, b, |t: int| positive_part(meets(r, model, x, w_1, i, t)) * r.at(w_2[t][j]));
    }
}

/// Whether no hidden number is zero, so that the rectifier has a derivative.
pub open spec fn decided<T>(r: Reals<T>, hidden: Seq<Seq<T>>) -> bool {
    forall|i: int, j: int|
        0 <= i < hidden.len() && 0 <= j < hidden[i].len() ==> r.at(#[trigger] hidden[i][j]) != 0 as real
}

/// The gradients of the network are its derivative: the movement of what comes out, weighed by a
/// gradient, comes from the input and from the weights by their gradients.
pub proof fn law_network_gradients<N: Arithmetic>(
    n: &N,
    r: Reals<N::Num>,
    model: nat,
    wide: nat,
    x: Seq<Seq<N::Num>>,
    w_1: Seq<Seq<N::Num>>,
    w_2: Seq<Seq<N::Num>>,
    d: Seq<Seq<N::Num>>,
)
    requires
        exact(n, r),
        is_real_network(r, model, wide, x, w_1, w_2),
        has_shape(d, x.len(), model),
        r.grid(d),
        decided(r, product(n, x, w_1)),
    ensures
        ({
            let hidden = product(n, x, w_1);
            let act = rectified(n, hidden);
            let d_hidden = passed_gradient(n, hidden, product(n, d, transposed(w_2)), x.len(), wide);
            let d_x = product(n, d_hidden, transposed(w_1));
            let d_w1 = product(n, transposed(x), d_hidden);
            let d_w2 = product(n, transposed(act), d);
            &&& has_shape(d_w1, model, wide)
            &&& r.grid(d_w1)
            &&& has_shape(d_w2, wide, model)
            &&& r.grid(d_w2)
            &&& pull(r, x.len(), model, d, product(n, act, w_2)) == pull(r, x.len(), model, d_x, x) + pull(
                r,
                model,
                wide,
                d_w1,
                w_1,
            ) + pull(r, wide, model, d_w2, w_2)
        }),
{
    let rows = x.len();
    let hidden = product(n, x, w_1);
    let act = rectified(n, hidden);
    let d_act = product(n, d, transposed(w_2));
    let d_hidden = passed_gradient(n, hidden, d_act, rows, wide);
    law_product_is_the_product(n, r, x, w_1, rows, model, wide);
    lemma_rectified(n, r, hidden, rows, wide);
    law_product_gradients(n, r, act, w_2, d, rows, wide, model);
    lemma_zero(n, r);
    let f = |i: int, j: int| r.at(d_act[i][j]) * r.rate(act[i][j]);
    let g = |i: int, j: int| r.at(d_hidden[i][j]) * r.rate(hidden[i][j]);
    assert forall|i: int, j: int| 0 <= i < rows && 0 <= j < wide implies r.holds(#[trigger] d_hidden[i][j]) && f(i, j)
        == g(i, j) by {
        assert(r.all(hidden[i]) && hidden[i].len() == wide && r.all(d_act[i]) && d_act[i].len() == wide);
        assert(r.holds(hidden[i][j]) && r.holds(d_act[i][j]));
        assert(r.at(hidden[i][j]) != 0 as real);
        assert(n.answer(Question::Less(zero(n), hidden[i][j])) == (r.at(zero(n)) < r.at(hidden[i][j])));
        assert(r.at(act[i][j]) == positive_part(r.at(hidden[i][j])));
        lemma_times_zero(r.at(d_act[i][j]));
        lemma_times_zero(r.rate(hidden[i][j]));
    }
    assert forall|i: int, j: int| 0 <= i < rows && 0 <= j < wide implies #[trigger] f(i, j) == g(i, j) by {
        assert(r.holds(d_hidden[i][j]));
    }
    assert forall|i: int| 0 <= i < d_hidden.len() implies r.all(#[trigger] d_hidden[i]) by {
        assert forall|j: int| 0 <= j < d_hidden[i].len() implies r.holds(#[trigger] d_hidden[i][j]) by {}
    }
    lemma_over_same(rows, wide, f, g);
    lemma_over_same(rows, wide, f, |i: int, j: int| r.at(d_act[i][j]) * r.rate(act[i][j]));
    lemma_over_same(rows, wide, g, |i: int, j: int| r.at(d_hidden[i][j]) * r.rate(hidden[i][j]));
    law_product_gradients(n, r, x, w_1, d_hidden, rows, model, wide);
}

/// Whether the last forward pass was one of real numbers, and the gradients so far and the one to come
/// are real numbers.
pub open spec fn network_learns<N: Arithmetic>(n: &N, r: Reals<N::Num>, net: FeedForward<N::Num>, d: Seq<Seq<N::Num>>) -> bool {
    let x = grid(net.cache_x@);
    let model = net.d_model as nat;
    let wide = net.d_ff as nat;
    &&& is_real_network(r, model, wide, x, grid(net.w_1.data@), grid(net.w_2.data@))
    &&& grid(net.cache_hidden@) == product(n, x, grid(net.w_1.data@))
    &&& grid(net.cache_activated@) == rectified(n, product(n, x, grid(net.w_1.data@)))
    &&& decided(r, grid(net.cache_hidden@))
    &&& has_shape(d, x.len(), model)
    &&& r.grid(d)
    &&& has_shape(grid(net.w_1.grad@), model, wide)
    &&& has_shape(grid(net.w_2.grad@), wide, model)
    &&& r.grid(grid(net.w_1.grad@))
    &&& r.grid(grid(net.w_2.grad@))
}

/// Whether a backward pass found the derivative of the forward pass: the movement of what came out,
/// weighed by a gradient, comes from the input by the gradient that is handed back, and from the
/// weights by what is added to their gradients.
pub open spec fn network_descends<N: Arithmetic>(
    n: &N,
    r: Reals<N::Num>,
    before: FeedForward<N::Num>,
    after: FeedForward<N::Num>,
    d: Seq<Seq<N::Num>>,
    d_x: Seq<Seq<N::Num>>,
) -> bool {
    let x = grid(before.cache_x@);
    let model = before.d_model as nat;
    let wide = before.d_ff as nat;
    let w_1 = grid(before.w_1.data@);
    let w_2 = grid(before.w_2.data@);
    pull(r, x.len(), model, d, product(n, rectified(n, product(n, x, w_1)), w_2)) == pull(r, x.len(), model, d_x, x)
        + gained(r, model, wide, grid(before.w_1.grad@), grid(after.w_1.grad@), w_1) + gained(
        r,
        wide,
        model,
        grid(before.w_2.grad@),
        grid(after.w_2.grad@),
        w_2,
    )
}

/// A backward pass finds the derivative of the forward pass.
pub proof fn law_network_descends<N: Arithmetic>(
    n: &N,
    r: Reals<N::Num>,
    before: FeedForward<N::Num>,
    after: FeedForward<N::Num>,
    d: Seq<Seq<N::Num>>,
    d_x: Seq<Seq<N::Num>>,
)
    requires
        exact(n, r),
        network_learns(n, r, before, d),
        ({
            let d_act = product(n, d, transposed(grid(before.w_2.data@)));
            let d_hidden = passed_gradient(n, grid(before.cache_hidden@), d_act, d.len(), before.d_ff as nat);
            &&& grid(after.w_2.grad@) == accumulated(
                n,
                grid(before.w_2.grad@),
                product(n, transposed(grid(before.cache_activated@)), d),
                before.d_ff as nat,
                before.d_model as nat,
            )
            &&& grid(after.w_1.grad@) == accumulated(
                n,
                grid(before.w_1.grad@),
                product(n, transposed(grid(before.cache_x@)), d_hidden),
                before.d_model as nat,
                before.d_ff as nat,
            )
            &&& d_x == product(n, d_hidden, transposed(grid(before.w_1.data@)))
        }),
    ensures
        network_descends(n, r, before, after, d, d_x),
{
    let x = grid(before.cache_x@);
    let model = before.d_model as nat;
    let wide = before.d_ff as nat;
    let w_1 = grid(before.w_1.data@);
    let w_2 = grid(before.w_2.data@);
    law_network_gradients(n, r, model, wide, x, w_1, w_2, d);
    let hidden = product(n, x, w_1);
    let d_hidden = passed_gradient(n, hidden, product(n, d, transposed(w_2)), x.len(), wide);
    lemma_gained(n, r, model, wide, grid(before.w_1.grad@), product(n, transposed(x), d_hidden), w_1);
    lemma_gained(n, r, wide, model, grid(before.w_2.grad@), product(n, transposed(rectified(n, hidden)), d), w_2);
}

} // verus!
