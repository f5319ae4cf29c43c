//! What clipping does to gradients over real numbers.

use vstd::prelude::*;

use crate::numbers::{zero, Arithmetic, Question, Term};
use crate::optimizers::clipping::{
    add_all_squares, add_row_squares, add_squares, clipped, norm_clipped, norm_factor, Clamp, ClippingStrategy, Scale,
};
use crate::optimizers::rule::ElementMap;
use crate::reals::{
    exact, lemma_commute, lemma_group, lemma_negated, lemma_product_nonnegative, lemma_spread, lemma_square,
    lemma_sum_nonnegative, lemma_sum_same, lemma_zero, rpow, sum_of, Reals,
};

verus! {

/// The squares of a row, added up.
pub open spec fn row_squares<T>(r: Reals<T>, row: Seq<T>) -> real {
    sum_of(row.len(), |j: int| r.at(row[j]) * r.at(row[j]))
}

/// The squares of a matrix, added up.
pub open spec fn squares<T>(r: Reals<T>, rows: Seq<Seq<T>>) -> real {
    sum_of(rows.len(), |i: int| row_squares(r, rows[i]))
}

/// The squares of several matrices, added up.
pub open spec fn all_squares<T>(r: Reals<T>, list: Seq<Seq<Seq<T>>>) -> real {
    sum_of(list.len(), |k: int| squares(r, list[k]))
}

/// Whether all gradients are real numbers.
pub open spec fn all_real<T>(r: Reals<T>, grads: Seq<Seq<Seq<T>>>) -> bool {
    forall|k: int| 0 <= k < grads.len() ==> r.grid(#[trigger] grads[k])
}

proof fn lemma_row_squares<N: Arithmetic>(n: &N, r: Reals<N::Num>, start: N::Num, row: Seq<N::Num>)
    requires
        exact(n, r),
        r.holds(start),
        r.all(row),
    ensures
        r.holds(add_row_squares(n, start, row)),
        r.at(add_row_squares(n, start, row)) == r.at(start) + row_squares(r, row),
    decreases row.len(),
{
    if row.len() > 0 {
        let init = row.drop_last();
        assert forall|j: int| 0 <= j < init.len() implies r.holds(#[trigger] init[j]) by {
            assert(init[j] == row[j]);
        }
        lemma_row_squares(n, r, start, init);
        assert(r.holds(row[row.len() - 1]));
        assert(r.holds(n.value(Term::Mul(row.last(), row.last()))));
        lemma_sum_same(init.len(), |j: int| r.at(init[j]) * r.at(init[j]), |j: int| r.at(row[j]) * r.at(row[j]));
    }
}

proof fn lemma_squares<N: Arithmetic>(n: &N, r: Reals<N::Num>, start: N::Num, rows: Seq<Seq<N::Num>>)
    requires
        exact(n, r),
        r.holds(start),
        r.grid(rows),
    ensures
        r.holds(add_squares(n, start, rows)),
        r.at(add_squares(n, start, rows)) == r.at(start) + squares(r, rows),
    decreases rows.len(),
{
    if rows.len() > 0 {
        let init = rows.drop_last();
        assert forall|i: int| 0 <= i < init.len() implies r.all(#[trigger] init[i]) by {
            assert(init[i] == rows[i]);
        }
        lemma_squares(n, r, start, init);
        assert(r.all(rows[rows.len() - 1]));
        lemma_row_squares(n, r, add_squares(n, start, init), rows.last());
        lemma_sum_same(init.len(), |i: int| row_squares(r, init[i]), |i: int| row_squares(r, rows[i]));
    }
}

proof fn lemma_all_squares<N: Arithmetic>(n: &N, r: Reals<N::Num>, start: N::Num, list: Seq<Seq<Seq<N::Num>>>)
    requires
        exact(n, r),
        r.holds(start),
        all_real(r, list),
    ensures
        r.holds(add_all_squares(n, start, list)),
        r.at(add_all_squares(n, start, list)) == r.at(start) + all_squares(r, list),
    decreases list.len(),
{
    if list.len() > 0 {
        let init = list.drop_last();
        assert forall|k: int| 0 <= k < init.len() implies r.grid(#[trigger] init[k]) by {
            assert(init[k] == list[k]);
        }
        lemma_all_squares(n, r, start, init);
        assert(r.grid(list[list.len() - 1]));
        lemma_squares(n, r, add_all_squares(n, start, init), list.last());
        lemma_sum_same(init.len(), |k: int| squares(r, init[k]), |k: int| squares(r, list[k]));
    }
}

proof fn lemma_squares_nonnegative<T>(r: Reals<T>, rows: Seq<Seq<T>>)
    ensures
        squares(r, rows) >= 0 as real,
{
    let f = |i: int| row_squares(r, rows[i]);
    assert forall|i: int| 0 <= i < rows.len() implies #[trigger] f(i) >= 0 as real by {
        let g = |j: int| r.at(rows[i][j]) * r.at(rows[i][j]);
        assert forall|j: int| 0 <= j < rows[i].len() implies #[trigger] g(j) >= 0 as real by {
            lemma_square(r.at(rows[i][j]));
        }
        lemma_sum_nonnegative(rows[i].len(), g);
    }
    lemma_sum_nonnegative(rows.len(), f);
}

/// With a bound for values every gradient lies between the negated bound and the bound afterwards: one
/// that did so before is kept, another one becomes the nearer of the two.
pub proof fn law_values_in_bounds<N: Arithmetic>(
    n: &N,
    r: Reals<N::Num>,
    bound: N::Num,
    grads: Seq<Seq<Seq<N::Num>>>,
    k: int,
    i: int,
    j: int,
)
    requires
        exact(n, r),
        r.holds(bound),
        r.at(bound) >= 0 as real,
        0 <= k < grads.len(),
        0 <= i < grads[k].len(),
        0 <= j < grads[k][i].len(),
        r.holds(grads[k][i][j]),
    ensures
        ({
            let g = r.at(grads[k][i][j]);
            let after = clipped(n, ClippingStrategy::Value(bound), grads)[k][i][j];
            &&& r.holds(after)
            &&& -r.at(bound) <= r.at(after) <= r.at(bound)
            &&& -r.at(bound) <= g <= r.at(bound) ==> r.at(after) == g
            &&& g > r.at(bound) ==> r.at(after) == r.at(bound)
            &&& g < -r.at(bound) ==> r.at(after) == -r.at(bound)
        }),
{
    let low = n.value(Term::Neg(bound));
    assert(r.holds(low) && r.at(low) == -r.at(bound));
    let x = grads[k][i][j];
    let clamp = Clamp { n, low, high: bound };
    assert(clipped(n, ClippingStrategy::Value(bound), grads)[k][i][j] == clamp.image(x));
    assert(n.answer(Question::Less(x, low)) == (r.at(x) < r.at(low)));
    assert(n.answer(Question::Less(bound, x)) == (r.at(bound) < r.at(x)));
}

/// Whether a gradient was scaled down from a norm to a bound: it is kept where the norm is not larger
/// than the bound; otherwise it keeps its direction and stands to what it was as the bound stands to
/// the norm, a millionth added to that.
pub open spec fn scaled_down<T>(r: Reals<T>, bound: T, norm: real, before: T, after: T) -> bool {
    &&& r.holds(after)
    &&& norm <= r.at(bound) ==> r.at(after) == r.at(before)
    &&& norm > r.at(bound) ==> (r.at(after) * (norm * rpow(10 as real, 6) + (1 as real))) == r.at(before) * (r.at(bound)
        * rpow(10 as real, 6))
}

proof fn lemma_scaled_down<N: Arithmetic>(
    n: &N,
    r: Reals<N::Num>,
    bound: N::Num,
    norm: N::Num,
    grad: Seq<Seq<N::Num>>,
    i: int,
    j: int,
)
    requires
        exact(n, r),
        r.holds(bound),
        r.holds(norm),
        r.at(norm) >= 0 as real,
        0 <= i < grad.len(),
        0 <= j < grad[i].len(),
        r.holds(grad[i][j]),
    ensures
        scaled_down(r, bound, r.at(norm), grad[i][j], norm_clipped(n, bound, norm, grad)[i][j]),
{
    let x = grad[i][j];
    let big = rpow(10 as real, 6);
    assert(big > 0 as real) by {
        reveal_with_fuel(rpow, 7);
    }
    assert(n.answer(Question::Less(bound, norm)) == (r.at(bound) < r.at(norm)));
    if r.at(bound) < r.at(norm) {
        let tiny = n.value(Term::Decimal(1, 6));
        let t = r.at(tiny);
        assert(r.holds(tiny) && t * big == 1 as real);
        if t <= 0 as real {
            lemma_product_nonnegative(-t, big);
            lemma_negated(t, big);
        }
        let raised = n.value(Term::Add(norm, tiny));
        let factor = norm_factor(n, bound, norm);
        assert(r.holds(raised) && r.at(raised) > 0 as real);
        assert(r.holds(factor) && r.at(factor) * r.at(raised) == r.at(bound));
        let after = norm_clipped(n, bound, norm, grad)[i][j];
        assert(after == (Scale { n, factor }).image(x));
        let f = r.at(factor);
        let w = r.at(norm);
        let b = r.at(bound);
        let a = r.at(x);
        assert(r.at(after) == a * f);
        lemma_spread(big, w, t);
        lemma_commute(big, w);
        lemma_commute(big, t);
        assert(big * (w + t) == w * big + (1 as real));
        lemma_group(a, f, big * (w + t));
        lemma_group(f, big, w + t);
        lemma_commute(f * (w + t), big);
    }
}

/// With a bound for norms the gradients of a parameter are scaled down from their norm.
pub proof fn law_norm_in_bounds<N: Arithmetic>(
    n: &N,
    r: Reals<N::Num>,
    bound: N::Num,
    grads: Seq<Seq<Seq<N::Num>>>,
    k: int,
) -> (norm: real)
    requires
        exact(n, r),
        r.holds(bound),
        0 <= k < grads.len(),
        r.grid(grads[k]),
    ensures
        norm >= 0 as real,
        norm * norm == squares(r, grads[k]),
        forall|i: int, j: int|
            0 <= i < grads[k].len() && 0 <= j < grads[k][i].len() ==> scaled_down(
                r,
                bound,
                norm,
                grads[k][i][j],
                #[trigger] clipped(n, ClippingStrategy::Norm(bound), grads)[k][i][j],
            ),
{
    lemma_zero(n, r);
    let g = grads[k];
    let sum = add_squares(n, zero(n), g);
    lemma_squares(n, r, zero(n), g);
    lemma_squares_nonnegative(r, g);
    let norm = n.value(Term::Sqrt(sum));
    assert(r.holds(norm) && r.at(norm) >= 0 as real && r.at(norm) * r.at(norm) == squares(r, g));
    let after = clipped(n, ClippingStrategy::Norm(bound), grads);
    assert(after[k] == norm_clipped(n, bound, norm, g));
    assert forall|i: int, j: int| 0 <= i < g.len() && 0 <= j < g[i].len() implies scaled_down(
        r,
        bound,
        r.at(norm),
        g[i][j],
        #[trigger] after[k][i][j],
    ) by {
        assert(r.all(g[i]) && r.holds(g[i][j]));
        lemma_scaled_down(n, r, bound, norm, g, i, j);
    }
    r.at(norm)
}

/// With a common bound all gradients are scaled down alike, from the norm of all of them.
pub proof fn law_global_norm_in_bounds<N: Arithmetic>(
    n: &N,
    r: Reals<N::Num>,
    bound: N::Num,
    grads: Seq<Seq<Seq<N::Num>>>,
) -> (norm: real)
    requires
        exact(n, r),
        r.holds(bound),
        all_real(r, grads),
    ensures
        norm >= 0 as real,
        norm * norm == all_squares(r, grads),
        forall|k: int, i: int, j: int|
            0 <= k < grads.len() && 0 <= i < grads[k].len() && 0 <= j < grads[k][i].len() ==> scaled_down(
                r,
                bound,
                norm,
                grads[k][i][j],
                #[trigger] clipped(n, ClippingStrategy::GlobalNorm(bound), grads)[k][i][j],
            ),
{
    lemma_zero(n, r);
    let sum = add_all_squares(n, zero(n), grads);
    lemma_all_squares(n, r, zero(n), grads);
    let f = |k: int| squares(r, grads[k]);
    assert forall|k: int| 0 <= k < grads.len() implies #[trigger] f(k) >= 0 as real by {
        lemma_squares_nonnegative(r, grads[k]);
    }
    lemma_sum_nonnegative(grads.len(), f);
    lemma_sum_same(grads.len(), f, |k: int| squares(r, grads[k]));
    let norm = n.value(Term::Sqrt(sum));
    assert(r.holds(norm) && r.at(norm) >= 0 as real && r.at(norm) * r.at(norm) == all_squares(r, grads));
    let after = clipped(n, ClippingStrategy::GlobalNorm(bound), grads);
    assert forall|k: int, i: int, j: int|
        0 <= k < grads.len() && 0 <= i < grads[k].len() && 0 <= j < grads[k][i].len() implies scaled_down(
        r,
        bound,
        r.at(norm),
        grads[k][i][j],
        #[trigger] after[k][i][j],
    ) by {
        let g = grads[k];
        assert(r.grid(g) && r.all(g[i]) && r.holds(g[i][j]));
        assert(after[k] == norm_clipped(n, bound, norm, g));
        lemma_scaled_down(n, r, bound, norm, g, i, j);
    }
    r.at(norm)
}

} // verus!
