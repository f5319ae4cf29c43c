//! What holds of attention whatever the arithmetic is.

use vstd::prelude::*;

use crate::activation::shifted_exps;
use crate::attention::multi_head_attention::concatenated;
use crate::attention::self_attention::{attended, attention_weights, key_scale, masked_scores, SelfAttention};
use crate::matrix::{dot, grid, has_shape, product, transposed};
use crate::numbers::{total, zero, Arithmetic, Question, Term};
use crate::rows::divided;

verus! {

/// An entry of a product depends on one row and one column.
proof fn lemma_dot_local<N: Arithmetic>(
    n: &N,
    a: Seq<Seq<N::Num>>,
    b: Seq<Seq<N::Num>>,
    i: int,
    j: int,
    c: Seq<Seq<N::Num>>,
    d: Seq<Seq<N::Num>>,
    p: int,
    q: int,
    k: nat,
)
    requires
        a[i] == c[p],
        forall|t: int| 0 <= t < k ==> #[trigger] b[t][j] == d[t][q],
    ensures
        dot(n, a, b, i, j, k) == dot(n, c, d, p, q, k),
    decreases k,
{
    if k > 0 {
        lemma_dot_local(n, a, b, i, j, c, d, p, q, (k - 1) as nat);
        assert(b[k - 1][j] == d[k - 1][q]);
    }
}

/// A row of a product depends on one row of the first matrix and on its width.
proof fn lemma_product_row<N: Arithmetic>(
    n: &N,
    a: Seq<Seq<N::Num>>,
    i: int,
    c: Seq<Seq<N::Num>>,
    p: int,
    b: Seq<Seq<N::Num>>,
)
    requires
        0 <= i < a.len(),
        0 <= p < c.len(),
        a[i] == c[p],
        a[0].len() == c[0].len(),
    ensures
        product(n, a, b)[i] == product(n, c, b)[p],
{
    assert forall|j: int| 0 <= j < b[0].len() implies product(n, a, b)[i][j] == product(n, c, b)[p][j] by {
        lemma_dot_local(n, a, b, i, j, c, b, p, j, a[0].len());
    }
    assert(product(n, a, b)[i] =~= product(n, c, b)[p]);
}

/// Multiplying rows that are put together is putting together the products.
proof fn lemma_product_append<N: Arithmetic>(n: &N, a: Seq<Seq<N::Num>>, c: Seq<Seq<N::Num>>, b: Seq<Seq<N::Num>>)
    requires
        a.len() > 0,
        c.len() > 0,
        a[0].len() == c[0].len(),
    ensures
        product(n, a + c, b) == product(n, a, b) + product(n, c, b),
{
    let left = product(n, a + c, b);
    let right = product(n, a, b) + product(n, c, b);
    assert forall|i: int| 0 <= i < left.len() implies left[i] == right[i] by {
        if i < a.len() {
            lemma_product_row(n, a + c, i, a, i, b);
        } else {
            lemma_product_row(n, a + c, i, c, i - a.len(), b);
        }
    }
    assert(left =~= right);
}

/// What a token takes from each position does not change when later tokens do, whatever the arithmetic
/// is.
pub proof fn law_weights_ignore_later_tokens<N: Arithmetic>(
    n: &N,
    head: SelfAttention<N::Num>,
    x: Seq<Seq<N::Num>>,
    y: Seq<Seq<N::Num>>,
    last: int,
)
    requires
        x.len() == y.len(),
        0 <= last < x.len(),
        forall|i: int| 0 <= i <= last ==> #[trigger] x[i] == y[i],
        head.forward_fits(n, x),
        head.forward_fits(n, y),
    ensures
        ({
            let offset = head.past_keys().len();
            attention_weights(n, head.queries(n, x), head.keys(n, x), head.d_k, offset)[last] == attention_weights(
                n,
                head.queries(n, y),
                head.keys(n, y),
                head.d_k,
                offset,
            )[last]
        }),
{
    let offset = head.past_keys().len();
    let w_k = grid(head.w_k.data@);
    let q_x = head.queries(n, x);
    let q_y = head.queries(n, y);
    let k_x = head.keys(n, x);
    let k_y = head.keys(n, y);
    assert(x[0] == y[0]);
    assert(x[last] == y[last]);
    lemma_product_row(n, x, last, y, last, grid(head.w_q.data@));
    assert(q_x[0].len() == q_y[0].len());
    assert forall|j: int| 0 <= j <= offset + last implies #[trigger] k_x[j] == k_y[j] by {
        if j >= offset {
            assert(x[j - offset] == y[j - offset]);
            lemma_product_row(n, x, j - offset, y, j - offset, w_k);
        }
    }
    assert(k_x[0] == k_y[0]);
    let t_x = transposed(k_x);
    let t_y = transposed(k_y);
    assert(k_x[0].len() > 0 && t_x[0].len() > 0);
    assert(t_x.len() >= q_x[0].len());
    let s_x = masked_scores(n, q_x, k_x, head.d_k, offset);
    let s_y = masked_scores(n, q_y, k_y, head.d_k, offset);
    assert(t_x.len() == t_y.len());
    assert(t_x[0].len() == t_y[0].len());
    assert forall|j: int| 0 <= j < s_x[last].len() implies s_x[last][j] == s_y[last][j] by {
        if j <= offset + last {
            assert forall|t: int| 0 <= t < q_x[0].len() implies #[trigger] t_x[t][j] == t_y[t][j] by {
                assert(k_x[j] == k_y[j]);
                assert(t_x[t][j] == k_x[j][t]);
                assert(t_y[t][j] == k_y[j][t]);
            }
            lemma_dot_local(n, q_x, t_x, last, j, q_y, t_y, last, j, q_x[0].len());
        }
    }
    assert(s_x[last] =~= s_y[last]);
}

/// Whether shut-out scores get no share of a row of scores: negative infinity is equal to itself, the
/// exponentials of the row do not add up to zero, and nothing divided by their sum is nothing.
pub open spec fn shuts_out<N: Arithmetic>(n: &N, row: Seq<N::Num>) -> bool {
    let low = n.value(Term::NegInfinity);
    let whole = total(n, shifted_exps(n, row));
    &&& n.answer(Question::Equal(low, low))
    &&& !n.answer(Question::Equal(whole, zero(n)))
    &&& n.value(Term::Div(zero(n), whole)) == zero(n)
}

/// Whether products with zero add nothing to the sums of row `i` of a product, behind the place
/// `last`. Floating-point numbers are so where all values are finite.
pub open spec fn zeros_add_nothing<N: Arithmetic>(
    n: &N,
    weights: Seq<Seq<N::Num>>,
    v: Seq<Seq<N::Num>>,
    i: int,
    last: int,
) -> bool {
    forall|j: int, k: int|
        0 <= j < v[0].len() && last < k < weights[0].len() ==> n.value(
            Term::Add(
                #[trigger] dot(n, weights, v, i, j, k as nat),
                n.value(Term::Mul(zero(n), v[k][j])),
            ),
        ) == dot(n, weights, v, i, j, k as nat)
}

/// A sum whose last terms are products with zero that add nothing.
proof fn lemma_zero_tail<N: Arithmetic>(
    n: &N,
    weights: Seq<Seq<N::Num>>,
    v: Seq<Seq<N::Num>>,
    i: int,
    j: int,
    last: int,
    k: nat,
)
    requires
        zeros_add_nothing(n, weights, v, i, last),
        0 <= j < v[0].len(),
        -1 <= last < k <= weights[0].len(),
        forall|t: int| last < t < weights[0].len() ==> #[trigger] weights[i][t] == zero(n),
    ensures
        dot(n, weights, v, i, j, k) == dot(n, weights, v, i, j, (last + 1) as nat),
    decreases k,
{
    if k > last + 1 {
        lemma_zero_tail(n, weights, v, i, j, last, (k - 1) as nat);
        assert(weights[i][k - 1] == zero(n));
    }
}

/// No token looks ahead: it takes nothing from later positions, and neither what it takes from the
/// other positions nor what comes out for it changes when later tokens do.
pub proof fn law_attention_is_causal<N: Arithmetic>(
    n: &N,
    head: SelfAttention<N::Num>,
    x: Seq<Seq<N::Num>>,
    y: Seq<Seq<N::Num>>,
    last: int,
)
    requires
        x.len() == y.len(),
        0 <= last < x.len(),
        forall|i: int| 0 <= i <= last ==> #[trigger] x[i] == y[i],
        head.forward_fits(n, x),
        head.forward_fits(n, y),
        head.past_values().len() == head.past_keys().len(),
        ({
            let offset = head.past_keys().len();
            let k = head.keys(n, x);
            let w_x = attention_weights(n, head.queries(n, x), k, head.d_k, offset);
            let w_y = attention_weights(n, head.queries(n, y), head.keys(n, y), head.d_k, offset);
            &&& shuts_out(n, masked_scores(n, head.queries(n, x), k, head.d_k, offset)[last])
            &&& zeros_add_nothing(n, w_x, head.values(n, x), last, offset + last)
            &&& zeros_add_nothing(n, w_y, head.values(n, y), last, offset + last)
        }),
    ensures
        ({
            let offset = head.past_keys().len();
            let q_x = head.queries(n, x);
            let q_y = head.queries(n, y);
            let w_x = attention_weights(n, q_x, head.keys(n, x), head.d_k, offset);
            let w_y = attention_weights(n, q_y, head.keys(n, y), head.d_k, offset);
            &&& w_x[last] == w_y[last]
            &&& w_x[last].len() == offset + x.len()
            &&& forall|j: int| offset + last < j < offset + x.len() ==> #[trigger] w_x[last][j] == zero(n)
            &&& attended(n, q_x, head.keys(n, x), head.values(n, x), head.d_k, offset)[last] == attended(
                n,
                q_y,
                head.keys(n, y),
                head.values(n, y),
                head.d_k,
                offset,
            )[last]
        }),
{
    let offset = head.past_keys().len();
    let q_x = head.queries(n, x);
    let q_y = head.queries(n, y);
    let k_x = head.keys(n, x);
    let k_y = head.keys(n, y);
    law_weights_ignore_later_tokens(n, head, x, y, last);
    assert(x[0] == y[0]);
    let s_x = masked_scores(n, q_x, k_x, head.d_k, offset);
    let w_x = attention_weights(n, q_x, k_x, head.d_k, offset);
    let w_y = attention_weights(n, q_y, k_y, head.d_k, offset);
    let v_x = head.values(n, x);
    let v_y = head.values(n, y);
    let row = s_x[last];
    let end = offset + x.len();
    assert(s_x[0].len() == end && row.len() == end);
    assert(w_x[0].len() == end && w_y[0].len() == end);
    assert forall|j: int| offset + last < j < end implies #[trigger] w_x[last][j] == zero(n) by {
        assert(row[j] == n.value(Term::NegInfinity));
        assert(shifted_exps(n, row)[j] == zero(n));
    }
    assert forall|j: int| 0 <= j <= offset + last implies #[trigger] v_x[j] == v_y[j] by {
        if j >= offset {
            assert(x[j - offset] == y[j - offset]);
            lemma_product_row(n, x, j - offset, y, j - offset, grid(head.w_v.data@));
        }
    }
    assert(v_x[0] == v_y[0]);
    let out_x = product(n, w_x, v_x);
    let out_y = product(n, w_y, v_y);
    let kept = (offset + last + 1) as nat;
    assert forall|j: int| 0 <= j < v_x[0].len() implies out_x[last][j] == out_y[last][j] by {
        lemma_zero_tail(n, w_x, v_x, last, j, offset + last, end);
        lemma_zero_tail(n, w_y, v_y, last, j, offset + last, end);
        assert forall|t: int| 0 <= t < kept implies #[trigger] v_x[t][j] == v_y[t][j] by {
            assert(v_x[t] == v_y[t]);
        }
        lemma_dot_local(n, w_x, v_x, last, j, w_y, v_y, last, j, kept);
    }
    assert(out_x[last] =~= out_y[last]);
}

/// Keeping keys and values changes nothing: after a pass on `x`, a pass on `y` gives what one pass on
/// both would have given for the tokens of `y`, and leaves the same keys and values.
pub proof fn law_cache_is_transparent<N: Arithmetic>(
    n: &N,
    head: SelfAttention<N::Num>,
    x: Seq<Seq<N::Num>>,
    after: SelfAttention<N::Num>,
    y: Seq<Seq<N::Num>>,
)
    requires
        head.use_cache,
        head.passes_to(n, x, after),
        x.len() > 0,
        y.len() > 0,
        x[0].len() == y[0].len(),
    ensures
        after.keys(n, y) == head.keys(n, x + y),
        after.values(n, y) == head.values(n, x + y),
        attended(
            n,
            after.queries(n, y),
            after.keys(n, y),
            after.values(n, y),
            after.d_k,
            after.past_keys().len(),
        ) == attended(
            n,
            head.queries(n, x + y),
            head.keys(n, x + y),
            head.values(n, x + y),
            head.d_k,
            head.past_keys().len(),
        ).skip(x.len() as int),
{
    let both = x + y;
    lemma_product_append(n, x, y, grid(head.w_k.data@));
    lemma_product_append(n, x, y, grid(head.w_v.data@));
    lemma_product_append(n, x, y, grid(head.w_q.data@));
    assert(after.keys(n, y) =~= head.keys(n, both));
    assert(after.values(n, y) =~= head.values(n, both));
    let k = head.keys(n, both);
    let v = head.values(n, both);
    let q = head.queries(n, both);
    let r = after.queries(n, y);
    let whole = head.past_keys().len();
    let part = after.past_keys().len();
    assert(part == whole + x.len());
    let t = transposed(k);
    let long = masked_scores(n, q, k, head.d_k, whole);
    let short = masked_scores(n, r, k, head.d_k, part);
    let long_weights = attention_weights(n, q, k, head.d_k, whole);
    let short_weights = attention_weights(n, r, k, head.d_k, part);
    let long_out = product(n, long_weights, v);
    let short_out = product(n, short_weights, v);
    assert(q[0].len() == r[0].len());
    assert forall|i: int| 0 <= i < y.len() implies #[trigger] short_weights[i] == long_weights[x.len() + i] by {
        assert(r[i] == q[x.len() + i]);
        lemma_product_row(n, r, i, q, x.len() + i, t);
        let scale = key_scale(n, head.d_k);
        assert(divided(n, product(n, r, t), scale)[i] == divided(n, product(n, q, t), scale)[x.len() + i]);
        assert(short[i] =~= long[x.len() + i]);
    }
    assert(short_weights[0].len() == long_weights[0].len()) by {
        assert(short[0].len() == long[0].len());
    }
    assert forall|i: int| 0 <= i < y.len() implies #[trigger] short_out[i] == long_out[x.len() + i] by {
        assert(short_weights[i] == long_weights[x.len() + i]);
        lemma_product_row(n, short_weights, i, long_weights, x.len() + i, v);
    }
    assert(short_out =~= long_out.skip(x.len() as int));
}

/// What comes out has a row of the width of the values for every token.
pub proof fn law_attention_shape<N: Arithmetic>(
    n: &N,
    head: SelfAttention<N::Num>,
    x: Seq<Seq<N::Num>>,
    d_v: nat,
)
    requires
        head.past_values().len() > 0 ==> head.past_values()[0].len() == d_v,
        grid(head.w_v.data@)[0].len() == d_v,
        x.len() > 0,
    ensures
        has_shape(
            attended(
                n,
                head.queries(n, x),
                head.keys(n, x),
                head.values(n, x),
                head.d_k,
                head.past_keys().len(),
            ),
            x.len(),
            d_v,
        ),
{
    let v = head.values(n, x);
    assert(v[0].len() == d_v) by {
        if head.past_values().len() > 0 {
            assert(v[0] == head.past_values()[0]);
        } else {
            assert(v[0] == product(n, x, grid(head.w_v.data@))[0]);
        }
    }
}

/// Heads that stand side by side and are mixed give a row of the mixing weights' width for every
/// token.
pub proof fn law_mixed_heads_shape<N: Arithmetic>(
    n: &N,
    heads: Seq<SelfAttention<N::Num>>,
    w_o: Seq<Seq<N::Num>>,
    x: Seq<Seq<N::Num>>,
    d_model: nat,
)
    requires
        w_o[0].len() == d_model,
    ensures
        has_shape(product(n, concatenated(n, heads, x), w_o), x.len(), d_model),
{
}

} // verus!
