//! Layers keep the shape of what runs through them.

use vstd::prelude::*;

use crate::layers::embedding::embedded;
use crate::layers::feed_forward::rectified;
use crate::layers::layer_norm::{normalised, scaled};
use crate::matrix::{has_shape, product};
use crate::numbers::Arithmetic;

verus! {

/// A product has the rows of the first matrix and the columns of the second.
pub proof fn law_product_shape<N: Arithmetic>(
    n: &N,
    a: Seq<Seq<N::Num>>,
    b: Seq<Seq<N::Num>>,
    rows: nat,
    inner: nat,
    cols: nat,
)
    requires
        has_shape(a, rows, inner),
        has_shape(b, inner, cols),
        inner > 0,
    ensures
        has_shape(product(n, a, b), rows, cols),
{
    assert(b[0].len() == cols);
}

/// A token that runs through the two-layer network keeps its width.
pub proof fn law_feed_forward_keeps_shape<N: Arithmetic>(
    n: &N,
    x: Seq<Seq<N::Num>>,
    w_1: Seq<Seq<N::Num>>,
    w_2: Seq<Seq<N::Num>>,
    tokens: nat,
    d_model: nat,
    d_ff: nat,
)
    requires
        has_shape(x, tokens, d_model),
        has_shape(w_1, d_model, d_ff),
        has_shape(w_2, d_ff, d_model),
        d_model > 0,
        d_ff > 0,
    ensures
        has_shape(product(n, rectified(n, product(n, x, w_1)), w_2), tokens, d_model),
{
    law_product_shape(n, x, w_1, tokens, d_model, d_ff);
    let hidden = product(n, x, w_1);
    let active = rectified(n, hidden);
    assert forall|i: int| 0 <= i < tokens implies (#[trigger] active[i]).len() == d_ff by {
        assert(hidden[i].len() == d_ff);
    }
    law_product_shape(n, active, w_2, tokens, d_ff, d_model);
}

/// A row that is normalised keeps its length.
pub proof fn law_layer_norm_keeps_length<N: Arithmetic>(
    n: &N,
    eps: N::Num,
    gamma: Seq<N::Num>,
    beta: Seq<N::Num>,
    row: Seq<N::Num>,
)
    requires
        gamma.len() == row.len(),
        beta.len() == row.len(),
    ensures
        scaled(n, gamma, beta, normalised(n, eps, row)).len() == row.len(),
{
}

/// A sequence that is embedded has a row of the model's width for every token.
pub proof fn law_embedding_shape<N: Arithmetic>(
    n: &N,
    ids: Seq<usize>,
    tokens: Seq<Seq<N::Num>>,
    positions: Seq<Seq<N::Num>>,
    vocab_size: nat,
    max_seq_len: nat,
    d_model: nat,
)
    requires
        has_shape(tokens, vocab_size, d_model),
        has_shape(positions, max_seq_len, d_model),
        ids.len() <= max_seq_len,
        forall|i: int| 0 <= i < ids.len() ==> (#[trigger] ids[i]) < vocab_size,
    ensures
        has_shape(embedded(n, ids, tokens, positions), ids.len(), d_model),
{
    let out = embedded(n, ids, tokens, positions);
    assert forall|i: int| 0 <= i < ids.len() implies (#[trigger] out[i]).len() == d_model by {
        assert(ids[i] < vocab_size);
        assert(tokens[ids[i] as int].len() == d_model);
        assert(positions[i].len() == d_model);
    }
}

} // verus!
