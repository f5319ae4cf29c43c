//! What embeddings and their gradients are over real numbers.

use vstd::prelude::*;

use crate::layers::embedding::{embedded, row_added, scattered};
use crate::matrix::{covers, has_shape};
use crate::numbers::{Arithmetic, Term};
use crate::reals::{exact, sum_of, Reals};

verus! {

/// What the tokens that are `t` bring to place `j` of a gradient.
pub open spec fn brought<T>(r: Reals<T>, ids: Seq<usize>, d: Seq<Seq<T>>, t: int, j: int, k: nat) -> real {
    sum_of(
        k,
        |i: int|
            if ids[i] == t {
                r.at(d[i][j])
            } else {
                0 as real
            },
    )
}

/// A token's gradient grows by what comes back to all places where the token stands, and by nothing
/// else.
pub proof fn law_tokens_gather_gradients<N: Arithmetic>(
    n: &N,
    r: Reals<N::Num>,
    before: Seq<Seq<N::Num>>,
    ids: Seq<usize>,
    d: Seq<Seq<N::Num>>,
    rows: nat,
    width: nat,
    k: nat,
    t: int,
    j: int,
)
    requires
        exact(n, r),
        has_shape(before, rows, width),
        r.grid(before),
        k <= ids.len(),
        forall|i: int| 0 <= i < k ==> (#[trigger] ids[i]) < rows,
        covers(d, k, width),
        forall|i: int, c: int| 0 <= i < k && 0 <= c < width ==> r.holds(#[trigger] d[i][c]),
        0 <= t < rows,
        0 <= j < width,
    ensures
        ({
            let after = scattered(n, before, ids, d, width, k);
            &&& has_shape(after, rows, width)
            &&& r.holds(after[t][j])
            &&& r.at(after[t][j]) == r.at(before[t][j]) + brought(r, ids, d, t, j, k)
        }),
    decreases k,
{
    assert(r.all(before[t]) && before[t].len() == width && r.holds(before[t][j]));
    if k > 0 {
        let fewer = (k - 1) as nat;
        assert(covers(d, fewer, width));
        law_tokens_gather_gradients(n, r, before, ids, d, rows, width, fewer, t, j);
        let so_far = scattered(n, before, ids, d, width, fewer);
        let row = ids[k - 1] as int;
        assert(so_far[row].len() == width);
        let after = row_added(n, so_far, row, d[k - 1], width);
        assert(r.holds(d[k - 1][j]));
        if row == t {
            assert(after[t][j] == n.value(Term::Add(so_far[t][j], d[k - 1][j])));
        } else {
            assert(after[t] == so_far[t]);
        }
    }
}

/// A token in a sequence has the sum of its own vector and that of its position.
pub proof fn law_embedding_adds<N: Arithmetic>(
    n: &N,
    r: Reals<N::Num>,
    ids: Seq<usize>,
    tokens: Seq<Seq<N::Num>>,
    positions: Seq<Seq<N::Num>>,
    i: int,
    j: int,
)
    requires
        exact(n, r),
        0 <= i < ids.len(),
        0 <= j < tokens[ids[i] as int].len(),
        tokens[ids[i] as int].len() == positions[i].len(),
        r.holds(tokens[ids[i] as int][j]),
        r.holds(positions[i][j]),
    ensures
        ({
            let out = embedded(n, ids, tokens, positions);
            &&& out.len() == ids.len()
            &&& r.holds(out[i][j])
            &&& r.at(out[i][j]) == r.at(tokens[ids[i] as int][j]) + r.at(positions[i][j])
        }),
{
}

} // verus!
