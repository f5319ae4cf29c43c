//! Vectors for tokens and for positions.

use vstd::prelude::*;

use crate::matrix::{covers, grid, has_shape, vector_sum};
use crate::numbers::{zero, Arithmetic, Term};
use crate::rows::{accumulate, accumulated, copy_row, make_rows, uniform};

verus! {

/// A vector for every token.
pub struct TokenEmbedding<T> {
    /// The vectors.
    pub weight: Vec<Vec<T>>,
    /// Their gradients.
    pub d_weight: Vec<Vec<T>>,
    /// How many tokens there are.
    pub vocab_size: usize,
    /// The length of a vector.
    pub d_model: usize,
}

/// A vector for every position.
pub struct PositionalEmbedding<T> {
    /// The vectors.
    pub weight: Vec<Vec<T>>,
    /// Their gradients.
    pub d_weight: Vec<Vec<T>>,
    /// How many positions there are.
    pub max_seq_len: usize,
    /// The length of a vector.
    pub d_model: usize,
}

/// `weights` with the first `width` elements of `from` added to row `row`.
pub open spec fn row_added<N: Arithmetic>(
    n: &N,
    weights: Seq<Seq<N::Num>>,
    row: int,
    from: Seq<N::Num>,
    width: nat,
) -> Seq<Seq<N::Num>> {
    weights.update(
        row,
        Seq::new(
            weights[row].len(),
            |j: int|
                if j < width {
                    n.value(Term::Add(weights[row][j], from[j]))
                } else {
                    weights[row][j]
                },
        ),
    )
}

/// `weights` with the first `k` rows of `from` added, each to the row that `places` names.
pub open spec fn scattered<N: Arithmetic>(
    n: &N,
    weights: Seq<Seq<N::Num>>,
    places: Seq<usize>,
    from: Seq<Seq<N::Num>>,
    width: nat,
    k: nat,
) -> Seq<Seq<N::Num>>
    decreases k,
{
    if k == 0 {
        weights
    } else {
        row_added(
            n,
            scattered(n, weights, places, from, width, (k - 1) as nat),
            places[k - 1] as int,
            from[k - 1],
            width,
        )
    }
}

fn add_to_row<N: Arithmetic>(n: &N, weights: &mut Vec<Vec<N::Num>>, row: usize, from: &Vec<N::Num>, width: usize)
    requires
        n.wf(),
        row < old(weights)@.len(),
        old(weights)@[row as int]@.len() >= width,
        from@.len() >= width,
    ensures
        grid(final(weights)@) == row_added(n, grid(old(weights)@), row as int, from@, width as nat),
{
    let ghost before = grid(weights@);
    let ghost goal = row_added(n, before, row as int, from@, width as nat);
    let mut j: usize = 0;
    while j < width
        invariant
            n.wf(),
            j <= width,
            row < before.len(),
            before == grid(old(weights)@),
            goal == row_added(n, before, row as int, from@, width as nat),
            weights@.len() == before.len(),
            before[row as int].len() >= width,
            weights@[row as int]@.len() == before[row as int].len(),
            from@.len() >= width,
            forall|k: int| 0 <= k < before.len() && k != row ==> (#[trigger] weights@[k])@ == before[k],
            forall|k: int| 0 <= k < j ==> #[trigger] weights@[row as int]@[k] == goal[row as int][k],
            forall|k: int|
                j <= k < before[row as int].len() ==> #[trigger] weights@[row as int]@[k] == before[row as int][k],
        decreases width - j,
    {
        let x = weights[row][j];
        weights[row][j] = n.eval(Term::Add(x, from[j]));
        j += 1;
    }
    assert(weights@[row as int]@ =~= goal[row as int]);
    assert(grid(weights@) =~= goal);
}

proof fn lemma_scattered_shape<N: Arithmetic>(
    n: &N,
    weights: Seq<Seq<N::Num>>,
    places: Seq<usize>,
    from: Seq<Seq<N::Num>>,
    width: nat,
    k: nat,
    rows: nat,
    cols: nat,
)
    requires
        has_shape(weights, rows, cols),
        k <= places.len(),
        forall|i: int| 0 <= i < k ==> (#[trigger] places[i]) < rows,
    ensures
        has_shape(scattered(n, weights, places, from, width, k), rows, cols),
    decreases k,
{
    if k > 0 {
        lemma_scattered_shape(n, weights, places, from, width, (k - 1) as nat, rows, cols);
        assert(places[k - 1] < rows);
        let before = scattered(n, weights, places, from, width, (k - 1) as nat);
        assert(before[places[k - 1] as int].len() == cols);
    }
}

impl<T: Copy> TokenEmbedding<T> {
    /// The vectors and their gradients have the sizes that are kept beside them.
    pub open spec fn wf(&self) -> bool {
        &&& has_shape(grid(self.weight@), self.vocab_size as nat, self.d_model as nat)
        &&& has_shape(grid(self.d_weight@), self.vocab_size as nat, self.d_model as nat)
    }

    /// An embedding with the given vectors and gradients of zero.
    pub fn new<N: Arithmetic<Num = T>>(n: &N, weight: Vec<Vec<T>>, vocab_size: usize, d_model: usize) -> (r: Self)
        requires
            n.wf(),
            has_shape(grid(weight@), vocab_size as nat, d_model as nat),
        ensures
            r.wf(),
            r.weight == weight,
            grid(r.d_weight@) == uniform(zero(n), vocab_size as nat, d_model as nat),
            r.vocab_size == vocab_size,
            r.d_model == d_model,
    {
        let d_weight = make_rows(n.eval(Term::Decimal(0, 0)), vocab_size, d_model);
        TokenEmbedding { weight, d_weight, vocab_size, d_model }
    }

    /// The vector of a token.
    pub fn forward(&self, ids: usize) -> (r: Vec<T>)
        requires
            self.wf(),
            ids < self.vocab_size,
        ensures
            r@ == self.weight@[ids as int]@,
    {
        copy_row(&self.weight[ids])
    }

    /// Adds each row of `d_out` to the gradient of the token at its place.
    pub fn backward<N: Arithmetic<Num = T>>(&mut self, n: &N, ids: &Vec<usize>, d_out: &Vec<Vec<T>>)
        requires
            n.wf(),
            old(self).wf(),
            old(self).d_model > 0 ==> covers(grid(d_out@), ids@.len(), old(self).d_model as nat),
            old(self).d_model > 0 ==> forall|i: int| 0 <= i < ids@.len() ==> (#[trigger] ids@[i]) < old(self).vocab_size,
        ensures
            final(self).wf(),
            final(self).weight == old(self).weight,
            final(self).vocab_size == old(self).vocab_size,
            final(self).d_model == old(self).d_model,
            old(self).d_model > 0 ==> grid(final(self).d_weight@) == scattered(
                n,
                grid(old(self).d_weight@),
                ids@,
                grid(d_out@),
                old(self).d_model as nat,
                ids@.len(),
            ),
            old(self).d_model == 0 ==> final(self).d_weight == old(self).d_weight,
    {
        let width: usize = self.d_model;
        if width == 0 {
            return;
        }
        let ghost start = grid(self.d_weight@);
        let ghost d = grid(d_out@);
        let ghost rows = self.vocab_size as nat;
        let mut i: usize = 0;
        while i < ids.len()
            invariant
                n.wf(),
                i <= ids@.len(),
                width == old(self).d_model,
                rows == old(self).vocab_size,
                start == grid(old(self).d_weight@),
                d == grid(d_out@),
                old(self).wf(),
                self.weight == old(self).weight,
                self.vocab_size == old(self).vocab_size,
                self.d_model == old(self).d_model,
                covers(d, ids@.len(), width as nat),
                forall|i: int| 0 <= i < ids@.len() ==> (#[trigger] ids@[i]) < rows,
                grid(self.d_weight@) == scattered(n, start, ids@, d, width as nat, i as nat),
            decreases ids@.len() - i,
        {
            proof {
                lemma_scattered_shape(n, start, ids@, d, width as nat, i as nat, rows, width as nat);
            }
            let token_id: usize = ids[i];
            assert(d[i as int].len() >= width && d[i as int] == d_out@[i as int]@);
            assert(grid(self.d_weight@)[token_id as int].len() == width);
            add_to_row(n, &mut self.d_weight, token_id, &d_out[i], width);
            i += 1;
        }
        proof {
            lemma_scattered_shape(n, start, ids@, d, width as nat, ids@.len(), rows, width as nat);
        }
    }

    /// The vectors as columns.
    pub fn transposed_weight(&self) -> (r: Vec<Vec<T>>)
        requires
            self.wf(),
        ensures
            grid(r@) == Seq::new(
                self.d_model as nat,
                |dim: int| Seq::new(self.vocab_size as nat, |id: int| self.weight@[id]@[dim]),
            ),
    {
        let ghost all = grid(self.weight@);
        let ghost goal = Seq::new(
            self.d_model as nat,
            |dim: int| Seq::new(self.vocab_size as nat, |id: int| self.weight@[id]@[dim]),
        );
        let mut out: Vec<Vec<T>> = Vec::new();
        let mut dim: usize = 0;
        while dim < self.d_model
            invariant
                self.wf(),
                all == grid(self.weight@),
                goal == Seq::new(
                    self.d_model as nat,
                    |dim: int| Seq::new(self.vocab_size as nat, |id: int| self.weight@[id]@[dim]),
                ),
                dim <= self.d_model,
                grid(out@) == goal.take(dim as int),
            decreases self.d_model - dim,
        {
            let mut row: Vec<T> = Vec::new();
            let mut id: usize = 0;
            while id < self.vocab_size
                invariant
                    self.wf(),
                    all == grid(self.weight@),
                    goal == Seq::new(
                        self.d_model as nat,
                        |dim: int| Seq::new(self.vocab_size as nat, |id: int| self.weight@[id]@[dim]),
                    ),
                    dim < self.d_model,
                    id <= self.vocab_size,
                    row@ == goal[dim as int].take(id as int),
                decreases self.vocab_size - id,
            {
                assert(all[id as int].len() == self.d_model && all[id as int] == self.weight@[id as int]@);
                row.push(self.weight[id][dim]);
                id += 1;
                assert(row@ =~= goal[dim as int].take(id as int));
            }
            assert(row@ =~= goal[dim as int]);
            let ghost before = grid(out@);
            out.push(row);
            assert(grid(out@) =~= before.push(row@));
            dim += 1;
            assert(grid(out@) =~= goal.take(dim as int));
        }
        assert(grid(out@) =~= goal);
        out
    }
}

impl<T: Copy> PositionalEmbedding<T> {
    /// The vectors and their gradients have the sizes that are kept beside them.
    pub open spec fn wf(&self) -> bool {
        &&& has_shape(grid(self.weight@), self.max_seq_len as nat, self.d_model as nat)
        &&& has_shape(grid(self.d_weight@), self.max_seq_len as nat, self.d_model as nat)
    }

    /// An embedding with the given vectors and gradients of zero.
    pub fn new<N: Arithmetic<Num = T>>(n: &N, weight: Vec<Vec<T>>, max_seq_len: usize, d_model: usize) -> (r: Self)
        requires
            n.wf(),
            has_shape(grid(weight@), max_seq_len as nat, d_model as nat),
        ensures
            r.wf(),
            r.weight == weight,
            grid(r.d_weight@) == uniform(zero(n), max_seq_len as nat, d_model as nat),
            r.max_seq_len == max_seq_len,
            r.d_model == d_model,
    {
        let d_weight = make_rows(n.eval(Term::Decimal(0, 0)), max_seq_len, d_model);
        PositionalEmbedding { weight, d_weight, max_seq_len, d_model }
    }

    /// The vector of a position.
    pub fn forward(&self, ids: usize) -> (r: Vec<T>)
        requires
            self.wf(),
            ids < self.max_seq_len,
        ensures
            r@ == self.weight@[ids as int]@,
    {
        copy_row(&self.weight[ids])
    }

    /// Adds the first `seq_len` rows of `d_out` to the gradients of the first positions.
    pub fn backward<N: Arithmetic<Num = T>>(&mut self, n: &N, seq_len: usize, d_out: &Vec<Vec<T>>)
        requires
            n.wf(),
            old(self).wf(),
            old(self).d_model > 0 ==> seq_len <= old(self).max_seq_len,
            old(self).d_model > 0 ==> covers(grid(d_out@), seq_len as nat, old(self).d_model as nat),
        ensures
            final(self).wf(),
            final(self).weight == old(self).weight,
            final(self).max_seq_len == old(self).max_seq_len,
            final(self).d_model == old(self).d_model,
            grid(final(self).d_weight@) == accumulated(
                n,
                grid(old(self).d_weight@),
                grid(d_out@),
                seq_len as nat,
                old(self).d_model as nat,
            ),
    {
        accumulate(n, &mut self.d_weight, d_out, seq_len, self.d_model);
    }
}

/// The vectors of a sequence: that of each token plus that of its position.
pub open spec fn embedded<N: Arithmetic>(
    n: &N,
    ids: Seq<usize>,
    tokens: Seq<Seq<N::Num>>,
    positions: Seq<Seq<N::Num>>,
) -> Seq<Seq<N::Num>> {
    Seq::new(ids.len(), |i: int| vector_sum(n, tokens[ids[i] as int], positions[i]))
}

/// Gives every token of a sequence its vector, with that of its position added.
pub fn embed_sequence<N: Arithmetic>(
    n: &N,
    ids: &Vec<usize>,
    token_embedding: &TokenEmbedding<N::Num>,
    positional_embedding: &PositionalEmbedding<N::Num>,
) -> (r: Vec<Vec<N::Num>>)
    requires
        n.wf(),
        token_embedding.wf(),
        positional_embedding.wf(),
        forall|i: int| 0 <= i < ids@.len() ==> (#[trigger] ids@[i]) < token_embedding.vocab_size,
        ids@.len() <= positional_embedding.max_seq_len,
    ensures
        grid(r@) == embedded(n, ids@, grid(token_embedding.weight@), grid(positional_embedding.weight@)),
{
    let ghost goal = embedded(n, ids@, grid(token_embedding.weight@), grid(positional_embedding.weight@));
    let mut out: Vec<Vec<N::Num>> = Vec::new();
    let mut position: usize = 0;
    while position < ids.len()
        invariant
            n.wf(),
            token_embedding.wf(),
            positional_embedding.wf(),
            forall|i: int| 0 <= i < ids@.len() ==> (#[trigger] ids@[i]) < token_embedding.vocab_size,
            ids@.len() <= positional_embedding.max_seq_len,
            goal == embedded(n, ids@, grid(token_embedding.weight@), grid(positional_embedding.weight@)),
            position <= ids@.len(),
            grid(out@) == goal.take(position as int),
        decreases ids@.len() - position,
    {
        let ghost before = grid(out@);
        let token = token_embedding.forward(ids[position]);
        let place = positional_embedding.forward(position);
        let row = crate::matrix::add(n, &token, &place);
        out.push(row);
        assert(grid(out@) =~= before.push(row@));
        position += 1;
        assert(grid(out@) =~= goal.take(position as int));
    }
    assert(grid(out@) =~= goal);
    out
}

} // verus!
