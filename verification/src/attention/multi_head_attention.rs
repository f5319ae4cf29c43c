//! Several attention heads side by side.

use vstd::prelude::*;

use crate::attention::self_attention::{attended, SelfAttention};
use crate::matrix::{grid, matmul, multiplies, product};
use crate::numbers::{zero, Arithmetic};
use crate::param::filled;
use crate::rows::{append_row, copy_rows};

verus! {

/// The weights that one head starts with.
pub struct HeadWeights<T> {
    /// The weights that make queries.
    pub w_q: Vec<Vec<T>>,
    /// The weights that make keys.
    pub w_k: Vec<Vec<T>>,
    /// The weights that make values.
    pub w_v: Vec<Vec<T>>,
}

/// Attention heads whose outputs are put side by side and mixed.
pub struct MultiHeadAttention<T> {
    /// The heads.
    pub heads: Vec<SelfAttention<T>>,
    /// The weights that mix the outputs of the heads.
    pub w_o: Vec<Vec<T>>,
    /// How many heads there are.
    pub num_heads: usize,
    /// The width of a token.
    pub d_model: usize,
}

/// What one head makes of an input.
pub open spec fn head_output<N: Arithmetic>(n: &N, head: SelfAttention<N::Num>, x: Seq<Seq<N::Num>>) -> Seq<
    Seq<N::Num>,
> {
    attended(n, head.queries(n, x), head.keys(n, x), head.values(n, x), head.d_k, head.past_keys().len())
}

/// Row `i` of the outputs of the first `k` heads, side by side.
pub open spec fn side_by_side<N: Arithmetic>(
    n: &N,
    heads: Seq<SelfAttention<N::Num>>,
    x: Seq<Seq<N::Num>>,
    i: int,
    k: nat,
) -> Seq<N::Num>
    decreases k,
{
    if k == 0 {
        Seq::empty()
    } else {
        side_by_side(n, heads, x, i, (k - 1) as nat) + head_output(n, heads[k - 1], x)[i]
    }
}

/// The outputs of all heads, side by side.
pub open spec fn concatenated<N: Arithmetic>(n: &N, heads: Seq<SelfAttention<N::Num>>, x: Seq<Seq<N::Num>>) -> Seq<
    Seq<N::Num>,
> {
    Seq::new(x.len(), |i: int| side_by_side(n, heads, x, i, heads.len()))
}

/// A row of the outputs of heads side by side is their rows one after the other, in the order of the
/// heads.
pub proof fn law_heads_stand_in_order<N: Arithmetic>(
    n: &N,
    heads: Seq<SelfAttention<N::Num>>,
    x: Seq<Seq<N::Num>>,
    i: int,
    k: nat,
)
    requires
        k <= heads.len(),
    ensures
        side_by_side(n, heads, x, i, k) == heads.take(k as int).map_values(
            |head: SelfAttention<N::Num>| head_output(n, head, x)[i],
        ).flatten(),
    decreases k,
{
    let f = |head: SelfAttention<N::Num>| head_output(n, head, x)[i];
    let all = heads.take(k as int).map_values(f);
    if k == 0 {
        assert(all =~= Seq::<Seq<N::Num>>::empty());
    } else {
        law_heads_stand_in_order(n, heads, x, i, (k - 1) as nat);
        let fewer = heads.take(k - 1).map_values(f);
        assert(all =~= fewer.push(head_output(n, heads[k - 1], x)[i]));
        fewer.lemma_flatten_push(head_output(n, heads[k - 1], x)[i]);
    }
}

/// A head made of starting weights, with no gradients and nothing kept.
pub open spec fn starts_with<N: Arithmetic>(
    n: &N,
    head: SelfAttention<N::Num>,
    weights: HeadWeights<N::Num>,
    d_model: usize,
    d_k: usize,
) -> bool {
    &&& grid(head.w_q.data@) == grid(weights.w_q@)
    &&& grid(head.w_q.grad@) == filled(grid(weights.w_q@), zero(n))
    &&& grid(head.w_k.data@) == grid(weights.w_k@)
    &&& grid(head.w_k.grad@) == filled(grid(weights.w_k@), zero(n))
    &&& grid(head.w_v.data@) == grid(weights.w_v@)
    &&& grid(head.w_v.grad@) == filled(grid(weights.w_v@), zero(n))
    &&& head.d_model == d_model
    &&& head.d_k == d_k
    &&& head.d_v == d_k
    &&& head.cache_x@.len() == 0
    &&& head.cache_q@.len() == 0
    &&& head.cache_k@.len() == 0
    &&& head.cache_v@.len() == 0
    &&& head.cache_attention_weights@.len() == 0
    &&& !head.use_cache
    &&& head.cache_kv is None
}

impl<T: Copy> MultiHeadAttention<T> {
    /// Heads with the given weights, each as wide as its share of the token.
    pub fn new<N: Arithmetic<Num = T>>(
        n: &N,
        weights: &Vec<HeadWeights<T>>,
        w_o: Vec<Vec<T>>,
        d_model: usize,
        num_heads: usize,
    ) -> (r: Self)
        requires
            n.wf(),
            num_heads > 0,
            d_model % num_heads == 0,
            weights@.len() == num_heads,
        ensures
            r.heads@.len() == num_heads,
            forall|h: int|
                0 <= h < num_heads ==> starts_with(
                    n,
                    #[trigger] r.heads@[h],
                    weights@[h],
                    d_model,
                    (d_model / num_heads) as usize,
                ),
            r.w_o == w_o,
            r.num_heads == num_heads,
            r.d_model == d_model,
    {
        let d_k: usize = d_model / num_heads;
        let mut heads: Vec<SelfAttention<T>> = Vec::new();
        let mut h: usize = 0;
        while h < num_heads
            invariant
                n.wf(),
                h <= num_heads,
                weights@.len() == num_heads,
                heads@.len() == h,
                forall|g: int| 0 <= g < h ==> starts_with(n, #[trigger] heads@[g], weights@[g], d_model, d_k),
            decreases num_heads - h,
        {
            let head = SelfAttention::new(
                n,
                copy_rows(&weights[h].w_q),
                copy_rows(&weights[h].w_k),
                copy_rows(&weights[h].w_v),
                d_model,
                d_k,
                d_k,
            );
            heads.push(head);
            h += 1;
        }
        MultiHeadAttention { heads, w_o, num_heads, d_model }
    }

    /// Runs all heads on `x`, puts their outputs side by side and mixes them.
    pub fn forward<N: Arithmetic<Num = T>>(&mut self, n: &N, x: &Vec<Vec<T>>) -> (r: Vec<Vec<T>>)
        requires
            n.wf(),
            forall|h: int| 0 <= h < old(self).heads@.len() ==> (#[trigger] old(self).heads@[h]).forward_fits(n, grid(x@)),
            multiplies(concatenated(n, old(self).heads@, grid(x@)), grid(old(self).w_o@)),
        ensures
            final(self).w_o == old(self).w_o,
            final(self).num_heads == old(self).num_heads,
            final(self).d_model == old(self).d_model,
            final(self).heads@.len() == old(self).heads@.len(),
            forall|h: int|
                0 <= h < old(self).heads@.len() ==> (#[trigger] old(self).heads@[h]).passes_to(
                    n,
                    grid(x@),
                    final(self).heads@[h],
                ),
            grid(r@) == product(n, concatenated(n, old(self).heads@, grid(x@)), grid(old(self).w_o@)),
    {
        let ghost start = self.heads@;
        let ghost input = grid(x@);
        let mut head_outputs: Vec<Vec<Vec<T>>> = Vec::new();
        let mut h: usize = 0;
        while h < self.heads.len()
            invariant
                n.wf(),
                h <= self.heads@.len(),
                start == old(self).heads@,
                input == grid(x@),
                self.heads@.len() == start.len(),
                self.w_o == old(self).w_o,
                self.num_heads == old(self).num_heads,
                self.d_model == old(self).d_model,
                forall|g: int| 0 <= g < start.len() ==> (#[trigger] start[g]).forward_fits(n, input),
                forall|g: int| 0 <= g < h ==> (#[trigger] start[g]).passes_to(n, input, self.heads@[g]),
                forall|g: int| h <= g < start.len() ==> #[trigger] self.heads@[g] == start[g],
                head_outputs@.len() == h,
                forall|g: int|
                    0 <= g < h ==> grid((#[trigger] head_outputs@[g])@) == head_output(n, start[g], input),
            decreases self.heads@.len() - h,
        {
            assert(start[h as int].forward_fits(n, input));
            let out = self.heads[h].forward(n, x);
            head_outputs.push(out);
            h += 1;
        }
        let ghost goal = concatenated(n, start, input);
        let seq_len: usize = x.len();
        let mut joined: Vec<Vec<T>> = Vec::new();
        let mut i: usize = 0;
        while i < seq_len
            invariant
                i <= seq_len,
                seq_len == input.len(),
                goal == concatenated(n, start, input),
                head_outputs@.len() == start.len(),
                forall|g: int|
                    0 <= g < start.len() ==> grid((#[trigger] head_outputs@[g])@) == head_output(n, start[g], input),
                grid(joined@) == goal.take(i as int),
            decreases seq_len - i,
        {
            let mut row: Vec<T> = Vec::new();
            let mut g: usize = 0;
            while g < head_outputs.len()
                invariant
                    i < seq_len,
                    seq_len == input.len(),
                    g <= head_outputs@.len(),
                    head_outputs@.len() == start.len(),
                    forall|g: int|
                        0 <= g < start.len() ==> grid((#[trigger] head_outputs@[g])@) == head_output(
                            n,
                            start[g],
                            input,
                        ),
                    row@ == side_by_side(n, start, input, i as int, g as nat),
                decreases head_outputs@.len() - g,
            {
                assert(grid(head_outputs@[g as int]@)[i as int] == head_outputs@[g as int]@[i as int]@);
                append_row(&mut row, &head_outputs[g][i]);
                g += 1;
            }
            let ghost before = grid(joined@);
            joined.push(row);
            assert(grid(joined@) =~= before.push(row@));
            i += 1;
            assert(grid(joined@) =~= goal.take(i as int));
        }
        assert(grid(joined@) =~= goal);
        matmul(n, &joined, &self.w_o)
    }
}

} // verus!
