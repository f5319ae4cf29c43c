//! Causal scaled dot-product attention with one head.

use vstd::prelude::*;

use crate::attention::gradients::{descends, is_attention, law_head_attends, law_head_gradients};
use crate::matrix::{covers, grid, has_shape, mat_transpose, matmul, multiplies, product, transposed, transposes};
use crate::numbers::{zero, Arithmetic, Term};
use crate::param::{filled, Param};
use crate::reals::{exact, Reals};
use crate::rows::{
    accumulate, accumulated, append_rows, copy_rows, divide_rows, divided, mask_after, masked_after, softmax_rows,
    softmax_rows_of,
};

verus! {

/// One attention head.
pub struct SelfAttention<T> {
    /// The weights that make queries.
    pub w_q: Param<T>,
    /// The weights that make keys.
    pub w_k: Param<T>,
    /// The weights that make values.
    pub w_v: Param<T>,
    /// The width of a token.
    pub d_model: usize,
    /// The width of a query and of a key.
    pub d_k: usize,
    /// The width of a value.
    pub d_v: usize,
    /// The input of the last forward pass.
    pub cache_x: Vec<Vec<T>>,
    /// Its queries.
    pub cache_q: Vec<Vec<T>>,
    /// Its keys, with those of earlier passes before them.
    pub cache_k: Vec<Vec<T>>,
    /// Its values, with those of earlier passes before them.
    pub cache_v: Vec<Vec<T>>,
    /// How much each token looked at each other one.
    pub cache_attention_weights: Vec<Vec<T>>,
    /// Whether keys and values are kept from one forward pass to the next.
    pub use_cache: bool,
    /// The keys and values that were kept.
    pub cache_kv: Option<(Vec<Vec<T>>, Vec<Vec<T>>)>,
}

/// The square root of the key width.
pub open spec fn key_scale<N: Arithmetic>(n: &N, d_k: usize) -> N::Num {
    n.value(Term::Sqrt(n.value(Term::Count(d_k))))
}

/// How well each query matches each key, scaled, with keys after a query's own position shut out.
/// The first query stands at position `offset`.
pub open spec fn masked_scores<N: Arithmetic>(
    n: &N,
    q: Seq<Seq<N::Num>>,
    k: Seq<Seq<N::Num>>,
    d_k: usize,
    offset: nat,
) -> Seq<Seq<N::Num>> {
    masked_after(divided(n, product(n, q, transposed(k)), key_scale(n, d_k)), offset, n.value(Term::NegInfinity))
}

/// How much each query takes from each position.
pub open spec fn attention_weights<N: Arithmetic>(
    n: &N,
    q: Seq<Seq<N::Num>>,
    k: Seq<Seq<N::Num>>,
    d_k: usize,
    offset: nat,
) -> Seq<Seq<N::Num>> {
    softmax_rows_of(n, masked_scores(n, q, k, d_k, offset))
}

/// What comes out: the values, blended by the attention weights.
pub open spec fn attended<N: Arithmetic>(
    n: &N,
    q: Seq<Seq<N::Num>>,
    k: Seq<Seq<N::Num>>,
    v: Seq<Seq<N::Num>>,
    d_k: usize,
    offset: nat,
) -> Seq<Seq<N::Num>> {
    product(n, attention_weights(n, q, k, d_k, offset), v)
}

/// The sum over the first `k` places of the products of two rows.
pub open spec fn row_dot<N: Arithmetic>(n: &N, a: Seq<N::Num>, b: Seq<N::Num>, k: nat) -> N::Num
    decreases k,
{
    if k == 0 {
        zero(n)
    } else {
        n.value(Term::Add(row_dot(n, a, b, (k - 1) as nat), n.value(Term::Mul(a[k - 1], b[k - 1]))))
    }
}

/// The gradient of the scores, from the attention weights and their gradient: through the softmax,
/// the mask and the scale.
pub open spec fn score_gradient<N: Arithmetic>(
    n: &N,
    weights: Seq<Seq<N::Num>>,
    d_weights: Seq<Seq<N::Num>>,
    scale: N::Num,
    len: nat,
) -> Seq<Seq<N::Num>> {
    Seq::new(
        len,
        |i: int|
            Seq::new(
                len,
                |j: int|
                    if j > i {
                        zero(n)
                    } else {
                        n.value(
                            Term::Div(
                                n.value(
                                    Term::Mul(
                                        weights[i][j],
                                        n.value(
                                            Term::Sub(d_weights[i][j], row_dot(n, d_weights[i], weights[i], len)),
                                        ),
                                    ),
                                ),
                                scale,
                            ),
                        )
                    },
            ),
    )
}

fn score_backward<N: Arithmetic>(
    n: &N,
    weights: &Vec<Vec<N::Num>>,
    d_weights: &Vec<Vec<N::Num>>,
    scale: N::Num,
    len: usize,
) -> (r: Vec<Vec<N::Num>>)
    requires
        n.wf(),
        covers(grid(weights@), len as nat, len as nat),
        covers(grid(d_weights@), len as nat, len as nat),
    ensures
        grid(r@) == score_gradient(n, grid(weights@), grid(d_weights@), scale, len as nat),
{
    let ghost w = grid(weights@);
    let ghost d = grid(d_weights@);
    let ghost goal = score_gradient(n, w, d, scale, len as nat);
    let nothing = n.eval(Term::Decimal(0, 0));
    let mut out: Vec<Vec<N::Num>> = Vec::new();
    let mut i: usize = 0;
    while i < len
        invariant
            n.wf(),
            nothing == zero(n),
            w == grid(weights@),
            d == grid(d_weights@),
            goal == score_gradient(n, w, d, scale, len as nat),
            covers(w, len as nat, len as nat),
            covers(d, len as nat, len as nat),
            i <= len,
            grid(out@) == goal.take(i as int),
        decreases len - i,
    {
        assert(w[i as int].len() >= len && d[i as int].len() >= len);
        assert(w[i as int] == weights@[i as int]@ && d[i as int] == d_weights@[i as int]@);
        let mut sum_dp = nothing;
        let mut k: usize = 0;
        while k < len
            invariant
                n.wf(),
                i < len,
                weights@.len() >= len,
                d_weights@.len() >= len,
                w[i as int].len() >= len,
                d[i as int].len() >= len,
                w[i as int] == weights@[i as int]@,
                d[i as int] == d_weights@[i as int]@,
                k <= len,
                sum_dp == row_dot(n, d[i as int], w[i as int], k as nat),
            decreases len - k,
        {
            sum_dp = n.eval(Term::Add(sum_dp, n.eval(Term::Mul(d_weights[i][k], weights[i][k]))));
            k += 1;
        }
        let mut row: Vec<N::Num> = Vec::new();
        let mut j: usize = 0;
        while j < len
            invariant
                n.wf(),
                nothing == zero(n),
                i < len,
                weights@.len() >= len,
                d_weights@.len() >= len,
                goal == score_gradient(n, w, d, scale, len as nat),
                w[i as int].len() >= len,
                d[i as int].len() >= len,
                w[i as int] == weights@[i as int]@,
                d[i as int] == d_weights@[i as int]@,
                sum_dp == row_dot(n, d[i as int], w[i as int], len as nat),
                j <= len,
                row@ == goal[i as int].take(j as int),
            decreases len - j,
        {
            if j > i {
                row.push(nothing);
            } else {
                let inner = n.eval(Term::Mul(weights[i][j], n.eval(Term::Sub(d_weights[i][j], sum_dp))));
                row.push(n.eval(Term::Div(inner, scale)));
            }
            j += 1;
            assert(row@ =~= goal[i as int].take(j as int));
        }
        assert(row@ =~= goal[i as int]);
        let ghost before = grid(out@);
        out.push(row);
        assert(grid(out@) =~= before.push(row@));
        i += 1;
        assert(grid(out@) =~= goal.take(i as int));
    }
    assert(grid(out@) =~= goal);
    out
}

/// Three matrices added, in this order, in their first rows and columns.
pub open spec fn added_up<N: Arithmetic>(
    n: &N,
    a: Seq<Seq<N::Num>>,
    b: Seq<Seq<N::Num>>,
    c: Seq<Seq<N::Num>>,
    rows: nat,
    cols: nat,
) -> Seq<Seq<N::Num>> {
    Seq::new(
        rows,
        |i: int|
            Seq::new(cols, |j: int| n.value(Term::Add(n.value(Term::Add(a[i][j], b[i][j])), c[i][j]))),
    )
}

fn add_up<N: Arithmetic>(
    n: &N,
    a: &Vec<Vec<N::Num>>,
    b: &Vec<Vec<N::Num>>,
    c: &Vec<Vec<N::Num>>,
    rows: usize,
    cols: usize,
) -> (r: Vec<Vec<N::Num>>)
    requires
        n.wf(),
        cols > 0 ==> covers(grid(a@), rows as nat, cols as nat),
        cols > 0 ==> covers(grid(b@), rows as nat, cols as nat),
        cols > 0 ==> covers(grid(c@), rows as nat, cols as nat),
    ensures
        grid(r@) == added_up(n, grid(a@), grid(b@), grid(c@), rows as nat, cols as nat),
{
    let ghost ga = grid(a@);
    let ghost gb = grid(b@);
    let ghost gc = grid(c@);
    let ghost goal = added_up(n, ga, gb, gc, rows as nat, cols as nat);
    let mut out: Vec<Vec<N::Num>> = Vec::new();
    let mut i: usize = 0;
    while i < rows
        invariant
            n.wf(),
            ga == grid(a@),
            gb == grid(b@),
            gc == grid(c@),
            goal == added_up(n, ga, gb, gc, rows as nat, cols as nat),
            cols > 0 ==> covers(ga, rows as nat, cols as nat),
            cols > 0 ==> covers(gb, rows as nat, cols as nat),
            cols > 0 ==> covers(gc, rows as nat, cols as nat),
            i <= rows,
            grid(out@) == goal.take(i as int),
        decreases rows - i,
    {
        let mut row: Vec<N::Num> = Vec::new();
        let mut j: usize = 0;
        while j < cols
            invariant
                n.wf(),
                ga == grid(a@),
                gb == grid(b@),
                gc == grid(c@),
                goal == added_up(n, ga, gb, gc, rows as nat, cols as nat),
                cols > 0 ==> covers(ga, rows as nat, cols as nat),
                cols > 0 ==> covers(gb, rows as nat, cols as nat),
                cols > 0 ==> covers(gc, rows as nat, cols as nat),
                i < rows,
                j <= cols,
                row@ == goal[i as int].take(j as int),
            decreases cols - j,
        {
            assert(ga[i as int].len() >= cols && gb[i as int].len() >= cols && gc[i as int].len() >= cols);
            assert(ga[i as int] == a@[i as int]@ && gb[i as int] == b@[i as int]@ && gc[i as int] == c@[i as int]@);
            row.push(n.eval(Term::Add(n.eval(Term::Add(a[i][j], b[i][j])), c[i][j])));
            j += 1;
            assert(row@ =~= goal[i as int].take(j as int));
        }
        assert(row@ =~= goal[i as int]);
        let ghost before = grid(out@);
        out.push(row);
        assert(grid(out@) =~= before.push(row@));
        i += 1;
        assert(grid(out@) =~= goal.take(i as int));
    }
    assert(grid(out@) =~= goal);
    out
}

/// All that a backward pass computes on the way.
pub struct Gradients<T> {
    /// Of the queries.
    pub q: Seq<Seq<T>>,
    /// Of the keys.
    pub k: Seq<Seq<T>>,
    /// Of the values.
    pub v: Seq<Seq<T>>,
    /// Of the weights that make queries.
    pub w_q: Seq<Seq<T>>,
    /// Of the weights that make keys.
    pub w_k: Seq<Seq<T>>,
    /// Of the weights that make values.
    pub w_v: Seq<Seq<T>>,
}

impl<T: Copy> SelfAttention<T> {
    /// The keys that earlier passes left and this one uses.
    pub open spec fn past_keys(&self) -> Seq<Seq<T>> {
        match self.cache_kv {
            Some(kv) => if self.use_cache {
                grid(kv.0@)
            } else {
                Seq::empty()
            },
            None => Seq::empty(),
        }
    }

    /// The values that earlier passes left and this one uses.
    pub open spec fn past_values(&self) -> Seq<Seq<T>> {
        match self.cache_kv {
            Some(kv) => if self.use_cache {
                grid(kv.1@)
            } else {
                Seq::empty()
            },
            None => Seq::empty(),
        }
    }

    /// The queries of an input.
    pub open spec fn queries<N: Arithmetic<Num = T>>(&self, n: &N, x: Seq<Seq<T>>) -> Seq<Seq<T>> {
        product(n, x, grid(self.w_q.data@))
    }

    /// The keys of an input, with those of earlier passes before them.
    pub open spec fn keys<N: Arithmetic<Num = T>>(&self, n: &N, x: Seq<Seq<T>>) -> Seq<Seq<T>> {
        self.past_keys() + product(n, x, grid(self.w_k.data@))
    }

    /// The values of an input, with those of earlier passes before them.
    pub open spec fn values<N: Arithmetic<Num = T>>(&self, n: &N, x: Seq<Seq<T>>) -> Seq<Seq<T>> {
        self.past_values() + product(n, x, grid(self.w_v.data@))
    }

    /// Whether the forward pass can be run on an input: there is a key, and the matrices fit.
    pub open spec fn forward_fits<N: Arithmetic<Num = T>>(&self, n: &N, x: Seq<Seq<T>>) -> bool {
        let q = self.queries(n, x);
        let k = self.keys(n, x);
        let v = self.values(n, x);
        &&& multiplies(x, grid(self.w_q.data@))
        &&& multiplies(x, grid(self.w_k.data@))
        &&& multiplies(x, grid(self.w_v.data@))
        &&& transposes(k)
        &&& multiplies(q, transposed(k))
        &&& multiplies(attention_weights(n, q, k, self.d_k, self.past_keys().len()), v)
    }

    /// The head after a forward pass on `x`.
    pub open spec fn passes_to<N: Arithmetic<Num = T>>(&self, n: &N, x: Seq<Seq<T>>, next: Self) -> bool {
        let q = self.queries(n, x);
        let k = self.keys(n, x);
        let v = self.values(n, x);
        &&& next.w_q == self.w_q
        &&& next.w_k == self.w_k
        &&& next.w_v == self.w_v
        &&& next.d_model == self.d_model
        &&& next.d_k == self.d_k
        &&& next.d_v == self.d_v
        &&& next.use_cache == self.use_cache
        &&& grid(next.cache_x@) == x
        &&& grid(next.cache_q@) == q
        &&& grid(next.cache_k@) == k
        &&& grid(next.cache_v@) == v
        &&& grid(next.cache_attention_weights@) == attention_weights(n, q, k, self.d_k, self.past_keys().len())
        &&& if self.use_cache {
            next.cache_kv matches Some(kv) && grid(kv.0@) == k && grid(kv.1@) == v
        } else {
            next.cache_kv == self.cache_kv
        }
    }

    /// A head with the given weights, no gradients and nothing kept.
    pub fn new<N: Arithmetic<Num = T>>(
        n: &N,
        w_q: Vec<Vec<T>>,
        w_k: Vec<Vec<T>>,
        w_v: Vec<Vec<T>>,
        d_model: usize,
        d_k: usize,
        d_v: usize,
    ) -> (r: Self)
        requires
            n.wf(),
        ensures
            r.w_q.data == w_q,
            grid(r.w_q.grad@) == filled(grid(w_q@), zero(n)),
            r.w_k.data == w_k,
            grid(r.w_k.grad@) == filled(grid(w_k@), zero(n)),
            r.w_v.data == w_v,
            grid(r.w_v.grad@) == filled(grid(w_v@), zero(n)),
            r.d_model == d_model,
            r.d_k == d_k,
            r.d_v == d_v,
            r.cache_x@.len() == 0,
            r.cache_q@.len() == 0,
            r.cache_k@.len() == 0,
            r.cache_v@.len() == 0,
            r.cache_attention_weights@.len() == 0,
            !r.use_cache,
            r.cache_kv is None,
    {
        SelfAttention {
            w_q: Param::new(n, w_q),
            w_k: Param::new(n, w_k),
            w_v: Param::new(n, w_v),
            d_model,
            d_k,
            d_v,
            cache_x: Vec::new(),
            cache_q: Vec::new(),
            cache_k: Vec::new(),
            cache_v: Vec::new(),
            cache_attention_weights: Vec::new(),
            use_cache: false,
            cache_kv: None,
        }
    }

    /// Lets every token of `x` look at itself and the tokens before it, those of earlier passes
    /// included when they were kept.
    pub fn forward<N: Arithmetic<Num = T>>(&mut self, n: &N, x: &Vec<Vec<T>>) -> (r: Vec<Vec<T>>)
        requires
            n.wf(),
            old(self).forward_fits(n, grid(x@)),
        ensures
            old(self).passes_to(n, grid(x@), *final(self)),
            grid(r@) == attended(
                n,
                old(self).queries(n, grid(x@)),
                old(self).keys(n, grid(x@)),
                old(self).values(n, grid(x@)),
                old(self).d_k,
                old(self).past_keys().len(),
            ),
            forall|q: Reals<T>|
                #![trigger exact(n, q)]
                exact(n, q) && old(self).looks_at(q, grid(x@)) ==> is_attention(q, *old(self), grid(x@), grid(r@)),
    {
        let ghost input = grid(x@);
        self.cache_x = copy_rows(x);
        let q = matmul(n, x, &self.w_q.data);
        let mut k = matmul(n, x, &self.w_k.data);
        let mut v = matmul(n, x, &self.w_v.data);
        let mut pos_offset: usize = 0;
        assert(Seq::<Seq<T>>::empty() + grid(k@) =~= grid(k@));
        assert(Seq::<Seq<T>>::empty() + grid(v@) =~= grid(v@));
        if self.use_cache {
            match &self.cache_kv {
                Some(past) => {
                    pos_offset = past.0.len();
                    k = append_rows(&past.0, &k);
                    v = append_rows(&past.1, &v);
                },
                None => {},
            }
            self.cache_kv = Some((copy_rows(&k), copy_rows(&v)));
        }
        assert(grid(k@) == old(self).keys(n, input));
        assert(grid(v@) == old(self).values(n, input));
        self.cache_q = copy_rows(&q);
        self.cache_k = copy_rows(&k);
        self.cache_v = copy_rows(&v);
        assert(grid(k@)[0] == k@[0]@);
        let k_t = mat_transpose(&k);
        let scores = matmul(n, &q, &k_t);
        let dk_sqrt = n.eval(Term::Sqrt(n.eval(Term::Count(self.d_k))));
        let mut scaled_scores = divide_rows(n, &scores, dk_sqrt);
        proof {
            let s = grid(scaled_scores@);
            if s.len() > 0 {
                assert(s[0] == scaled_scores@[0]@);
                assert forall|i: int| 0 <= i < s.len() implies (#[trigger] s[i]).len() >= s[0].len() by {
                    assert(grid(scores@)[i].len() == grid(scores@)[0].len());
                }
            }
        }
        mask_after(&mut scaled_scores, pos_offset, n.eval(Term::NegInfinity));
        let weights = softmax_rows(n, &scaled_scores);
        self.cache_attention_weights = copy_rows(&weights);
        let out = matmul(n, &weights, &v);
        proof {
            assert forall|q: Reals<T>|
                #![trigger exact(n, q)]
                exact(n, q) && old(self).looks_at(q, input) implies is_attention(q, *old(self), input, grid(out@)) by {
                law_head_attends(n, q, *old(self), input);
            }
        }
        out
    }

    /// The gradients that a backward pass computes.
    pub open spec fn gradients<N: Arithmetic<Num = T>>(&self, n: &N, d_out: Seq<Seq<T>>) -> Gradients<T> {
        let weights = grid(self.cache_attention_weights@);
        let d_weights = product(n, d_out, transposed(grid(self.cache_v@)));
        let d_scores = score_gradient(n, weights, d_weights, key_scale(n, self.d_k), d_out.len());
        let x_t = transposed(grid(self.cache_x@));
        let q = product(n, d_scores, grid(self.cache_k@));
        let k = product(n, transposed(d_scores), grid(self.cache_q@));
        let v = product(n, transposed(weights), d_out);
        Gradients { q, k, v, w_q: product(n, x_t, q), w_k: product(n, x_t, k), w_v: product(n, x_t, v) }
    }

    /// The gradient of the input that a backward pass computes.
    pub open spec fn input_gradient<N: Arithmetic<Num = T>>(&self, n: &N, d_out: Seq<Seq<T>>) -> Seq<Seq<T>> {
        let g = self.gradients(n, d_out);
        added_up(
            n,
            product(n, g.q, transposed(grid(self.w_q.data@))),
            product(n, g.k, transposed(grid(self.w_k.data@))),
            product(n, g.v, transposed(grid(self.w_v.data@))),
            d_out.len(),
            self.d_model as nat,
        )
    }

    /// Whether the weights are real numbers and have the shapes that the widths say.
    pub open spec fn is_real(&self, r: Reals<T>) -> bool {
        &&& self.d_model > 0
        &&& self.d_k > 0
        &&& self.d_v > 0
        &&& has_shape(grid(self.w_q.data@), self.d_model as nat, self.d_k as nat)
        &&& has_shape(grid(self.w_k.data@), self.d_model as nat, self.d_k as nat)
        &&& has_shape(grid(self.w_v.data@), self.d_model as nat, self.d_v as nat)
        &&& r.grid(grid(self.w_q.data@))
        &&& r.grid(grid(self.w_k.data@))
        &&& r.grid(grid(self.w_v.data@))
    }

    /// Whether the head can be run on an input of real numbers, behind what was kept.
    pub open spec fn looks_at(&self, r: Reals<T>, x: Seq<Seq<T>>) -> bool {
        &&& self.is_real(r)
        &&& x.len() > 0
        &&& has_shape(x, x.len(), self.d_model as nat)
        &&& r.grid(x)
        &&& self.past_values().len() == self.past_keys().len()
        &&& has_shape(self.past_keys(), self.past_keys().len(), self.d_k as nat)
        &&& has_shape(self.past_values(), self.past_keys().len(), self.d_v as nat)
        &&& r.grid(self.past_keys())
        &&& r.grid(self.past_values())
    }

    /// Whether the last forward pass was one on real numbers with nothing kept before it, and the
    /// gradients so far and the one to come are real numbers.
    pub open spec fn learns<N: Arithmetic<Num = T>>(&self, n: &N, r: Reals<T>, d_out: Seq<Seq<T>>) -> bool {
        let x = grid(self.cache_x@);
        &&& self.is_real(r)
        &&& x.len() > 0
        &&& has_shape(x, x.len(), self.d_model as nat)
        &&& r.grid(x)
        &&& grid(self.cache_q@) == product(n, x, grid(self.w_q.data@))
        &&& grid(self.cache_k@) == product(n, x, grid(self.w_k.data@))
        &&& grid(self.cache_v@) == product(n, x, grid(self.w_v.data@))
        &&& grid(self.cache_attention_weights@) == attention_weights(
            n,
            grid(self.cache_q@),
            grid(self.cache_k@),
            self.d_k,
            0,
        )
        &&& has_shape(d_out, x.len(), self.d_v as nat)
        &&& r.grid(d_out)
        &&& has_shape(grid(self.w_q.grad@), self.d_model as nat, self.d_k as nat)
        &&& has_shape(grid(self.w_k.grad@), self.d_model as nat, self.d_k as nat)
        &&& has_shape(grid(self.w_v.grad@), self.d_model as nat, self.d_v as nat)
        &&& r.grid(grid(self.w_q.grad@))
        &&& r.grid(grid(self.w_k.grad@))
        &&& r.grid(grid(self.w_v.grad@))
    }

    /// Whether the backward pass can be run for gradients of this shape.
    pub open spec fn backward_fits<N: Arithmetic<Num = T>>(&self, n: &N, d_out: Seq<Seq<T>>) -> bool {
        let weights = grid(self.cache_attention_weights@);
        let d_weights = product(n, d_out, transposed(grid(self.cache_v@)));
        let d_scores = score_gradient(n, weights, d_weights, key_scale(n, self.d_k), d_out.len());
        let x_t = transposed(grid(self.cache_x@));
        let g = self.gradients(n, d_out);
        let model = self.d_model as nat;
        let w_q_t = transposed(grid(self.w_q.data@));
        let w_k_t = transposed(grid(self.w_k.data@));
        let w_v_t = transposed(grid(self.w_v.data@));
        &&& d_out.len() > 0
        &&& transposes(grid(self.cache_v@))
        &&& multiplies(d_out, transposed(grid(self.cache_v@)))
        &&& transposes(weights)
        &&& multiplies(transposed(weights), d_out)
        &&& covers(weights, d_out.len(), d_out.len())
        &&& covers(d_weights, d_out.len(), d_out.len())
        &&& multiplies(d_scores, grid(self.cache_k@))
        &&& multiplies(transposed(d_scores), grid(self.cache_q@))
        &&& transposes(grid(self.cache_x@))
        &&& multiplies(x_t, g.q)
        &&& multiplies(x_t, g.k)
        &&& multiplies(x_t, g.v)
        &&& self.d_k > 0 ==> covers(grid(self.w_q.grad@), model, self.d_k as nat) && covers(
            g.w_q,
            model,
            self.d_k as nat,
        ) && covers(grid(self.w_k.grad@), model, self.d_k as nat) && covers(g.w_k, model, self.d_k as nat)
        &&& self.d_v > 0 ==> covers(grid(self.w_v.grad@), model, self.d_v as nat) && covers(
            g.w_v,
            model,
            self.d_v as nat,
        )
        &&& transposes(grid(self.w_q.data@))
        &&& transposes(grid(self.w_k.data@))
        &&& transposes(grid(self.w_v.data@))
        &&& multiplies(g.q, w_q_t)
        &&& multiplies(g.k, w_k_t)
        &&& multiplies(g.v, w_v_t)
        &&& model > 0 ==> covers(product(n, g.q, w_q_t), d_out.len(), model) && covers(
            product(n, g.k, w_k_t),
            d_out.len(),
            model,
        ) && covers(product(n, g.v, w_v_t), d_out.len(), model)
    }

    /// Adds the gradients of the three weight matrices to what they hold, and gives the gradient of
    /// the input.
    pub fn backward<N: Arithmetic<Num = T>>(&mut self, n: &N, d_out: &Vec<Vec<T>>) -> (r: Vec<Vec<T>>)
        requires
            n.wf(),
            old(self).backward_fits(n, grid(d_out@)),
        ensures
            ({
                let g = old(self).gradients(n, grid(d_out@));
                let model = old(self).d_model as nat;
                &&& *final(self) == (SelfAttention {
                    w_q: final(self).w_q,
                    w_k: final(self).w_k,
                    w_v: final(self).w_v,
                    ..*old(self)
                })
                &&& final(self).w_q.data == old(self).w_q.data
                &&& final(self).w_k.data == old(self).w_k.data
                &&& final(self).w_v.data == old(self).w_v.data
                &&& grid(final(self).w_q.grad@) == accumulated(
                    n,
                    grid(old(self).w_q.grad@),
                    g.w_q,
                    model,
                    old(self).d_k as nat,
                )
                &&& grid(final(self).w_k.grad@) == accumulated(
                    n,
                    grid(old(self).w_k.grad@),
                    g.w_k,
                    model,
                    old(self).d_k as nat,
                )
                &&& grid(final(self).w_v.grad@) == accumulated(
                    n,
                    grid(old(self).w_v.grad@),
                    g.w_v,
                    model,
                    old(self).d_v as nat,
                )
                &&& grid(r@) == old(self).input_gradient(n, grid(d_out@))
            }),
            forall|q: Reals<T>|
                #![trigger exact(n, q)]
                exact(n, q) && old(self).learns(n, q, grid(d_out@)) ==> descends(
                    n,
                    q,
                    *old(self),
                    *final(self),
                    grid(d_out@),
                    grid(r@),
                ),
    {
        let v_t = mat_transpose(&self.cache_v);
        let d_attention_w = matmul(n, d_out, &v_t);
        let a_t = mat_transpose(&self.cache_attention_weights);
        let d_v = matmul(n, &a_t, d_out);
        let seq_len: usize = d_out.len();
        let dk_sqrt = n.eval(Term::Sqrt(n.eval(Term::Count(self.d_k))));
        let d_scaled = score_backward(n, &self.cache_attention_weights, &d_attention_w, dk_sqrt, seq_len);
        let d_q = matmul(n, &d_scaled, &self.cache_k);
        assert(grid(d_scaled@)[0] == d_scaled@[0]@);
        let d_scaled_t = mat_transpose(&d_scaled);
        let d_k_grad = matmul(n, &d_scaled_t, &self.cache_q);
        let x_t = mat_transpose(&self.cache_x);
        let batch_d_wq = matmul(n, &x_t, &d_q);
        let batch_d_wk = matmul(n, &x_t, &d_k_grad);
        let batch_d_wv = matmul(n, &x_t, &d_v);
        accumulate(n, &mut self.w_q.grad, &batch_d_wq, self.d_model, self.d_k);
        accumulate(n, &mut self.w_k.grad, &batch_d_wk, self.d_model, self.d_k);
        accumulate(n, &mut self.w_v.grad, &batch_d_wv, self.d_model, self.d_v);
        let w_q_t = mat_transpose(&self.w_q.data);
        let w_k_t = mat_transpose(&self.w_k.data);
        let w_v_t = mat_transpose(&self.w_v.data);
        let d_xq = matmul(n, &d_q, &w_q_t);
        let d_xk = matmul(n, &d_k_grad, &w_k_t);
        let d_xv = matmul(n, &d_v, &w_v_t);
        let d_x = add_up(n, &d_xq, &d_xk, &d_xv, seq_len, self.d_model);
        proof {
            let g = grid(d_out@);
            assert forall|q: Reals<T>|
                #![trigger exact(n, q)]
                exact(n, q) && old(self).learns(n, q, g) implies descends(n, q, *old(self), *self, g, grid(d_x@)) by {
                law_head_gradients(n, q, *old(self), *self, g);
            }
        }
        d_x
    }

    /// The trainable weights: those for queries, for keys and for values.
    pub fn parameters(&mut self) -> (r: Vec<&mut Param<T>>)
        ensures
            r@.len() == 3,
            *r@[0] == old(self).w_q,
            *r@[1] == old(self).w_k,
            *r@[2] == old(self).w_v,
            *final(self) == (SelfAttention {
                w_q: *final(r@[0]),
                w_k: *final(r@[1]),
                w_v: *final(r@[2]),
                ..*old(self)
            }),
    {
        let mut all: Vec<&mut Param<T>> = Vec::new();
        all.push(&mut self.w_q);
        all.push(&mut self.w_k);
        all.push(&mut self.w_v);
        all
    }
}

} // verus!
