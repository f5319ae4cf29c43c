//! The two-layer network that every token passes through.

use vstd::prelude::*;

use crate::layers::network::{
    is_network, is_real_network, law_network, law_network_descends, network_descends, network_learns,
};
use crate::matrix::{covers, grid, mat_transpose, matmul, multiplies, product, transposed, transposes};
use crate::numbers::{zero, Arithmetic, Question, Term};
use crate::param::Param;
use crate::reals::{exact, Reals};
use crate::rows::{accumulate, accumulated, copy_rows, make_rows, uniform};

verus! {

/// A linear layer that widens, a rectifier, and a linear layer that narrows.
pub struct FeedForward<T> {
    /// The widening weights.
    pub w_1: Param<T>,
    /// The narrowing weights.
    pub w_2: Param<T>,
    /// The narrow width.
    pub d_model: usize,
    /// The wide width.
    pub d_ff: usize,
    /// The input of the last forward pass.
    pub cache_x: Vec<Vec<T>>,
    /// What came before the rectifier.
    pub cache_hidden: Vec<Vec<T>>,
    /// What came out of the rectifier.
    pub cache_activated: Vec<Vec<T>>,
}

/// Negative elements set to zero.
pub open spec fn rectified<N: Arithmetic>(n: &N, rows: Seq<Seq<N::Num>>) -> Seq<Seq<N::Num>> {
    rows.map_values(|row: Seq<N::Num>| row.map_values(|x: N::Num| n.value(Term::Max(x, zero(n)))))
}

/// The gradient behind the rectifier, zero where its input was not positive.
pub open spec fn passed_gradient<N: Arithmetic>(
    n: &N,
    hidden: Seq<Seq<N::Num>>,
    d_activated: Seq<Seq<N::Num>>,
    rows: nat,
    cols: nat,
) -> Seq<Seq<N::Num>> {
    Seq::new(
        rows,
        |i: int|
            Seq::new(
                cols,
                |j: int|
                    if n.answer(Question::Less(zero(n), hidden[i][j])) {
                        d_activated[i][j]
                    } else {
                        zero(n)
                    },
            ),
    )
}

fn rectify<N: Arithmetic>(n: &N, rows: &Vec<Vec<N::Num>>) -> (r: Vec<Vec<N::Num>>)
    requires
        n.wf(),
    ensures
        grid(r@) == rectified(n, grid(rows@)),
{
    let ghost goal = rectified(n, grid(rows@));
    let mut out: Vec<Vec<N::Num>> = Vec::new();
    let mut i: usize = 0;
    while i < rows.len()
        invariant
            n.wf(),
            goal == rectified(n, grid(rows@)),
            i <= rows@.len(),
            grid(out@) == goal.take(i as int),
        decreases rows@.len() - i,
    {
        let mut row: Vec<N::Num> = Vec::new();
        let mut j: usize = 0;
        assert(goal[i as int] == rows@[i as int]@.map_values(|x: N::Num| n.value(Term::Max(x, zero(n)))));
        while j < rows[i].len()
            invariant
                n.wf(),
                i < rows@.len(),
                j <= rows@[i as int]@.len(),
                goal[i as int] == rows@[i as int]@.map_values(|x: N::Num| n.value(Term::Max(x, zero(n)))),
                row@ == goal[i as int].take(j as int),
            decreases rows@[i as int]@.len() - j,
        {
            let nothing = n.eval(Term::Decimal(0, 0));
            row.push(n.eval(Term::Max(rows[i][j], nothing)));
            j += 1;
            assert(row@ =~= goal[i as int].take(j as int));
        }
        assert(row@ =~= goal[i as int]);
        let ghost before = grid(out@);
        out.push(row);
        assert(grid(out@) =~= before.push(row@));
        i += 1;
        assert(grid(out@) =~= goal.take(i as int));
    }
    assert(goal.take(i as int) =~= goal);
    out
}

fn pass_gradient<N: Arithmetic>(
    n: &N,
    hidden: &Vec<Vec<N::Num>>,
    d_activated: &Vec<Vec<N::Num>>,
    rows: usize,
    cols: usize,
) -> (r: Vec<Vec<N::Num>>)
    requires
        n.wf(),
        cols > 0 ==> covers(grid(hidden@), rows as nat, cols as nat),
        cols > 0 ==> covers(grid(d_activated@), rows as nat, cols as nat),
    ensures
        grid(r@) == passed_gradient(n, grid(hidden@), grid(d_activated@), rows as nat, cols as nat),
{
    let ghost h = grid(hidden@);
    let ghost d = grid(d_activated@);
    let ghost goal = passed_gradient(n, h, d, rows as nat, cols as nat);
    let mut out: Vec<Vec<N::Num>> = Vec::new();
    let mut i: usize = 0;
    while i < rows
        invariant
            n.wf(),
            h == grid(hidden@),
            d == grid(d_activated@),
            goal == passed_gradient(n, h, d, rows as nat, cols as nat),
            cols > 0 ==> covers(h, rows as nat, cols as nat),
            cols > 0 ==> covers(d, rows as nat, cols as nat),
            i <= rows,
            grid(out@) == goal.take(i as int),
        decreases rows - i,
    {
        let mut row: Vec<N::Num> = Vec::new();
        let mut j: usize = 0;
        while j < cols
            invariant
                n.wf(),
                h == grid(hidden@),
                d == grid(d_activated@),
                goal == passed_gradient(n, h, d, rows as nat, cols as nat),
                cols > 0 ==> covers(h, rows as nat, cols as nat),
                cols > 0 ==> covers(d, rows as nat, cols as nat),
                i < rows,
                j <= cols,
                row@ == goal[i as int].take(j as int),
            decreases cols - j,
        {
            assert(h[i as int].len() >= cols && d[i as int].len() >= cols);
            assert(h[i as int] == hidden@[i as int]@ && d[i as int] == d_activated@[i as int]@);
            let nothing = n.eval(Term::Decimal(0, 0));
            if n.ask(Question::Less(nothing, hidden[i][j])) {
                row.push(d_activated[i][j]);
            } else {
                row.push(nothing);
            }
            j += 1;
            assert(row@ =~= goal[i as int].take(j as int));
        }
        assert(row@ =~= goal[i as int]);
        let ghost before = grid(out@);
        out.push(row);
        assert(grid(out@) =~= before.push(row@));
        i += 1;
        assert(grid(out@) =~= goal.take(i as int));
    }
    assert(goal.take(i as int) =~= goal);
    out
}

/// Whether the backward pass can be run: every product and transpose in it fits, and the weight
/// gradients have room for what is added to them.
pub open spec fn backward_fits<N: Arithmetic>(n: &N, net: FeedForward<N::Num>, d_out: Seq<Seq<N::Num>>) -> bool {
    let activated = grid(net.cache_activated@);
    let hidden = grid(net.cache_hidden@);
    let x = grid(net.cache_x@);
    let w_1 = grid(net.w_1.data@);
    let w_2 = grid(net.w_2.data@);
    let d_w2 = product(n, transposed(activated), d_out);
    let d_activated = product(n, d_out, transposed(w_2));
    let d_hidden = passed_gradient(n, hidden, d_activated, d_out.len(), net.d_ff as nat);
    let d_w1 = product(n, transposed(x), d_hidden);
    &&& transposes(activated)
    &&& multiplies(transposed(activated), d_out)
    &&& transposes(w_2)
    &&& multiplies(d_out, transposed(w_2))
    &&& net.d_model > 0 ==> covers(d_w2, net.d_ff as nat, net.d_model as nat) && covers(
        grid(net.w_2.grad@),
        net.d_ff as nat,
        net.d_model as nat,
    )
    &&& net.d_ff > 0 ==> covers(hidden, d_out.len(), net.d_ff as nat) && covers(
        d_activated,
        d_out.len(),
        net.d_ff as nat,
    )
    &&& transposes(w_1)
    &&& multiplies(d_hidden, transposed(w_1))
    &&& transposes(x)
    &&& multiplies(transposed(x), d_hidden)
    &&& net.d_ff > 0 ==> covers(d_w1, net.d_model as nat, net.d_ff as nat) && covers(
        grid(net.w_1.grad@),
        net.d_model as nat,
        net.d_ff as nat,
    )
}

impl<T: Copy> FeedForward<T> {
    /// A network with the given weights and gradients of zero.
    pub fn new<N: Arithmetic<Num = T>>(n: &N, w_1: Vec<Vec<T>>, w_2: Vec<Vec<T>>, d_model: usize, d_ff: usize) -> (r:
        Self)
        requires
            n.wf(),
        ensures
            r.w_1.data == w_1,
            grid(r.w_1.grad@) == uniform(zero(n), d_model as nat, d_ff as nat),
            r.w_2.data == w_2,
            grid(r.w_2.grad@) == uniform(zero(n), d_ff as nat, d_model as nat),
            r.d_model == d_model,
            r.d_ff == d_ff,
            r.cache_x@.len() == 0,
            r.cache_hidden@.len() == 0,
            r.cache_activated@.len() == 0,
    {
        let nothing = n.eval(Term::Decimal(0, 0));
        FeedForward {
            w_1: Param { data: w_1, grad: make_rows(nothing, d_model, d_ff) },
            w_2: Param { data: w_2, grad: make_rows(nothing, d_ff, d_model) },
            d_model,
            d_ff,
            cache_x: Vec::new(),
            cache_hidden: Vec::new(),
            cache_activated: Vec::new(),
        }
    }

    /// Runs the tokens of `x` through the network and remembers what the backward pass needs.
    pub fn forward<N: Arithmetic<Num = T>>(&mut self, n: &N, x: &Vec<Vec<T>>) -> (r: Vec<Vec<T>>)
        requires
            n.wf(),
            multiplies(grid(x@), grid(old(self).w_1.data@)),
            multiplies(rectified(n, product(n, grid(x@), grid(old(self).w_1.data@))), grid(old(self).w_2.data@)),
        ensures
            final(self).w_1 == old(self).w_1,
            final(self).w_2 == old(self).w_2,
            final(self).d_model == old(self).d_model,
            final(self).d_ff == old(self).d_ff,
            grid(final(self).cache_x@) == grid(x@),
            grid(final(self).cache_hidden@) == product(n, grid(x@), grid(old(self).w_1.data@)),
            grid(final(self).cache_activated@) == rectified(n, product(n, grid(x@), grid(old(self).w_1.data@))),
            grid(r@) == product(
                n,
                rectified(n, product(n, grid(x@), grid(old(self).w_1.data@))),
                grid(old(self).w_2.data@),
            ),
            forall|q: Reals<T>, model: nat, wide: nat|
                exact(n, q) && #[trigger] is_real_network(
                    q,
                    model,
                    wide,
                    grid(x@),
                    grid(old(self).w_1.data@),
                    grid(old(self).w_2.data@),
                ) ==> is_network(
                    q,
                    model,
                    wide,
                    grid(x@),
                    grid(old(self).w_1.data@),
                    grid(old(self).w_2.data@),
                    grid(r@),
                ),
    {
        self.cache_x = copy_rows(x);
        let hidden = matmul(n, x, &self.w_1.data);
        let activated = rectify(n, &hidden);
        self.cache_hidden = hidden;
        let out = matmul(n, &activated, &self.w_2.data);
        self.cache_activated = activated;
        proof {
            let w_1 = grid(self.w_1.data@);
            let w_2 = grid(self.w_2.data@);
            assert forall|q: Reals<T>, model: nat, wide: nat|
                exact(n, q) && #[trigger] is_real_network(q, model, wide, grid(x@), w_1, w_2) implies is_network(
                q,
                model,
                wide,
                grid(x@),
                w_1,
                w_2,
                grid(out@),
            ) by {
                law_network(n, q, model, wide, grid(x@), w_1, w_2);
            }
        }
        out
    }

    /// Adds the gradients of both weight matrices to what they hold, and gives the gradient of the
    /// input.
    pub fn backward<N: Arithmetic<Num = T>>(&mut self, n: &N, d_out: &Vec<Vec<T>>) -> (r: Vec<Vec<T>>)
        requires
            n.wf(),
            backward_fits(n, *old(self), grid(d_out@)),
        ensures
            final(self).w_1.data == old(self).w_1.data,
            final(self).w_2.data == old(self).w_2.data,
            final(self).d_model == old(self).d_model,
            final(self).d_ff == old(self).d_ff,
            final(self).cache_x == old(self).cache_x,
            final(self).cache_hidden == old(self).cache_hidden,
            final(self).cache_activated == old(self).cache_activated,
            ({
                let net = *old(self);
                let d = grid(d_out@);
                let d_activated = product(n, d, transposed(grid(net.w_2.data@)));
                let d_hidden = passed_gradient(n, grid(net.cache_hidden@), d_activated, d.len(), net.d_ff as nat);
                let d_w2 = product(n, transposed(grid(net.cache_activated@)), d);
                let d_w1 = product(n, transposed(grid(net.cache_x@)), d_hidden);
                &&& grid(final(self).w_2.grad@) == accumulated(
                    n,
                    grid(net.w_2.grad@),
                    d_w2,
                    net.d_ff as nat,
                    net.d_model as nat,
                )
                &&& grid(final(self).w_1.grad@) == accumulated(
                    n,
                    grid(net.w_1.grad@),
                    d_w1,
                    net.d_model as nat,
                    net.d_ff as nat,
                )
                &&& grid(r@) == product(n, d_hidden, transposed(grid(net.w_1.data@)))
            }),
            forall|q: Reals<T>|
                #![trigger exact(n, q)]
                exact(n, q) && network_learns(n, q, *old(self), grid(d_out@)) ==> network_descends(
                    n,
                    q,
                    *old(self),
                    *final(self),
                    grid(d_out@),
                    grid(r@),
                ),
    {
        let activated_t = mat_transpose(&self.cache_activated);
        let batch_d_w2 = matmul(n, &activated_t, d_out);
        let w_2_t = mat_transpose(&self.w_2.data);
        let d_activated = matmul(n, d_out, &w_2_t);
        accumulate(n, &mut self.w_2.grad, &batch_d_w2, self.d_ff, self.d_model);
        let d_hidden = pass_gradient(n, &self.cache_hidden, &d_activated, d_out.len(), self.d_ff);
        let w_1_t = mat_transpose(&self.w_1.data);
        let d_x = matmul(n, &d_hidden, &w_1_t);
        let x_t = mat_transpose(&self.cache_x);
        let batch_d_w1 = matmul(n, &x_t, &d_hidden);
        accumulate(n, &mut self.w_1.grad, &batch_d_w1, self.d_model, self.d_ff);
        proof {
            let d = grid(d_out@);
            assert forall|q: Reals<T>|
                #![trigger exact(n, q)]
                exact(n, q) && network_learns(n, q, *old(self), d) implies network_descends(
                n,
                q,
                *old(self),
                *self,
                d,
                grid(d_x@),
            ) by {
                law_network_descends(n, q, *old(self), *self, d, grid(d_x@));
            }
        }
        d_x
    }

    /// The trainable weights: the widening ones, then the narrowing ones.
    pub fn parameters(&mut self) -> (r: Vec<&mut Param<T>>)
        ensures
            r@.len() == 2,
            *r@[0] == old(self).w_1,
            *r@[1] == old(self).w_2,
            *final(self) == (FeedForward { w_1: *final(r@[0]), w_2: *final(r@[1]), ..*old(self) }),
    {
        let mut all: Vec<&mut Param<T>> = Vec::new();
        all.push(&mut self.w_1);
        all.push(&mut self.w_2);
        all
    }
}

} // verus!
