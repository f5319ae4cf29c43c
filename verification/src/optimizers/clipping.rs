//! Gradient clipping.

use vstd::prelude::*;

use crate::matrix::grid;
use crate::numbers::{zero, Arithmetic, Question, Term};
use crate::optimizers::rule::{grads_of, map_grid, mapped, values_of, ElementMap};
use crate::param::Param;

verus! {

/// How gradients are kept in bounds before a step.
pub enum ClippingStrategy<T> {
    /// Not at all.
    Off,
    /// Every gradient is brought between the negated bound and the bound.
    Value(T),
    /// The gradients of a parameter are scaled down if their norm exceeds the bound.
    Norm(T),
    /// All gradients are scaled down if their common norm exceeds the bound.
    GlobalNorm(T),
}

/// Brings numbers between two bounds.
pub struct Clamp<'a, N: Arithmetic> {
    pub n: &'a N,
    pub low: N::Num,
    pub high: N::Num,
}

impl<'a, N: Arithmetic> ElementMap for Clamp<'a, N> {
    type Num = N::Num;

    open spec fn ready(&self) -> bool {
        self.n.wf()
    }

    open spec fn image(&self, x: N::Num) -> N::Num {
        if self.n.answer(Question::Less(x, self.low)) {
            self.low
        } else if self.n.answer(Question::Less(self.high, x)) {
            self.high
        } else {
            x
        }
    }

    fn apply(&self, x: N::Num) -> (r: N::Num) {
        if self.n.ask(Question::Less(x, self.low)) {
            self.low
        } else if self.n.ask(Question::Less(self.high, x)) {
            self.high
        } else {
            x
        }
    }
}

/// Multiplies numbers by a factor.
pub struct Scale<'a, N: Arithmetic> {
    pub n: &'a N,
    pub factor: N::Num,
}

impl<'a, N: Arithmetic> ElementMap for Scale<'a, N> {
    type Num = N::Num;

    open spec fn ready(&self) -> bool {
        self.n.wf()
    }

    open spec fn image(&self, x: N::Num) -> N::Num {
        self.n.value(Term::Mul(x, self.factor))
    }

    fn apply(&self, x: N::Num) -> (r: N::Num) {
        self.n.eval(Term::Mul(x, self.factor))
    }
}

/// `start` with the squares of a row added one by one.
pub open spec fn add_row_squares<N: Arithmetic>(n: &N, start: N::Num, row: Seq<N::Num>) -> N::Num
    decreases row.len(),
{
    if row.len() == 0 {
        start
    } else {
        n.value(Term::Add(add_row_squares(n, start, row.drop_last()), n.value(Term::Mul(row.last(), row.last()))))
    }
}

/// `start` with the squares of a matrix added one by one.
pub open spec fn add_squares<N: Arithmetic>(n: &N, start: N::Num, rows: Seq<Seq<N::Num>>) -> N::Num
    decreases rows.len(),
{
    if rows.len() == 0 {
        start
    } else {
        add_row_squares(n, add_squares(n, start, rows.drop_last()), rows.last())
    }
}

/// `start` with the squares of several matrices added one by one.
pub open spec fn add_all_squares<N: Arithmetic>(n: &N, start: N::Num, list: Seq<Seq<Seq<N::Num>>>) -> N::Num
    decreases list.len(),
{
    if list.len() == 0 {
        start
    } else {
        add_squares(n, add_all_squares(n, start, list.drop_last()), list.last())
    }
}

/// The factor that brings a norm down to the bound.
pub open spec fn norm_factor<N: Arithmetic>(n: &N, bound: N::Num, norm: N::Num) -> N::Num {
    n.value(Term::Div(bound, n.value(Term::Add(norm, n.value(Term::Decimal(1, 6))))))
}

/// The gradients of one parameter, scaled down if their norm exceeds the bound.
pub open spec fn norm_clipped<N: Arithmetic>(n: &N, bound: N::Num, norm: N::Num, grad: Seq<Seq<N::Num>>) -> Seq<
    Seq<N::Num>,
> {
    if n.answer(Question::Less(bound, norm)) {
        mapped(&(Scale { n, factor: norm_factor(n, bound, norm) }), grad)
    } else {
        grad
    }
}

/// The gradients after clipping.
pub open spec fn clipped<N: Arithmetic>(
    n: &N,
    strategy: ClippingStrategy<N::Num>,
    grads: Seq<Seq<Seq<N::Num>>>,
) -> Seq<Seq<Seq<N::Num>>> {
    match strategy {
        ClippingStrategy::Off => grads,
        ClippingStrategy::Value(bound) => grads.map_values(
            |g: Seq<Seq<N::Num>>| mapped(&(Clamp { n, low: n.value(Term::Neg(bound)), high: bound }), g),
        ),
        ClippingStrategy::Norm(bound) => grads.map_values(
            |g: Seq<Seq<N::Num>>| norm_clipped(n, bound, n.value(Term::Sqrt(add_squares(n, zero(n), g))), g),
        ),
        ClippingStrategy::GlobalNorm(bound) => {
            let norm = n.value(Term::Sqrt(add_all_squares(n, zero(n), grads)));
            grads.map_values(|g: Seq<Seq<N::Num>>| norm_clipped(n, bound, norm, g))
        },
    }
}

/// Whether there is a gradient at all.
pub open spec fn some_gradient<T>(grads: Seq<Seq<Seq<T>>>) -> bool {
    exists|k: int, i: int, j: int|
        0 <= k < grads.len() && 0 <= i < grads[k].len() && 0 <= j < grads[k][i].len() && #[trigger] grads[k][i][j]
            == grads[k][i][j]
}

/// Whether gradients can be clipped: a bound for values is a number that its negation does not
/// exceed, if there is a gradient to bring into bounds.
pub open spec fn clips<N: Arithmetic>(
    n: &N,
    strategy: ClippingStrategy<N::Num>,
    grads: Seq<Seq<Seq<N::Num>>>,
) -> bool {
    strategy matches ClippingStrategy::Value(bound) ==> some_gradient(grads) ==> n.answer(Question::Equal(bound, bound))
        && !n.answer(Question::Less(bound, n.value(Term::Neg(bound))))
}

fn add_squares_of<N: Arithmetic>(n: &N, start: N::Num, rows: &Vec<Vec<N::Num>>) -> (r: N::Num)
    requires
        n.wf(),
    ensures
        r == add_squares(n, start, grid(rows@)),
{
    let ghost all = grid(rows@);
    let mut out = start;
    let mut i: usize = 0;
    assert(all.take(0) =~= Seq::<Seq<N::Num>>::empty());
    while i < rows.len()
        invariant
            n.wf(),
            all == grid(rows@),
            i <= rows@.len(),
            out == add_squares(n, start, all.take(i as int)),
        decreases rows@.len() - i,
    {
        let ghost before = out;
        let ghost row = all[i as int];
        assert(row == rows@[i as int]@);
        assert(all.take(i + 1).drop_last() =~= all.take(i as int));
        assert(row.take(0) =~= Seq::<N::Num>::empty());
        let mut j: usize = 0;
        while j < rows[i].len()
            invariant
                n.wf(),
                i < rows@.len(),
                row == rows@[i as int]@,
                j <= row.len(),
                out == add_row_squares(n, before, row.take(j as int)),
            decreases row.len() - j,
        {
            assert(row.take(j + 1).drop_last() =~= row.take(j as int));
            let g = rows[i][j];
            out = n.eval(Term::Add(out, n.eval(Term::Mul(g, g))));
            j += 1;
        }
        assert(row.take(j as int) =~= row);
        i += 1;
    }
    assert(all.take(i as int) =~= all);
    out
}

fn clip_by_norm<N: Arithmetic>(n: &N, bound: N::Num, norm: N::Num, grad: &mut Vec<Vec<N::Num>>)
    requires
        n.wf(),
    ensures
        grid(final(grad)@) == norm_clipped(n, bound, norm, grid(old(grad)@)),
{
    if n.ask(Question::Less(bound, norm)) {
        let raised = n.eval(Term::Add(norm, n.eval(Term::Decimal(1, 6))));
        let factor = n.eval(Term::Div(bound, raised));
        map_grid(&Scale { n, factor }, grad);
    }
}

impl<T: Copy> ClippingStrategy<T> {
    /// Brings the gradients of the parameters into bounds.
    pub fn apply<N: Arithmetic<Num = T>>(&self, n: &N, params: &mut Vec<&mut Param<T>>)
        requires
            n.wf(),
            clips(n, *self, grads_of(old(params)@)),
        ensures
            final(params)@.len() == old(params)@.len(),
            forall|k: int|
                0 <= k < old(params)@.len() ==> *final(#[trigger] final(params)@[k]) == *final(old(params)@[k]),
            values_of(final(params)@) == values_of(old(params)@),
            grads_of(final(params)@) == clipped(n, *self, grads_of(old(params)@)),
    {
        let ghost grads0 = grads_of(params@);
        let ghost values0 = values_of(params@);
        let ghost goal = clipped(n, *self, grads0);
        let total_norm = match *self {
            ClippingStrategy::GlobalNorm(_) => {
                let mut total = n.eval(Term::Decimal(0, 0));
                let mut k: usize = 0;
                assert(grads0.take(0) =~= Seq::<Seq<Seq<T>>>::empty());
                while k < params.len()
                    invariant
                        n.wf(),
                        grads0 == grads_of(params@),
                        k <= params@.len(),
                        *params == *old(params),
                        total == add_all_squares(n, zero(n), grads0.take(k as int)),
                    decreases params@.len() - k,
                {
                    assert(grads0.take(k + 1).drop_last() =~= grads0.take(k as int));
                    assert(grads0[k as int] == grid(params@[k as int].grad@));
                    total = add_squares_of(n, total, &params[k].grad);
                    k += 1;
                }
                assert(grads0.take(k as int) =~= grads0);
                n.eval(Term::Sqrt(total))
            },
            _ => n.eval(Term::Decimal(0, 0)),
        };
        let mut k: usize = 0;
        while k < params.len()
            invariant
                n.wf(),
                goal == clipped(n, *self, grads0),
                goal.len() == grads0.len(),
                grads0.len() == params@.len(),
                values0.len() == params@.len(),
                self matches ClippingStrategy::GlobalNorm(_) ==> total_norm == n.value(
                    Term::Sqrt(add_all_squares(n, zero(n), grads0)),
                ),
                params@.len() == old(params)@.len(),
                k <= params@.len(),
                forall|q: int|
                    0 <= q < params@.len() ==> *final(#[trigger] params@[q]) == *final(old(params)@[q]),
                forall|q: int| #![trigger params@[q]] 0 <= q < params@.len() ==> grid(params@[q].data@) == values0[q],
                forall|q: int| #![trigger params@[q]] 0 <= q < k ==> grid(params@[q].grad@) == goal[q],
                forall|q: int|
                    #![trigger params@[q]]
                    k <= q < params@.len() ==> grid(params@[q].grad@) == grads0[q],
            decreases params@.len() - k,
        {
            assert(grid(params@[k as int].grad@) == grads0[k as int]);
            match *self {
                ClippingStrategy::Off => {},
                ClippingStrategy::Value(bound) => {
                    let low = n.eval(Term::Neg(bound));
                    map_grid(&Clamp { n, low, high: bound }, &mut params[k].grad);
                },
                ClippingStrategy::Norm(bound) => {
                    let start = n.eval(Term::Decimal(0, 0));
                    let squares = add_squares_of(n, start, &params[k].grad);
                    let norm = n.eval(Term::Sqrt(squares));
                    clip_by_norm(n, bound, norm, &mut params[k].grad);
                },
                ClippingStrategy::GlobalNorm(bound) => {
                    clip_by_norm(n, bound, total_norm, &mut params[k].grad);
                },
            }
            k += 1;
        }
        assert(values_of(params@) =~= values0);
        assert(grads_of(params@) =~= goal);
    }
}

} // verus!
