//! Gradient descent, plain and with momentum.

use vstd::prelude::*;

use crate::numbers::{zero, Arithmetic, Term};
use crate::optimizers::clipping::ClippingStrategy;
use crate::optimizers::optimizer::{lemma_shapes_match, lemma_shapes_step, Optimizer};
use crate::optimizers::rule::{
    all_next_slots, all_next_values, can_step, cube, grads_match, grads_of, lemma_primed_fits, prime, primed, step_params,
    values_of, Rule,
};
use crate::param::Param;

verus! {

/// What plain gradient descent remembers.
#[derive(Clone, Copy)]
pub struct Nothing;

/// The step of plain gradient descent.
pub struct SgdRule<'a, N: Arithmetic> {
    pub n: &'a N,
    pub lr: N::Num,
}

impl<'a, N: Arithmetic> Rule for SgdRule<'a, N> {
    type Num = N::Num;

    type Slot = Nothing;

    open spec fn ready(&self) -> bool {
        self.n.wf()
    }

    open spec fn next(&self, slot: Nothing, value: N::Num, grad: N::Num) -> (Nothing, N::Num) {
        (Nothing, self.n.value(Term::Sub(value, self.n.value(Term::Mul(self.lr, grad)))))
    }

    fn apply(&self, slot: Nothing, value: N::Num, grad: N::Num) -> (r: (Nothing, N::Num)) {
        (Nothing, self.n.eval(Term::Sub(value, self.n.eval(Term::Mul(self.lr, grad)))))
    }
}

/// Plain gradient descent.
pub struct SGD<T> {
    /// The learning rate.
    pub lr: T,
    /// How gradients are kept in bounds.
    pub clipping: ClippingStrategy<T>,
}

/// The values after a step of plain gradient descent.
pub open spec fn sgd_values<N: Arithmetic>(
    n: &N,
    lr: N::Num,
    values: Seq<Seq<Seq<N::Num>>>,
    grads: Seq<Seq<Seq<N::Num>>>,
) -> Seq<Seq<Seq<N::Num>>> {
    all_next_values(&(SgdRule { n, lr }), primed(Seq::<Seq<Seq<Nothing>>>::empty(), values, Nothing), values, grads)
}

impl<T: Copy> SGD<T> {
    /// Gradient descent with a learning rate and a clipping strategy.
    pub fn new(lr: T, clipping: ClippingStrategy<T>) -> (r: Self)
        ensures
            r.lr == lr,
            r.clipping == clipping,
    {
        SGD { lr, clipping }
    }
}

impl<T: Copy, N: Arithmetic<Num = T>> Optimizer<N> for SGD<T> {
    open spec fn can_update(&self, values: Seq<Seq<Seq<T>>>, grads: Seq<Seq<Seq<T>>>) -> bool {
        grads_match(values, grads)
    }

    open spec fn updated(
        &self,
        n: &N,
        values: Seq<Seq<Seq<T>>>,
        grads: Seq<Seq<Seq<T>>>,
    ) -> Seq<Seq<Seq<T>>> {
        sgd_values(n, self.lr, values, grads)
    }

    open spec fn becomes(
        &self,
        n: &N,
        values: Seq<Seq<Seq<T>>>,
        grads: Seq<Seq<Seq<T>>>,
        next: Self,
    ) -> bool {
        next == *self
    }

    proof fn lemma_shapes_decide(
        &self,
        values: Seq<Seq<Seq<T>>>,
        before: Seq<Seq<Seq<T>>>,
        after: Seq<Seq<Seq<T>>>,
    ) {
        lemma_shapes_match(values, before, after);
    }

    /// Moves every value against its gradient.
    fn update(&mut self, n: &N, params: &mut Vec<&mut Param<T>>) {
        let mut slots: Vec<Vec<Vec<Nothing>>> = Vec::new();
        assert(cube(slots@) =~= Seq::<Seq<Seq<Nothing>>>::empty());
        prime(&mut slots, params, Nothing);
        proof {
            lemma_primed_fits(Seq::<Seq<Seq<Nothing>>>::empty(), values_of(params@), grads_of(params@), Nothing);
        }
        step_params(&SgdRule { n, lr: self.lr }, &mut slots, params);
    }

    fn clipping(&self, n: &N) -> (r: &ClippingStrategy<T>)
        ensures
            *r == self.clipping,
    {
        &self.clipping
    }
}

/// The step of gradient descent with momentum.
pub struct MomentumRule<'a, N: Arithmetic> {
    pub n: &'a N,
    pub lr: N::Num,
    pub momentum: N::Num,
}

impl<'a, N: Arithmetic> Rule for MomentumRule<'a, N> {
    type Num = N::Num;

    type Slot = N::Num;

    open spec fn ready(&self) -> bool {
        self.n.wf()
    }

    open spec fn next(&self, slot: N::Num, value: N::Num, grad: N::Num) -> (N::Num, N::Num) {
        let n = self.n;
        let velocity = n.value(Term::Add(n.value(Term::Mul(self.momentum, slot)), n.value(Term::Mul(self.lr, grad))));
        (velocity, n.value(Term::Sub(value, velocity)))
    }

    fn apply(&self, slot: N::Num, value: N::Num, grad: N::Num) -> (r: (N::Num, N::Num)) {
        let n = self.n;
        let kept = n.eval(Term::Mul(self.momentum, slot));
        let velocity = n.eval(Term::Add(kept, n.eval(Term::Mul(self.lr, grad))));
        (velocity, n.eval(Term::Sub(value, velocity)))
    }
}

/// Gradient descent with momentum.
pub struct SGDM<T> {
    /// The learning rate.
    pub lr: T,
    /// How much of the last velocity is kept.
    pub momentum: T,
    /// The velocity of every value.
    pub velocity: Vec<Vec<Vec<T>>>,
}

impl<T: Copy> SGDM<T> {
    /// Gradient descent with a learning rate and a momentum, at rest.
    pub fn new(lr: T, momentum: T) -> (r: Self)
        ensures
            r.lr == lr,
            r.momentum == momentum,
            r.velocity@.len() == 0,
    {
        SGDM { lr, momentum, velocity: Vec::new() }
    }
}

impl<T: Copy, N: Arithmetic<Num = T>> Optimizer<N> for SGDM<T> {
    open spec fn can_update(&self, values: Seq<Seq<Seq<T>>>, grads: Seq<Seq<Seq<T>>>) -> bool {
        can_step(cube(self.velocity@), values, grads)
    }

    open spec fn updated(
        &self,
        n: &N,
        values: Seq<Seq<Seq<T>>>,
        grads: Seq<Seq<Seq<T>>>,
    ) -> Seq<Seq<Seq<T>>> {
        let rule = MomentumRule { n, lr: self.lr, momentum: self.momentum };
        all_next_values(&rule, primed(cube(self.velocity@), values, zero(n)), values, grads)
    }

    open spec fn becomes(
        &self,
        n: &N,
        values: Seq<Seq<Seq<T>>>,
        grads: Seq<Seq<Seq<T>>>,
        next: Self,
    ) -> bool {
        let rule = MomentumRule { n, lr: self.lr, momentum: self.momentum };
        &&& next.lr == self.lr
        &&& next.momentum == self.momentum
        &&& cube(next.velocity@) == all_next_slots(
            &rule,
            primed(cube(self.velocity@), values, zero(n)),
            values,
            grads,
        )
    }

    proof fn lemma_shapes_decide(
        &self,
        values: Seq<Seq<Seq<T>>>,
        before: Seq<Seq<Seq<T>>>,
        after: Seq<Seq<Seq<T>>>,
    ) {
        lemma_shapes_step(cube(self.velocity@), values, before, after);
    }

    /// Updates every velocity and moves every value by it.
    fn update(&mut self, n: &N, params: &mut Vec<&mut Param<T>>) {
        proof {
            lemma_primed_fits(cube(self.velocity@), values_of(params@), grads_of(params@), zero(n));
        }
        let nothing = n.eval(Term::Decimal(0, 0));
        prime(&mut self.velocity, params, nothing);
        step_params(&MomentumRule { n, lr: self.lr, momentum: self.momentum }, &mut self.velocity, params);
    }
}

} // verus!
