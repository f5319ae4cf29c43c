//! RMSProp.

use vstd::prelude::*;

use crate::numbers::{one, zero, Arithmetic, Term};
use crate::optimizers::optimizer::{lemma_shapes_step, Optimizer};
use crate::optimizers::rule::{
    all_next_slots, all_next_values, can_step, cube, grads_of, lemma_primed_fits, prime, primed, step_params, values_of,
    Rule,
};
use crate::param::Param;

verus! {

/// The step of RMSProp.
pub struct RmsRule<'a, N: Arithmetic> {
    pub n: &'a N,
    pub lr: N::Num,
    pub decay_rate: N::Num,
    pub epsilon: N::Num,
}

impl<'a, N: Arithmetic> Rule for RmsRule<'a, N> {
    type Num = N::Num;

    type Slot = N::Num;

    open spec fn ready(&self) -> bool {
        self.n.wf()
    }

    open spec fn next(&self, slot: N::Num, value: N::Num, grad: N::Num) -> (N::Num, N::Num) {
        let n = self.n;
        let fresh = n.value(
            Term::Mul(n.value(Term::Mul(n.value(Term::Sub(one(n), self.decay_rate)), grad)), grad),
        );
        let average = n.value(Term::Add(n.value(Term::Mul(self.decay_rate, slot)), fresh));
        let root = n.value(Term::Add(n.value(Term::Sqrt(average)), self.epsilon));
        let change = n.value(Term::Div(n.value(Term::Mul(self.lr, grad)), root));
        (average, n.value(Term::Sub(value, change)))
    }

    fn apply(&self, slot: N::Num, value: N::Num, grad: N::Num) -> (r: (N::Num, N::Num)) {
        let n = self.n;
        let rest = n.eval(Term::Sub(n.eval(Term::Decimal(1, 0)), self.decay_rate));
        let fresh = n.eval(Term::Mul(n.eval(Term::Mul(rest, grad)), grad));
        let average = n.eval(Term::Add(n.eval(Term::Mul(self.decay_rate, slot)), fresh));
        let root = n.eval(Term::Add(n.eval(Term::Sqrt(average)), self.epsilon));
        let change = n.eval(Term::Div(n.eval(Term::Mul(self.lr, grad)), root));
        (average, n.eval(Term::Sub(value, change)))
    }
}

/// RMSProp: steps are scaled by a running average of squared gradients.
pub struct RMSProp<T> {
    /// The learning rate.
    pub lr: T,
    /// How much of the last average is kept.
    pub decay_rate: T,
    /// Keeps divisors away from zero.
    pub epsilon: T,
    /// The running average for every value.
    pub sq_avg: Vec<Vec<Vec<T>>>,
}

impl<T: Copy> RMSProp<T> {
    /// RMSProp with the usual decay of 0.9 and epsilon of 1e-8.
    pub fn new<N: Arithmetic<Num = T>>(n: &N, lr: T) -> (r: Self)
        requires
            n.wf(),
        ensures
            r.lr == lr,
            r.decay_rate == n.value(Term::Decimal(9, 1)),
            r.epsilon == n.value(Term::Decimal(1, 8)),
            r.sq_avg@.len() == 0,
    {
        RMSProp {
            lr,
            decay_rate: n.eval(Term::Decimal(9, 1)),
            epsilon: n.eval(Term::Decimal(1, 8)),
            sq_avg: Vec::new(),
        }
    }

    /// The rule of every step.
    pub open spec fn rule<'a, N: Arithmetic<Num = T>>(&self, n: &'a N) -> RmsRule<'a, N> {
        RmsRule { n, lr: self.lr, decay_rate: self.decay_rate, epsilon: self.epsilon }
    }
}

impl<T: Copy, N: Arithmetic<Num = T>> Optimizer<N> for RMSProp<T> {
    open spec fn can_update(&self, values: Seq<Seq<Seq<T>>>, grads: Seq<Seq<Seq<T>>>) -> bool {
        can_step(cube(self.sq_avg@), values, grads)
    }

    open spec fn updated(
        &self,
        n: &N,
        values: Seq<Seq<Seq<T>>>,
        grads: Seq<Seq<Seq<T>>>,
    ) -> Seq<Seq<Seq<T>>> {
        all_next_values(&self.rule(n), primed(cube(self.sq_avg@), values, zero(n)), values, grads)
    }

    open spec fn becomes(
        &self,
        n: &N,
        values: Seq<Seq<Seq<T>>>,
        grads: Seq<Seq<Seq<T>>>,
        next: Self,
    ) -> bool {
        let slots = primed(cube(self.sq_avg@), values, zero(n));
        &&& next.lr == self.lr
        &&& next.decay_rate == self.decay_rate
        &&& next.epsilon == self.epsilon
        &&& cube(next.sq_avg@) == all_next_slots(&self.rule(n), slots, values, grads)
    }

    proof fn lemma_shapes_decide(
        &self,
        values: Seq<Seq<Seq<T>>>,
        before: Seq<Seq<Seq<T>>>,
        after: Seq<Seq<Seq<T>>>,
    ) {
        lemma_shapes_step(cube(self.sq_avg@), values, before, after);
    }

    /// Updates every average and moves every value against its gradient.
    fn update(&mut self, n: &N, params: &mut Vec<&mut Param<T>>) {
        proof {
            lemma_primed_fits(cube(self.sq_avg@), values_of(params@), grads_of(params@), zero(n));
        }
        let nothing = n.eval(Term::Decimal(0, 0));
        prime(&mut self.sq_avg, params, nothing);
        let rule = RmsRule { n, lr: self.lr, decay_rate: self.decay_rate, epsilon: self.epsilon };
        step_params(&rule, &mut self.sq_avg, params);
    }
}

} // verus!
