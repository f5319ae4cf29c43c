//! Adam and AdamW.

use vstd::prelude::*;

use crate::numbers::{one, zero, Arithmetic, Term};
use crate::optimizers::clipping::ClippingStrategy;
use crate::optimizers::optimizer::{lemma_shapes_step, Optimizer};
use crate::optimizers::rule::{
    all_next_slots, all_next_values, can_step, cube, grads_of, lemma_primed_fits, prime, primed, step_params, values_of,
    Rule,
};
use crate::param::Param;

verus! {

/// The running averages of a gradient and of its square.
pub struct Moments<T> {
    pub m: T,
    pub v: T,
}

impl<T: Copy> Clone for Moments<T> {
    fn clone(&self) -> (r: Self)
        ensures
            r == *self,
    {
        *self
    }
}

impl<T: Copy> Copy for Moments<T> {

}

/// The step of Adam: running averages of the gradient and of its square, freed of their bias
/// towards zero, give direction and length. With a weight decay the value shrinks first.
pub struct AdamRule<'a, N: Arithmetic> {
    pub n: &'a N,
    pub lr: N::Num,
    pub beta1: N::Num,
    pub beta2: N::Num,
    pub epsilon: N::Num,
    pub bias1: N::Num,
    pub bias2: N::Num,
    pub weight_decay: Option<N::Num>,
}

/// A running average that keeps `kept` of the old one.
pub open spec fn averaged<N: Arithmetic>(n: &N, kept: N::Num, old_average: N::Num, fresh: N::Num) -> N::Num {
    n.value(Term::Add(n.value(Term::Mul(kept, old_average)), fresh))
}

/// What is left of one when `part` is taken.
pub open spec fn rest_of_one<N: Arithmetic>(n: &N, part: N::Num) -> N::Num {
    n.value(Term::Sub(one(n), part))
}

impl<'a, N: Arithmetic> Rule for AdamRule<'a, N> {
    type Num = N::Num;

    type Slot = Moments<N::Num>;

    open spec fn ready(&self) -> bool {
        self.n.wf()
    }

    open spec fn next(&self, slot: Moments<N::Num>, value: N::Num, grad: N::Num) -> (Moments<N::Num>, N::Num) {
        let n = self.n;
        let m = averaged(n, self.beta1, slot.m, n.value(Term::Mul(rest_of_one(n, self.beta1), grad)));
        let v = averaged(
            n,
            self.beta2,
            slot.v,
            n.value(Term::Mul(n.value(Term::Mul(rest_of_one(n, self.beta2), grad)), grad)),
        );
        let m_hat = n.value(Term::Div(m, self.bias1));
        let v_hat = n.value(Term::Div(v, self.bias2));
        let direction = n.value(Term::Div(m_hat, n.value(Term::Add(n.value(Term::Sqrt(v_hat)), self.epsilon))));
        let amount = n.value(Term::Mul(self.lr, direction));
        let shrunk = match self.weight_decay {
            Some(decay) => n.value(Term::Mul(value, rest_of_one(n, n.value(Term::Mul(self.lr, decay))))),
            None => value,
        };
        (Moments { m, v }, n.value(Term::Sub(shrunk, amount)))
    }

    fn apply(&self, slot: Moments<N::Num>, value: N::Num, grad: N::Num) -> (r: (Moments<N::Num>, N::Num)) {
        let n = self.n;
        let rest1 = n.eval(Term::Sub(n.eval(Term::Decimal(1, 0)), self.beta1));
        let m = n.eval(Term::Add(n.eval(Term::Mul(self.beta1, slot.m)), n.eval(Term::Mul(rest1, grad))));
        let rest2 = n.eval(Term::Sub(n.eval(Term::Decimal(1, 0)), self.beta2));
        let square = n.eval(Term::Mul(n.eval(Term::Mul(rest2, grad)), grad));
        let v = n.eval(Term::Add(n.eval(Term::Mul(self.beta2, slot.v)), square));
        let m_hat = n.eval(Term::Div(m, self.bias1));
        let v_hat = n.eval(Term::Div(v, self.bias2));
        let root = n.eval(Term::Add(n.eval(Term::Sqrt(v_hat)), self.epsilon));
        let direction = n.eval(Term::Div(m_hat, root));
        let amount = n.eval(Term::Mul(self.lr, direction));
        let shrunk = match self.weight_decay {
            Some(decay) => {
                let rest = n.eval(Term::Sub(n.eval(Term::Decimal(1, 0)), n.eval(Term::Mul(self.lr, decay))));
                n.eval(Term::Mul(value, rest))
            },
            None => value,
        };
        (Moments { m, v }, n.eval(Term::Sub(shrunk, amount)))
    }
}

/// The bias of a running average after `t` steps.
pub open spec fn bias_after<N: Arithmetic>(n: &N, beta: N::Num, t: usize) -> N::Num {
    rest_of_one(n, n.value(Term::Pow(beta, n.value(Term::Count(t)))))
}

/// The rule of the step with number `t`.
pub open spec fn adam_rule<'a, N: Arithmetic>(
    n: &'a N,
    lr: N::Num,
    beta1: N::Num,
    beta2: N::Num,
    epsilon: N::Num,
    weight_decay: Option<N::Num>,
    t: usize,
) -> AdamRule<'a, N> {
    AdamRule {
        n,
        lr,
        beta1,
        beta2,
        epsilon,
        bias1: bias_after(n, beta1, t),
        bias2: bias_after(n, beta2, t),
        weight_decay,
    }
}

fn make_rule<'a, N: Arithmetic>(
    n: &'a N,
    lr: N::Num,
    beta1: N::Num,
    beta2: N::Num,
    epsilon: N::Num,
    weight_decay: Option<N::Num>,
    t: usize,
) -> (r: AdamRule<'a, N>)
    requires
        n.wf(),
    ensures
        r == adam_rule(n, lr, beta1, beta2, epsilon, weight_decay, t),
{
    let steps = n.eval(Term::Count(t));
    let bias1 = n.eval(Term::Sub(n.eval(Term::Decimal(1, 0)), n.eval(Term::Pow(beta1, steps))));
    let bias2 = n.eval(Term::Sub(n.eval(Term::Decimal(1, 0)), n.eval(Term::Pow(beta2, steps))));
    AdamRule { n, lr, beta1, beta2, epsilon, bias1, bias2, weight_decay }
}

/// Adam.
pub struct Adam<T> {
    /// The learning rate.
    pub lr: T,
    /// How much of the average of gradients is kept.
    pub beta1: T,
    /// How much of the average of squared gradients is kept.
    pub beta2: T,
    /// Keeps divisors away from zero.
    pub epsilon: T,
    /// How gradients are kept in bounds.
    pub clipping: ClippingStrategy<T>,
    /// The number of steps taken.
    pub step_count: usize,
    /// Both averages for every value.
    pub moments: Vec<Vec<Vec<Moments<T>>>>,
}

impl<T: Copy> Adam<T> {
    /// Adam with the usual betas of 0.9 and 0.999 and epsilon of 1e-8.
    pub fn new<N: Arithmetic<Num = T>>(n: &N, lr: T, clipping: ClippingStrategy<T>) -> (r: Self)
        requires
            n.wf(),
        ensures
            r.lr == lr,
            r.beta1 == n.value(Term::Decimal(9, 1)),
            r.beta2 == n.value(Term::Decimal(999, 3)),
            r.epsilon == n.value(Term::Decimal(1, 8)),
            r.clipping == clipping,
            r.step_count == 0,
            r.moments@.len() == 0,
    {
        Adam {
            lr,
            beta1: n.eval(Term::Decimal(9, 1)),
            beta2: n.eval(Term::Decimal(999, 3)),
            epsilon: n.eval(Term::Decimal(1, 8)),
            clipping,
            step_count: 0,
            moments: Vec::new(),
        }
    }

    /// The rule of the next step.
    pub open spec fn next_rule<'a, N: Arithmetic<Num = T>>(&self, n: &'a N) -> AdamRule<'a, N> {
        adam_rule(n, self.lr, self.beta1, self.beta2, self.epsilon, None, (self.step_count + 1) as usize)
    }

    /// Nothing but the count and the averages changes.
    pub open spec fn same_settings(&self, other: &Self) -> bool {
        &&& self.lr == other.lr
        &&& self.beta1 == other.beta1
        &&& self.beta2 == other.beta2
        &&& self.epsilon == other.epsilon
        &&& self.clipping == other.clipping
    }
}

impl<T: Copy, N: Arithmetic<Num = T>> Optimizer<N> for Adam<T> {
    open spec fn can_update(&self, values: Seq<Seq<Seq<T>>>, grads: Seq<Seq<Seq<T>>>) -> bool {
        &&& self.step_count < usize::MAX
        &&& self.moments@.len() == 0 || self.moments@.len() == values.len()
        &&& can_step(cube(self.moments@), values, grads)
    }

    open spec fn updated(
        &self,
        n: &N,
        values: Seq<Seq<Seq<T>>>,
        grads: Seq<Seq<Seq<T>>>,
    ) -> Seq<Seq<Seq<T>>> {
        let slots = primed(cube(self.moments@), values, Moments { m: zero(n), v: zero(n) });
        all_next_values(&self.next_rule(n), slots, values, grads)
    }

    open spec fn becomes(
        &self,
        n: &N,
        values: Seq<Seq<Seq<T>>>,
        grads: Seq<Seq<Seq<T>>>,
        next: Self,
    ) -> bool {
        let slots = primed(cube(self.moments@), values, Moments { m: zero(n), v: zero(n) });
        &&& next.same_settings(self)
        &&& next.step_count == self.step_count + 1
        &&& cube(next.moments@) == all_next_slots(&self.next_rule(n), slots, values, grads)
    }

    proof fn lemma_shapes_decide(
        &self,
        values: Seq<Seq<Seq<T>>>,
        before: Seq<Seq<Seq<T>>>,
        after: Seq<Seq<Seq<T>>>,
    ) {
        lemma_shapes_step(cube(self.moments@), values, before, after);
    }

    /// Takes a step with the gradients as they are.
    fn update(&mut self, n: &N, params: &mut Vec<&mut Param<T>>) {
        self.step_count += 1;
        let ghost start = Moments { m: zero(n), v: zero(n) };
        proof {
            lemma_primed_fits(cube(self.moments@), values_of(params@), grads_of(params@), start);
        }
        let nothing = n.eval(Term::Decimal(0, 0));
        prime(&mut self.moments, params, Moments { m: nothing, v: nothing });
        let rule = make_rule(n, self.lr, self.beta1, self.beta2, self.epsilon, None, self.step_count);
        step_params(&rule, &mut self.moments, params);
    }

    fn clipping(&self, n: &N) -> (r: &ClippingStrategy<T>)
        ensures
            *r == self.clipping,
    {
        &self.clipping
    }
}

/// Adam with decoupled weight decay.
pub struct AdamW<T> {
    /// The learning rate.
    pub lr: T,
    /// How much of the average of gradients is kept.
    pub beta1: T,
    /// How much of the average of squared gradients is kept.
    pub beta2: T,
    /// Keeps divisors away from zero.
    pub epsilon: T,
    /// The number of steps taken.
    pub step_count: usize,
    /// How fast values shrink.
    pub weight_decay: T,
    /// Both averages for every value.
    pub moments: Vec<Vec<Vec<Moments<T>>>>,
}

impl<T: Copy> AdamW<T> {
    /// AdamW with the usual betas of 0.9 and 0.999 and epsilon of 1e-8.
    pub fn new<N: Arithmetic<Num = T>>(n: &N, lr: T, weight_decay: T) -> (r: Self)
        requires
            n.wf(),
        ensures
            r.lr == lr,
            r.beta1 == n.value(Term::Decimal(9, 1)),
            r.beta2 == n.value(Term::Decimal(999, 3)),
            r.epsilon == n.value(Term::Decimal(1, 8)),
            r.weight_decay == weight_decay,
            r.step_count == 0,
            r.moments@.len() == 0,
    {
        AdamW {
            lr,
            beta1: n.eval(Term::Decimal(9, 1)),
            beta2: n.eval(Term::Decimal(999, 3)),
            epsilon: n.eval(Term::Decimal(1, 8)),
            step_count: 0,
            weight_decay,
            moments: Vec::new(),
        }
    }

    /// The rule of the next step.
    pub open spec fn next_rule<'a, N: Arithmetic<Num = T>>(&self, n: &'a N) -> AdamRule<'a, N> {
        adam_rule(
            n,
            self.lr,
            self.beta1,
            self.beta2,
            self.epsilon,
            Some(self.weight_decay),
            (self.step_count + 1) as usize,
        )
    }

    /// Nothing but the count and the averages changes.
    pub open spec fn same_settings(&self, other: &Self) -> bool {
        &&& self.lr == other.lr
        &&& self.beta1 == other.beta1
        &&& self.beta2 == other.beta2
        &&& self.epsilon == other.epsilon
        &&& self.weight_decay == other.weight_decay
    }
}

impl<T: Copy, N: Arithmetic<Num = T>> Optimizer<N> for AdamW<T> {
    open spec fn can_update(&self, values: Seq<Seq<Seq<T>>>, grads: Seq<Seq<Seq<T>>>) -> bool {
        &&& self.step_count < usize::MAX
        &&& self.moments@.len() == 0 || self.moments@.len() == values.len()
        &&& can_step(cube(self.moments@), values, grads)
    }

    open spec fn updated(
        &self,
        n: &N,
        values: Seq<Seq<Seq<T>>>,
        grads: Seq<Seq<Seq<T>>>,
    ) -> Seq<Seq<Seq<T>>> {
        let slots = primed(cube(self.moments@), values, Moments { m: zero(n), v: zero(n) });
        all_next_values(&self.next_rule(n), slots, values, grads)
    }

    open spec fn becomes(
        &self,
        n: &N,
        values: Seq<Seq<Seq<T>>>,
        grads: Seq<Seq<Seq<T>>>,
        next: Self,
    ) -> bool {
        let slots = primed(cube(self.moments@), values, Moments { m: zero(n), v: zero(n) });
        &&& next.same_settings(self)
        &&& next.step_count == self.step_count + 1
        &&& cube(next.moments@) == all_next_slots(&self.next_rule(n), slots, values, grads)
    }

    proof fn lemma_shapes_decide(
        &self,
        values: Seq<Seq<Seq<T>>>,
        before: Seq<Seq<Seq<T>>>,
        after: Seq<Seq<Seq<T>>>,
    ) {
        lemma_shapes_step(cube(self.moments@), values, before, after);
    }

    /// Shrinks every value and takes a step.
    fn update(&mut self, n: &N, params: &mut Vec<&mut Param<T>>) {
        self.step_count += 1;
        let ghost start = Moments { m: zero(n), v: zero(n) };
        proof {
            lemma_primed_fits(cube(self.moments@), values_of(params@), grads_of(params@), start);
        }
        let nothing = n.eval(Term::Decimal(0, 0));
        prime(&mut self.moments, params, Moments { m: nothing, v: nothing });
        let decay = Some(self.weight_decay);
        let rule = make_rule(n, self.lr, self.beta1, self.beta2, self.epsilon, decay, self.step_count);
        step_params(&rule, &mut self.moments, params);
    }
}

} // verus!
