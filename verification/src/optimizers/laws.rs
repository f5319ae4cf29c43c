//! What the optimizers do over real numbers.

use vstd::prelude::*;

use crate::numbers::{one, zero, Arithmetic, Term};
use crate::optimizers::adam::{adam_rule, bias_after, rest_of_one, Adam, AdamW, Moments};
use crate::optimizers::optimizer::Optimizer;
use crate::optimizers::rmsprop::RMSProp;
use crate::optimizers::rule::{all_next_slots, all_next_values, cube, primed, Rule};
use crate::optimizers::sgd::{MomentumRule, Nothing, SgdRule, SGD, SGDM};
use crate::reals::{
    exact, lemma_cancel, lemma_commute, lemma_fade, lemma_fade_again, lemma_factor_nonnegative, lemma_group, lemma_part,
    lemma_product_nonnegative, lemma_regroup, lemma_square, lemma_sum_same, lemma_sum_scale, lemma_times_zero, lemma_zero,
    rpow, sum_of, Reals,
};

verus! {

/// What is left after `t` steps of numbers of which each counts for less with every step: the newest
/// for one less `kept`, every other one for `kept` times what it counted for before.
pub open spec fn faded(kept: real, t: nat, f: spec_fn(int) -> real) -> real {
    sum_of(t, |k: int| ((1 as real) - kept) * rpow(kept, (t - 1 - k) as nat) * f(k))
}

proof fn lemma_faded(kept: real, t: nat, f: spec_fn(int) -> real)
    ensures
        faded(kept, t + 1, f) == kept * faded(kept, t, f) + ((1 as real) - kept) * f(t as int),
        faded(kept, 0, f) == 0 as real,
{
    let c = (1 as real) - kept;
    let old_terms = |k: int| c * rpow(kept, (t - 1 - k) as nat) * f(k);
    let new_terms = |k: int| c * rpow(kept, (t + 1 - 1 - k) as nat) * f(k);
    let moved = |k: int| kept * old_terms(k);
    lemma_sum_scale(t, kept, old_terms, moved);
    assert forall|k: int| 0 <= k < t implies #[trigger] new_terms(k) == moved(k) by {
        let p = rpow(kept, (t - 1 - k) as nat);
        assert(rpow(kept, (t - k) as nat) == p * kept);
        let x = f(k);
        lemma_fade(c, p, kept, x);
    }
    lemma_sum_same(t, new_terms, moved);
    assert(rpow(kept, 0) == 1 as real);
    assert(new_terms(t as int) == c * f(t as int)) by {
        lemma_times_zero(c);
    }
    assert(sum_of((t + 1) as nat, new_terms) == sum_of(t, new_terms) + new_terms(t as int));
    lemma_sum_same((t + 1) as nat, new_terms, |k: int| c * rpow(kept, ((t + 1) - 1 - k) as nat) * f(k));
    lemma_sum_same(t, old_terms, |k: int| c * rpow(kept, (t - 1 - k) as nat) * f(k));
}

/// A number that stays the same is left for one less the power of what is kept.
proof fn lemma_faded_constant(kept: real, t: nat, c: real)
    ensures
        faded(kept, t, |k: int| c) == ((1 as real) - rpow(kept, t)) * c,
    decreases t,
{
    let f = |k: int| c;
    if t == 0 {
        lemma_faded(kept, 0, f);
        lemma_times_zero(c);
    } else {
        let s = (t - 1) as nat;
        lemma_faded_constant(kept, s, c);
        lemma_faded(kept, s, f);
        let p = rpow(kept, s);
        lemma_fade_again(kept, p, c);
    }
}

proof fn lemma_power_below_one(x: real, k: nat)
    requires
        0 as real <= x < 1 as real,
    ensures
        0 as real <= rpow(x, k) <= 1 as real,
        k > 0 ==> rpow(x, k) < 1 as real,
    decreases k,
{
    if k > 0 {
        lemma_power_below_one(x, (k - 1) as nat);
        let p = rpow(x, (k - 1) as nat);
        lemma_part(p, x);
    }
}

/// How Adam moves a value: by the learning rate times the average of the gradients over the root of
/// the average of their squares, both made up for what they lack after `t` steps, and `epsilon` added
/// to the root. With a weight decay the value shrinks first.
pub open spec fn adam_moves<T>(
    r: Reals<T>,
    lr: T,
    beta1: T,
    beta2: T,
    epsilon: T,
    decay: Option<T>,
    t: nat,
    m: real,
    v: real,
    before: T,
    after: T,
    root: real,
) -> bool {
    let shrunk = match decay {
        Some(d) => r.at(before) * ((1 as real) - r.at(lr) * r.at(d)),
        None => r.at(before),
    };
    &&& r.holds(after)
    &&& root >= 0 as real
    &&& (root * root) * ((1 as real) - rpow(r.at(beta2), t)) == v
    &&& ((shrunk - r.at(after)) * (root + r.at(epsilon))) * ((1 as real) - rpow(r.at(beta1), t)) == r.at(lr) * m
}

/// Whether the settings are ones to learn with: real numbers, averages that keep a part of what they
/// were, a positive epsilon.
pub open spec fn sound<T>(r: Reals<T>, lr: T, beta1: T, beta2: T, epsilon: T) -> bool {
    &&& r.holds(lr)
    &&& r.holds(beta1)
    &&& r.holds(beta2)
    &&& r.holds(epsilon)
    &&& 0 as real <= r.at(beta1) < 1 as real
    &&& 0 as real <= r.at(beta2) < 1 as real
    &&& r.at(epsilon) > 0 as real
}

/// One step of Adam for one value.
pub proof fn law_adam_step<N: Arithmetic>(
    n: &N,
    r: Reals<N::Num>,
    lr: N::Num,
    beta1: N::Num,
    beta2: N::Num,
    epsilon: N::Num,
    decay: Option<N::Num>,
    t: usize,
    slot: Moments<N::Num>,
    value: N::Num,
    grad: N::Num,
) -> (root: real)
    requires
        exact(n, r),
        sound(r, lr, beta1, beta2, epsilon),
        decay matches Some(d) ==> r.holds(d),
        t > 0,
        r.holds(slot.m),
        r.holds(slot.v),
        r.at(slot.v) >= 0 as real,
        r.holds(value),
        r.holds(grad),
    ensures
        ({
            let next = adam_rule(n, lr, beta1, beta2, epsilon, decay, t).next(slot, value, grad);
            &&& r.holds(next.0.m)
            &&& r.holds(next.0.v)
            &&& r.at(next.0.v) >= 0 as real
            &&& r.at(next.0.m) == r.at(beta1) * r.at(slot.m) + ((1 as real) - r.at(beta1)) * r.at(grad)
            &&& r.at(next.0.v) == r.at(beta2) * r.at(slot.v) + ((1 as real) - r.at(beta2)) * (r.at(grad) * r.at(grad))
            &&& adam_moves(
                r,
                lr,
                beta1,
                beta2,
                epsilon,
                decay,
                t as nat,
                r.at(next.0.m),
                r.at(next.0.v),
                value,
                next.1,
                root,
            )
        }),
{
    lemma_zero(n, r);
    let rule = adam_rule(n, lr, beta1, beta2, epsilon, decay, t);
    let next = rule.next(slot, value, grad);
    let rest1 = rest_of_one(n, beta1);
    let rest2 = rest_of_one(n, beta2);
    let g = r.at(grad);
    let one = 1 as real;
    let m = next.0.m;
    let v = next.0.v;
    let half = n.value(Term::Mul(rest2, grad));
    let square = n.value(Term::Mul(half, grad));
    assert(r.holds(rest1) && r.holds(rest2));
    assert(r.holds(n.value(Term::Mul(rest1, grad))) && r.holds(half) && r.holds(square));
    assert(r.holds(n.value(Term::Mul(beta1, slot.m))) && r.holds(n.value(Term::Mul(beta2, slot.v))));
    let b2 = r.at(beta2);
    lemma_group(one - b2, g, g);
    assert(r.at(v) == b2 * r.at(slot.v) + (one - b2) * (g * g));
    let sv = r.at(slot.v);
    lemma_product_nonnegative(b2, sv);
    let gg = g * g;
    lemma_square(g);
    let c2 = one - b2;
    lemma_product_nonnegative(c2, gg);
    let bias1 = bias_after(n, beta1, t);
    let bias2 = bias_after(n, beta2, t);
    let p1 = n.value(Term::Pow(beta1, n.value(Term::Count(t))));
    let p2 = n.value(Term::Pow(beta2, n.value(Term::Count(t))));
    assert(r.holds(p1) && r.at(p1) == rpow(r.at(beta1), t as nat));
    assert(r.holds(p2) && r.at(p2) == rpow(r.at(beta2), t as nat));
    lemma_power_below_one(r.at(beta1), t as nat);
    lemma_power_below_one(r.at(beta2), t as nat);
    let k1 = r.at(bias1);
    let k2 = r.at(bias2);
    assert(k1 > 0 as real && k2 > 0 as real);
    let m_hat = n.value(Term::Div(m, bias1));
    let v_hat = n.value(Term::Div(v, bias2));
    assert(r.holds(m_hat) && r.at(m_hat) * k1 == r.at(m));
    assert(r.holds(v_hat) && r.at(v_hat) * k2 == r.at(v));
    let vh = r.at(v_hat);
    assert(vh >= 0 as real) by {
        lemma_commute(vh, k2);
        lemma_factor_nonnegative(k2, vh);
    }
    let sqrt = n.value(Term::Sqrt(v_hat));
    let root = r.at(sqrt);
    assert(r.holds(sqrt) && root >= 0 as real && root * root == vh);
    let below = n.value(Term::Add(sqrt, epsilon));
    let d = root + r.at(epsilon);
    assert(r.holds(below) && r.at(below) == d && d > 0 as real);
    let direction = n.value(Term::Div(m_hat, below));
    let dir = r.at(direction);
    assert(r.holds(direction) && dir * d == r.at(m_hat));
    let amount = n.value(Term::Mul(lr, direction));
    let l = r.at(lr);
    assert(r.holds(amount) && r.at(amount) == l * dir);
    assert(r.holds(next.1));
    let am = r.at(amount);
    let mh = r.at(m_hat);
    lemma_regroup(l, dir, d, k1);
    match decay {
        Some(w) => {
            let lw = n.value(Term::Mul(lr, w));
            let rest = rest_of_one(n, lw);
            assert(r.holds(lw) && r.holds(rest));
            assert(r.holds(n.value(Term::Mul(value, rest))));
        },
        None => {},
    }
    root
}

/// Whether a list of optimizers, each what the one before it became by a step, starts with no history.
pub open spec fn adam_history<N: Arithmetic>(
    n: &N,
    opts: Seq<Adam<N::Num>>,
    values: Seq<Seq<Seq<Seq<N::Num>>>>,
    grads: Seq<Seq<Seq<Seq<N::Num>>>>,
) -> bool {
    &&& opts.len() == values.len() + 1
    &&& grads.len() == values.len()
    &&& opts[0].moments@.len() == 0
    &&& opts[0].step_count == 0
    &&& forall|t: int|
        0 <= t < values.len() ==> <Adam<N::Num> as Optimizer<N>>::can_update(
            &#[trigger] opts[t],
            values[t],
            grads[t],
        ) && <Adam<N::Num> as Optimizer<N>>::becomes(&opts[t], n, values[t], grads[t], opts[t + 1])
}

/// Whether a place stands in the matrices, and its value and gradient are real numbers.
pub open spec fn stands<T>(
    r: Reals<T>,
    values: Seq<Seq<Seq<T>>>,
    grads: Seq<Seq<Seq<T>>>,
    k: int,
    i: int,
    j: int,
) -> bool {
    &&& 0 <= k < values.len()
    &&& 0 <= i < values[k].len()
    &&& 0 <= j < values[k][i].len()
    &&& r.holds(values[k][i][j])
    &&& r.holds(grads[k][i][j])
}

/// Whether a place stands in the matrices of all steps.
pub open spec fn real_place<T>(
    r: Reals<T>,
    values: Seq<Seq<Seq<Seq<T>>>>,
    grads: Seq<Seq<Seq<Seq<T>>>>,
    k: int,
    i: int,
    j: int,
) -> bool {
    forall|t: int| 0 <= t < values.len() ==> stands(r, #[trigger] values[t], grads[t], k, i, j)
}

/// After any number of steps with the same settings, Adam remembers the gradients so far, each counting
/// for less with every step, and their squares likewise; and it moves the value by them.
pub proof fn law_adam_remembers<N: Arithmetic>(
    n: &N,
    r: Reals<N::Num>,
    opts: Seq<Adam<N::Num>>,
    values: Seq<Seq<Seq<Seq<N::Num>>>>,
    grads: Seq<Seq<Seq<Seq<N::Num>>>>,
    k: int,
    i: int,
    j: int,
)
    requires
        exact(n, r),
        adam_history(n, opts, values, grads),
        real_place(r, values, grads, k, i, j),
        sound(r, opts[0].lr, opts[0].beta1, opts[0].beta2, opts[0].epsilon),
    ensures
        ({
            let last = opts.last();
            let b1 = r.at(opts[0].beta1);
            let b2 = r.at(opts[0].beta2);
            &&& last.same_settings(&opts[0])
            &&& last.step_count == values.len()
            &&& values.len() > 0 ==> {
                let slot = cube(last.moments@)[k][i][j];
                &&& r.holds(slot.m) && r.holds(slot.v)
                &&& r.at(slot.m) == faded(b1, values.len(), |s: int| r.at(grads[s][k][i][j]))
                &&& r.at(slot.v) == faded(b2, values.len(), |s: int| r.at(grads[s][k][i][j]) * r.at(grads[s][k][i][j]))
                &&& r.at(slot.v) >= 0 as real
                &&& exists|root: real| #[trigger]
                    adam_moves(
                        r,
                        opts[0].lr,
                        opts[0].beta1,
                        opts[0].beta2,
                        opts[0].epsilon,
                        None,
                        values.len(),
                        r.at(slot.m),
                        r.at(slot.v),
                        values.last()[k][i][j],
                        <Adam<N::Num> as Optimizer<N>>::updated(
                            &opts[opts.len() - 2],
                            n,
                            values.last(),
                            grads.last(),
                        )[k][i][j],
                        root,
                    )
            }
        }),
    decreases values.len(),
{
    let steps = values.len();
    if steps > 0 {
        let s = (steps - 1) as nat;
        let o = opts.take(steps as int);
        let vs = values.drop_last();
        let gs = grads.drop_last();
        assert forall|t: int| 0 <= t < vs.len() implies <Adam<N::Num> as Optimizer<N>>::can_update(
            &#[trigger] o[t],
            vs[t],
            gs[t],
        ) && <Adam<N::Num> as Optimizer<N>>::becomes(&o[t], n, vs[t], gs[t], o[t + 1]) by {
            assert(o[t] == opts[t] && o[t + 1] == opts[t + 1] && vs[t] == values[t] && gs[t] == grads[t]);
        }
        assert(real_place(r, vs, gs, k, i, j)) by {
            assert forall|t: int| 0 <= t < vs.len() implies stands(r, #[trigger] vs[t], gs[t], k, i, j) by {
                assert(vs[t] == values[t] && gs[t] == grads[t]);
                assert(stands(r, values[t], grads[t], k, i, j));
            }
        }
        assert(o[0] == opts[0]);
        law_adam_remembers(n, r, o, vs, gs, k, i, j);
        let before = opts[steps - 1];
        let after = opts[steps as int];
        assert(o.last() == before && opts.last() == after);
        let value = values[steps - 1];
        let grad = grads[steps - 1];
        assert(<Adam<N::Num> as Optimizer<N>>::can_update(&opts[steps - 1], value, grad));
        assert(<Adam<N::Num> as Optimizer<N>>::becomes(&before, n, value, grad, after));
        let start = Moments { m: zero(n), v: zero(n) };
        let slots = primed(cube(before.moments@), value, start);
        let slot = slots[k][i][j];
        let rule = before.next_rule(n);
        lemma_zero(n, r);
        assert(stands(r, values[steps - 1], grads[steps - 1], k, i, j));
        assert(r.holds(value[k][i][j]) && r.holds(grad[k][i][j]));
        let g = |t: int| r.at(grads[t][k][i][j]);
        let gg = |t: int| r.at(grads[t][k][i][j]) * r.at(grads[t][k][i][j]);
        let b1 = r.at(opts[0].beta1);
        let b2 = r.at(opts[0].beta2);
        lemma_faded(b1, s, g);
        lemma_faded(b2, s, gg);
        assert(cube(before.moments@).len() == before.moments@.len());
        if steps == 1 {
            assert(slot == start);
        } else {
            assert(before.moments@.len() > 0) by {
                let prior = opts[steps - 2];
                assert(<Adam<N::Num> as Optimizer<N>>::can_update(&opts[steps - 2], values[steps - 2], grads[steps - 2]));
                assert(<Adam<N::Num> as Optimizer<N>>::becomes(
                    &prior,
                    n,
                    values[steps - 2],
                    grads[steps - 2],
                    before,
                ));
                assert(stands(r, values[steps - 2], grads[steps - 2], k, i, j));
            }
            lemma_faded_same(b1, s, |t: int| r.at(gs[t][k][i][j]), g);
            lemma_faded_same(b2, s, |t: int| r.at(gs[t][k][i][j]) * r.at(gs[t][k][i][j]), gg);
        }
        assert(r.holds(slot.m) && r.holds(slot.v) && r.at(slot.m) == faded(b1, s, g) && r.at(slot.v) == faded(
            b2,
            s,
            gg,
        ) && r.at(slot.v) >= 0 as real);
        assert(k < slots.len() && i < slots[k].len() && j < slots[k][i].len());
        let root = law_adam_step(
            n,
            r,
            before.lr,
            before.beta1,
            before.beta2,
            before.epsilon,
            None,
            (before.step_count + 1) as usize,
            slot,
            value[k][i][j],
            grad[k][i][j],
        );
        assert(all_next_slots(&rule, slots, value, grad)[k][i][j] == rule.next(slot, value[k][i][j], grad[k][i][j]).0);
        assert(all_next_values(&rule, slots, value, grad)[k][i][j] == rule.next(slot, value[k][i][j], grad[k][i][j]).1);
        assert(opts[opts.len() - 2] == before);
        assert(values.last() == value && grads.last() == grad);
        lemma_faded_same(b1, steps, g, |t: int| r.at(grads[t][k][i][j]));
        lemma_faded_same(b2, steps, gg, |t: int| r.at(grads[t][k][i][j]) * r.at(grads[t][k][i][j]));
        let last = cube(after.moments@)[k][i][j];
        assert(r.holds(last.m) && r.holds(last.v) && r.at(last.v) >= 0 as real);
        assert(r.at(last.m) == faded(b1, steps, g));
        assert(r.at(last.v) == faded(b2, steps, gg));
        assert(adam_moves(
            r,
            opts[0].lr,
            opts[0].beta1,
            opts[0].beta2,
            opts[0].epsilon,
            None,
            values.len(),
            r.at(cube(after.moments@)[k][i][j].m),
            r.at(cube(after.moments@)[k][i][j].v),
            value[k][i][j],
            <Adam<N::Num> as Optimizer<N>>::updated(&before, n, value, grad)[k][i][j],
            root,
        ));
    }
}

proof fn lemma_faded_same(kept: real, t: nat, f: spec_fn(int) -> real, g: spec_fn(int) -> real)
    requires
        forall|k: int| 0 <= k < t ==> #[trigger] f(k) == g(k),
    ensures
        faded(kept, t, f) == faded(kept, t, g),
{
    let a = |k: int| ((1 as real) - kept) * rpow(kept, (t - 1 - k) as nat) * f(k);
    let b = |k: int| ((1 as real) - kept) * rpow(kept, (t - 1 - k) as nat) * g(k);
    assert forall|k: int| 0 <= k < t implies #[trigger] a(k) == b(k) by {
        assert(f(k) == g(k));
    }
    lemma_sum_same(t, a, b);
}

/// A gradient that never changes is what Adam goes by, whatever it keeps: the averages, made up for what
/// they lack, are the gradient and its square, and the step is the learning rate times the gradient over
/// its size, `epsilon` added to that.
pub proof fn law_adam_constant_gradient<N: Arithmetic>(
    n: &N,
    r: Reals<N::Num>,
    opts: Seq<Adam<N::Num>>,
    values: Seq<Seq<Seq<Seq<N::Num>>>>,
    grads: Seq<Seq<Seq<Seq<N::Num>>>>,
    k: int,
    i: int,
    j: int,
    c: real,
) -> (size: real)
    requires
        exact(n, r),
        adam_history(n, opts, values, grads),
        real_place(r, values, grads, k, i, j),
        sound(r, opts[0].lr, opts[0].beta1, opts[0].beta2, opts[0].epsilon),
        values.len() > 0,
        forall|t: int| 0 <= t < values.len() ==> r.at((#[trigger] grads[t])[k][i][j]) == c,
    ensures
        ({
            let slot = cube(opts.last().moments@)[k][i][j];
            let before = values.last()[k][i][j];
            let after = <Adam<N::Num> as Optimizer<N>>::updated(
                &opts[opts.len() - 2],
                n,
                values.last(),
                grads.last(),
            )[k][i][j];
            &&& r.at(slot.m) == ((1 as real) - rpow(r.at(opts[0].beta1), values.len())) * c
            &&& r.at(slot.v) == ((1 as real) - rpow(r.at(opts[0].beta2), values.len())) * (c * c)
            &&& size >= 0 as real
            &&& size * size == c * c
            &&& r.holds(after)
            &&& (r.at(before) - r.at(after)) * (size + r.at(opts[0].epsilon)) == r.at(opts[0].lr) * c
        }),
{
    law_adam_remembers(n, r, opts, values, grads, k, i, j);
    let t = values.len();
    let b1 = r.at(opts[0].beta1);
    let b2 = r.at(opts[0].beta2);
    let slot = cube(opts.last().moments@)[k][i][j];
    let before = values.last()[k][i][j];
    let after = <Adam<N::Num> as Optimizer<N>>::updated(&opts[opts.len() - 2], n, values.last(), grads.last())[k][i][j];
    let size = choose|root: real| #[trigger]
        adam_moves(
            r,
            opts[0].lr,
            opts[0].beta1,
            opts[0].beta2,
            opts[0].epsilon,
            None,
            t,
            r.at(slot.m),
            r.at(slot.v),
            before,
            after,
            root,
        );
    let square = c * c;
    let g = |s: int| r.at(grads[s][k][i][j]);
    let gg = |s: int| r.at(grads[s][k][i][j]) * r.at(grads[s][k][i][j]);
    assert forall|s: int| 0 <= s < t implies #[trigger] g(s) == c by {
        assert(r.at(grads[s][k][i][j]) == c);
    }
    assert forall|s: int| 0 <= s < t implies #[trigger] gg(s) == square by {
        assert(r.at(grads[s][k][i][j]) == c);
    }
    lemma_faded_same(b1, t, g, |s: int| c);
    lemma_faded_same(b1, t, g, |s: int| r.at(grads[s][k][i][j]));
    lemma_faded_same(b2, t, gg, |s: int| square);
    lemma_faded_same(b2, t, gg, |s: int| r.at(grads[s][k][i][j]) * r.at(grads[s][k][i][j]));
    lemma_faded_constant(b1, t, c);
    lemma_faded_constant(b2, t, square);
    lemma_power_below_one(b1, t);
    lemma_power_below_one(b2, t);
    let k1 = (1 as real) - rpow(b1, t);
    let k2 = (1 as real) - rpow(b2, t);
    let way = (r.at(before) - r.at(after)) * (size + r.at(opts[0].epsilon));
    let l = r.at(opts[0].lr);
    lemma_commute(size * size, k2);
    lemma_cancel(k2, size * size, square);
    lemma_commute(way, k1);
    lemma_group(l, k1, c);
    lemma_cancel(k1, way, l * c);
    size
}

/// What an optimizer remembers for a place, as a real number: nothing if it remembers nothing yet.
pub open spec fn remembered<T>(r: Reals<T>, slots: Seq<Vec<Vec<T>>>, k: int, i: int, j: int) -> real {
    if slots.len() == 0 {
        0 as real
    } else {
        r.at(cube(slots)[k][i][j])
    }
}

/// Whether what an optimizer remembers for a place, if anything, is a real number.
pub open spec fn remembers_reals<T>(r: Reals<T>, slots: Seq<Vec<Vec<T>>>, k: int, i: int, j: int) -> bool {
    slots.len() > 0 ==> r.holds(cube(slots)[k][i][j])
}

/// Gradient descent moves a value against its gradient, by the learning rate times the gradient.
pub proof fn law_descent_step<N: Arithmetic>(
    n: &N,
    r: Reals<N::Num>,
    opt: SGD<N::Num>,
    values: Seq<Seq<Seq<N::Num>>>,
    grads: Seq<Seq<Seq<N::Num>>>,
    k: int,
    i: int,
    j: int,
)
    requires
        exact(n, r),
        <SGD<N::Num> as Optimizer<N>>::can_update(&opt, values, grads),
        stands(r, values, grads, k, i, j),
        r.holds(opt.lr),
    ensures
        ({
            let after = <SGD<N::Num> as Optimizer<N>>::updated(&opt, n, values, grads)[k][i][j];
            &&& r.holds(after)
            &&& r.at(after) == r.at(values[k][i][j]) - r.at(opt.lr) * r.at(grads[k][i][j])
        }),
{
    let rule = SgdRule { n, lr: opt.lr };
    let value = values[k][i][j];
    let grad = grads[k][i][j];
    let amount = n.value(Term::Mul(opt.lr, grad));
    assert(r.holds(amount));
    assert(<SGD<N::Num> as Optimizer<N>>::updated(&opt, n, values, grads)[k][i][j] == rule.next(Nothing, value, grad).1);
}

/// With momentum a value keeps a part of its last movement and adds the step of gradient descent.
pub proof fn law_momentum_step<N: Arithmetic>(
    n: &N,
    r: Reals<N::Num>,
    opt: SGDM<N::Num>,
    next: SGDM<N::Num>,
    values: Seq<Seq<Seq<N::Num>>>,
    grads: Seq<Seq<Seq<N::Num>>>,
    k: int,
    i: int,
    j: int,
)
    requires
        exact(n, r),
        <SGDM<N::Num> as Optimizer<N>>::can_update(&opt, values, grads),
        <SGDM<N::Num> as Optimizer<N>>::becomes(&opt, n, values, grads, next),
        stands(r, values, grads, k, i, j),
        remembers_reals(r, opt.velocity@, k, i, j),
        r.holds(opt.lr),
        r.holds(opt.momentum),
    ensures
        ({
            let after = <SGDM<N::Num> as Optimizer<N>>::updated(&opt, n, values, grads)[k][i][j];
            let movement = r.at(opt.momentum) * remembered(r, opt.velocity@, k, i, j) + r.at(opt.lr) * r.at(
                grads[k][i][j],
            );
            &&& next.lr == opt.lr
            &&& next.momentum == opt.momentum
            &&& r.holds(after)
            &&& r.at(after) == r.at(values[k][i][j]) - movement
            &&& remembers_reals(r, next.velocity@, k, i, j)
            &&& remembered(r, next.velocity@, k, i, j) == movement
        }),
{
    lemma_zero(n, r);
    let rule = MomentumRule { n, lr: opt.lr, momentum: opt.momentum };
    let slots = primed(cube(opt.velocity@), values, zero(n));
    let slot = slots[k][i][j];
    let value = values[k][i][j];
    let grad = grads[k][i][j];
    assert(k < slots.len() && i < slots[k].len() && j < slots[k][i].len());
    assert(r.holds(slot) && r.at(slot) == remembered(r, opt.velocity@, k, i, j));
    assert(r.holds(n.value(Term::Mul(opt.lr, grad))) && r.holds(n.value(Term::Mul(opt.momentum, slot))));
    assert(all_next_slots(&rule, slots, values, grads)[k][i][j] == rule.next(slot, value, grad).0);
    assert(all_next_values(&rule, slots, values, grads)[k][i][j] == rule.next(slot, value, grad).1);
    assert(cube(next.velocity@).len() == next.velocity@.len());
}

/// RMSProp keeps an average of the squared gradients in which older ones count for less, and moves a
/// value by the learning rate times the gradient over the root of the average, `epsilon` added to that.
pub proof fn law_rms_step<N: Arithmetic>(
    n: &N,
    r: Reals<N::Num>,
    opt: RMSProp<N::Num>,
    next: RMSProp<N::Num>,
    values: Seq<Seq<Seq<N::Num>>>,
    grads: Seq<Seq<Seq<N::Num>>>,
    k: int,
    i: int,
    j: int,
) -> (root: real)
    requires
        exact(n, r),
        <RMSProp<N::Num> as Optimizer<N>>::can_update(&opt, values, grads),
        <RMSProp<N::Num> as Optimizer<N>>::becomes(&opt, n, values, grads, next),
        stands(r, values, grads, k, i, j),
        remembers_reals(r, opt.sq_avg@, k, i, j),
        remembered(r, opt.sq_avg@, k, i, j) >= 0 as real,
        r.holds(opt.lr),
        r.holds(opt.decay_rate),
        0 as real <= r.at(opt.decay_rate) < 1 as real,
        r.holds(opt.epsilon),
        r.at(opt.epsilon) > 0 as real,
    ensures
        ({
            let after = <RMSProp<N::Num> as Optimizer<N>>::updated(&opt, n, values, grads)[k][i][j];
            let g = r.at(grads[k][i][j]);
            let average = r.at(opt.decay_rate) * remembered(r, opt.sq_avg@, k, i, j) + ((1 as real) - r.at(
                opt.decay_rate,
            )) * (g * g);
            &&& next.lr == opt.lr
            &&& next.decay_rate == opt.decay_rate
            &&& next.epsilon == opt.epsilon
            &&& remembers_reals(r, next.sq_avg@, k, i, j)
            &&& remembered(r, next.sq_avg@, k, i, j) == average
            &&& average >= 0 as real
            &&& root >= 0 as real
            &&& root * root == average
            &&& r.holds(after)
            &&& (r.at(values[k][i][j]) - r.at(after)) * (root + r.at(opt.epsilon)) == r.at(opt.lr) * g
        }),
{
    lemma_zero(n, r);
    let rule = opt.rule(n);
    let slots = primed(cube(opt.sq_avg@), values, zero(n));
    let slot = slots[k][i][j];
    let value = values[k][i][j];
    let grad = grads[k][i][j];
    assert(k < slots.len() && i < slots[k].len() && j < slots[k][i].len());
    assert(r.holds(slot) && r.at(slot) == remembered(r, opt.sq_avg@, k, i, j));
    let g = r.at(grad);
    let kept = r.at(opt.decay_rate);
    let rest = n.value(Term::Sub(one(n), opt.decay_rate));
    let half = n.value(Term::Mul(rest, grad));
    let fresh = n.value(Term::Mul(half, grad));
    assert(r.holds(rest) && r.holds(half) && r.holds(fresh));
    assert(r.holds(n.value(Term::Mul(opt.decay_rate, slot))));
    lemma_group((1 as real) - kept, g, g);
    lemma_square(g);
    lemma_product_nonnegative((1 as real) - kept, g * g);
    lemma_product_nonnegative(kept, r.at(slot));
    let average = rule.next(slot, value, grad).0;
    assert(r.holds(average) && r.at(average) >= 0 as real);
    let sqrt = n.value(Term::Sqrt(average));
    let below = n.value(Term::Add(sqrt, opt.epsilon));
    let above = n.value(Term::Mul(opt.lr, grad));
    let change = n.value(Term::Div(above, below));
    assert(r.holds(sqrt) && r.holds(below) && r.holds(above) && r.at(below) > 0 as real && r.holds(change));
    assert(all_next_slots(&rule, slots, values, grads)[k][i][j] == rule.next(slot, value, grad).0);
    assert(all_next_values(&rule, slots, values, grads)[k][i][j] == rule.next(slot, value, grad).1);
    assert(cube(next.sq_avg@).len() == next.sq_avg@.len());
    r.at(sqrt)
}

/// AdamW remembers as Adam does, and moves a value that shrinks first.
pub proof fn law_decayed_step<N: Arithmetic>(
    n: &N,
    r: Reals<N::Num>,
    opt: AdamW<N::Num>,
    next: AdamW<N::Num>,
    values: Seq<Seq<Seq<N::Num>>>,
    grads: Seq<Seq<Seq<N::Num>>>,
    k: int,
    i: int,
    j: int,
) -> (root: real)
    requires
        exact(n, r),
        <AdamW<N::Num> as Optimizer<N>>::can_update(&opt, values, grads),
        <AdamW<N::Num> as Optimizer<N>>::becomes(&opt, n, values, grads, next),
        stands(r, values, grads, k, i, j),
        sound(r, opt.lr, opt.beta1, opt.beta2, opt.epsilon),
        r.holds(opt.weight_decay),
        opt.moments@.len() > 0 ==> {
            let slot = cube(opt.moments@)[k][i][j];
            r.holds(slot.m) && r.holds(slot.v) && r.at(slot.v) >= 0 as real
        },
    ensures
        ({
            let after = <AdamW<N::Num> as Optimizer<N>>::updated(&opt, n, values, grads)[k][i][j];
            let g = r.at(grads[k][i][j]);
            let slot = cube(next.moments@)[k][i][j];
            let (m, v) = if opt.moments@.len() == 0 {
                (0 as real, 0 as real)
            } else {
                (r.at(cube(opt.moments@)[k][i][j].m), r.at(cube(opt.moments@)[k][i][j].v))
            };
            &&& next.same_settings(&opt)
            &&& next.step_count == opt.step_count + 1
            &&& r.holds(slot.m)
            &&& r.holds(slot.v)
            &&& r.at(slot.v) >= 0 as real
            &&& r.at(slot.m) == r.at(opt.beta1) * m + ((1 as real) - r.at(opt.beta1)) * g
            &&& r.at(slot.v) == r.at(opt.beta2) * v + ((1 as real) - r.at(opt.beta2)) * (g * g)
            &&& adam_moves(
                r,
                opt.lr,
                opt.beta1,
                opt.beta2,
                opt.epsilon,
                Some(opt.weight_decay),
                (opt.step_count + 1) as nat,
                r.at(slot.m),
                r.at(slot.v),
                values[k][i][j],
                after,
                root,
            )
        }),
{
    lemma_zero(n, r);
    let start = Moments { m: zero(n), v: zero(n) };
    let slots = primed(cube(opt.moments@), values, start);
    let slot = slots[k][i][j];
    let rule = opt.next_rule(n);
    let value = values[k][i][j];
    let grad = grads[k][i][j];
    assert(k < slots.len() && i < slots[k].len() && j < slots[k][i].len());
    assert(cube(opt.moments@).len() == opt.moments@.len());
    assert(r.holds(slot.m) && r.holds(slot.v) && r.at(slot.v) >= 0 as real);
    let root = law_adam_step(
        n,
        r,
        opt.lr,
        opt.beta1,
        opt.beta2,
        opt.epsilon,
        Some(opt.weight_decay),
        (opt.step_count + 1) as usize,
        slot,
        value,
        grad,
    );
    assert(all_next_slots(&rule, slots, values, grads)[k][i][j] == rule.next(slot, value, grad).0);
    assert(all_next_values(&rule, slots, values, grads)[k][i][j] == rule.next(slot, value, grad).1);
    root
}

} // verus!
