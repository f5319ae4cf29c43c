//! Learning rates that change while training goes on.

use vstd::prelude::*;

use crate::numbers::{one, Arithmetic, Term};
use crate::reals::{exact, lemma_cancel, lemma_commute, lemma_group, lemma_half, lemma_times_zero, lemma_zero, rpow, Reals};

verus! {

/// How the learning rate changes with the step.
pub enum LRScheduler<T> {
    /// The same rate at every step.
    Constant {
        /// The rate.
        lr: T,
    },
    /// The rate falls by a factor after every `step_size` steps.
    StepDecay {
        /// The rate at the start.
        initial_lr: T,
        /// The factor.
        decay_rate: T,
        /// How many steps the rate stays the same.
        step_size: usize,
    },
    /// The rate falls by a factor at every step.
    ExponentialDecay {
        /// The rate at the start.
        initial_lr: T,
        /// The factor.
        decay_rate: T,
    },
    /// The rate rises in a straight line, then falls along half a cosine wave.
    CosineWarmup {
        /// The rate at the top.
        max_lr: T,
        /// The rate at the end.
        min_lr: T,
        /// How many steps the rise takes.
        warmup_steps: usize,
        /// How many steps there are in all.
        total_steps: usize,
    },
}

/// The rate on the falling side of the wave, a given share of the way down.
pub open spec fn cosine_rate<N: Arithmetic>(n: &N, max_lr: N::Num, min_lr: N::Num, progress: N::Num) -> N::Num {
    let half = n.value(Term::Mul(n.value(Term::Decimal(5, 1)), n.value(Term::Sub(max_lr, min_lr))));
    let wave = n.value(Term::Cos(n.value(Term::Mul(n.value(Term::Pi), progress))));
    n.value(Term::Add(min_lr, n.value(Term::Mul(half, n.value(Term::Add(one(n), wave))))))
}

/// One number of steps divided by another.
pub open spec fn share<N: Arithmetic>(n: &N, part: usize, whole: usize) -> N::Num {
    n.value(Term::Div(n.value(Term::Count(part)), n.value(Term::Count(whole))))
}

impl<T: Copy> LRScheduler<T> {
    /// Whether there is a rate for a step: a decay has steps to count, and a wave does not end before
    /// it begins to fall.
    pub open spec fn defined_at(&self, current_step: usize) -> bool {
        match *self {
            LRScheduler::Constant { .. } => true,
            LRScheduler::StepDecay { step_size, .. } => step_size > 0,
            LRScheduler::ExponentialDecay { .. } => true,
            LRScheduler::CosineWarmup { warmup_steps, total_steps, .. } => current_step >= warmup_steps ==> total_steps
                >= warmup_steps,
        }
    }

    /// The rate at a step.
    pub open spec fn rate<N: Arithmetic<Num = T>>(&self, n: &N, current_step: usize) -> T {
        match *self {
            LRScheduler::Constant { lr } => lr,
            LRScheduler::StepDecay { initial_lr, decay_rate, step_size } => n.value(
                Term::Mul(initial_lr, n.value(Term::PowInt(decay_rate, (current_step / step_size) as usize))),
            ),
            LRScheduler::ExponentialDecay { initial_lr, decay_rate } => n.value(
                Term::Mul(initial_lr, n.value(Term::PowInt(decay_rate, current_step))),
            ),
            LRScheduler::CosineWarmup { max_lr, min_lr, warmup_steps, total_steps } => {
                if current_step < warmup_steps {
                    n.value(Term::Mul(max_lr, share(n, current_step, warmup_steps)))
                } else {
                    let falling = if total_steps == warmup_steps {
                        1
                    } else {
                        (total_steps - warmup_steps) as usize
                    };
                    cosine_rate(n, max_lr, min_lr, share(n, (current_step - warmup_steps) as usize, falling))
                }
            },
        }
    }

    /// The learning rate at a step.
    pub fn get_lr<N: Arithmetic<Num = T>>(&self, n: &N, current_step: usize) -> (r: T)
        requires
            n.wf(),
            self.defined_at(current_step),
        ensures
            r == self.rate(n, current_step),
    {
        match *self {
            LRScheduler::Constant { lr } => lr,
            LRScheduler::StepDecay { initial_lr, decay_rate, step_size } => {
                let num_decays: usize = current_step / step_size;
                n.eval(Term::Mul(initial_lr, n.eval(Term::PowInt(decay_rate, num_decays))))
            },
            LRScheduler::ExponentialDecay { initial_lr, decay_rate } => {
                n.eval(Term::Mul(initial_lr, n.eval(Term::PowInt(decay_rate, current_step))))
            },
            LRScheduler::CosineWarmup { max_lr, min_lr, warmup_steps, total_steps } => {
                if current_step < warmup_steps {
                    let risen = n.eval(
                        Term::Div(n.eval(Term::Count(current_step)), n.eval(Term::Count(warmup_steps))),
                    );
                    n.eval(Term::Mul(max_lr, risen))
                } else {
                    let decay_steps: usize = total_steps - warmup_steps;
                    let falling: usize = if decay_steps == 0 {
                        1
                    } else {
                        decay_steps
                    };
                    let progress = n.eval(
                        Term::Div(n.eval(Term::Count(current_step - warmup_steps)), n.eval(Term::Count(falling))),
                    );
                    let half = n.eval(Term::Mul(n.eval(Term::Decimal(5, 1)), n.eval(Term::Sub(max_lr, min_lr))));
                    let wave = n.eval(Term::Cos(n.eval(Term::Mul(n.eval(Term::Pi), progress))));
                    let height = n.eval(Term::Add(n.eval(Term::Decimal(1, 0)), wave));
                    n.eval(Term::Add(min_lr, n.eval(Term::Mul(half, height))))
                }
            },
        }
    }
}

/// A rate that decays by steps stays the same from one decay to the next.
pub proof fn law_step_decay_is_flat<N: Arithmetic>(
    n: &N,
    initial_lr: N::Num,
    decay_rate: N::Num,
    step_size: usize,
    first: usize,
    second: usize,
)
    requires
        step_size > 0,
        first / step_size == second / step_size,
    ensures
        ({
            let schedule = LRScheduler::StepDecay { initial_lr, decay_rate, step_size };
            schedule.rate(n, first) == schedule.rate(n, second)
        }),
{
}

/// A rate that decays by steps is the first rate at the start, and falls by the factor from each stretch
/// of steps to the next.
pub proof fn law_step_decay_falls<N: Arithmetic>(
    n: &N,
    r: Reals<N::Num>,
    initial_lr: N::Num,
    decay_rate: N::Num,
    step_size: usize,
    step: usize,
)
    requires
        exact(n, r),
        r.holds(initial_lr),
        r.holds(decay_rate),
        step_size > 0,
        step + step_size <= usize::MAX,
    ensures
        ({
            let schedule = LRScheduler::StepDecay { initial_lr, decay_rate, step_size };
            &&& r.holds(schedule.rate(n, step))
            &&& step < step_size ==> r.at(schedule.rate(n, step)) == r.at(initial_lr)
            &&& r.at(schedule.rate(n, (step + step_size) as usize)) == r.at(schedule.rate(n, step)) * r.at(decay_rate)
        }),
{
    let times = step / step_size;
    vstd::arithmetic::div_mod::lemma_div_plus_one(step as int, step_size as int);
    assert((step + step_size) as usize / step_size == times + 1);
    lemma_times_zero(r.at(initial_lr));
    if step < step_size {
        vstd::arithmetic::div_mod::lemma_basic_div(step as int, step_size as int);
        assert(rpow(r.at(decay_rate), 0) == 1 as real);
    }
    assert(rpow(r.at(decay_rate), (times + 1) as nat) == rpow(r.at(decay_rate), times as nat) * r.at(decay_rate));
    assert(r.holds(n.value(Term::PowInt(decay_rate, times))));
    assert(r.holds(n.value(Term::PowInt(decay_rate, (times + 1) as usize))));
    lemma_group(r.at(initial_lr), rpow(r.at(decay_rate), times as nat), r.at(decay_rate));
}

/// A rate that decays all the time is the first rate at the start, and falls by the factor with every
/// step.
pub proof fn law_exponential_decay_falls<N: Arithmetic>(
    n: &N,
    r: Reals<N::Num>,
    initial_lr: N::Num,
    decay_rate: N::Num,
    step: usize,
)
    requires
        exact(n, r),
        r.holds(initial_lr),
        r.holds(decay_rate),
        step < usize::MAX,
    ensures
        ({
            let schedule = LRScheduler::ExponentialDecay { initial_lr, decay_rate };
            &&& r.holds(schedule.rate(n, step))
            &&& r.at(schedule.rate(n, 0)) == r.at(initial_lr)
            &&& r.at(schedule.rate(n, (step + 1) as usize)) == r.at(schedule.rate(n, step)) * r.at(decay_rate)
        }),
{
    lemma_times_zero(r.at(initial_lr));
    assert(rpow(r.at(decay_rate), 0) == 1 as real);
    assert(rpow(r.at(decay_rate), (step + 1) as nat) == rpow(r.at(decay_rate), step as nat) * r.at(decay_rate));
    assert(r.holds(n.value(Term::PowInt(decay_rate, 0))));
    assert(r.holds(n.value(Term::PowInt(decay_rate, step))));
    assert(r.holds(n.value(Term::PowInt(decay_rate, (step + 1) as usize))));
    lemma_group(r.at(initial_lr), rpow(r.at(decay_rate), step as nat), r.at(decay_rate));
}

/// A rate that rises and falls: it rises with the steps to the top, where it begins to fall, and is at
/// the end what it falls to. On the way down it is as far above the end as the cosine is above minus
/// one, of an angle that grows with the steps to half a turn.
pub proof fn law_wave_rises_and_falls<N: Arithmetic>(
    n: &N,
    r: Reals<N::Num>,
    max_lr: N::Num,
    min_lr: N::Num,
    warmup_steps: usize,
    total_steps: usize,
    step: usize,
) -> (angle: real)
    requires
        exact(n, r),
        r.holds(max_lr),
        r.holds(min_lr),
        warmup_steps <= total_steps,
    ensures
        ({
            let rate = LRScheduler::CosineWarmup { max_lr, min_lr, warmup_steps, total_steps }.rate(n, step);
            let down = if total_steps == warmup_steps {
                1 as real
            } else {
                (total_steps - warmup_steps) as real
            };
            &&& r.holds(rate)
            &&& step < warmup_steps ==> r.at(rate) * (warmup_steps as real) == r.at(max_lr) * (step as real)
            &&& step == warmup_steps ==> r.at(rate) == r.at(max_lr)
            &&& step == total_steps && warmup_steps < total_steps ==> r.at(rate) == r.at(min_lr)
            &&& step >= warmup_steps ==> angle * down == r.half_turn * ((step - warmup_steps) as real) && (2 as real) * (
            r.at(rate) - r.at(min_lr)) == (r.at(max_lr) - r.at(min_lr)) * ((1 as real) + r.cos(angle))
        }),
{
    lemma_zero(n, r);
    let rate = LRScheduler::CosineWarmup { max_lr, min_lr, warmup_steps, total_steps }.rate(n, step);
    let top = r.at(max_lr);
    if step < warmup_steps {
        let part = share(n, step, warmup_steps);
        assert(r.at(n.value(Term::Count(warmup_steps))) == warmup_steps as real);
        assert(r.holds(part) && r.at(part) * (warmup_steps as real) == step as real);
        lemma_group(top, r.at(part), warmup_steps as real);
        0 as real
    } else {
        let falling = if total_steps == warmup_steps {
            1
        } else {
            (total_steps - warmup_steps) as usize
        };
        let gone = (step - warmup_steps) as usize;
        let down = falling as real;
        let part = share(n, gone, falling);
        let share_of = r.at(part);
        assert(r.at(n.value(Term::Count(falling))) == down && down > 0 as real);
        assert(r.holds(part) && share_of * down == gone as real);
        let turn = n.value(Term::Mul(n.value(Term::Pi), part));
        let angle = r.half_turn * share_of;
        assert(r.holds(turn) && r.at(turn) == angle);
        lemma_group(r.half_turn, share_of, down);
        let wave = n.value(Term::Cos(turn));
        let height = n.value(Term::Add(one(n), wave));
        assert(r.holds(wave) && r.holds(height) && r.at(height) == (1 as real) + r.cos(angle));
        let fifty = n.value(Term::Decimal(5, 1));
        let h = r.at(fifty);
        reveal_with_fuel(rpow, 3);
        assert(rpow(10 as real, 1) == 10 as real);
        assert(h * (10 as real) == 5 as real);
        let gap = n.value(Term::Sub(max_lr, min_lr));
        let half = n.value(Term::Mul(fifty, gap));
        assert(r.holds(fifty) && r.holds(gap) && r.holds(half));
        let m = r.at(gap);
        let up = r.at(height);
        let above = n.value(Term::Mul(half, height));
        assert(r.holds(above) && r.at(above) == (h * m) * up);
        lemma_group(2 as real, h * m, up);
        lemma_group(2 as real, h, m);
        lemma_half(h);
        lemma_times_zero(m);
        assert((2 as real) * (r.at(rate) - r.at(min_lr)) == m * up);
        if gone == 0 {
            lemma_commute(share_of, down);
            lemma_times_zero(down);
            lemma_cancel(down, share_of, 0 as real);
            lemma_times_zero(r.half_turn);
            lemma_commute(m, 2 as real);
        }
        if gone == falling {
            lemma_commute(share_of, down);
            lemma_times_zero(down);
            lemma_cancel(down, share_of, 1 as real);
            lemma_times_zero(r.half_turn);
        }
        angle
    }
}

/// The ways to change the learning rate that are held against each other over `epochs` epochs of
/// `per_epoch` steps: none, halving every fifteen epochs, a steady decay, and a wave.
pub open spec fn experiment<N: Arithmetic>(
    n: &N,
    i: int,
    epochs: usize,
    per_epoch: usize,
    warmup_steps: usize,
) -> LRScheduler<N::Num> {
    if i == 0 {
        LRScheduler::Constant { lr: n.value(Term::Decimal(3, 4)) }
    } else if i == 1 {
        LRScheduler::StepDecay {
            initial_lr: n.value(Term::Decimal(5, 4)),
            decay_rate: n.value(Term::Decimal(5, 1)),
            step_size: (15 * per_epoch) as usize,
        }
    } else if i == 2 {
        LRScheduler::ExponentialDecay {
            initial_lr: n.value(Term::Decimal(5, 4)),
            decay_rate: n.value(Term::Decimal(999, 3)),
        }
    } else {
        LRScheduler::CosineWarmup {
            max_lr: n.value(Term::Decimal(5, 4)),
            min_lr: n.value(Term::Decimal(1, 5)),
            warmup_steps,
            total_steps: (epochs * per_epoch) as usize,
        }
    }
}

/// The ways to change the learning rate that are held against each other.
pub fn experiments<N: Arithmetic>(
    n: &N,
    epochs: usize,
    per_epoch: usize,
    warmup_steps: usize,
) -> (r: Vec<LRScheduler<N::Num>>)
    requires
        n.wf(),
        15 * per_epoch <= usize::MAX,
        epochs * per_epoch <= usize::MAX,
    ensures
        r@ == Seq::new(4, |i: int| experiment(n, i, epochs, per_epoch, warmup_steps)),
{
    let mut out: Vec<LRScheduler<N::Num>> = Vec::new();
    out.push(LRScheduler::Constant { lr: n.eval(Term::Decimal(3, 4)) });
    out.push(
        LRScheduler::StepDecay {
            initial_lr: n.eval(Term::Decimal(5, 4)),
            decay_rate: n.eval(Term::Decimal(5, 1)),
            step_size: 15 * per_epoch,
        },
    );
    out.push(
        LRScheduler::ExponentialDecay {
            initial_lr: n.eval(Term::Decimal(5, 4)),
            decay_rate: n.eval(Term::Decimal(999, 3)),
        },
    );
    out.push(
        LRScheduler::CosineWarmup {
            max_lr: n.eval(Term::Decimal(5, 4)),
            min_lr: n.eval(Term::Decimal(1, 5)),
            warmup_steps,
            total_steps: epochs * per_epoch,
        },
    );
    assert(out@ =~= Seq::new(4, |i: int| experiment(n, i, epochs, per_epoch, warmup_steps)));
    out
}

} // verus!
