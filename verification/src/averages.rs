//! What moving averages of tensors, and steps that go by them, are over real numbers.

use vstd::prelude::*;

use crate::ema::{decay_after, folded};
use crate::numbers::{one, zero, Arithmetic, Term};
use crate::optimizers::diffusion_adam::{averaged, correction, counted, moved, stepped, stepped_up_to, AdamView};
use crate::parameterized::ModelView;
use crate::reals::{
    exact, lemma_commute, lemma_factor_nonnegative, lemma_group, lemma_product_nonnegative, lemma_times_zero,
    lemma_zero, rpow, Reals,
};
use crate::tensor::{combined, rooted, squared, Pairing, TensorMath, TensorView};

verus! {

/// Whether arithmetic on tensors is that of real numbers: scalars and elements are read as real
/// numbers, and a scalar is the same number as an element.
pub open spec fn faithful<N: Arithmetic, E: Arithmetic, F: Fn(N::Num) -> E::Num>(
    math: &TensorMath<N, E, F>,
    r: Reals<N::Num>,
    q: Reals<E::Num>,
) -> bool {
    &&& exact(&math.wide, r)
    &&& exact(&math.narrow, q)
    &&& forall|x: N::Num|
        r.holds(x) ==> q.holds(#[trigger] math.cast_of(x)) && q.at(math.cast_of(x)) == r.at(x)
}

/// An element of a scaled tensor.
pub proof fn lemma_scaled<N: Arithmetic, E: Arithmetic, F: Fn(N::Num) -> E::Num>(
    math: &TensorMath<N, E, F>,
    r: Reals<N::Num>,
    q: Reals<E::Num>,
    t: TensorView<E::Num>,
    factor: N::Num,
    shift: N::Num,
    i: int,
)
    requires
        faithful(math, r, q),
        r.holds(factor),
        r.holds(shift),
        0 <= i < t.data.len(),
        q.holds(t.data[i]),
    ensures
        q.holds(math.scaled(t, factor, shift).data[i]),
        q.at(math.scaled(t, factor, shift).data[i]) == q.at(t.data[i]) * r.at(factor) + r.at(shift),
{
    let x = t.data[i];
    let by = math.cast_of(factor);
    let plus = math.cast_of(shift);
    assert(q.holds(by) && q.holds(plus));
    let p = math.narrow.value(Term::Mul(x, by));
    assert(q.holds(p));
    assert(math.scaled(t, factor, shift).data[i] == math.narrow.value(Term::Add(p, plus)));
}

/// An average with a weight folded in keeps its share and takes the rest from the weight.
pub proof fn law_average_takes_share<N: Arithmetic, E: Arithmetic, F: Fn(N::Num) -> E::Num>(
    math: &TensorMath<N, E, F>,
    r: Reals<N::Num>,
    q: Reals<E::Num>,
    decay: N::Num,
    shadow: TensorView<E::Num>,
    live: TensorView<E::Num>,
    i: int,
)
    requires
        faithful(math, r, q),
        r.holds(decay),
        0 <= i < shadow.data.len(),
        live.data.len() == shadow.data.len(),
        q.holds(shadow.data[i]),
        q.holds(live.data[i]),
    ensures
        ({
            let after = folded(math, decay, shadow, live);
            &&& after.data.len() == shadow.data.len()
            &&& q.holds(after.data[i])
            &&& q.at(after.data[i]) == r.at(decay) * q.at(shadow.data[i]) + ((1 as real) - r.at(decay)) * q.at(live.data[i])
        }),
{
    lemma_zero(&math.wide, r);
    let rest = math.wide.value(Term::Sub(one(&math.wide), decay));
    let nothing = zero(&math.wide);
    lemma_scaled(math, r, q, shadow, decay, nothing, i);
    lemma_scaled(math, r, q, live, rest, nothing, i);
    lemma_commute(q.at(shadow.data[i]), r.at(decay));
    lemma_commute(q.at(live.data[i]), (1 as real) - r.at(decay));
    let kept = math.scaled(shadow, decay, nothing).data[i];
    let fresh = math.scaled(live, rest, nothing).data[i];
    assert(folded(math, decay, shadow, live).data[i] == math.narrow.value(Term::Add(kept, fresh)));
}

/// The share that an average keeps is the configured one, or, for as long as that is less, one sample
/// more than there were over ten samples more than there were.
pub proof fn law_share_ramps_up<N: Arithmetic>(n: &N, r: Reals<N::Num>, decay: N::Num, samples: usize) -> (ramp: real)
    requires
        exact(n, r),
        r.holds(decay),
    ensures
        ({
            let share = decay_after(n, decay, samples);
            &&& r.holds(share)
            &&& ramp * ((10 as real) + (samples as real)) == (1 as real) + (samples as real)
            &&& r.at(share) == if ramp <= r.at(decay) {
                ramp
            } else {
                r.at(decay)
            }
        }),
{
    lemma_zero(n, r);
    let count = n.value(Term::Count(samples));
    let above = n.value(Term::Add(one(n), count));
    let ten = n.value(Term::Decimal(10, 0));
    assert(rpow(10 as real, 0) == 1 as real);
    assert(r.at(ten) * (1 as real) == 10 as real);
    lemma_times_zero(r.at(ten));
    let below = n.value(Term::Add(ten, count));
    assert(r.at(below) == (10 as real) + (samples as real));
    let ramp = n.value(Term::Div(above, below));
    assert(r.holds(ramp) && r.at(ramp) * r.at(below) == r.at(above));
    r.at(ramp)
}

/// A moving average keeps its share and takes the rest from the new value.
pub proof fn law_moment_takes_share<N: Arithmetic, E: Arithmetic, F: Fn(N::Num) -> E::Num>(
    math: &TensorMath<N, E, F>,
    r: Reals<N::Num>,
    q: Reals<E::Num>,
    beta: N::Num,
    average: TensorView<E::Num>,
    value: TensorView<E::Num>,
    i: int,
)
    requires
        faithful(math, r, q),
        r.holds(beta),
        0 <= i < average.data.len(),
        value.data.len() == average.data.len(),
        q.holds(average.data[i]),
        q.holds(value.data[i]),
    ensures
        ({
            let after = averaged(math, beta, average, value);
            &&& after.data.len() == average.data.len()
            &&& q.holds(after.data[i])
            &&& q.at(after.data[i]) == r.at(beta) * q.at(average.data[i]) + ((1 as real) - r.at(beta)) * q.at(value.data[i])
        }),
{
    lemma_zero(&math.wide, r);
    let rest = math.wide.value(Term::Sub(one(&math.wide), beta));
    let nothing = zero(&math.wide);
    lemma_scaled(math, r, q, average, beta, nothing, i);
    lemma_scaled(math, r, q, value, rest, nothing, i);
    lemma_commute(q.at(average.data[i]), r.at(beta));
    lemma_commute(q.at(value.data[i]), (1 as real) - r.at(beta));
    let kept = math.scaled(average, beta, nothing).data[i];
    let fresh = math.scaled(value, rest, nothing).data[i];
    assert(averaged(math, beta, average, value).data[i] == math.narrow.value(Term::Add(kept, fresh)));
}

/// A step that succeeds leaves for every weight averages that kept their shares and took the rest from
/// the gradient and from its square.
pub proof fn law_step_averages<N: Arithmetic, E: Arithmetic, F: Fn(N::Num) -> E::Num>(
    math: &TensorMath<N, E, F>,
    r: Reals<N::Num>,
    q: Reals<E::Num>,
    opt: AdamView<N::Num, E::Num>,
    model: ModelView<E::Num>,
    grads: Seq<TensorView<E::Num>>,
    w: int,
    i: int,
)
    requires
        faithful(math, r, q),
        opt.wf(),
        r.holds(opt.beta1),
        r.holds(opt.beta2),
        stepped(math, opt, model, grads).failed is None,
        0 <= w < grads.len(),
        grads[w].wf(),
        0 <= i < grads[w].data.len(),
        q.holds(opt.m[w].data[i]),
        q.holds(opt.v[w].data[i]),
        q.holds(grads[w].data[i]),
    ensures
        ({
            let after = stepped(math, opt, model, grads);
            let g = q.at(grads[w].data[i]);
            &&& q.holds(after.m[w].data[i])
            &&& q.holds(after.v[w].data[i])
            &&& q.at(after.m[w].data[i]) == r.at(opt.beta1) * q.at(opt.m[w].data[i]) + ((1 as real) - r.at(opt.beta1)) * g
            &&& q.at(after.v[w].data[i]) == r.at(opt.beta2) * q.at(opt.v[w].data[i]) + ((1 as real) - r.at(opt.beta2)) * (g
                * g)
        }),
{
    lemma_step_sets_averages(math, counted(opt), model, grads, grads.len(), w);
    let square = squared(&math.narrow, grads[w]);
    let x = grads[w].data[i];
    assert(square.data[i] == math.narrow.value(Term::Mul(x, x)));
    assert(q.holds(square.data[i]));
    assert(opt.m[w].wf() && opt.v[w].wf() && opt.m[w].dims == opt.v[w].dims);
    law_moment_takes_share(math, r, q, opt.beta1, opt.m[w], grads[w], i);
    law_moment_takes_share(math, r, q, opt.beta2, opt.v[w], square, i);
}

proof fn lemma_step_sets_averages<N: Arithmetic, E: Arithmetic, F: Fn(N::Num) -> E::Num>(
    math: &TensorMath<N, E, F>,
    opt: AdamView<N::Num, E::Num>,
    model: ModelView<E::Num>,
    grads: Seq<TensorView<E::Num>>,
    k: nat,
    w: int,
)
    requires
        stepped_up_to(math, opt, model, grads, k).failed is None,
        0 <= w < opt.m.len(),
        opt.m.len() == opt.v.len(),
        k <= opt.m.len(),
    ensures
        ({
            let after = stepped_up_to(math, opt, model, grads, k);
            &&& after.m.len() == opt.m.len()
            &&& after.v.len() == opt.v.len()
            &&& w < k ==> opt.m[w].dims == grads[w].dims
            &&& w < k ==> after.m[w] == averaged(math, opt.beta1, opt.m[w], grads[w])
            &&& w < k ==> after.v[w] == averaged(math, opt.beta2, opt.v[w], squared(&math.narrow, grads[w]))
            &&& w >= k ==> after.m[w] == opt.m[w] && after.v[w] == opt.v[w]
        }),
    decreases k,
{
    if k > 0 {
        lemma_step_sets_averages(math, opt, model, grads, (k - 1) as nat, w);
    }
}

/// A weight is moved by the learning rate times the average of the gradients over the root of the
/// average of their squares, both made up for what they lack after so many steps, and a little added to
/// the root.
pub proof fn law_weight_moves<N: Arithmetic, E: Arithmetic, F: Fn(N::Num) -> E::Num>(
    math: &TensorMath<N, E, F>,
    r: Reals<N::Num>,
    q: Reals<E::Num>,
    opt: AdamView<N::Num, E::Num>,
    param: TensorView<E::Num>,
    m: TensorView<E::Num>,
    v: TensorView<E::Num>,
    i: int,
) -> (root: real)
    requires
        faithful(math, r, q),
        r.holds(opt.lr),
        r.holds(opt.beta1),
        r.holds(opt.beta2),
        r.holds(opt.eps),
        rpow(r.at(opt.beta1), opt.t as nat) < 1 as real,
        rpow(r.at(opt.beta2), opt.t as nat) < 1 as real,
        r.at(opt.eps) > 0 as real,
        0 <= i < param.data.len(),
        m.data.len() == param.data.len(),
        v.data.len() == param.data.len(),
        q.holds(param.data[i]),
        q.holds(m.data[i]),
        q.holds(v.data[i]),
        q.at(v.data[i]) >= 0 as real,
    ensures
        ({
            let after = moved(math, opt, param, m, v).data[i];
            &&& q.holds(after)
            &&& root >= 0 as real
            &&& (root * root) * ((1 as real) - rpow(r.at(opt.beta2), opt.t as nat)) == q.at(v.data[i])
            &&& ((q.at(param.data[i]) - q.at(after)) * (root + r.at(opt.eps))) * ((1 as real) - rpow(
                r.at(opt.beta1),
                opt.t as nat,
            )) == r.at(opt.lr) * q.at(m.data[i])
        }),
{
    lemma_zero(&math.wide, r);
    let nothing = zero(&math.wide);
    let c1 = correction(&math.wide, opt.beta1, opt.t);
    let c2 = correction(&math.wide, opt.beta2, opt.t);
    let k1 = (1 as real) - rpow(r.at(opt.beta1), opt.t as nat);
    let k2 = (1 as real) - rpow(r.at(opt.beta2), opt.t as nat);
    let p1 = math.wide.value(Term::PowInt(opt.beta1, opt.t));
    let p2 = math.wide.value(Term::PowInt(opt.beta2, opt.t));
    assert(r.holds(p1) && r.holds(p2));
    assert(r.holds(c1) && r.at(c1) * k1 == 1 as real);
    assert(r.holds(c2) && r.at(c2) * k2 == 1 as real);
    let m_hat = math.scaled(m, c1, nothing);
    let v_hat = math.scaled(v, c2, nothing);
    lemma_scaled(math, r, q, m, c1, nothing, i);
    lemma_scaled(math, r, q, v, c2, nothing, i);
    let a1 = r.at(c1);
    let a2 = r.at(c2);
    let x = q.at(m.data[i]);
    let y = q.at(v.data[i]);
    let vh = q.at(v_hat.data[i]);
    lemma_commute(a2, k2);
    lemma_factor_nonnegative(k2, a2);
    lemma_product_nonnegative(y, a2);
    lemma_group(y, a2, k2);
    lemma_times_zero(y);
    assert(vh * k2 == y && vh >= 0 as real);
    let above = math.scaled(m_hat, opt.lr, nothing);
    lemma_scaled(math, r, q, m_hat, opt.lr, nothing, i);
    let l = r.at(opt.lr);
    let mh = q.at(m_hat.data[i]);
    assert(mh == x * a1 && q.at(above.data[i]) == mh * l);
    let roots = rooted(&math.narrow, v_hat);
    let root = q.at(roots.data[i]);
    assert(roots.data[i] == math.narrow.value(Term::Sqrt(v_hat.data[i])));
    assert(q.holds(roots.data[i]) && root >= 0 as real && root * root == vh);
    let below = math.scaled(roots, one(&math.wide), opt.eps);
    lemma_scaled(math, r, q, roots, one(&math.wide), opt.eps, i);
    lemma_times_zero(root);
    let d = root + r.at(opt.eps);
    assert(q.holds(below.data[i]) && q.at(below.data[i]) == d && d > 0 as real);
    let change = combined(&math.narrow, Pairing::Quotient, above, below).data[i];
    assert(change == math.narrow.value(Term::Div(above.data[i], below.data[i])));
    assert(q.holds(change) && q.at(change) * d == mh * l);
    let after = moved(math, opt, param, m, v).data[i];
    assert(after == math.narrow.value(Term::Sub(param.data[i], change)));
    assert(q.holds(after) && q.at(param.data[i]) - q.at(after) == q.at(change));
    // What the correction adds, the shortfall takes away.
    lemma_commute(mh, l);
    lemma_group(l, mh, k1);
    lemma_group(x, a1, k1);
    lemma_times_zero(x);
    assert(mh * k1 == x);
    assert((q.at(change) * d) * k1 == l * x);
    root
}

} // verus!
