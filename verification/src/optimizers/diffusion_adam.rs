//! Adam for anything with named weights, with state that outlives the process.

use vstd::prelude::*;

use crate::ema::lemma_params_wf;
use crate::numbers::{one, zero, Arithmetic, Term};
use crate::parameterized::{ModelView, Parameterized};
use crate::tensor::{
    all_wf, clash, combine, combined, contents, kinds_clash, root, rooted, same_dims, shown, square, squared, zeros_of,
    Pairing, Tensor, TensorMath, TensorView,
};
use crate::text::{same_text, views};
use crate::varstore::{StoreError, Vars};

verus! {

/// What Adam remembers of one weight.
pub struct ParamState<T> {
    /// The moving average of the gradients.
    pub m: Tensor<T>,
    /// The moving average of the squared gradients.
    pub v: Tensor<T>,
}

/// Adam over the weights of a model.
pub struct MlpAdamOptimizer<W, T> {
    /// What is remembered of each weight.
    pub states: Vec<ParamState<T>>,
    /// The names of the weights.
    pub param_names: Vec<String>,
    /// How many steps were taken.
    pub t: usize,
    /// The learning rate.
    pub lr: W,
    /// How much of the average of the gradients stays.
    pub beta1: W,
    /// How much of the average of the squared gradients stays.
    pub beta2: W,
    /// Keeps the divisor away from zero.
    pub eps: W,
}

/// Another name for the optimizer.
pub type DiffusionAdam<W, T> = MlpAdamOptimizer<W, T>;

/// What an optimizer holds.
#[verifier::ext_equal]
pub struct AdamView<W, T> {
    /// The names of the weights.
    pub names: Seq<Seq<char>>,
    /// The averages of the gradients.
    pub m: Seq<TensorView<T>>,
    /// The averages of the squared gradients.
    pub v: Seq<TensorView<T>>,
    /// How many steps were taken.
    pub t: usize,
    /// The learning rate.
    pub lr: W,
    /// How much of the average of the gradients stays.
    pub beta1: W,
    /// How much of the average of the squared gradients stays.
    pub beta2: W,
    /// Keeps the divisor away from zero.
    pub eps: W,
}

/// Why a step cannot be taken.
pub enum AdamError {
    /// There is not one name for every weight.
    NameCount {
        /// How many names there are.
        names: usize,
        /// How many weights or states there are.
        params: usize,
    },
    /// The model has more weights than the optimizer remembers, or fewer.
    StateCount {
        /// How many the optimizer remembers.
        states: usize,
        /// How many the model has.
        params: usize,
    },
    /// The model gives its weights other names than it did.
    NamesChanged,
    /// There is not one gradient for every weight.
    GradientCount {
        /// How many gradients there are.
        grads: usize,
        /// How many weights there are.
        params: usize,
    },
    /// A gradient has another shape than its weight.
    Shape {
        /// Which weight it is.
        index: usize,
    },
    /// A gradient, its weight and what is remembered of it are not made of one kind of numbers.
    Kind {
        /// Which weight it is.
        index: usize,
    },
    /// A weight cannot be written.
    Store {
        /// Which weight it is.
        index: usize,
        /// Why it cannot be written.
        error: StoreError,
    },
}

/// The averages of the gradients in a list of states.
pub open spec fn firsts<T>(states: Seq<ParamState<T>>) -> Seq<TensorView<T>> {
    states.map_values(|s: ParamState<T>| s.m@)
}

/// The averages of the squared gradients in a list of states.
pub open spec fn seconds<T>(states: Seq<ParamState<T>>) -> Seq<TensorView<T>> {
    states.map_values(|s: ParamState<T>| s.v@)
}

impl<W, T> View for MlpAdamOptimizer<W, T> {
    type V = AdamView<W, T>;

    open spec fn view(&self) -> AdamView<W, T> {
        AdamView {
            names: views(self.param_names@),
            m: firsts(self.states@),
            v: seconds(self.states@),
            t: self.t,
            lr: self.lr,
            beta1: self.beta1,
            beta2: self.beta2,
            eps: self.eps,
        }
    }
}

impl<W, T> AdamView<W, T> {
    /// Both averages of a weight have its shape.
    pub open spec fn wf(self) -> bool {
        &&& self.names.len() == self.m.len()
        &&& self.m.len() == self.v.len()
        &&& all_wf(self.m)
        &&& all_wf(self.v)
        &&& forall|i: int| 0 <= i < self.m.len() ==> (#[trigger] self.m[i]).dims == self.v[i].dims
    }
}

/// A moving average with one more value.
pub open spec fn averaged<N: Arithmetic, E: Arithmetic, F: Fn(N::Num) -> E::Num>(
    math: &TensorMath<N, E, F>,
    beta: N::Num,
    average: TensorView<E::Num>,
    value: TensorView<E::Num>,
) -> TensorView<E::Num> {
    let nothing = zero(&math.wide);
    combined(
        &math.narrow,
        Pairing::Sum,
        math.scaled(average, beta, nothing),
        math.scaled(value, math.wide.value(Term::Sub(one(&math.wide), beta)), nothing),
    )
}

/// What makes up for an average that started at zero, after `t` steps.
pub open spec fn correction<N: Arithmetic>(n: &N, beta: N::Num, t: usize) -> N::Num {
    n.value(Term::Div(one(n), n.value(Term::Sub(one(n), n.value(Term::PowInt(beta, t))))))
}

/// A weight after a step, from its new averages.
pub open spec fn moved<N: Arithmetic, E: Arithmetic, F: Fn(N::Num) -> E::Num>(
    math: &TensorMath<N, E, F>,
    opt: AdamView<N::Num, E::Num>,
    param: TensorView<E::Num>,
    m: TensorView<E::Num>,
    v: TensorView<E::Num>,
) -> TensorView<E::Num> {
    let nothing = zero(&math.wide);
    let m_hat = math.scaled(m, correction(&math.wide, opt.beta1, opt.t), nothing);
    let v_hat = math.scaled(v, correction(&math.wide, opt.beta2, opt.t), nothing);
    let above = math.scaled(m_hat, opt.lr, nothing);
    let below = math.scaled(rooted(&math.narrow, v_hat), one(&math.wide), opt.eps);
    combined(
        &math.narrow,
        Pairing::Difference,
        param,
        combined(&math.narrow, Pairing::Quotient, above, below),
    )
}

/// How far a step got.
pub struct Stepped<T> {
    /// The averages of the gradients.
    pub m: Seq<TensorView<T>>,
    /// The averages of the squared gradients.
    pub v: Seq<TensorView<T>>,
    /// The named tensors.
    pub vars: Vars<T>,
    /// What stopped the step.
    pub failed: Option<AdamError>,
}

/// Why a weight cannot be moved by its gradient: the averages, the weight and the gradient have not
/// one shape, or they have elements that are not of one kind.
pub open spec fn mismatch<T>(
    m: TensorView<T>,
    v: TensorView<T>,
    param: TensorView<T>,
    grad: TensorView<T>,
    i: usize,
) -> Option<AdamError> {
    if m.dims != grad.dims {
        Some(AdamError::Shape { index: i })
    } else if kinds_clash(grad, m) || kinds_clash(grad, v) {
        Some(AdamError::Kind { index: i })
    } else if param.dims != grad.dims {
        Some(AdamError::Shape { index: i })
    } else if kinds_clash(grad, param) {
        Some(AdamError::Kind { index: i })
    } else {
        None
    }
}

/// Why the new value of the weight in a slot cannot be written under a name. A weight without elements
/// stays the tensor in its slot, and that is not written over itself.
pub open spec fn write_refusal<T>(vars: Vars<T>, name: Seq<char>, slot: int, value: TensorView<T>) -> Option<StoreError> {
    if value.data.len() == 0 {
        vars.slot_refusal(name, slot)
    } else {
        vars.refusal(name, value)
    }
}

/// What a step has done after the first `k` weights. The counter in `opt` is the new one.
pub open spec fn stepped_up_to<N: Arithmetic, E: Arithmetic, F: Fn(N::Num) -> E::Num>(
    math: &TensorMath<N, E, F>,
    opt: AdamView<N::Num, E::Num>,
    model: ModelView<E::Num>,
    grads: Seq<TensorView<E::Num>>,
    k: nat,
) -> Stepped<E::Num>
    decreases k,
{
    if k == 0 {
        Stepped { m: opt.m, v: opt.v, vars: model.vars, failed: None }
    } else {
        let so_far = stepped_up_to(math, opt, model, grads, (k - 1) as nat);
        let i = k - 1;
        let slot = model.fields[i] as int;
        let param = so_far.vars.values[slot];
        let g = grads[i];
        if so_far.failed is Some {
            so_far
        } else if let Some(error) = mismatch(opt.m[i], opt.v[i], param, g, i as usize) {
            Stepped { failed: Some(error), ..so_far }
        } else {
            let m = averaged(math, opt.beta1, opt.m[i], g);
            let v = averaged(math, opt.beta2, opt.v[i], squared(&math.narrow, g));
            let value = moved(math, opt, param, m, v);
            match write_refusal(so_far.vars, opt.names[i], slot, value) {
                Some(error) => Stepped { failed: Some(AdamError::Store { index: i as usize, error }), ..so_far },
                None => Stepped {
                    m: so_far.m.update(i, m),
                    v: so_far.v.update(i, v),
                    vars: so_far.vars.written(opt.names[i], value),
                    failed: None,
                },
            }
        }
    }
}

/// An optimizer whose step counter was moved on.
pub open spec fn counted<W, T>(opt: AdamView<W, T>) -> AdamView<W, T> {
    AdamView { t: (opt.t + 1) as usize, ..opt }
}

/// What a step does. The counter moves on even if the step is refused.
pub open spec fn stepped<N: Arithmetic, E: Arithmetic, F: Fn(N::Num) -> E::Num>(
    math: &TensorMath<N, E, F>,
    opt: AdamView<N::Num, E::Num>,
    model: ModelView<E::Num>,
    grads: Seq<TensorView<E::Num>>,
) -> Stepped<E::Num> {
    let unchanged = Stepped { m: opt.m, v: opt.v, vars: model.vars, failed: None };
    let params = model.fields.len();
    if params != opt.m.len() {
        Stepped {
            failed: Some(AdamError::StateCount { states: opt.m.len() as usize, params: params as usize }),
            ..unchanged
        }
    } else if model.names != opt.names {
        Stepped { failed: Some(AdamError::NamesChanged), ..unchanged }
    } else if grads.len() != params {
        Stepped {
            failed: Some(AdamError::GradientCount { grads: grads.len() as usize, params: params as usize }),
            ..unchanged
        }
    } else {
        stepped_up_to(math, counted(opt), model, grads, params)
    }
}

/// Whether a step takes no square root of integers, which have none: no weight that it comes to has
/// elements, averages and a gradient that are integers.
pub open spec fn has_roots<N: Arithmetic, E: Arithmetic, F: Fn(N::Num) -> E::Num>(
    math: &TensorMath<N, E, F>,
    opt: AdamView<N::Num, E::Num>,
    model: ModelView<E::Num>,
    grads: Seq<TensorView<E::Num>>,
) -> bool {
    opt.m.len() == model.fields.len() && opt.names == model.names && grads.len() == model.fields.len() ==> forall|i: int|
        #![trigger grads[i]]
        0 <= i < grads.len() && stepped_up_to(math, counted(opt), model, grads, i as nat).failed is None
            && opt.m[i].dims == grads[i].dims && grads[i].data.len() > 0 ==> grads[i].is_float || opt.m[i].is_float
}

proof fn lemma_failure_stays<N: Arithmetic, E: Arithmetic, F: Fn(N::Num) -> E::Num>(
    math: &TensorMath<N, E, F>,
    opt: AdamView<N::Num, E::Num>,
    model: ModelView<E::Num>,
    grads: Seq<TensorView<E::Num>>,
    k: nat,
    end: nat,
)
    requires
        k <= end,
        stepped_up_to(math, opt, model, grads, k).failed is Some,
    ensures
        stepped_up_to(math, opt, model, grads, end) == stepped_up_to(math, opt, model, grads, k),
    decreases end,
{
    if k < end {
        lemma_failure_stays(math, opt, model, grads, k, (end - 1) as nat);
    }
}

fn average<N: Arithmetic, E: Arithmetic, F: Fn(N::Num) -> E::Num>(
    math: &TensorMath<N, E, F>,
    beta: N::Num,
    old_average: &Tensor<E::Num>,
    value: &Tensor<E::Num>,
) -> (r: Tensor<E::Num>)
    requires
        math.wf(),
        old_average@.data.len() == value@.data.len(),
    ensures
        r@ == averaged(math, beta, old_average@, value@),
{
    let nothing = math.wide.eval(Term::Decimal(0, 0));
    let rest = math.wide.eval(Term::Sub(math.wide.eval(Term::Decimal(1, 0)), beta));
    let kept = math.affine(old_average, beta, nothing);
    let added = math.affine(value, rest, nothing);
    combine(&math.narrow, Pairing::Sum, &kept, &added)
}

fn correct<N: Arithmetic>(n: &N, beta: N::Num, t: usize) -> (r: N::Num)
    requires
        n.wf(),
    ensures
        r == correction(n, beta, t),
{
    let unit = n.eval(Term::Decimal(1, 0));
    n.eval(Term::Div(unit, n.eval(Term::Sub(unit, n.eval(Term::PowInt(beta, t))))))
}

fn same_names(a: &Vec<String>, b: &Vec<String>) -> (r: bool)
    ensures
        r == (views(a@) == views(b@)),
{
    assert(views(a@).len() == a@.len() && views(b@).len() == b@.len());
    if a.len() != b.len() {
        return false;
    }
    let mut i: usize = 0;
    while i < a.len()
        invariant
            i <= a@.len(),
            a@.len() == b@.len(),
            forall|k: int| 0 <= k < i ==> #[trigger] views(a@)[k] == views(b@)[k],
        decreases a@.len() - i,
    {
        assert(views(a@)[i as int] == a@[i as int]@ && views(b@)[i as int] == b@[i as int]@);
        if !same_text(a[i].as_str(), b[i].as_str()) {
            return false;
        }
        i += 1;
    }
    assert(views(a@) =~= views(b@));
    true
}

fn check<T>(state: &ParamState<T>, param: &Tensor<T>, grad: &Tensor<T>, i: usize) -> (r: Option<AdamError>)
    ensures
        r == mismatch(state.m@, state.v@, param@, grad@, i),
{
    if !same_dims(&state.m.dims, &grad.dims) {
        Some(AdamError::Shape { index: i })
    } else if clash(grad, &state.m) || clash(grad, &state.v) {
        Some(AdamError::Kind { index: i })
    } else if !same_dims(&param.dims, &grad.dims) {
        Some(AdamError::Shape { index: i })
    } else if clash(grad, param) {
        Some(AdamError::Kind { index: i })
    } else {
        None
    }
}

impl<W: Copy, T: Copy> MlpAdamOptimizer<W, T> {
    /// An optimizer for the weights of a model, with no history.
    pub fn new<N: Arithmetic<Num = W>, E: Arithmetic<Num = T>, F: Fn(W) -> T, P: Parameterized<Num = T>>(
        math: &TensorMath<N, E, F>,
        model: &P,
        lr: W,
    ) -> (r: Result<Self, AdamError>)
        requires
            math.wf(),
            model.model().wf(),
        ensures
            match r {
                Ok(opt) => {
                    let zeros = model.model().params().map_values(|p: TensorView<T>| zeros_of(&math.narrow, p));
                    &&& model.model().names.len() == model.model().fields.len()
                    &&& opt@.wf()
                    &&& opt@ == (AdamView {
                        names: model.model().names,
                        m: zeros,
                        v: zeros,
                        t: 0,
                        lr,
                        beta1: math.wide.value(Term::Decimal(9, 1)),
                        beta2: math.wide.value(Term::Decimal(999, 3)),
                        eps: math.wide.value(Term::Decimal(1, 8)),
                    })
                },
                Err(e) => {
                    &&& model.model().names.len() != model.model().fields.len()
                    &&& e == (AdamError::NameCount {
                        names: model.model().names.len() as usize,
                        params: model.model().fields.len() as usize,
                    })
                },
            },
    {
        let params = model.params();
        let param_names = model.param_names();
        let ghost live = model.model().params();
        let ghost zeros = live.map_values(|p: TensorView<T>| zeros_of(&math.narrow, p));
        assert(shown(params@).len() == params@.len() && views(param_names@).len() == param_names@.len());
        if param_names.len() != params.len() {
            return Err(AdamError::NameCount { names: param_names.len(), params: params.len() });
        }
        proof {
            lemma_params_wf(model.model());
        }
        let mut states: Vec<ParamState<T>> = Vec::new();
        let mut i: usize = 0;
        assert(firsts(states@) =~= zeros.take(0));
        assert(seconds(states@) =~= zeros.take(0));
        while i < params.len()
            invariant
                math.wf(),
                i <= params@.len(),
                live == shown(params@),
                all_wf(live),
                zeros == live.map_values(|p: TensorView<T>| zeros_of(&math.narrow, p)),
                firsts(states@) == zeros.take(i as int),
                seconds(states@) == zeros.take(i as int),
            decreases params@.len() - i,
        {
            let ghost before = states@;
            assert(live[i as int] == params@[i as int]@);
            let m = params[i].zeros_like(&math.narrow);
            let v = params[i].zeros_like(&math.narrow);
            states.push(ParamState { m, v });
            assert(firsts(states@) =~= firsts(before).push(m@));
            assert(seconds(states@) =~= seconds(before).push(v@));
            i += 1;
            assert(firsts(states@) =~= zeros.take(i as int));
            assert(seconds(states@) =~= zeros.take(i as int));
        }
        assert(zeros.take(i as int) =~= zeros);
        assert forall|k: int| 0 <= k < zeros.len() implies (#[trigger] zeros[k]).wf() by {
            assert(live[k].wf());
        }
        Ok(
            MlpAdamOptimizer {
                states,
                param_names,
                t: 0,
                lr,
                beta1: math.wide.eval(Term::Decimal(9, 1)),
                beta2: math.wide.eval(Term::Decimal(999, 3)),
                eps: math.wide.eval(Term::Decimal(1, 8)),
            },
        )
    }

    fn move_param<N: Arithmetic<Num = W>, E: Arithmetic<Num = T>, F: Fn(W) -> T>(
        &self,
        math: &TensorMath<N, E, F>,
        param: &Tensor<T>,
        m: &Tensor<T>,
        v: &Tensor<T>,
    ) -> (r: Tensor<T>)
        requires
            math.wf(),
            m@.data.len() == v@.data.len(),
            param@.data.len() == m@.data.len(),
        ensures
            r@ == moved(math, self@, param@, m@, v@),
    {
        let nothing = math.wide.eval(Term::Decimal(0, 0));
        let unit = math.wide.eval(Term::Decimal(1, 0));
        let m_hat = math.affine(m, correct(&math.wide, self.beta1, self.t), nothing);
        let v_hat = math.affine(v, correct(&math.wide, self.beta2, self.t), nothing);
        let above = math.affine(&m_hat, self.lr, nothing);
        let below = math.affine(&root(&math.narrow, &v_hat), unit, self.eps);
        let update = combine(&math.narrow, Pairing::Quotient, &above, &below);
        combine(&math.narrow, Pairing::Difference, param, &update)
    }

    /// Moves every weight of a model by its gradient.
    pub fn step<N: Arithmetic<Num = W>, E: Arithmetic<Num = T>, F: Fn(W) -> T, P: Parameterized<Num = T>>(
        &mut self,
        math: &TensorMath<N, E, F>,
        model: &mut P,
        grads: &Vec<Tensor<T>>,
    ) -> (r: Result<(), AdamError>)
        requires
            math.wf(),
            old(self)@.wf(),
            old(model).model().wf(),
            all_wf(contents(grads@)),
            old(self).t < usize::MAX,
            has_roots(math, old(self)@, old(model).model(), contents(grads@)),
        ensures
            final(self)@.wf(),
            final(model).model().wf(),
            ({
                let s = stepped(math, old(self)@, old(model).model(), contents(grads@));
                &&& final(self)@ == (AdamView { m: s.m, v: s.v, ..counted(old(self)@) })
                &&& final(model).model() == old(model).model().with(s.vars)
                &&& match r {
                    Ok(_) => s.failed is None,
                    Err(e) => s.failed == Some(e),
                }
            }),
    {
        let ghost start = self@;
        let ghost origin = model.model();
        let ghost all = contents(grads@);
        self.t = self.t + 1;
        let ghost opt = counted(start);
        assert(self@ =~= opt);
        let count: usize = model.param_count();
        assert(firsts(self.states@).len() == self.states@.len());
        if count != self.states.len() {
            return Err(AdamError::StateCount { states: self.states.len(), params: count });
        }
        let current_names = model.param_names();
        if !same_names(&current_names, &self.param_names) {
            return Err(AdamError::NamesChanged);
        }
        assert(all.len() == grads@.len());
        if grads.len() != count {
            return Err(AdamError::GradientCount { grads: grads.len(), params: count });
        }
        let mut i: usize = 0;
        while i < count
            invariant
                math.wf(),
                i <= count,
                start == old(self)@,
                origin == old(model).model(),
                all == contents(grads@),
                all_wf(all),
                start.wf(),
                opt == counted(start),
                origin.wf(),
                count == origin.fields.len(),
                count == opt.m.len(),
                count == grads@.len(),
                origin.names == opt.names,
                stepped(math, start, origin, all) == stepped_up_to(math, opt, origin, all, count as nat),
                stepped_up_to(math, opt, origin, all, i as nat).failed is None,
                model.model().wf(),
                model.model() == origin.with(stepped_up_to(math, opt, origin, all, i as nat).vars),
                self@ == (AdamView {
                    m: stepped_up_to(math, opt, origin, all, i as nat).m,
                    v: stepped_up_to(math, opt, origin, all, i as nat).v,
                    ..opt
                }),
                self@.wf(),
                self.states@.len() == count,
                forall|k: int| i <= k < count ==> #[trigger] self@.m[k] == opt.m[k] && self@.v[k] == opt.v[k],
            decreases count - i,
        {
            let ghost so_far = stepped_up_to(math, opt, origin, all, i as nat);
            let ghost next = stepped_up_to(math, opt, origin, all, (i + 1) as nat);
            let ghost before = self@;
            assert(all[i as int] == grads@[i as int]@ && all[i as int].wf());
            assert(before.m[i as int] == self.states@[i as int].m@ && before.v[i as int] == self.states@[i as int].v@);
            assert(before.m[i as int].wf() && before.v[i as int].wf());
            assert(before.m[i as int].dims == before.v[i as int].dims);
            assert(before.m[i as int] == opt.m[i as int] && before.v[i as int] == opt.v[i as int]);
            proof {
                lemma_params_wf(model.model());
                assert(model.model().params()[i as int].wf());
                assert(origin.fields[i as int] < origin.vars.names.len());
            }
            let slot: usize = model.field(i);
            let param = model.param(i);
            assert(param@ == so_far.vars.values[slot as int]);
            let refused = check(&self.states[i], param, &grads[i], i);
            if let Some(error) = refused {
                proof {
                    lemma_failure_stays(math, opt, origin, all, (i + 1) as nat, count as nat);
                }
                return Err(error);
            }
            let m_new = average(math, self.beta1, &self.states[i].m, &grads[i]);
            let grad_sq = square(&math.narrow, &grads[i]);
            let v_new = average(math, self.beta2, &self.states[i].v, &grad_sq);
            let value = self.move_param(math, param, &m_new, &v_new);
            assert(value@ == moved(math, opt, param@, m_new@, v_new@));
            let name = self.param_names[i].as_str();
            assert(views(self.param_names@)[i as int] == self.param_names@[i as int]@);
            let written = if value.data.len() == 0 {
                assert(value@.data =~= param@.data);
                model.set_param_from_slot(name, slot)
            } else {
                model.set_param(name, &value)
            };
            match written {
                Ok(_) => {},
                Err(error) => {
                    proof {
                        lemma_failure_stays(math, opt, origin, all, (i + 1) as nat, count as nat);
                    }
                    return Err(AdamError::Store { index: i, error });
                },
            }
            self.states[i] = ParamState { m: m_new, v: v_new };
            proof {
                assert(firsts(self.states@) =~= before.m.update(i as int, m_new@));
                assert(seconds(self.states@) =~= before.v.update(i as int, v_new@));
                assert(next.m == before.m.update(i as int, m_new@));
                assert(self@ =~= (AdamView { m: next.m, v: next.v, ..opt }));
                assert forall|k: int| 0 <= k < count implies (#[trigger] self@.m[k]).wf() && self@.m[k].dims
                    == self@.v[k].dims by {
                    if k != i {
                        assert(before.m[k].wf() && before.m[k].dims == before.v[k].dims);
                    }
                }
                assert forall|k: int| i + 1 <= k < count implies #[trigger] self@.m[k] == opt.m[k] && self@.v[k]
                    == opt.v[k] by {
                    assert(before.m[k] == opt.m[k] && before.v[k] == opt.v[k]);
                }
                assert forall|k: int| 0 <= k < count implies (#[trigger] self@.v[k]).wf() by {
                    if k != i {
                        assert(before.v[k].wf());
                    }
                }
            }
            i += 1;
        }
        Ok(())
    }
}

} // verus!
