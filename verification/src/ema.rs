//! Smoothed copies of trainable weights.

use vstd::prelude::*;

use crate::numbers::{one, zero, Arithmetic, Term};
use crate::parameterized::{ModelView, NameCount, Parameterized};
use crate::tensor::{
    all_wf, clash, combine, combined, contents, copy_all, kinds_clash, same_dims, shown, Pairing, Tensor, TensorMath,
    TensorView,
};
use crate::text::views;
use crate::varstore::{StoreError, Vars};

verus! {

/// A moving average of the weights of a model.
pub struct Ema<W, T> {
    /// The share of the old average that stays, in the long run.
    pub decay: W,
    /// How many times the weights were folded in.
    pub num_samples: usize,
    /// The averages.
    pub shadow_params: Vec<Tensor<T>>,
    /// The weights that were put aside.
    pub backup: Option<Vec<Tensor<T>>>,
}

/// Why an average cannot be kept or used.
pub enum EmaError {
    /// There are no weights.
    NoParameters,
    /// A weight is not made of floating-point numbers.
    NotFloat,
    /// There are more weights than there were, or fewer.
    CountMismatch {
        /// How many there were.
        expected: usize,
        /// How many there are.
        got: usize,
    },
    /// A weight has another shape than it had.
    DimensionMismatch {
        /// Which weight it is.
        index: usize,
    },
    /// A weight is made of another kind of numbers than it was.
    KindMismatch {
        /// Which weight it is.
        index: usize,
    },
    /// Nothing was put aside.
    NoBackup,
    /// There is not one name for every weight.
    Names(NameCount),
    /// A weight cannot be written.
    Store {
        /// Which weight it is.
        index: usize,
        /// Why it cannot be written.
        error: StoreError,
    },
}

/// Whether all tensors are made of floating-point numbers.
pub open spec fn all_float<T>(list: Seq<TensorView<T>>) -> bool {
    forall|i: int| 0 <= i < list.len() ==> (#[trigger] list[i]).is_float
}

/// Why weight `i` cannot be folded into its average.
pub open spec fn fold_refusal<T>(shadow: TensorView<T>, live: TensorView<T>, i: nat) -> Option<EmaError> {
    if shadow.dims != live.dims {
        Some(EmaError::DimensionMismatch { index: i as usize })
    } else if kinds_clash(shadow, live) {
        Some(EmaError::KindMismatch { index: i as usize })
    } else {
        None
    }
}

/// The place of the first weight, `from` or later, that cannot be folded into its average; the number
/// of averages if there is none.
pub open spec fn first_mismatch<T>(shadows: Seq<TensorView<T>>, live: Seq<TensorView<T>>, from: nat) -> nat
    decreases shadows.len() - from,
{
    if from >= shadows.len() {
        shadows.len()
    } else if fold_refusal(shadows[from as int], live[from as int], from) is Some {
        from
    } else {
        first_mismatch(shadows, live, from + 1)
    }
}

/// The share of the old average that stays after so many samples: little at first, the configured
/// share in the long run.
pub open spec fn decay_after<N: Arithmetic>(n: &N, decay: N::Num, samples: usize) -> N::Num {
    let count = n.value(Term::Count(samples));
    let ramp = n.value(
        Term::Div(n.value(Term::Add(one(n), count)), n.value(Term::Add(n.value(Term::Decimal(10, 0)), count))),
    );
    n.value(Term::Min(ramp, decay))
}

/// An average with a weight folded in.
pub open spec fn folded<N: Arithmetic, E: Arithmetic, F: Fn(N::Num) -> E::Num>(
    math: &TensorMath<N, E, F>,
    decay: N::Num,
    shadow: TensorView<E::Num>,
    live: TensorView<E::Num>,
) -> TensorView<E::Num> {
    let nothing = zero(&math.wide);
    combined(
        &math.narrow,
        Pairing::Sum,
        math.scaled(shadow, decay, nothing),
        math.scaled(live, math.wide.value(Term::Sub(one(&math.wide), decay)), nothing),
    )
}

/// The averages with the first `k` weights folded in.
pub open spec fn folded_up_to<N: Arithmetic, E: Arithmetic, F: Fn(N::Num) -> E::Num>(
    math: &TensorMath<N, E, F>,
    decay: N::Num,
    shadows: Seq<TensorView<E::Num>>,
    live: Seq<TensorView<E::Num>>,
    k: nat,
) -> Seq<TensorView<E::Num>> {
    Seq::new(
        shadows.len(),
        |i: int|
            if i < k {
                folded(math, decay, shadows[i], live[i])
            } else {
                shadows[i]
            },
    )
}

proof fn lemma_folded_floats<N: Arithmetic, E: Arithmetic, F: Fn(N::Num) -> E::Num>(
    math: &TensorMath<N, E, F>,
    decay: N::Num,
    shadows: Seq<TensorView<E::Num>>,
    live: Seq<TensorView<E::Num>>,
    k: nat,
)
    requires
        all_float(shadows),
    ensures
        all_float(folded_up_to(math, decay, shadows, live, k)),
{
    let after = folded_up_to(math, decay, shadows, live, k);
    assert forall|i: int| 0 <= i < after.len() implies (#[trigger] after[i]).is_float by {
        assert(shadows[i].is_float);
    }
}

/// How far the writing of weights got.
pub struct Written<T> {
    /// The tensors as they are now.
    pub vars: Vars<T>,
    /// What stopped the writing.
    pub failed: Option<EmaError>,
}

/// What became of writing the first `k` of `saved` under the names of a model.
pub open spec fn written_up_to<T>(model: ModelView<T>, saved: Seq<TensorView<T>>, k: nat) -> Written<T>
    decreases k,
{
    if k == 0 {
        Written { vars: model.vars, failed: None }
    } else {
        let so_far = written_up_to(model, saved, (k - 1) as nat);
        let i = k - 1;
        if so_far.failed is Some {
            so_far
        } else if model.params()[i].dims != saved[i].dims {
            Written { vars: so_far.vars, failed: Some(EmaError::DimensionMismatch { index: i as usize }) }
        } else {
            match so_far.vars.refusal(model.names[i], saved[i]) {
                Some(error) => Written {
                    vars: so_far.vars,
                    failed: Some(EmaError::Store { index: i as usize, error }),
                },
                None => Written { vars: so_far.vars.written(model.names[i], saved[i]), failed: None },
            }
        }
    }
}

/// What became of writing all of `saved` into a model.
pub open spec fn written_into<T>(model: ModelView<T>, saved: Seq<TensorView<T>>) -> Written<T> {
    if model.names.len() != model.fields.len() {
        Written {
            vars: model.vars,
            failed: Some(
                EmaError::Names(
                    NameCount { names: model.names.len() as usize, params: model.fields.len() as usize },
                ),
            ),
        }
    } else if model.names.len() != saved.len() {
        Written {
            vars: model.vars,
            failed: Some(
                EmaError::CountMismatch { expected: saved.len() as usize, got: model.names.len() as usize },
            ),
        }
    } else {
        written_up_to(model, saved, saved.len())
    }
}

proof fn lemma_failure_stays<T>(model: ModelView<T>, saved: Seq<TensorView<T>>, k: nat, end: nat)
    requires
        k <= end,
        written_up_to(model, saved, k).failed is Some,
    ensures
        written_up_to(model, saved, end) == written_up_to(model, saved, k),
    decreases end,
{
    if k < end {
        lemma_failure_stays(model, saved, k, (end - 1) as nat);
    }
}

proof fn lemma_writing_keeps_dims<T>(model: ModelView<T>, saved: Seq<TensorView<T>>, k: nat)
    requires
        model.wf(),
    ensures
        same_layout(written_up_to(model, saved, k).vars, model.vars),
    decreases k,
{
    if k > 0 {
        lemma_writing_keeps_dims(model, saved, (k - 1) as nat);
        let before = written_up_to(model, saved, (k - 1) as nat).vars;
        let name = model.names[k - 1];
        if before.slot(name) is Some {
            let slot = before.slot(name)->0;
            assert(0 <= slot < before.names.len());
            assert(before.values[slot].dims == model.vars.values[slot].dims);
        }
    }
}

fn write_into<P: Parameterized>(target: &mut P, saved: &Vec<Tensor<P::Num>>) -> (r: Result<(), EmaError>)
    requires
        old(target).model().wf(),
        all_wf(contents(saved@)),
    ensures
        ({
            let w = written_into(old(target).model(), contents(saved@));
            &&& final(target).model() == old(target).model().with(w.vars)
            &&& final(target).model().wf()
            &&& match r {
                Ok(_) => w.failed is None,
                Err(e) => w.failed == Some(e),
            }
        }),
{
    let ghost start = target.model();
    let ghost all = contents(saved@);
    let count: usize = match target.named_params() {
        Ok(list) => list.len(),
        Err(count) => {
            return Err(EmaError::Names(count));
        },
    };
    if count != saved.len() {
        return Err(EmaError::CountMismatch { expected: saved.len(), got: count });
    }
    let names = target.param_names();
    assert(views(names@).len() == names@.len());
    let mut i: usize = 0;
    while i < count
        invariant
            i <= count,
            count == saved@.len(),
            count == names@.len(),
            views(names@) == start.names,
            all == contents(saved@),
            all_wf(all),
            start.wf(),
            start.names.len() == start.fields.len(),
            start.names.len() == count,
            target.model().wf(),
            target.model() == start.with(written_up_to(start, all, i as nat).vars),
            written_up_to(start, all, i as nat).failed is None,
            start == old(target).model(),
        decreases count - i,
    {
        assert(all[i as int] == saved@[i as int]@ && all[i as int].wf());
        assert(views(names@)[i as int] == names@[i as int]@);
        proof {
            lemma_writing_keeps_dims(start, all, i as nat);
            assert(start.fields[i as int] < start.vars.names.len());
        }
        if !same_dims(&target.param(i).dims, &saved[i].dims) {
            proof {
                lemma_failure_stays(start, all, (i + 1) as nat, all.len());
            }
            return Err(EmaError::DimensionMismatch { index: i });
        }
        match target.set_param(names[i].as_str(), &saved[i]) {
            Ok(_) => {},
            Err(error) => {
                proof {
                    lemma_failure_stays(start, all, (i + 1) as nat, all.len());
                }
                return Err(EmaError::Store { index: i, error });
            },
        }
        i += 1;
    }
    Ok(())
}

impl<W: Copy, T: Copy> Ema<W, T> {
    /// All averages, and the weights that were put aside, fit their shapes, and the averages are made
    /// of floating-point numbers.
    pub open spec fn wf(&self) -> bool {
        &&& all_wf(contents(self.shadow_params@))
        &&& all_float(contents(self.shadow_params@))
        &&& match self.backup {
            Some(b) => all_wf(contents(b@)),
            None => true,
        }
    }

    /// What was put aside.
    pub open spec fn saved(&self) -> Option<Seq<TensorView<T>>> {
        match self.backup {
            Some(b) => Some(contents(b@)),
            None => None,
        }
    }

    /// Starts an average at the weights of a model.
    pub fn new<P: Parameterized<Num = T>>(target: &P, decay: W) -> (r: Result<Self, EmaError>)
        requires
            target.model().wf(),
        ensures
            match r {
                Ok(ema) => {
                    &&& target.model().fields.len() > 0
                    &&& all_float(target.model().params())
                    &&& ema.wf()
                    &&& ema.decay == decay
                    &&& ema.num_samples == 0
                    &&& contents(ema.shadow_params@) == target.model().params()
                    &&& ema.saved() is None
                },
                Err(e) => {
                    ||| e is NoParameters && target.model().fields.len() == 0
                    ||| e is NotFloat && target.model().fields.len() > 0 && !all_float(target.model().params())
                },
            },
    {
        let params = target.params();
        assert(shown(params@).len() == params@.len());
        if params.len() == 0 {
            return Err(EmaError::NoParameters);
        }
        let mut i: usize = 0;
        while i < params.len()
            invariant
                i <= params@.len(),
                shown(params@) == target.model().params(),
                params@.len() > 0,
                forall|k: int| 0 <= k < i ==> (#[trigger] shown(params@)[k]).is_float,
            decreases params@.len() - i,
        {
            assert(shown(params@)[i as int] == params@[i as int]@);
            if !params[i].is_float {
                assert(!target.model().params()[i as int].is_float);
                assert(shown(params@).len() == params@.len());
                return Err(EmaError::NotFloat);
            }
            i += 1;
        }
        proof {
            lemma_params_wf(target.model());
        }
        Ok(Ema { decay, num_samples: 0, shadow_params: copy_all(&params), backup: None })
    }

    /// The share of the old average that stays at the next update.
    pub fn effective_decay<N: Arithmetic<Num = W>>(&self, n: &N) -> (r: W)
        requires
            n.wf(),
        ensures
            r == decay_after(n, self.decay, self.num_samples),
    {
        let count = n.eval(Term::Count(self.num_samples));
        let above = n.eval(Term::Add(n.eval(Term::Decimal(1, 0)), count));
        let below = n.eval(Term::Add(n.eval(Term::Decimal(10, 0)), count));
        n.eval(Term::Min(n.eval(Term::Div(above, below)), self.decay))
    }

    /// Folds the weights of a model into the averages.
    pub fn update<N: Arithmetic<Num = W>, E: Arithmetic<Num = T>, F: Fn(W) -> T, P: Parameterized<Num = T>>(
        &mut self,
        math: &TensorMath<N, E, F>,
        target: &P,
    ) -> (r: Result<(), EmaError>)
        requires
            math.wf(),
            old(self).wf(),
            target.model().wf(),
            old(self).num_samples < usize::MAX,
        ensures
            final(self).wf(),
            final(self).decay == old(self).decay,
            final(self).backup == old(self).backup,
            ({
                let shadows = contents(old(self).shadow_params@);
                let live = target.model().params();
                let decay = decay_after(&math.wide, old(self).decay, old(self).num_samples);
                let stop = first_mismatch(shadows, live, 0);
                if shadows.len() != live.len() {
                    &&& r == Err::<(), EmaError>(
                        EmaError::CountMismatch { expected: shadows.len() as usize, got: live.len() as usize },
                    )
                    &&& contents(final(self).shadow_params@) == shadows
                    &&& final(self).num_samples == old(self).num_samples
                } else if stop < shadows.len() {
                    &&& r == Err::<(), EmaError>(fold_refusal(shadows[stop as int], live[stop as int], stop)->0)
                    &&& contents(final(self).shadow_params@) == folded_up_to(math, decay, shadows, live, stop)
                    &&& final(self).num_samples == old(self).num_samples
                } else {
                    &&& r is Ok
                    &&& contents(final(self).shadow_params@) == folded_up_to(
                        math,
                        decay,
                        shadows,
                        live,
                        shadows.len(),
                    )
                    &&& final(self).num_samples == old(self).num_samples + 1
                }
            }),
    {
        let ghost shadows = contents(self.shadow_params@);
        let ghost live = target.model().params();
        let params = target.params();
        assert(shown(params@).len() == params@.len());
        if params.len() != self.shadow_params.len() {
            return Err(EmaError::CountMismatch { expected: self.shadow_params.len(), got: params.len() });
        }
        proof {
            lemma_params_wf(target.model());
        }
        let decay = self.effective_decay(&math.wide);
        let nothing = math.wide.eval(Term::Decimal(0, 0));
        let rest = math.wide.eval(Term::Sub(math.wide.eval(Term::Decimal(1, 0)), decay));
        let mut i: usize = 0;
        assert(contents(self.shadow_params@) =~= folded_up_to(math, decay, shadows, live, 0));
        while i < self.shadow_params.len()
            invariant
                math.wf(),
                i <= self.shadow_params@.len(),
                self.shadow_params@.len() == shadows.len(),
                params@.len() == shadows.len(),
                live == shown(params@),
                shadows == contents(old(self).shadow_params@),
                all_wf(shadows),
                all_wf(live),
                live == target.model().params(),
                old(self).wf(),
                decay == decay_after(&math.wide, old(self).decay, old(self).num_samples),
                nothing == zero(&math.wide),
                rest == math.wide.value(Term::Sub(one(&math.wide), decay)),
                self.decay == old(self).decay,
                self.backup == old(self).backup,
                self.num_samples == old(self).num_samples,
                contents(self.shadow_params@) == folded_up_to(math, decay, shadows, live, i as nat),
                all_wf(contents(self.shadow_params@)),
                all_float(shadows),
                first_mismatch(shadows, live, 0) == first_mismatch(shadows, live, i as nat),
            decreases self.shadow_params@.len() - i,
        {
            let ghost before = contents(self.shadow_params@);
            assert(before[i as int] == self.shadow_params@[i as int]@);
            assert(before[i as int] == shadows[i as int]);
            assert(live[i as int] == params@[i as int]@);
            assert(shadows[i as int].wf() && live[i as int].wf());
            if !same_dims(&self.shadow_params[i].dims, &params[i].dims) {
                proof {
                    lemma_folded_floats(math, decay, shadows, live, i as nat);
                }
                return Err(EmaError::DimensionMismatch { index: i });
            }
            if clash(&self.shadow_params[i], params[i]) {
                proof {
                    lemma_folded_floats(math, decay, shadows, live, i as nat);
                }
                return Err(EmaError::KindMismatch { index: i });
            }
            let old_part = math.affine(&self.shadow_params[i], decay, nothing);
            let new_part = math.affine(params[i], rest, nothing);
            let updated = combine(&math.narrow, Pairing::Sum, &old_part, &new_part);
            self.shadow_params[i] = updated;
            proof {
                let after = contents(self.shadow_params@);
                let goal = folded_up_to(math, decay, shadows, live, (i + 1) as nat);
                assert(after =~= before.update(i as int, updated@));
                assert(updated@ == folded(math, decay, shadows[i as int], live[i as int]));
                assert(after =~= goal);
                assert forall|k: int| 0 <= k < after.len() implies (#[trigger] after[k]).wf() by {
                    if k != i {
                        assert(before[k].wf());
                    }
                }
            }
            i += 1;
        }
        proof {
            lemma_folded_floats(math, decay, shadows, live, i as nat);
        }
        self.num_samples = self.num_samples + 1;
        Ok(())
    }

    /// Puts the weights of a model aside.
    pub fn store<P: Parameterized<Num = T>>(&mut self, target: &P) -> (r: Result<(), EmaError>)
        requires
            old(self).wf(),
            target.model().wf(),
        ensures
            final(self).wf(),
            final(self).decay == old(self).decay,
            final(self).num_samples == old(self).num_samples,
            final(self).shadow_params == old(self).shadow_params,
            final(self).saved() == Some(target.model().params()),
            r is Ok,
    {
        proof {
            lemma_params_wf(target.model());
        }
        self.backup = Some(copy_all(&target.params()));
        Ok(())
    }

    /// Puts back the weights that were put aside. They are not kept, whether this succeeds or not.
    pub fn restore<P: Parameterized<Num = T>>(&mut self, target: &mut P) -> (r: Result<(), EmaError>)
        requires
            old(self).wf(),
            old(target).model().wf(),
        ensures
            final(self).wf(),
            final(self).decay == old(self).decay,
            final(self).num_samples == old(self).num_samples,
            final(self).shadow_params == old(self).shadow_params,
            final(self).saved() is None,
            final(target).model().wf(),
            match old(self).saved() {
                None => {
                    &&& r == Err::<(), EmaError>(EmaError::NoBackup)
                    &&& final(target).model() == old(target).model()
                },
                Some(saved) => {
                    let w = written_into(old(target).model(), saved);
                    &&& final(target).model() == old(target).model().with(w.vars)
                    &&& match r {
                        Ok(_) => w.failed is None,
                        Err(e) => w.failed == Some(e),
                    }
                },
            },
    {
        match self.backup.take() {
            None => Err(EmaError::NoBackup),
            Some(saved) => write_into(target, &saved),
        }
    }

    /// Writes the averages into a model.
    pub fn copy_to_model<P: Parameterized<Num = T>>(&self, target: &mut P) -> (r: Result<(), EmaError>)
        requires
            self.wf(),
            old(target).model().wf(),
        ensures
            final(target).model().wf(),
            ({
                let w = written_into(old(target).model(), contents(self.shadow_params@));
                &&& final(target).model() == old(target).model().with(w.vars)
                &&& match r {
                    Ok(_) => w.failed is None,
                    Err(e) => w.failed == Some(e),
                }
            }),
    {
        write_into(target, &self.shadow_params)
    }
}

/// Weights fit their shapes.
pub proof fn lemma_params_wf<T>(model: ModelView<T>)
    requires
        model.wf(),
    ensures
        all_wf(model.params()),
{
    assert forall|i: int| 0 <= i < model.params().len() implies (#[trigger] model.params()[i]).wf() by {
        assert(model.fields[i] < model.vars.names.len());
        assert(model.vars.values[model.fields[i] as int].wf());
    }
}

/// Whether one store has the names, shapes and kinds of numbers of another.
pub open spec fn same_layout<T>(a: Vars<T>, b: Vars<T>) -> bool {
    &&& a.names == b.names
    &&& a.values.len() == b.values.len()
    &&& forall|i: int|
        0 <= i < a.values.len() ==> (#[trigger] a.values[i]).dims == b.values[i].dims && a.values[i].is_float
            == b.values[i].is_float
}

/// Whether a weight lives in a slot.
pub open spec fn lives_in(fields: Seq<usize>, slot: int) -> bool {
    exists|j: int| 0 <= j < fields.len() && #[trigger] fields[j] == slot
}

proof fn lemma_writing_keeps_layout<T>(model: ModelView<T>, saved: Seq<TensorView<T>>, k: nat)
    requires
        model.wf(),
        model.aligned(),
        all_wf(saved),
        k <= saved.len(),
        k <= model.fields.len(),
    ensures
        ({
            let w = written_up_to(model, saved, k).vars;
            &&& w.wf()
            &&& same_layout(w, model.vars)
            &&& forall|s: int|
                0 <= s < w.values.len() && !lives_in(model.fields, s) ==> #[trigger] w.values[s]
                    == model.vars.values[s]
        }),
    decreases k,
{
    if k > 0 {
        lemma_writing_keeps_layout(model, saved, (k - 1) as nat);
        let before = written_up_to(model, saved, (k - 1) as nat).vars;
        let after = written_up_to(model, saved, k).vars;
        let i = k - 1;
        let name = model.names[i];
        let slot = model.fields[i] as int;
        assert(model.vars.slot(name) == Some(slot));
        assert(before.slot(name) == Some(slot));
        assert(0 <= slot < before.names.len());
        assert(lives_in(model.fields, slot));
        if after != before {
            assert(after == before.replaced(slot, saved[i]));
            assert(saved[i].wf());
            assert forall|s: int| 0 <= s < after.values.len() implies (#[trigger] after.values[s]).wf() by {
                if s != slot {
                    assert(before.values[s].wf());
                }
            }
            assert forall|s: int| 0 <= s < after.values.len() implies (#[trigger] after.values[s]).dims
                == model.vars.values[s].dims && after.values[s].is_float == model.vars.values[s].is_float by {
                if s != slot {
                    assert(before.values[s].dims == model.vars.values[s].dims);
                } else {
                    assert(before.values[slot].dims == saved[i].dims);
                }
            }
        }
    }
}

proof fn lemma_writing_back<T>(model: ModelView<T>, origin: Vars<T>, k: nat)
    requires
        model.wf(),
        model.aligned(),
        origin.wf(),
        same_layout(model.vars, origin),
        k <= model.fields.len(),
    ensures
        ({
            let saved = model.with(origin).params();
            let w = written_up_to(model, saved, k);
            &&& w.failed is None
            &&& same_layout(w.vars, origin)
            &&& forall|j: int|
                0 <= j < k ==> w.vars.values[#[trigger] model.fields[j] as int]
                    == origin.values[model.fields[j] as int]
            &&& forall|s: int|
                0 <= s < w.vars.values.len() ==> #[trigger] w.vars.values[s] == origin.values[s] || w.vars.values[s]
                    == model.vars.values[s]
        }),
    decreases k,
{
    let saved = model.with(origin).params();
    if k > 0 {
        lemma_writing_back(model, origin, (k - 1) as nat);
        let before = written_up_to(model, saved, (k - 1) as nat);
        let i = k - 1;
        let slot = model.fields[i] as int;
        assert(model.fields[i] < model.vars.names.len());
        assert(saved[i] == origin.values[slot]);
        assert(model.params()[i] == model.vars.values[slot]);
        assert(model.vars.values[slot].dims == origin.values[slot].dims);
        assert(model.vars.slot(model.names[i]) == Some(slot));
        assert(before.vars.slot(model.names[i]) == Some(slot));
        assert(before.vars.values[slot].dims == saved[i].dims && before.vars.values[slot].is_float == saved[i].is_float);
        let after = written_up_to(model, saved, k);
        assert(after.vars == before.vars.replaced(slot, saved[i]));
        assert forall|j: int| 0 <= j < k implies after.vars.values[#[trigger] model.fields[j] as int]
            == origin.values[model.fields[j] as int] by {
            if j < k - 1 {
                assert(before.vars.values[model.fields[j] as int] == origin.values[model.fields[j] as int]);
            }
        }
        assert forall|s: int| 0 <= s < after.vars.values.len() implies #[trigger] after.vars.values[s]
            == origin.values[s] || after.vars.values[s] == model.vars.values[s] by {
            assert(s != slot ==> after.vars.values[s] == before.vars.values[s]);
        }
        assert forall|s: int| 0 <= s < after.vars.values.len() implies (#[trigger] after.vars.values[s]).dims
            == origin.values[s].dims && after.vars.values[s].is_float == origin.values[s].is_float by {
            if s != slot {
                assert(before.vars.values[s].dims == origin.values[s].dims);
            }
        }
    }
}

/// Putting weights aside, writing averages over them and putting the weights back leaves the model as
/// it was, whether all averages could be written or not.
pub proof fn law_store_copy_restore<T>(model: ModelView<T>, shadows: Seq<TensorView<T>>)
    requires
        model.wf(),
        model.aligned(),
        all_wf(shadows),
    ensures
        ({
            let swapped = model.with(written_into(model, shadows).vars);
            let back = written_into(swapped, model.params());
            &&& back.failed is None
            &&& swapped.with(back.vars) == model
        }),
{
    let swapped = model.with(written_into(model, shadows).vars);
    if model.names.len() == shadows.len() {
        lemma_writing_keeps_layout(model, shadows, shadows.len());
    }
    assert(same_layout(swapped.vars, model.vars));
    assert(swapped.wf());
    assert(swapped.aligned()) by {
        assert forall|i: int| 0 <= i < swapped.names.len() implies swapped.vars.slot(#[trigger] swapped.names[i])
            == Some(swapped.fields[i] as int) by {
            assert(model.vars.slot(model.names[i]) == Some(model.fields[i] as int));
        }
    }
    let n = model.fields.len();
    lemma_writing_back(swapped, model.vars, n);
    assert(swapped.with(model.vars).params() =~= model.params());
    let back = written_into(swapped, model.params());
    assert(back == written_up_to(swapped, model.params(), n));
    assert forall|s: int| 0 <= s < back.vars.values.len() implies back.vars.values[s] == model.vars.values[s] by {
        if lives_in(model.fields, s) {
            let j = choose|j: int| 0 <= j < model.fields.len() && #[trigger] model.fields[j] == s;
            assert(model.fields[j] < model.vars.names.len());
            assert(back.vars.values[swapped.fields[j] as int] == model.vars.values[swapped.fields[j] as int]);
        } else {
            assert(swapped.vars.values[s] == model.vars.values[s]);
        }
    }
    assert(back.vars.values =~= model.vars.values);
    assert(swapped.with(back.vars) =~= model);
}

} // verus!
