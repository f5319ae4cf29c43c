//! Putting the state of the optimizer away and taking it up again.

use vstd::prelude::*;

use crate::numbers::Arithmetic;
use crate::optimizers::diffusion_adam::{
    counted, firsts, seconds, stepped, stepped_up_to, AdamError, AdamView, MlpAdamOptimizer, ParamState,
};
use crate::parameterized::ModelView;
use crate::tensor::{same_dims, Tensor, TensorMath, TensorView};
use crate::text::{concat, same_text, views};

verus! {

/// An average under its key.
pub struct Named<T> {
    /// The key.
    pub name: String,
    /// The average.
    pub value: Tensor<T>,
}

/// The state of an optimizer as it is put away: numbers and tensors under keys.
pub struct Checkpoint<W, T> {
    /// What stands under the key of the step counter.
    pub step: Option<Vec<i64>>,
    /// What stands under the key of the settings: the learning rate, both betas and epsilon.
    pub hparams: Option<Vec<W>>,
    /// The averages. Of two under one key the later one counts.
    pub moments: Vec<Named<T>>,
}

/// One average under its key.
pub struct Entry<T> {
    /// The key.
    pub key: Seq<char>,
    /// The average.
    pub value: TensorView<T>,
}

/// What a checkpoint holds.
#[verifier::ext_equal]
pub struct CheckpointView<W, T> {
    /// What stands under the key of the step counter.
    pub step: Option<Seq<i64>>,
    /// What stands under the key of the settings.
    pub hparams: Option<Seq<W>>,
    /// The averages, in the order in which they were put in.
    pub moments: Seq<Entry<T>>,
}

/// Why a checkpoint cannot be taken up.
pub enum LoadError {
    /// There is no step counter.
    MissingStep,
    /// The step counter holds no number.
    EmptyStep,
    /// The step counter is less than zero.
    NegativeStep {
        /// What it is.
        step: i64,
    },
    /// There are no settings.
    MissingHparams,
    /// There are not four settings.
    HparamsCount {
        /// How many there are.
        count: usize,
    },
    /// The average of the gradients of a weight is missing.
    MissingFirst {
        /// Which weight it is.
        index: usize,
    },
    /// The average of the squared gradients of a weight is missing.
    MissingSecond {
        /// Which weight it is.
        index: usize,
    },
    /// An average has another shape than its weight.
    ShapeMismatch {
        /// Which weight it is.
        index: usize,
    },
}

/// What a list of averages holds.
pub open spec fn entries<T>(list: Seq<Named<T>>) -> Seq<Entry<T>> {
    list.map_values(|e: Named<T>| Entry { key: e.name@, value: e.value@ })
}

impl<W, T> View for Checkpoint<W, T> {
    type V = CheckpointView<W, T>;

    open spec fn view(&self) -> CheckpointView<W, T> {
        CheckpointView {
            step: match self.step {
                Some(s) => Some(s@),
                None => None,
            },
            hparams: match self.hparams {
                Some(h) => Some(h@),
                None => None,
            },
            moments: entries(self.moments@),
        }
    }
}

/// The key of the average of the gradients of a weight.
pub open spec fn first_key(name: Seq<char>) -> Seq<char> {
    seq!['m', '.'] + name
}

/// The key of the average of the squared gradients of a weight.
pub open spec fn second_key(name: Seq<char>) -> Seq<char> {
    seq!['v', '.'] + name
}

/// What stands under a key in the first `k` entries.
pub open spec fn looked_up<T>(list: Seq<Entry<T>>, key: Seq<char>, k: nat) -> Option<TensorView<T>>
    decreases k,
{
    if k == 0 {
        None
    } else if list[k - 1].key == key {
        Some(list[k - 1].value)
    } else {
        looked_up(list, key, (k - 1) as nat)
    }
}

/// What stands under a key.
pub open spec fn found<T>(list: Seq<Entry<T>>, key: Seq<char>) -> Option<TensorView<T>> {
    looked_up(list, key, list.len())
}

/// The averages of the first `k` weights, each pair under its keys.
pub open spec fn moments_of<W, T>(opt: AdamView<W, T>, k: nat) -> Seq<Entry<T>>
    decreases k,
{
    if k == 0 {
        Seq::empty()
    } else {
        moments_of(opt, (k - 1) as nat).push(Entry { key: first_key(opt.names[k - 1]), value: opt.m[k - 1] }).push(
            Entry { key: second_key(opt.names[k - 1]), value: opt.v[k - 1] },
        )
    }
}

/// The checkpoint of an optimizer.
pub open spec fn checkpoint_of<W, T>(opt: AdamView<W, T>) -> CheckpointView<W, T> {
    CheckpointView {
        step: Some(seq![opt.t as i64]),
        hparams: Some(seq![opt.lr, opt.beta1, opt.beta2, opt.eps]),
        moments: moments_of(opt, opt.names.len()),
    }
}

/// What keeps the averages of weight `i` from being taken up.
pub open spec fn moment_error<W, T>(opt: AdamView<W, T>, list: Seq<Entry<T>>, i: int) -> Option<LoadError> {
    match found(list, first_key(opt.names[i])) {
        None => Some(LoadError::MissingFirst { index: i as usize }),
        Some(m) => match found(list, second_key(opt.names[i])) {
            None => Some(LoadError::MissingSecond { index: i as usize }),
            Some(v) => if m.dims != opt.m[i].dims || v.dims != opt.v[i].dims {
                Some(LoadError::ShapeMismatch { index: i as usize })
            } else {
                None
            },
        },
    }
}

/// The first thing, from weight `from` on, that keeps the averages from being taken up.
pub open spec fn moments_error<W, T>(opt: AdamView<W, T>, list: Seq<Entry<T>>, from: nat) -> Option<LoadError>
    decreases opt.names.len() - from,
{
    if from >= opt.names.len() {
        None
    } else {
        match moment_error(opt, list, from as int) {
            Some(e) => Some(e),
            None => moments_error(opt, list, from + 1),
        }
    }
}

/// The first thing that keeps a checkpoint from being taken up.
pub open spec fn load_error<W, T>(opt: AdamView<W, T>, from: CheckpointView<W, T>) -> Option<LoadError> {
    match from.step {
        None => Some(LoadError::MissingStep),
        Some(step) => if step.len() == 0 {
            Some(LoadError::EmptyStep)
        } else if step[0] < 0 {
            Some(LoadError::NegativeStep { step: step[0] })
        } else {
            match from.hparams {
                None => Some(LoadError::MissingHparams),
                Some(h) => if h.len() != 4 {
                    Some(LoadError::HparamsCount { count: h.len() as usize })
                } else {
                    moments_error(opt, from.moments, 0)
                },
            }
        },
    }
}

/// An optimizer that took a checkpoint up. The learning rate stays its own.
pub open spec fn resumed<W, T>(opt: AdamView<W, T>, from: CheckpointView<W, T>) -> AdamView<W, T> {
    let h = from.hparams->0;
    AdamView {
        names: opt.names,
        m: Seq::new(opt.names.len(), |i: int| found(from.moments, first_key(opt.names[i]))->0),
        v: Seq::new(opt.names.len(), |i: int| found(from.moments, second_key(opt.names[i]))->0),
        t: (from.step->0)[0] as usize,
        lr: opt.lr,
        beta1: h[1],
        beta2: h[2],
        eps: h[3],
    }
}

/// Whether all averages fit their shapes.
pub open spec fn moments_wf<T>(list: Seq<Entry<T>>) -> bool {
    forall|i: int| 0 <= i < list.len() ==> (#[trigger] list[i]).value.wf()
}

fn find_moment<T: Copy>(list: &Vec<Named<T>>, key: &str) -> (r: Option<Tensor<T>>)
    ensures
        match r {
            Some(t) => found(entries(list@), key@) == Some(t@),
            None => found(entries(list@), key@) is None,
        },
        moments_wf(entries(list@)) ==> (r matches Some(t) ==> t@.wf()),
{
    let mut k: usize = list.len();
    while k > 0
        invariant
            k <= list@.len(),
            found(entries(list@), key@) == looked_up(entries(list@), key@, k as nat),
        decreases k,
    {
        let ghost e = entries(list@)[k - 1];
        assert(e.key == list@[k - 1].name@);
        if same_text(list[k - 1].name.as_str(), key) {
            assert(moments_wf(entries(list@)) ==> entries(list@)[k - 1].value.wf());
            return Some(list[k - 1].value.copy());
        }
        k -= 1;
    }
    None
}

fn first_key_of(name: &str) -> (r: String)
    ensures
        r@ == first_key(name@),
{
    proof {
        reveal_strlit("m.");
    }
    assert("m."@ =~= seq!['m', '.']);
    concat("m.", name)
}

fn second_key_of(name: &str) -> (r: String)
    ensures
        r@ == second_key(name@),
{
    proof {
        reveal_strlit("v.");
    }
    assert("v."@ =~= seq!['v', '.']);
    concat("v.", name)
}

impl<W: Copy, T: Copy> MlpAdamOptimizer<W, T> {
    /// Puts the step counter, the settings and all averages away under their keys.
    pub fn save_checkpoint(&self) -> (r: Result<Checkpoint<W, T>, AdamError>)
        requires
            self.t <= i64::MAX,
        ensures
            match r {
                Ok(c) => self@.names.len() == self@.m.len() && c@ == checkpoint_of(self@),
                Err(e) => self@.names.len() != self@.m.len() && e == (AdamError::NameCount {
                    names: self@.names.len() as usize,
                    params: self@.m.len() as usize,
                }),
            },
    {
        assert(views(self.param_names@).len() == self.param_names@.len());
        assert(firsts(self.states@).len() == self.states@.len());
        if self.param_names.len() != self.states.len() {
            return Err(AdamError::NameCount { names: self.param_names.len(), params: self.states.len() });
        }
        let mut step: Vec<i64> = Vec::new();
        step.push(self.t as i64);
        let mut hparams: Vec<W> = Vec::new();
        hparams.push(self.lr);
        hparams.push(self.beta1);
        hparams.push(self.beta2);
        hparams.push(self.eps);
        let mut moments: Vec<Named<T>> = Vec::new();
        let mut i: usize = 0;
        assert(entries(moments@) =~= moments_of(self@, 0));
        while i < self.param_names.len()
            invariant
                i <= self.param_names@.len(),
                self.param_names@.len() == self.states@.len(),
                entries(moments@) == moments_of(self@, i as nat),
            decreases self.param_names@.len() - i,
        {
            let ghost before = entries(moments@);
            let name = self.param_names[i].as_str();
            assert(self@.names[i as int] == name@);
            assert(self@.m[i as int] == self.states@[i as int].m@ && self@.v[i as int] == self.states@[i as int].v@);
            let first = Named { name: first_key_of(name), value: self.states[i].m.copy() };
            let second = Named { name: second_key_of(name), value: self.states[i].v.copy() };
            moments.push(first);
            moments.push(second);
            assert(entries(moments@) =~= before.push(Entry { key: first.name@, value: first.value@ }).push(
                Entry { key: second.name@, value: second.value@ },
            ));
            i += 1;
        }
        assert(step@ =~= seq![self@.t as i64]);
        assert(hparams@ =~= seq![self@.lr, self@.beta1, self@.beta2, self@.eps]);
        Ok(Checkpoint { step: Some(step), hparams: Some(hparams), moments })
    }

    /// Takes up the step counter, the betas, epsilon and all averages of a checkpoint, or none of it.
    /// The learning rate is not taken up.
    pub fn load_checkpoint(&mut self, loaded: &Checkpoint<W, T>) -> (r: Result<(), LoadError>)
        requires
            old(self)@.wf(),
            moments_wf(loaded@.moments),
        ensures
            final(self)@.wf(),
            match r {
                Ok(_) => load_error(old(self)@, loaded@) is None && final(self)@ == resumed(old(self)@, loaded@),
                Err(e) => load_error(old(self)@, loaded@) == Some(e) && final(self)@ == old(self)@,
            },
    {
        let ghost opt = self@;
        let ghost list = loaded@.moments;
        let t: i64 = match &loaded.step {
            None => {
                return Err(LoadError::MissingStep);
            },
            Some(step) => {
                if step.len() == 0 {
                    return Err(LoadError::EmptyStep);
                }
                step[0]
            },
        };
        if t < 0 {
            return Err(LoadError::NegativeStep { step: t });
        }
        let hparams = match &loaded.hparams {
            None => {
                return Err(LoadError::MissingHparams);
            },
            Some(h) => h,
        };
        if hparams.len() != 4 {
            return Err(LoadError::HparamsCount { count: hparams.len() });
        }
        let ghost goal = resumed(opt, loaded@);
        let mut restored: Vec<ParamState<T>> = Vec::new();
        let mut i: usize = 0;
        assert(views(self.param_names@).len() == self.param_names@.len());
        assert(firsts(self.states@).len() == self.states@.len());
        assert(firsts(restored@) =~= goal.m.take(0));
        assert(seconds(restored@) =~= goal.v.take(0));
        while i < self.param_names.len()
            invariant
                *self == *old(self),
                opt == self@,
                opt.wf(),
                list == loaded@.moments,
                list == entries(loaded.moments@),
                moments_wf(list),
                goal == resumed(opt, loaded@),
                i <= self.param_names@.len(),
                self.param_names@.len() == self.states@.len(),
                opt.names.len() == self.param_names@.len(),
                load_error(opt, loaded@) == moments_error(opt, list, i as nat),
                restored@.len() == i,
                firsts(restored@) == goal.m.take(i as int),
                seconds(restored@) == goal.v.take(i as int),
                forall|k: int|
                    0 <= k < i ==> (#[trigger] goal.m[k]).wf() && goal.v[k].wf() && goal.m[k].dims == opt.m[k].dims
                        && goal.v[k].dims == opt.v[k].dims,
            decreases self.param_names@.len() - i,
        {
            let ghost before = restored@;
            let name = self.param_names[i].as_str();
            assert(opt.names[i as int] == name@);
            assert(opt.m[i as int] == self.states@[i as int].m@ && opt.v[i as int] == self.states@[i as int].v@);
            let m = match find_moment(&loaded.moments, first_key_of(name).as_str()) {
                Some(m) => m,
                None => {
                    return Err(LoadError::MissingFirst { index: i });
                },
            };
            let v = match find_moment(&loaded.moments, second_key_of(name).as_str()) {
                Some(v) => v,
                None => {
                    return Err(LoadError::MissingSecond { index: i });
                },
            };
            if !same_dims(&m.dims, &self.states[i].m.dims) || !same_dims(&v.dims, &self.states[i].v.dims) {
                return Err(LoadError::ShapeMismatch { index: i });
            }
            restored.push(ParamState { m, v });
            proof {
                assert(goal.m[i as int] == m@ && goal.v[i as int] == v@);
                assert(m@.wf() && v@.wf());
                assert(m@.dims == opt.m[i as int].dims && v@.dims == opt.v[i as int].dims);
                assert(firsts(restored@) =~= firsts(before).push(m@));
                assert(seconds(restored@) =~= seconds(before).push(v@));
                assert(firsts(restored@) =~= goal.m.take(i + 1));
                assert(seconds(restored@) =~= goal.v.take(i + 1));
                assert forall|k: int| 0 <= k < i + 1 implies (#[trigger] goal.m[k]).wf() && goal.v[k].wf()
                    && goal.m[k].dims == opt.m[k].dims && goal.v[k].dims == opt.v[k].dims by {
                    if k == i {
                        assert(goal.m[k] == m@ && goal.v[k] == v@);
                    }
                }
            }
            i += 1;
        }
        self.states = restored;
        self.t = t as usize;
        self.beta1 = hparams[1];
        self.beta2 = hparams[2];
        self.eps = hparams[3];
        proof {
            assert(self@.m =~= goal.m);
            assert(self@.v =~= goal.v);
            assert(self@ =~= goal);
            assert forall|k: int| 0 <= k < goal.m.len() implies (#[trigger] goal.m[k]).wf() && goal.m[k].dims
                == goal.v[k].dims by {
                assert(opt.m[k].dims == opt.v[k].dims);
            }
            assert forall|k: int| 0 <= k < goal.v.len() implies (#[trigger] goal.v[k]).wf() by {
                assert(goal.m[k].wf());
            }
        }
        Ok(())
    }
}

proof fn lemma_keys_differ(a: Seq<char>, b: Seq<char>)
    ensures
        first_key(a) != second_key(b),
        first_key(a) == first_key(b) ==> a == b,
        second_key(a) == second_key(b) ==> a == b,
{
    assert(first_key(a)[0] == 'm' && second_key(b)[0] == 'v');
    assert(first_key(a).skip(2) =~= a && first_key(b).skip(2) =~= b);
    assert(second_key(a).skip(2) =~= a && second_key(b).skip(2) =~= b);
}

proof fn lemma_saved_is_found<W, T>(opt: AdamView<W, T>, i: int, k: nat)
    requires
        opt.wf(),
        opt.names.no_duplicates(),
        0 <= i < k <= opt.names.len(),
    ensures
        found(moments_of(opt, k), first_key(opt.names[i])) == Some(opt.m[i]),
        found(moments_of(opt, k), second_key(opt.names[i])) == Some(opt.v[i]),
    decreases k,
{
    let list = moments_of(opt, k);
    let before = moments_of(opt, (k - 1) as nat);
    let n = before.len();
    lemma_keys_differ(opt.names[i], opt.names[k - 1]);
    lemma_keys_differ(opt.names[k - 1], opt.names[i]);
    let a = first_key(opt.names[i]);
    let b = second_key(opt.names[i]);
    assert(list.len() == n + 2);
    assert(list[n as int].key == first_key(opt.names[k - 1]));
    assert(list[n as int + 1].key == second_key(opt.names[k - 1]));
    reveal_with_fuel(looked_up, 3);
    if i < k - 1 {
        lemma_saved_is_found(opt, i, (k - 1) as nat);
        lemma_look_up_prefix(before, list, a, n);
        lemma_look_up_prefix(before, list, b, n);
    }
}

proof fn lemma_look_up_prefix<T>(a: Seq<Entry<T>>, b: Seq<Entry<T>>, key: Seq<char>, k: nat)
    requires
        k <= a.len(),
        k <= b.len(),
        forall|i: int| 0 <= i < k ==> #[trigger] a[i] == b[i],
    ensures
        looked_up(a, key, k) == looked_up(b, key, k),
    decreases k,
{
    if k > 0 {
        lemma_look_up_prefix(a, b, key, (k - 1) as nat);
    }
}

/// An optimizer that takes up the checkpoint of another one for the same weights continues where that
/// one stood: the same step, the same settings but for the learning rate, the same averages.
pub proof fn law_checkpoint_round_trip<W, T>(saved: AdamView<W, T>, fresh: AdamView<W, T>)
    requires
        saved.wf(),
        fresh.wf(),
        saved.names == fresh.names,
        saved.names.no_duplicates(),
        forall|i: int| 0 <= i < saved.m.len() ==> (#[trigger] saved.m[i]).dims == fresh.m[i].dims,
        saved.t <= i64::MAX,
    ensures
        load_error(fresh, checkpoint_of(saved)) is None,
        resumed(fresh, checkpoint_of(saved)) == (AdamView { lr: fresh.lr, ..saved }),
{
    let c = checkpoint_of(saved);
    let n = saved.names.len();
    assert forall|i: int| 0 <= i < n implies found(c.moments, first_key(#[trigger] saved.names[i])) == Some(saved.m[i])
        && found(c.moments, second_key(saved.names[i])) == Some(saved.v[i]) by {
        lemma_saved_is_found(saved, i, n);
    }
    lemma_no_moment_error(fresh, saved, c.moments, 0);
    let r = resumed(fresh, c);
    assert forall|i: int| 0 <= i < n implies r.m[i] == saved.m[i] && r.v[i] == saved.v[i] by {
        assert(found(c.moments, first_key(saved.names[i])) == Some(saved.m[i]));
    }
    assert(r.m =~= saved.m);
    assert(r.v =~= saved.v);
    assert(r =~= (AdamView { lr: fresh.lr, ..saved }));
}

proof fn lemma_no_moment_error<W, T>(fresh: AdamView<W, T>, saved: AdamView<W, T>, list: Seq<Entry<T>>, from: nat)
    requires
        saved.wf(),
        fresh.wf(),
        saved.names == fresh.names,
        forall|i: int| 0 <= i < saved.m.len() ==> (#[trigger] saved.m[i]).dims == fresh.m[i].dims,
        forall|i: int|
            0 <= i < saved.names.len() ==> found(list, first_key(#[trigger] saved.names[i])) == Some(saved.m[i])
                && found(list, second_key(saved.names[i])) == Some(saved.v[i]),
    ensures
        moments_error(fresh, list, from) is None,
    decreases fresh.names.len() - from,
{
    if from < fresh.names.len() {
        let i = from as int;
        assert(found(list, first_key(saved.names[i])) == Some(saved.m[i]));
        assert(saved.m[i].dims == fresh.m[i].dims);
        assert(saved.m[i].dims == saved.v[i].dims && fresh.m[i].dims == fresh.v[i].dims);
        lemma_no_moment_error(fresh, saved, list, from + 1);
    }
}

/// An optimizer and the model that it trains.
#[verifier::ext_equal]
pub struct Run<W, T> {
    /// The optimizer.
    pub opt: AdamView<W, T>,
    /// The model.
    pub model: ModelView<T>,
}

/// A run after one more step.
pub open spec fn after_step<N: Arithmetic, E: Arithmetic, F: Fn(N::Num) -> E::Num>(
    math: &TensorMath<N, E, F>,
    run: Run<N::Num, E::Num>,
    grads: Seq<TensorView<E::Num>>,
) -> Run<N::Num, E::Num> {
    let s = stepped(math, run.opt, run.model, grads);
    Run { opt: AdamView { m: s.m, v: s.v, ..counted(run.opt) }, model: run.model.with(s.vars) }
}

/// A run after a step for each of a list of gradients.
pub open spec fn after_steps<N: Arithmetic, E: Arithmetic, F: Fn(N::Num) -> E::Num>(
    math: &TensorMath<N, E, F>,
    run: Run<N::Num, E::Num>,
    list: Seq<Seq<TensorView<E::Num>>>,
) -> Run<N::Num, E::Num>
    decreases list.len(),
{
    if list.len() == 0 {
        run
    } else {
        after_step(math, after_steps(math, run, list.drop_last()), list.last())
    }
}

/// Whether two optimizers have averages of the same shapes.
pub open spec fn same_averages<W, T>(a: AdamView<W, T>, b: AdamView<W, T>) -> bool {
    a.m.len() == b.m.len() && forall|i: int| 0 <= i < a.m.len() ==> (#[trigger] a.m[i]).dims == b.m[i].dims
}

proof fn lemma_step_keeps_shapes<N: Arithmetic, E: Arithmetic, F: Fn(N::Num) -> E::Num>(
    math: &TensorMath<N, E, F>,
    opt: AdamView<N::Num, E::Num>,
    model: ModelView<E::Num>,
    grads: Seq<TensorView<E::Num>>,
    k: nat,
)
    requires
        opt.wf(),
        k <= opt.m.len(),
    ensures
        ({
            let s = stepped_up_to(math, opt, model, grads, k);
            let next = AdamView { m: s.m, v: s.v, ..opt };
            next.wf() && same_averages(next, opt)
        }),
    decreases k,
{
    if k > 0 {
        lemma_step_keeps_shapes(math, opt, model, grads, (k - 1) as nat);
        let before = stepped_up_to(math, opt, model, grads, (k - 1) as nat);
        let s = stepped_up_to(math, opt, model, grads, k);
        let i = k - 1;
        assert(opt.m[i].wf() && opt.v[i].wf() && opt.m[i].dims == opt.v[i].dims);
        assert forall|j: int| 0 <= j < s.m.len() implies (#[trigger] s.m[j]).wf() && s.v[j].wf() && s.m[j].dims
            == s.v[j].dims && s.m[j].dims == opt.m[j].dims by {
            assert(before.m[j].wf() && before.v[j].wf());
            assert(before.m[j].dims == before.v[j].dims);
        }
    }
}

proof fn lemma_steps_keep<N: Arithmetic, E: Arithmetic, F: Fn(N::Num) -> E::Num>(
    math: &TensorMath<N, E, F>,
    run: Run<N::Num, E::Num>,
    list: Seq<Seq<TensorView<E::Num>>>,
)
    requires
        run.opt.wf(),
        run.opt.t + list.len() <= usize::MAX,
    ensures
        ({
            let after = after_steps(math, run, list).opt;
            &&& after.wf()
            &&& same_averages(after, run.opt)
            &&& after.names == run.opt.names
            &&& after.lr == run.opt.lr
            &&& after.t == run.opt.t + list.len()
        }),
    decreases list.len(),
{
    if list.len() > 0 {
        lemma_steps_keep(math, run, list.drop_last());
        let before = after_steps(math, run, list.drop_last());
        lemma_step_keeps_shapes(math, counted(before.opt), before.model, list.last(), before.opt.m.len());
        let after = after_steps(math, run, list).opt;
        assert(after.wf() && same_averages(after, before.opt));
        assert forall|i: int| 0 <= i < after.m.len() implies (#[trigger] after.m[i]).dims == run.opt.m[i].dims by {
            assert(after.m[i].dims == before.opt.m[i].dims);
        }
    }
}

proof fn lemma_steps_in_two<N: Arithmetic, E: Arithmetic, F: Fn(N::Num) -> E::Num>(
    math: &TensorMath<N, E, F>,
    run: Run<N::Num, E::Num>,
    list: Seq<Seq<TensorView<E::Num>>>,
    k: int,
)
    requires
        0 <= k <= list.len(),
    ensures
        after_steps(math, after_steps(math, run, list.take(k)), list.skip(k)) == after_steps(math, run, list),
    decreases list.len(),
{
    if k == list.len() {
        assert(list.take(k) =~= list);
    } else {
        let init = list.drop_last();
        lemma_steps_in_two(math, run, init, k);
        assert(init.take(k) =~= list.take(k));
        assert(list.skip(k).drop_last() =~= init.skip(k));
        assert(list.skip(k).last() == list.last());
    }
}

/// Training that stops, is put away and taken up by a new optimizer with the same learning rate ends
/// as if it had never stopped: after the remaining steps, model and optimizer are what they are after
/// all steps in one go, and the counter has counted all of them.
pub proof fn law_resumed_training_goes_on<N: Arithmetic, E: Arithmetic, F: Fn(N::Num) -> E::Num>(
    math: &TensorMath<N, E, F>,
    start: Run<N::Num, E::Num>,
    fresh: AdamView<N::Num, E::Num>,
    list: Seq<Seq<TensorView<E::Num>>>,
    k: int,
)
    requires
        start.opt.wf(),
        fresh.wf(),
        start.opt.names == fresh.names,
        start.opt.names.no_duplicates(),
        same_averages(start.opt, fresh),
        start.opt.lr == fresh.lr,
        0 <= k <= list.len(),
        start.opt.t + k <= i64::MAX,
        start.opt.t + list.len() <= usize::MAX,
    ensures
        ({
            let stopped = after_steps(math, start, list.take(k));
            let again = resumed(fresh, checkpoint_of(stopped.opt));
            &&& load_error(fresh, checkpoint_of(stopped.opt)) is None
            &&& after_steps(math, Run { opt: again, model: stopped.model }, list.skip(k)) == after_steps(
                math,
                start,
                list,
            )
            &&& after_steps(math, start, list).opt.t == start.opt.t + list.len()
        }),
{
    let stopped = after_steps(math, start, list.take(k));
    lemma_steps_keep(math, start, list.take(k));
    lemma_steps_keep(math, start, list);
    assert forall|i: int| 0 <= i < stopped.opt.m.len() implies (#[trigger] stopped.opt.m[i]).dims == fresh.m[i].dims by {
        assert(start.opt.m[i].dims == fresh.m[i].dims);
    }
    law_checkpoint_round_trip(stopped.opt, fresh);
    assert(resumed(fresh, checkpoint_of(stopped.opt)) == stopped.opt);
    lemma_steps_in_two(math, start, list, k);
}

} // verus!
