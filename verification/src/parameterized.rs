//! Things with trainable weights.

use vstd::prelude::*;

use crate::tensor::{shown, Tensor, TensorView};
use crate::text::views;
use crate::varstore::{StoreError, VarStore, Vars};

verus! {

/// What is known of a thing with trainable weights.
#[verifier::ext_equal]
pub struct ModelView<T> {
    /// The named tensors.
    pub vars: Vars<T>,
    /// The slots that the weights live in, in the order of the weights.
    pub fields: Seq<usize>,
    /// The names that the thing gives its weights, in the same order.
    pub names: Seq<Seq<char>>,
}

impl<T> ModelView<T> {
    /// Every weight has a slot.
    pub open spec fn wf(self) -> bool {
        &&& self.vars.wf()
        &&& forall|i: int| 0 <= i < self.fields.len() ==> (#[trigger] self.fields[i]) < self.vars.names.len()
    }

    /// The weights, in order.
    pub open spec fn params(self) -> Seq<TensorView<T>> {
        self.fields.map_values(|slot: usize| self.vars.values[slot as int])
    }

    /// The same thing with other tensors.
    pub open spec fn with(self, vars: Vars<T>) -> ModelView<T> {
        ModelView { vars, fields: self.fields, names: self.names }
    }

    /// Whether the names are those of the slots that the weights live in.
    pub open spec fn aligned(self) -> bool {
        &&& self.names.len() == self.fields.len()
        &&& forall|i: int|
            0 <= i < self.names.len() ==> self.vars.slot(#[trigger] self.names[i]) == Some(self.fields[i] as int)
    }
}

/// A thing has more names than weights, or fewer.
pub struct NameCount {
    /// How many names there are.
    pub names: usize,
    /// How many weights there are.
    pub params: usize,
}

/// A thing with trainable weights, in a fixed order and under names.
pub trait Parameterized {
    /// The numbers that the weights are made of.
    type Num: Copy;

    /// What is known of the thing.
    spec fn model(&self) -> ModelView<Self::Num>;

    /// How many weights there are.
    fn param_count(&self) -> (r: usize)
        ensures
            r == self.model().fields.len(),
    ;

    /// The slot that a weight lives in.
    fn field(&self, i: usize) -> (r: usize)
        requires
            i < self.model().fields.len(),
        ensures
            r == self.model().fields[i as int],
    ;

    /// The tensor in a slot, as it is now.
    fn read(&self, slot: usize) -> (r: &Tensor<Self::Num>)
        requires
            self.model().wf(),
            slot < self.model().vars.names.len(),
        ensures
            r@ == self.model().vars.values[slot as int],
    ;

    /// The names of the weights, in order.
    fn param_names(&self) -> (r: Vec<String>)
        ensures
            views(r@) == self.model().names,
    ;

    /// The slot of the tensor under a name. What is written under the name later is what the slot
    /// shows.
    fn get(&self, name: &str) -> (r: Result<usize, StoreError>)
        requires
            self.model().wf(),
        ensures
            match r {
                Ok(slot) => self.model().vars.slot(name@) == Some(slot as int) && slot < self.model().vars.names.len(),
                Err(e) => self.model().vars.slot(name@) is None && e is NotRegistered,
            },
    ;

    /// Writes a tensor under a name.
    fn set_param(&mut self, name: &str, value: &Tensor<Self::Num>) -> (r: Result<(), StoreError>)
        requires
            old(self).model().wf(),
            value@.wf(),
        ensures
            final(self).model() == old(self).model().with(old(self).model().vars.written(name@, value@)),
            final(self).model().wf(),
            match r {
                Ok(_) => old(self).model().vars.refusal(name@, value@) is None,
                Err(e) => old(self).model().vars.refusal(name@, value@) == Some(e),
            },
    ;

    /// Writes the tensor in slot `from` under a name.
    fn set_param_from_slot(&mut self, name: &str, from: usize) -> (r: Result<(), StoreError>)
        requires
            old(self).model().wf(),
            from < old(self).model().vars.names.len(),
        ensures
            final(self).model() == old(self).model().with(old(self).model().vars.slot_written(name@, from as int)),
            final(self).model().wf(),
            match r {
                Ok(_) => old(self).model().vars.slot_refusal(name@, from as int) is None,
                Err(e) => old(self).model().vars.slot_refusal(name@, from as int) == Some(e),
            },
    ;

    /// One weight, as it is now.
    fn param(&self, i: usize) -> (r: &Tensor<Self::Num>)
        requires
            self.model().wf(),
            i < self.model().fields.len(),
        ensures
            r@ == self.model().params()[i as int],
    {
        assert(self.model().fields[i as int] < self.model().vars.names.len());
        self.read(self.field(i))
    }

    /// The weights, in order, as they are now.
    fn params(&self) -> (r: Vec<&Tensor<Self::Num>>)
        requires
            self.model().wf(),
        ensures
            shown(r@) == self.model().params(),
    {
        let ghost goal = self.model().params();
        let mut out: Vec<&Tensor<Self::Num>> = Vec::new();
        let count: usize = self.param_count();
        let mut i: usize = 0;
        assert(shown(out@) =~= goal.take(0));
        while i < count
            invariant
                self.model().wf(),
                goal == self.model().params(),
                count == self.model().fields.len(),
                i <= count,
                shown(out@) == goal.take(i as int),
            decreases count - i,
        {
            let ghost before = shown(out@);
            let one = self.param(i);
            out.push(one);
            assert(shown(out@) =~= before.push(one@));
            i += 1;
            assert(shown(out@) =~= goal.take(i as int));
        }
        assert(shown(out@) =~= goal);
        out
    }

    /// The weights with their names; refused if there is not one name for every weight.
    fn named_params(&self) -> (r: Result<Vec<(String, &Tensor<Self::Num>)>, NameCount>)
        requires
            self.model().wf(),
        ensures
            match r {
                Ok(list) => {
                    &&& self.model().names.len() == self.model().fields.len()
                    &&& list@.len() == self.model().names.len()
                    &&& forall|i: int|
                        0 <= i < list@.len() ==> (#[trigger] list@[i]).0@ == self.model().names[i] && list@[i].1@
                            == self.model().params()[i]
                },
                Err(e) => {
                    &&& self.model().names.len() != self.model().fields.len()
                    &&& e.names == self.model().names.len()
                    &&& e.params == self.model().fields.len()
                },
            },
    {
        let names = self.param_names();
        let params = self.params();
        assert(views(names@).len() == names@.len());
        assert(shown(params@).len() == params@.len());
        if names.len() != params.len() {
            return Err(NameCount { names: names.len(), params: params.len() });
        }
        let mut list: Vec<(String, &Tensor<Self::Num>)> = Vec::new();
        let mut i: usize = 0;
        while i < names.len()
            invariant
                i <= names@.len(),
                names@.len() == params@.len(),
                views(names@) == self.model().names,
                shown(params@) == self.model().params(),
                list@.len() == i,
                forall|k: int|
                    0 <= k < i ==> (#[trigger] list@[k]).0@ == self.model().names[k] && list@[k].1@
                        == self.model().params()[k],
            decreases names@.len() - i,
        {
            assert(views(names@)[i as int] == names@[i as int]@);
            assert(shown(params@)[i as int] == params@[i as int]@);
            list.push((names[i].as_str().to_owned(), params[i]));
            i += 1;
        }
        Ok(list)
    }
}

/// A store of tensors, with the slots and the names of the weights.
pub struct Model<T> {
    /// The named tensors.
    pub varmap: VarStore<T>,
    /// The slots that the weights live in.
    pub fields: Vec<usize>,
    /// The names of the weights.
    pub names: Vec<String>,
}

impl<T: Copy> Parameterized for Model<T> {
    type Num = T;

    open spec fn model(&self) -> ModelView<T> {
        ModelView { vars: self.varmap@, fields: self.fields@, names: views(self.names@) }
    }

    fn param_count(&self) -> (r: usize) {
        self.fields.len()
    }

    fn field(&self, i: usize) -> (r: usize) {
        self.fields[i]
    }

    fn read(&self, slot: usize) -> (r: &Tensor<T>) {
        self.varmap.read(slot)
    }

    fn param_names(&self) -> (r: Vec<String>) {
        let ghost goal = views(self.names@);
        let mut out: Vec<String> = Vec::new();
        let mut i: usize = 0;
        while i < self.names.len()
            invariant
                goal == views(self.names@),
                i <= self.names@.len(),
                views(out@) == goal.take(i as int),
            decreases self.names@.len() - i,
        {
            let ghost before = views(out@);
            let one = self.names[i].as_str().to_owned();
            out.push(one);
            assert(views(out@) =~= before.push(one@));
            i += 1;
            assert(views(out@) =~= goal.take(i as int));
        }
        assert(views(out@) =~= goal);
        out
    }

    fn get(&self, name: &str) -> (r: Result<usize, StoreError>) {
        self.varmap.get(name)
    }

    fn set_param(&mut self, name: &str, value: &Tensor<T>) -> (r: Result<(), StoreError>) {
        let ghost before = self.model();
        let r = self.varmap.set(name, value);
        proof {
            assert(self.model().vars.names == before.vars.names);
            assert forall|i: int| 0 <= i < self.model().fields.len() implies (#[trigger] self.model().fields[i])
                < self.model().vars.names.len() by {
                assert(before.fields[i] < before.vars.names.len());
            }
        }
        r
    }

    fn set_param_from_slot(&mut self, name: &str, from: usize) -> (r: Result<(), StoreError>) {
        let ghost before = self.model();
        let r = self.varmap.set_from_slot(name, from);
        proof {
            assert(self.model().vars.names == before.vars.names);
            assert forall|i: int| 0 <= i < self.model().fields.len() implies (#[trigger] self.model().fields[i])
                < self.model().vars.names.len() by {
                assert(before.fields[i] < before.vars.names.len());
            }
        }
        r
    }
}

impl<T: Copy> Model<T> {
    /// Something without weights.
    pub fn new() -> (r: Self)
        ensures
            r.model().wf(),
            r.model().aligned(),
            r.model().fields.len() == 0,
            r.model().vars.names.len() == 0,
    {
        Model { varmap: VarStore::new(), fields: Vec::new(), names: Vec::new() }
    }

    /// Adds a weight under a new name.
    pub fn add_param(&mut self, name: &str, init: Tensor<T>) -> (r: Result<(), StoreError>)
        requires
            old(self).model().wf(),
            init@.wf(),
        ensures
            final(self).model().wf(),
            match r {
                Ok(_) => {
                    let m = old(self).model();
                    &&& m.vars.slot(name@) is None
                    &&& final(self).model() == (ModelView {
                        vars: m.vars.registered(name@, init@),
                        fields: m.fields.push(m.vars.names.len() as usize),
                        names: m.names.push(name@),
                    })
                },
                Err(e) => old(self).model().vars.slot(name@) is Some && e is Duplicate && final(self).model()
                    == old(self).model(),
            },
    {
        let ghost before = self.model();
        match self.varmap.register(name, init) {
            Ok(slot) => {
                self.fields.push(slot);
                self.names.push(name.to_owned());
                assert(self.model().names =~= before.names.push(name@));
                Ok(())
            },
            Err(e) => Err(e),
        }
    }
}

} // verus!
