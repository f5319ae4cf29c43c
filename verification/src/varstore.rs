//! Trainable tensors under names.

use vstd::prelude::*;

use crate::tensor::{all_wf, contents, same_dims, Tensor, TensorView};
use crate::text::{same_text, views};

verus! {

/// Tensors that are found by their names. Each has a slot that stays its own: what is written under
/// the name is what the slot shows from then on.
pub struct VarStore<T> {
    names: Vec<String>,
    values: Vec<Tensor<T>>,
}

/// The names and tensors of a store, slot by slot.
#[verifier::ext_equal]
pub struct Vars<T> {
    /// The name of each slot.
    pub names: Seq<Seq<char>>,
    /// The tensor in each slot.
    pub values: Seq<TensorView<T>>,
}

/// Why a store refuses a request.
pub enum StoreError {
    /// The name is taken.
    Duplicate,
    /// There is no such name.
    NotRegistered,
    /// The tensor has another shape than the one it is to replace.
    ShapeMismatch,
    /// The tensor is the one that it is to replace.
    SameSlot,
    /// The tensor is made of another kind of numbers than the one it is to replace.
    KindMismatch,
}

impl<T> Vars<T> {
    /// Names are used once, and tensors fit their shapes.
    pub open spec fn wf(self) -> bool {
        &&& self.names.len() == self.values.len()
        &&& self.names.no_duplicates()
        &&& all_wf(self.values)
    }

    /// The slot of a name.
    pub open spec fn slot(self, name: Seq<char>) -> Option<int> {
        if self.names.contains(name) {
            Some(self.names.index_of(name))
        } else {
            None
        }
    }

    /// The store with one more name.
    pub open spec fn registered(self, name: Seq<char>, value: TensorView<T>) -> Vars<T> {
        Vars { names: self.names.push(name), values: self.values.push(value) }
    }

    /// The store with another tensor in a slot.
    pub open spec fn replaced(self, slot: int, value: TensorView<T>) -> Vars<T> {
        Vars { names: self.names, values: self.values.update(slot, value) }
    }

    /// Why a tensor cannot be written under a name.
    pub open spec fn refusal(self, name: Seq<char>, value: TensorView<T>) -> Option<StoreError> {
        match self.slot(name) {
            None => Some(StoreError::NotRegistered),
            Some(slot) => if self.values[slot].dims != value.dims {
                Some(StoreError::ShapeMismatch)
            } else if self.values[slot].is_float != value.is_float {
                Some(StoreError::KindMismatch)
            } else {
                None
            },
        }
    }

    /// Why the tensor in slot `from` cannot be written under a name. It is not written over itself.
    pub open spec fn slot_refusal(self, name: Seq<char>, from: int) -> Option<StoreError> {
        if self.slot(name) == Some(from) {
            Some(StoreError::SameSlot)
        } else {
            self.refusal(name, self.values[from])
        }
    }

    /// The store after the tensor in slot `from` was written under a name, if it can be.
    pub open spec fn slot_written(self, name: Seq<char>, from: int) -> Vars<T> {
        match self.slot_refusal(name, from) {
            Some(_) => self,
            None => self.written(name, self.values[from]),
        }
    }

    /// The store after a tensor was written under a name, if it can be.
    pub open spec fn written(self, name: Seq<char>, value: TensorView<T>) -> Vars<T> {
        match self.refusal(name, value) {
            Some(_) => self,
            None => self.replaced(self.slot(name)->0, value),
        }
    }
}

impl<T> View for VarStore<T> {
    type V = Vars<T>;

    closed spec fn view(&self) -> Vars<T> {
        Vars { names: views(self.names@), values: contents(self.values@) }
    }
}

/// A name is found where it stands.
pub proof fn lemma_slot<T>(vars: Vars<T>, i: int)
    requires
        vars.wf(),
        0 <= i < vars.names.len(),
    ensures
        vars.slot(vars.names[i]) == Some(i),
{
    let name = vars.names[i];
    let j = vars.names.index_of(name);
    assert(vars.names.contains(name));
    assert(0 <= j < vars.names.len() && vars.names[j] == name);
}

impl<T: Copy> VarStore<T> {
    /// An empty store.
    pub fn new() -> (r: Self)
        ensures
            r@ == (Vars { names: Seq::<Seq<char>>::empty(), values: Seq::<TensorView<T>>::empty() }),
            r@.wf(),
    {
        let r = VarStore { names: Vec::new(), values: Vec::new() };
        assert(r@.names =~= Seq::<Seq<char>>::empty());
        assert(r@.values =~= Seq::<TensorView<T>>::empty());
        r
    }

    /// The slot of a name.
    pub fn find(&self, name: &str) -> (r: Option<usize>)
        requires
            self@.wf(),
        ensures
            match r {
                Some(slot) => self@.slot(name@) == Some(slot as int) && slot < self@.names.len(),
                None => self@.slot(name@) is None,
            },
    {
        let mut i: usize = 0;
        while i < self.names.len()
            invariant
                self@.wf(),
                i <= self.names@.len(),
                forall|k: int| 0 <= k < i ==> #[trigger] self@.names[k] != name@,
            decreases self.names@.len() - i,
        {
            assert(self@.names[i as int] == self.names@[i as int]@);
            if same_text(self.names[i].as_str(), name) {
                proof {
                    lemma_slot(self@, i as int);
                }
                return Some(i);
            }
            i += 1;
        }
        None
    }

    /// Puts a tensor under a new name and gives its slot.
    pub fn register(&mut self, name: &str, init: Tensor<T>) -> (r: Result<usize, StoreError>)
        requires
            old(self)@.wf(),
            init@.wf(),
        ensures
            final(self)@.wf(),
            match r {
                Ok(slot) => old(self)@.slot(name@) is None && slot == old(self)@.names.len() && final(self)@
                    == old(self)@.registered(name@, init@),
                Err(e) => old(self)@.slot(name@) is Some && e is Duplicate && final(self)@ == old(self)@,
            },
    {
        if self.find(name).is_some() {
            return Err(StoreError::Duplicate);
        }
        let ghost before = self@;
        let slot: usize = self.names.len();
        self.names.push(name.to_owned());
        self.values.push(init);
        proof {
            assert(self@.names =~= before.names.push(name@));
            assert(self@.values =~= before.values.push(init@));
            assert forall|i: int, j: int| 0 <= i < self@.names.len() && 0 <= j < self@.names.len() && i != j implies
                self@.names[i] != self@.names[j] by {
                if i == slot {
                    assert(before.names[j] != name@) by {
                        assert(before.names.contains(before.names[j]));
                    }
                } else if j == slot {
                    assert(before.names[i] != name@) by {
                        assert(before.names.contains(before.names[i]));
                    }
                }
            }
        }
        Ok(slot)
    }

    /// The tensor in a slot, as it is now.
    pub fn read(&self, slot: usize) -> (r: &Tensor<T>)
        requires
            self@.wf(),
            slot < self@.names.len(),
        ensures
            r@ == self@.values[slot as int],
    {
        &self.values[slot]
    }

    /// The slot of the tensor under a name. What is written under the name later is what the slot
    /// shows.
    pub fn get(&self, name: &str) -> (r: Result<usize, StoreError>)
        requires
            self@.wf(),
        ensures
            match r {
                Ok(slot) => self@.slot(name@) == Some(slot as int) && slot < self@.names.len(),
                Err(e) => self@.slot(name@) is None && e is NotRegistered,
            },
    {
        match self.find(name) {
            Some(slot) => Ok(slot),
            None => Err(StoreError::NotRegistered),
        }
    }

    /// Writes a tensor under a name that is there already.
    pub fn set(&mut self, name: &str, value: &Tensor<T>) -> (r: Result<(), StoreError>)
        requires
            old(self)@.wf(),
            value@.wf(),
        ensures
            final(self)@.wf(),
            final(self)@ == old(self)@.written(name@, value@),
            match r {
                Ok(_) => old(self)@.refusal(name@, value@) is None,
                Err(e) => old(self)@.refusal(name@, value@) == Some(e),
            },
    {
        match self.find(name) {
            None => Err(StoreError::NotRegistered),
            Some(slot) => {
                let ghost before = self@;
                assert(before.values[slot as int] == self.values@[slot as int]@);
                if !same_dims(&self.values[slot].dims, &value.dims) {
                    return Err(StoreError::ShapeMismatch);
                }
                if self.values[slot].is_float != value.is_float {
                    return Err(StoreError::KindMismatch);
                }
                self.values[slot] = value.copy();
                assert(self@.names =~= before.names);
                assert(self@.values =~= before.values.update(slot as int, value@));
                Ok(())
            },
        }
    }

    /// Writes the tensor in slot `from` under a name that is there already.
    pub fn set_from_slot(&mut self, name: &str, from: usize) -> (r: Result<(), StoreError>)
        requires
            old(self)@.wf(),
            from < old(self)@.names.len(),
        ensures
            final(self)@.wf(),
            final(self)@ == old(self)@.slot_written(name@, from as int),
            match r {
                Ok(_) => old(self)@.slot_refusal(name@, from as int) is None,
                Err(e) => old(self)@.slot_refusal(name@, from as int) == Some(e),
            },
    {
        match self.find(name) {
            None => Err(StoreError::NotRegistered),
            Some(slot) => {
                if slot == from {
                    return Err(StoreError::SameSlot);
                }
                let value = self.read(from).copy();
                assert(self@.values[from as int].wf());
                self.set(name, &value)
            },
        }
    }
}

/// What was registered is what is read, by name and by slot.
pub proof fn law_register_then_get<T>(vars: Vars<T>, name: Seq<char>, init: TensorView<T>)
    requires
        vars.wf(),
        init.wf(),
        vars.slot(name) is None,
    ensures
        ({
            let after = vars.registered(name, init);
            &&& after.wf()
            &&& after.slot(name) == Some(vars.names.len() as int)
            &&& after.values[vars.names.len() as int] == init
        }),
{
    let after = vars.registered(name, init);
    let last = vars.names.len() as int;
    assert(after.wf()) by {
        assert forall|i: int, j: int| 0 <= i < after.names.len() && 0 <= j < after.names.len() && i != j implies
            after.names[i] != after.names[j] by {
            if i == last {
                assert(vars.names.contains(vars.names[j]));
            } else if j == last {
                assert(vars.names.contains(vars.names[i]));
            }
        }
    }
    assert(after.names[last] == name);
    lemma_slot(after, last);
}

/// What is written under a name is what its slot shows, and no other slot changes.
pub proof fn law_set_is_seen_in_the_slot<T>(vars: Vars<T>, name: Seq<char>, value: TensorView<T>)
    requires
        vars.wf(),
        vars.refusal(name, value) is None,
    ensures
        ({
            let after = vars.written(name, value);
            let slot = vars.slot(name)->0;
            &&& after.slot(name) == Some(slot)
            &&& after.values[slot] == value
            &&& forall|i: int| 0 <= i < vars.values.len() && i != slot ==> after.values[i] == vars.values[i]
        }),
{
    let slot = vars.slot(name)->0;
    assert(0 <= slot < vars.names.len() && vars.names[slot] == name);
}

/// What `get` and `register` hand out stays in touch with the store: after any write, the slot of a
/// name is the same, and it shows what was written under the name last.
pub proof fn law_slots_follow_writes<T>(vars: Vars<T>, name: Seq<char>, other: Seq<char>, value: TensorView<T>)
    requires
        vars.wf(),
        vars.slot(name) is Some,
    ensures
        ({
            let after = vars.written(other, value);
            let slot = vars.slot(name)->0;
            &&& after.slot(name) == Some(slot)
            &&& after.values[slot] == if other == name && vars.refusal(other, value) is None {
                value
            } else {
                vars.values[slot]
            }
        }),
{
    let slot = vars.slot(name)->0;
    assert(0 <= slot < vars.names.len() && vars.names[slot] == name);
    if vars.slot(other) is Some {
        let there = vars.slot(other)->0;
        assert(0 <= there < vars.names.len() && vars.names[there] == other);
    }
}

/// A tensor of the store cannot be written over itself, but a copy of it can, and changes nothing.
pub proof fn law_own_tensor_is_refused<T>(vars: Vars<T>, name: Seq<char>)
    requires
        vars.wf(),
        vars.slot(name) is Some,
    ensures
        ({
            let slot = vars.slot(name)->0;
            &&& vars.slot_refusal(name, slot) == Some(StoreError::SameSlot)
            &&& vars.slot_written(name, slot) == vars
            &&& vars.refusal(name, vars.values[slot]) is None
            &&& vars.written(name, vars.values[slot]) == vars
        }),
{
    let slot = vars.slot(name)->0;
    assert(0 <= slot < vars.names.len());
    assert(vars.written(name, vars.values[slot]) =~= vars);
}

} // verus!
