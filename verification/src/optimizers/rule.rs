//! Element-by-element changes of matrices and parameters.

use vstd::prelude::*;

use crate::matrix::grid;
use crate::param::{fill_like, filled, Param};

verus! {

/// A change of single numbers.
pub trait ElementMap {
    /// The numbers.
    type Num: Copy;

    /// The change can be made.
    spec fn ready(&self) -> bool;

    /// What a number is changed to.
    spec fn image(&self, x: Self::Num) -> Self::Num;

    /// Changes a number.
    fn apply(&self, x: Self::Num) -> (r: Self::Num)
        requires
            self.ready(),
        ensures
            r == self.image(x),
    ;
}

/// A matrix with every element changed.
pub open spec fn mapped<M: ElementMap>(m: &M, rows: Seq<Seq<M::Num>>) -> Seq<Seq<M::Num>> {
    rows.map_values(|row: Seq<M::Num>| row.map_values(|x: M::Num| m.image(x)))
}

/// Changes every element of a matrix.
pub fn map_grid<M: ElementMap>(m: &M, rows: &mut Vec<Vec<M::Num>>)
    requires
        m.ready(),
    ensures
        grid(final(rows)@) == mapped(m, grid(old(rows)@)),
{
    let ghost before = grid(rows@);
    let mut i: usize = 0;
    while i < rows.len()
        invariant
            m.ready(),
            i <= rows@.len(),
            rows@.len() == before.len(),
            before == grid(old(rows)@),
            forall|k: int| 0 <= k < i ==> (#[trigger] rows@[k])@ == mapped(m, before)[k],
            forall|k: int| i <= k < rows@.len() ==> (#[trigger] rows@[k])@ == before[k],
        decreases rows@.len() - i,
    {
        let len: usize = rows[i].len();
        let mut j: usize = 0;
        while j < len
            invariant
                m.ready(),
                i < rows@.len(),
                j <= len,
                rows@.len() == before.len(),
                len == before[i as int].len(),
                rows@[i as int]@.len() == len,
                forall|k: int| 0 <= k < i ==> (#[trigger] rows@[k])@ == mapped(m, before)[k],
                forall|k: int| i < k < rows@.len() ==> (#[trigger] rows@[k])@ == before[k],
                forall|k: int| 0 <= k < j ==> #[trigger] rows@[i as int]@[k] == m.image(before[i as int][k]),
                forall|k: int| j <= k < len ==> #[trigger] rows@[i as int]@[k] == before[i as int][k],
            decreases len - j,
        {
            let x = rows[i][j];
            rows[i][j] = m.apply(x);
            j += 1;
        }
        assert(rows@[i as int]@ =~= mapped(m, before)[i as int]);
        i += 1;
    }
    assert(grid(rows@) =~= mapped(m, before));
}

/// A step of an optimizer for single numbers: from what is remembered for a number, the number and
/// its gradient, to what is remembered next and the next number.
pub trait Rule {
    /// The numbers.
    type Num: Copy;

    /// What is remembered for each number.
    type Slot: Copy;

    /// The step can be taken.
    spec fn ready(&self) -> bool;

    /// What is remembered next, and the next number.
    spec fn next(&self, slot: Self::Slot, value: Self::Num, grad: Self::Num) -> (Self::Slot, Self::Num);

    /// Takes the step.
    fn apply(&self, slot: Self::Slot, value: Self::Num, grad: Self::Num) -> (r: (Self::Slot, Self::Num))
        requires
            self.ready(),
        ensures
            r == self.next(slot, value, grad),
    ;
}

/// Whether there is an element in `other` for every element of `data`.
pub open spec fn matches_data<T, U>(data: Seq<Seq<T>>, other: Seq<Seq<U>>) -> bool {
    other.len() >= data.len() && forall|i: int|
        0 <= i < data.len() ==> (#[trigger] other[i]).len() >= data[i].len()
}

/// The values after a step.
pub open spec fn next_values<R: Rule>(
    rule: &R,
    slots: Seq<Seq<R::Slot>>,
    data: Seq<Seq<R::Num>>,
    grad: Seq<Seq<R::Num>>,
) -> Seq<Seq<R::Num>> {
    Seq::new(
        data.len(),
        |i: int| Seq::new(data[i].len(), |j: int| rule.next(slots[i][j], data[i][j], grad[i][j]).1),
    )
}

/// What is remembered after a step. Places without a value stay as they are.
pub open spec fn next_slots<R: Rule>(
    rule: &R,
    slots: Seq<Seq<R::Slot>>,
    data: Seq<Seq<R::Num>>,
    grad: Seq<Seq<R::Num>>,
) -> Seq<Seq<R::Slot>> {
    Seq::new(
        slots.len(),
        |i: int|
            Seq::new(
                slots[i].len(),
                |j: int|
                    if i < data.len() && j < data[i].len() {
                        rule.next(slots[i][j], data[i][j], grad[i][j]).0
                    } else {
                        slots[i][j]
                    },
            ),
    )
}

/// Takes a step for every value of a parameter.
pub fn step_param<R: Rule>(rule: &R, slots: &mut Vec<Vec<R::Slot>>, param: &mut Param<R::Num>)
    requires
        rule.ready(),
        matches_data(grid(old(param).data@), grid(old(param).grad@)),
        matches_data(grid(old(param).data@), grid(old(slots)@)),
    ensures
        final(param).grad == old(param).grad,
        grid(final(param).data@) == next_values(
            rule,
            grid(old(slots)@),
            grid(old(param).data@),
            grid(old(param).grad@),
        ),
        grid(final(slots)@) == next_slots(rule, grid(old(slots)@), grid(old(param).data@), grid(old(param).grad@)),
{
    let ghost slots0 = grid(slots@);
    let ghost data0 = grid(param.data@);
    let ghost grad0 = grid(param.grad@);
    let ghost new_data = next_values(rule, slots0, data0, grad0);
    let ghost new_slots = next_slots(rule, slots0, data0, grad0);
    let mut i: usize = 0;
    while i < param.data.len()
        invariant
            rule.ready(),
            data0 == grid(old(param).data@),
            grad0 == grid(old(param).grad@),
            slots0 == grid(old(slots)@),
            new_data == next_values(rule, slots0, data0, grad0),
            new_slots == next_slots(rule, slots0, data0, grad0),
            matches_data(data0, grad0),
            matches_data(data0, slots0),
            param.grad == old(param).grad,
            i <= param.data@.len(),
            param.data@.len() == data0.len(),
            slots@.len() == slots0.len(),
            forall|k: int| 0 <= k < i ==> (#[trigger] param.data@[k])@ == new_data[k],
            forall|k: int| i <= k < data0.len() ==> (#[trigger] param.data@[k])@ == data0[k],
            forall|k: int| 0 <= k < i ==> (#[trigger] slots@[k])@ == new_slots[k],
            forall|k: int| i <= k < slots0.len() ==> (#[trigger] slots@[k])@ == slots0[k],
        decreases param.data@.len() - i,
    {
        let len: usize = param.data[i].len();
        assert(grad0[i as int].len() >= data0[i as int].len());
        assert(slots0[i as int].len() >= data0[i as int].len());
        assert(grad0[i as int] == param.grad@[i as int]@);
        let mut j: usize = 0;
        while j < len
            invariant
                rule.ready(),
                data0 == grid(old(param).data@),
                grad0 == grid(old(param).grad@),
                slots0 == grid(old(slots)@),
                new_data == next_values(rule, slots0, data0, grad0),
                new_slots == next_slots(rule, slots0, data0, grad0),
                param.grad == old(param).grad,
                i < param.data@.len(),
                param.data@.len() == data0.len(),
                slots@.len() == slots0.len(),
                slots0.len() >= data0.len(),
                grad0.len() >= data0.len(),
                grad0[i as int].len() >= len,
                slots0[i as int].len() >= len,
                grad0[i as int] == param.grad@[i as int]@,
                len == data0[i as int].len(),
                j <= len,
                forall|k: int| 0 <= k < i ==> (#[trigger] param.data@[k])@ == new_data[k],
                forall|k: int| i < k < data0.len() ==> (#[trigger] param.data@[k])@ == data0[k],
                forall|k: int| 0 <= k < i ==> (#[trigger] slots@[k])@ == new_slots[k],
                forall|k: int| i < k < slots0.len() ==> (#[trigger] slots@[k])@ == slots0[k],
                param.data@[i as int]@.len() == len,
                slots@[i as int]@.len() == slots0[i as int].len(),
                forall|k: int| 0 <= k < j ==> #[trigger] param.data@[i as int]@[k] == new_data[i as int][k],
                forall|k: int| j <= k < len ==> #[trigger] param.data@[i as int]@[k] == data0[i as int][k],
                forall|k: int| 0 <= k < j ==> #[trigger] slots@[i as int]@[k] == new_slots[i as int][k],
                forall|k: int|
                    j <= k < slots0[i as int].len() ==> #[trigger] slots@[i as int]@[k] == slots0[i as int][k],
            decreases len - j,
        {
            let (slot, value) = rule.apply(slots[i][j], param.data[i][j], param.grad[i][j]);
            slots[i][j] = slot;
            param.data[i][j] = value;
            j += 1;
        }
        assert(param.data@[i as int]@ =~= new_data[i as int]);
        assert(slots@[i as int]@ =~= new_slots[i as int]) by {
            assert forall|k: int| len <= k < slots0[i as int].len() implies slots@[i as int]@[k]
                == new_slots[i as int][k] by {
                assert(slots@[i as int]@[k] == slots0[i as int][k]);
            }
        }
        i += 1;
    }
    assert(grid(param.data@) =~= new_data);
    assert(grid(slots@) =~= new_slots) by {
        assert forall|k: int| 0 <= k < slots0.len() implies grid(slots@)[k] == new_slots[k] by {
            if k >= data0.len() {
                assert(slots@[k]@ == slots0[k]);
                assert(new_slots[k] =~= slots0[k]);
            } else {
                assert(slots@[k]@ == new_slots[k]);
            }
        }
    }
}

/// The matrices of a list of matrices.
pub open spec fn cube<T>(list: Seq<Vec<Vec<T>>>) -> Seq<Seq<Seq<T>>> {
    list.map_values(|m: Vec<Vec<T>>| grid(m@))
}

/// The values of a list of parameters.
pub open spec fn values_of<T>(params: Seq<&mut Param<T>>) -> Seq<Seq<Seq<T>>> {
    Seq::new(params.len(), |k: int| grid(params[k].data@))
}

/// The gradients of a list of parameters.
pub open spec fn grads_of<T>(params: Seq<&mut Param<T>>) -> Seq<Seq<Seq<T>>> {
    Seq::new(params.len(), |k: int| grid(params[k].grad@))
}

/// Whether there is a gradient and a place to remember something for every value.
pub open spec fn fits<T, S>(slots: Seq<Seq<Seq<S>>>, values: Seq<Seq<Seq<T>>>, grads: Seq<Seq<Seq<T>>>) -> bool {
    &&& slots.len() >= values.len()
    &&& grads.len() == values.len()
    &&& forall|k: int|
        0 <= k < values.len() ==> matches_data(values[k], #[trigger] grads[k]) && matches_data(values[k], slots[k])
}

/// The values of all parameters after a step.
pub open spec fn all_next_values<R: Rule>(
    rule: &R,
    slots: Seq<Seq<Seq<R::Slot>>>,
    values: Seq<Seq<Seq<R::Num>>>,
    grads: Seq<Seq<Seq<R::Num>>>,
) -> Seq<Seq<Seq<R::Num>>> {
    Seq::new(values.len(), |k: int| next_values(rule, slots[k], values[k], grads[k]))
}

/// What is remembered for all parameters after a step.
pub open spec fn all_next_slots<R: Rule>(
    rule: &R,
    slots: Seq<Seq<Seq<R::Slot>>>,
    values: Seq<Seq<Seq<R::Num>>>,
    grads: Seq<Seq<Seq<R::Num>>>,
) -> Seq<Seq<Seq<R::Slot>>> {
    Seq::new(
        slots.len(),
        |k: int|
            if k < values.len() {
                next_slots(rule, slots[k], values[k], grads[k])
            } else {
                slots[k]
            },
    )
}

/// Takes a step for every value of every parameter.
pub fn step_params<R: Rule>(rule: &R, slots: &mut Vec<Vec<Vec<R::Slot>>>, params: &mut Vec<&mut Param<R::Num>>)
    requires
        rule.ready(),
        fits(cube(old(slots)@), values_of(old(params)@), grads_of(old(params)@)),
    ensures
        final(params)@.len() == old(params)@.len(),
        forall|k: int|
            0 <= k < old(params)@.len() ==> *final(#[trigger] final(params)@[k]) == *final(old(params)@[k]),
        grads_of(final(params)@) == grads_of(old(params)@),
        values_of(final(params)@) == all_next_values(
            rule,
            cube(old(slots)@),
            values_of(old(params)@),
            grads_of(old(params)@),
        ),
        cube(final(slots)@) == all_next_slots(
            rule,
            cube(old(slots)@),
            values_of(old(params)@),
            grads_of(old(params)@),
        ),
{
    let ghost slots0 = cube(slots@);
    let ghost values0 = values_of(params@);
    let ghost grads0 = grads_of(params@);
    let ghost new_values = all_next_values(rule, slots0, values0, grads0);
    let ghost new_slots = all_next_slots(rule, slots0, values0, grads0);
    let mut k: usize = 0;
    while k < params.len()
        invariant
            rule.ready(),
            fits(slots0, values0, grads0),
            new_values == all_next_values(rule, slots0, values0, grads0),
            new_slots == all_next_slots(rule, slots0, values0, grads0),
            slots0.len() == slots@.len(),
            values0.len() == params@.len(),
            params@.len() == old(params)@.len(),
            k <= params@.len(),
            forall|q: int|
                0 <= q < params@.len() ==> *final(#[trigger] params@[q]) == *final(old(params)@[q]),
            forall|q: int| #![trigger params@[q]] 0 <= q < params@.len() ==> grid(params@[q].grad@) == grads0[q],
            forall|q: int| #![trigger params@[q]] 0 <= q < k ==> grid(params@[q].data@) == new_values[q],
            forall|q: int|
                #![trigger params@[q]]
                k <= q < params@.len() ==> grid(params@[q].data@) == values0[q],
            forall|q: int| 0 <= q < k ==> grid((#[trigger] slots@[q])@) == new_slots[q],
            forall|q: int| k <= q < slots@.len() ==> grid((#[trigger] slots@[q])@) == slots0[q],
        decreases params@.len() - k,
    {
        assert(grid(params@[k as int].grad@) == grads0[k as int]);
        assert(grid(params@[k as int].data@) == values0[k as int]);
        assert(grid(slots@[k as int]@) == slots0[k as int]);
        step_param(rule, &mut slots[k], &mut *params[k]);
        k += 1;
    }
    assert(grads_of(params@) =~= grads0);
    assert(values_of(params@) =~= new_values);
    assert(cube(slots@) =~= new_slots);
}

/// What is remembered, or, where nothing is remembered yet, `fill` for every value.
pub open spec fn primed<T, S>(slots: Seq<Seq<Seq<S>>>, values: Seq<Seq<Seq<T>>>, fill: S) -> Seq<Seq<Seq<S>>> {
    if slots.len() == 0 {
        values.map_values(|v: Seq<Seq<T>>| filled(v, fill))
    } else {
        slots
    }
}

/// Starts to remember `fill` for every value where nothing is remembered yet.
pub fn prime<T, S: Copy>(slots: &mut Vec<Vec<Vec<S>>>, params: &Vec<&mut Param<T>>, fill: S)
    ensures
        cube(final(slots)@) == primed(cube(old(slots)@), values_of(params@), fill),
{
    if slots.len() > 0 {
        return;
    }
    let ghost goal = primed(cube(slots@), values_of(params@), fill);
    let mut k: usize = 0;
    assert(cube(slots@) =~= goal.take(0));
    while k < params.len()
        invariant
            k <= params@.len(),
            goal == values_of(params@).map_values(|v: Seq<Seq<T>>| filled(v, fill)),
            cube(slots@) == goal.take(k as int),
        decreases params@.len() - k,
    {
        let ghost before = cube(slots@);
        let zeros = fill_like(&params[k].data, fill);
        assert(values_of(params@)[k as int] == grid(params@[k as int].data@));
        slots.push(zeros);
        assert(cube(slots@) =~= before.push(grid(zeros@)));
        k += 1;
        assert(cube(slots@) =~= goal.take(k as int));
    }
    assert(goal.take(k as int) =~= goal);
}

/// Remembering something for every value fits the values.
pub proof fn lemma_primed_fits<T, S>(
    slots: Seq<Seq<Seq<S>>>,
    values: Seq<Seq<Seq<T>>>,
    grads: Seq<Seq<Seq<T>>>,
    fill: S,
)
    requires
        grads_match(values, grads),
        slots.len() > 0 ==> fits(slots, values, grads),
    ensures
        fits(primed(slots, values, fill), values, grads),
{
}

/// Whether there is a gradient for every value.
pub open spec fn grads_match<T>(values: Seq<Seq<Seq<T>>>, grads: Seq<Seq<Seq<T>>>) -> bool {
    grads.len() == values.len() && forall|k: int| 0 <= k < values.len() ==> matches_data(values[k], #[trigger] grads[k])
}

/// Whether a step can be taken: there is a gradient for every value, and what is remembered, if
/// anything, belongs to these parameters.
pub open spec fn can_step<T, S>(
    slots: Seq<Seq<Seq<S>>>,
    values: Seq<Seq<Seq<T>>>,
    grads: Seq<Seq<Seq<T>>>,
) -> bool {
    grads_match(values, grads) && (slots.len() > 0 ==> fits(slots, values, grads))
}

} // verus!
