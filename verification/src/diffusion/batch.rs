//! Batches: which labels and which inputs go together.

use vstd::prelude::*;

use crate::matrix::grid;
use crate::numbers::{Arithmetic, Question};
use crate::rows::append_row;

verus! {

/// The class that stands for no class at all.
pub const NULL_CLASS: i32 = 10;

/// The labels of the chosen images.
pub open spec fn labels_at(labels: Seq<u8>, indices: Seq<u32>) -> Seq<u8> {
    indices.map_values(|i: u32| labels[i as int])
}

/// Gathers the labels of the chosen images, so that images and labels stay together.
pub fn gather_labels(labels: &Vec<u8>, indices: &Vec<u32>) -> (r: Vec<u8>)
    requires
        forall|k: int| 0 <= k < indices@.len() ==> (#[trigger] indices@[k]) < labels@.len(),
    ensures
        r@ == labels_at(labels@, indices@),
{
    let ghost goal = labels_at(labels@, indices@);
    let mut out: Vec<u8> = Vec::new();
    let mut k: usize = 0;
    assert(goal.take(0) =~= Seq::<u8>::empty());
    while k < indices.len()
        invariant
            k <= indices@.len(),
            goal == labels_at(labels@, indices@),
            forall|j: int| 0 <= j < indices@.len() ==> (#[trigger] indices@[j]) < labels@.len(),
            out@ == goal.take(k as int),
        decreases indices@.len() - k,
    {
        assert(indices@[k as int] < labels@.len());
        let at: usize = indices[k] as usize;
        out.push(labels[at]);
        k += 1;
        assert(out@ =~= goal.take(k as int));
    }
    assert(goal.take(k as int) =~= goal);
    out
}

/// A label, or no class where the draw is below the drop rate.
pub open spec fn label_or_none<N: Arithmetic>(n: &N, label: u8, draw: N::Num, drop_rate: N::Num) -> i32 {
    if n.answer(Question::Less(draw, drop_rate)) {
        NULL_CLASS
    } else {
        label as i32
    }
}

/// Replaces labels by no class where their draws are below the drop rate.
pub fn drop_labels<N: Arithmetic>(n: &N, labels: &Vec<u8>, draws: &Vec<N::Num>, drop_rate: N::Num) -> (r: Vec<i32>)
    requires
        n.wf(),
        draws@.len() == labels@.len(),
    ensures
        r@ == Seq::new(labels@.len(), |i: int| label_or_none(n, labels@[i], draws@[i], drop_rate)),
{
    let ghost goal = Seq::new(labels@.len(), |i: int| label_or_none(n, labels@[i], draws@[i], drop_rate));
    let mut out: Vec<i32> = Vec::new();
    let mut i: usize = 0;
    assert(goal.take(0) =~= Seq::<i32>::empty());
    while i < labels.len()
        invariant
            n.wf(),
            i <= labels@.len(),
            draws@.len() == labels@.len(),
            goal == Seq::new(labels@.len(), |i: int| label_or_none(n, labels@[i], draws@[i], drop_rate)),
            out@ == goal.take(i as int),
        decreases labels@.len() - i,
    {
        if n.ask(Question::Less(draws[i], drop_rate)) {
            out.push(NULL_CLASS);
        } else {
            out.push(labels[i] as i32);
        }
        i += 1;
        assert(out@ =~= goal.take(i as int));
    }
    assert(goal.take(i as int) =~= goal);
    out
}

/// What goes into a network: the pixels, the noise level and the class of every image side by side.
pub open spec fn inputs_of<T>(images: Seq<Seq<T>>, times: Seq<Seq<T>>, classes: Seq<Seq<T>>) -> Seq<Seq<T>> {
    Seq::new(images.len(), |i: int| images[i] + times[i] + classes[i])
}

/// Puts the pixels, the noise level and the class of every image side by side.
pub fn join_inputs<T: Copy>(images: &Vec<Vec<T>>, times: &Vec<Vec<T>>, classes: &Vec<Vec<T>>) -> (r: Vec<Vec<T>>)
    requires
        times@.len() == images@.len(),
        classes@.len() == images@.len(),
    ensures
        grid(r@) == inputs_of(grid(images@), grid(times@), grid(classes@)),
{
    let ghost goal = inputs_of(grid(images@), grid(times@), grid(classes@));
    let mut out: Vec<Vec<T>> = Vec::new();
    let mut i: usize = 0;
    assert(grid(out@) =~= goal.take(0));
    while i < images.len()
        invariant
            i <= images@.len(),
            times@.len() == images@.len(),
            classes@.len() == images@.len(),
            goal == inputs_of(grid(images@), grid(times@), grid(classes@)),
            grid(out@) == goal.take(i as int),
        decreases images@.len() - i,
    {
        let ghost before = grid(out@);
        let mut row: Vec<T> = Vec::new();
        append_row(&mut row, &images[i]);
        append_row(&mut row, &times[i]);
        append_row(&mut row, &classes[i]);
        assert(row@ =~= goal[i as int]);
        out.push(row);
        assert(grid(out@) =~= before.push(row@));
        i += 1;
        assert(grid(out@) =~= goal.take(i as int));
    }
    assert(goal.take(i as int) =~= goal);
    out
}

/// Each part of an input can be found again at its place.
pub proof fn law_inputs_keep_their_parts<T>(
    images: Seq<Seq<T>>,
    times: Seq<Seq<T>>,
    classes: Seq<Seq<T>>,
    i: int,
)
    requires
        0 <= i < images.len(),
    ensures
        ({
            let input = inputs_of(images, times, classes)[i];
            let a = images[i].len() as int;
            let b = a + times[i].len();
            &&& input.len() == b + classes[i].len()
            &&& input.take(a) == images[i]
            &&& input.subrange(a, b) == times[i]
            &&& input.skip(b) == classes[i]
        }),
{
    let input = inputs_of(images, times, classes)[i];
    let a = images[i].len() as int;
    let b = a + times[i].len();
    assert(input.take(a) =~= images[i]);
    assert(input.subrange(a, b) =~= times[i]);
    assert(input.skip(b) =~= classes[i]);
}

} // verus!
