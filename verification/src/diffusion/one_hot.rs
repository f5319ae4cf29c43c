//! Class labels as rows with a single one, some of them dropped.

use vstd::prelude::*;

use crate::ieee::{greater_single, single_greater, SINGLE_ONE};
use crate::rows::{make_row, uniform_row};

verus! {

/// How many classes there are.
pub const NUM_CLASSES: usize = 10;

/// Whether a label is kept: its draw exceeds the drop rate.
pub open spec fn kept(draws: Seq<u32>, drop_rate: u32, i: int) -> bool {
    single_greater(draws[i], drop_rate)
}

/// The place of label `i` in the flat list of rows.
pub open spec fn place_of(labels: Seq<u8>, i: int) -> int {
    i * NUM_CLASSES + labels[i]
}

/// The flat list of rows after the first `k` labels.
pub open spec fn marked(labels: Seq<u8>, draws: Seq<u32>, drop_rate: u32, k: nat) -> Seq<u32>
    decreases k,
{
    if k == 0 {
        uniform_row(0, labels.len() * NUM_CLASSES as nat)
    } else {
        let before = marked(labels, draws, drop_rate, (k - 1) as nat);
        if kept(draws, drop_rate, k - 1) {
            before.update(place_of(labels, k - 1), SINGLE_ONE)
        } else {
            before
        }
    }
}

proof fn lemma_marked_len(labels: Seq<u8>, draws: Seq<u32>, drop_rate: u32, k: nat)
    requires
        forall|i: int|
            0 <= i < k && kept(draws, drop_rate, i) ==> #[trigger] place_of(labels, i) < labels.len() * NUM_CLASSES,
    ensures
        marked(labels, draws, drop_rate, k).len() == labels.len() * NUM_CLASSES,
    decreases k,
{
    if k > 0 {
        lemma_marked_len(labels, draws, drop_rate, (k - 1) as nat);
        assert(kept(draws, drop_rate, k - 1) ==> place_of(labels, k - 1) < labels.len() * NUM_CLASSES);
    }
}

/// One row for each label, one behind the other: a one at the label, zeros elsewhere. A label whose
/// draw does not exceed the drop rate leaves only zeros. Numbers are bit patterns in single precision.
pub fn make_one_hot_cfg(labels: &Vec<u8>, draws: &Vec<u32>, drop_rate: u32) -> (r: Vec<u32>)
    requires
        draws@.len() == labels@.len(),
        labels@.len() * NUM_CLASSES <= usize::MAX,
        forall|i: int|
            0 <= i < labels@.len() && kept(draws@, drop_rate, i) ==> #[trigger] place_of(labels@, i) < labels@.len()
                * NUM_CLASSES,
    ensures
        r@ == marked(labels@, draws@, drop_rate, labels@.len()),
        r@.len() == labels@.len() * NUM_CLASSES,
{
    let n: usize = labels.len();
    let mut hot: Vec<u32> = make_row(0, n * NUM_CLASSES);
    let mut i: usize = 0;
    while i < n
        invariant
            i <= n,
            n == labels@.len(),
            draws@.len() == n,
            n * NUM_CLASSES <= usize::MAX,
            forall|i: int|
                0 <= i < n && kept(draws@, drop_rate, i) ==> #[trigger] place_of(labels@, i) < n * NUM_CLASSES,
            hot@ == marked(labels@, draws@, drop_rate, i as nat),
        decreases n - i,
    {
        proof {
            lemma_marked_len(labels@, draws@, drop_rate, i as nat);
        }
        if greater_single(draws[i], drop_rate) {
            assert(kept(draws@, drop_rate, i as int));
            assert(place_of(labels@, i as int) < n * NUM_CLASSES);
            let idx: usize = i * NUM_CLASSES + labels[i] as usize;
            hot[idx] = SINGLE_ONE;
        }
        i += 1;
    }
    proof {
        lemma_marked_len(labels@, draws@, drop_rate, n as nat);
    }
    hot
}

/// With labels that name classes, each row has its one exactly at its label if the label is kept, and
/// no one if it is not.
pub proof fn law_one_row_per_label(labels: Seq<u8>, draws: Seq<u32>, drop_rate: u32, i: int, class: int)
    requires
        draws.len() == labels.len(),
        forall|j: int| 0 <= j < labels.len() ==> (#[trigger] labels[j]) < NUM_CLASSES,
        0 <= i < labels.len(),
        0 <= class < NUM_CLASSES,
    ensures
        marked(labels, draws, drop_rate, labels.len())[i * NUM_CLASSES + class] == if kept(draws, drop_rate, i)
            && labels[i] == class {
            SINGLE_ONE
        } else {
            0
        },
{
    lemma_marked(labels, draws, drop_rate, labels.len(), i, class);
}

proof fn lemma_marked(labels: Seq<u8>, draws: Seq<u32>, drop_rate: u32, k: nat, i: int, class: int)
    requires
        k <= labels.len(),
        draws.len() == labels.len(),
        forall|j: int| 0 <= j < labels.len() ==> (#[trigger] labels[j]) < NUM_CLASSES,
        0 <= i < labels.len(),
        0 <= class < NUM_CLASSES,
    ensures
        marked(labels, draws, drop_rate, k)[i * NUM_CLASSES + class] == if i < k && kept(draws, drop_rate, i)
            && labels[i] == class {
            SINGLE_ONE
        } else {
            0
        },
    decreases k,
{
    assert forall|j: int| 0 <= j < k && kept(draws, drop_rate, j) implies #[trigger] place_of(labels, j)
        < labels.len() * NUM_CLASSES by {
        assert(labels[j] < NUM_CLASSES);
    }
    lemma_marked_len(labels, draws, drop_rate, k);
    if k > 0 {
        lemma_marked_len(labels, draws, drop_rate, (k - 1) as nat);
        lemma_marked(labels, draws, drop_rate, (k - 1) as nat, i, class);
        assert(labels[k - 1] < NUM_CLASSES);
    }
}

} // verus!
