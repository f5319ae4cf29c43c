//! How good predictions are, and which batch comes when.

use vstd::prelude::*;

use crate::dataloader::{law_counted_windows_fit, window_pair, DataLoader};
use crate::ieee::{greater_single, single_greater, single_is_nan};
use crate::loss::{cross_entropy_loss, summed_loss, targets_inside};
use crate::matrix::grid;
use crate::numbers::{zero, Arithmetic, Term};

verus! {

/// The bit pattern of negative infinity in single precision.
pub const LOWEST: u32 = 0xFF80_0000;

/// The targets of window `i`.
pub open spec fn targets_of(loader: DataLoader, i: int) -> Seq<usize> {
    window_pair(loader.token_ids@, loader.max_length as nat, i * loader.stride).1
}

/// The mean loss of the predictions for one window.
pub open spec fn window_loss<N: Arithmetic>(n: &N, logits: Seq<Seq<N::Num>>, targets: Seq<usize>) -> N::Num {
    n.value(Term::Div(summed_loss(n, logits, targets, logits.len()), n.value(Term::Count(logits.len() as usize))))
}

/// How many windows are looked at: `num_batches`, at least one, and no more than there are.
pub open spec fn batches(count: nat, num_batches: nat) -> nat {
    let wanted = if num_batches == 0 {
        1
    } else {
        num_batches
    };
    if count < wanted {
        count
    } else {
        wanted
    }
}

/// The losses of the first `k` windows, added up.
pub open spec fn summed_windows<N: Arithmetic>(
    n: &N,
    logits: Seq<Vec<Vec<N::Num>>>,
    loader: DataLoader,
    k: nat,
) -> N::Num
    decreases k,
{
    if k == 0 {
        zero(n)
    } else {
        n.value(
            Term::Add(
                summed_windows(n, logits, loader, (k - 1) as nat),
                window_loss(n, grid(logits[k - 1]@), targets_of(loader, k - 1)),
            ),
        )
    }
}

/// Whether there are predictions for each of the first `k` windows, one for each target.
pub open spec fn predictions_fit<T>(logits: Seq<Vec<Vec<T>>>, loader: DataLoader, k: nat) -> bool {
    &&& logits.len() >= k
    &&& forall|i: int|
        0 <= i < k ==> (#[trigger] logits[i])@.len() == loader.max_length && targets_inside(
            grid(logits[i]@),
            targets_of(loader, i),
        )
}

/// How many of the windows of a loader are looked at.
pub fn batch_count(loader: &DataLoader, num_batches: usize) -> (r: usize)
    requires
        loader.countable(),
    ensures
        r == batches(loader.count(), num_batches as nat),
{
    let count: usize = loader.len();
    let wanted: usize = if num_batches == 0 {
        1
    } else {
        num_batches
    };
    if count < wanted {
        count
    } else {
        wanted
    }
}

/// The mean loss over the first windows of a loader, from what a model predicted for each of them.
/// Zero if there are no windows.
pub fn calc_loss_loader<N: Arithmetic>(
    n: &N,
    logits: &Vec<Vec<Vec<N::Num>>>,
    data_loader: &DataLoader,
    num_batches: usize,
) -> (r: N::Num)
    requires
        n.wf(),
        data_loader.countable(),
        predictions_fit(logits@, *data_loader, batches(data_loader.count(), num_batches as nat)),
    ensures
        ({
            let count = batches(data_loader.count(), num_batches as nat);
            r == if count == 0 {
                zero(n)
            } else {
                n.value(
                    Term::Div(
                        summed_windows(n, logits@, *data_loader, count),
                        n.value(Term::Count(count as usize)),
                    ),
                )
            }
        }),
{
    let wanted: usize = batch_count(data_loader, num_batches);
    let mut total_loss = n.eval(Term::Decimal(0, 0));
    let mut count: usize = 0;
    while count < wanted
        invariant
            n.wf(),
            data_loader.countable(),
            count <= wanted,
            wanted == batches(data_loader.count(), num_batches as nat),
            predictions_fit(logits@, *data_loader, wanted as nat),
            total_loss == summed_windows(n, logits@, *data_loader, count as nat),
        decreases wanted - count,
    {
        proof {
            law_counted_windows_fit(
                data_loader.token_ids@.len(),
                data_loader.max_length as nat,
                data_loader.stride as nat,
                count as nat,
            );
        }
        let (_, targets) = data_loader.get_item(count);
        assert(logits@[count as int]@.len() == data_loader.max_length);
        assert(targets@ == targets_of(*data_loader, count as int));
        assert(targets@.len() == data_loader.max_length);
        let loss = cross_entropy_loss(n, &logits[count], &targets);
        total_loss = n.eval(Term::Add(total_loss, loss));
        count += 1;
    }
    if count == 0 {
        n.eval(Term::Decimal(0, 0))
    } else {
        n.eval(Term::Div(total_loss, n.eval(Term::Count(count))))
    }
}

/// The place of the greatest of the first `k` scores, the first one of several, and that score.
pub open spec fn best_of(scores: Seq<u32>, k: nat) -> (nat, u32)
    decreases k,
{
    if k == 0 {
        (0, LOWEST)
    } else {
        let before = best_of(scores, (k - 1) as nat);
        if single_greater(scores[k - 1], before.1) {
            ((k - 1) as nat, scores[k - 1])
        } else {
            before
        }
    }
}

/// The token that a row of scores predicts.
pub open spec fn predicted(scores: Seq<u32>) -> nat {
    best_of(scores, scores.len()).0
}

/// The token that a row of scores predicts: the one with the greatest score, the first of several.
pub fn predict(scores: &Vec<u32>) -> (r: usize)
    ensures
        r == predicted(scores@),
{
    let mut pred_token: usize = 0;
    let mut max_score: u32 = LOWEST;
    let mut k: usize = 0;
    while k < scores.len()
        invariant
            k <= scores@.len(),
            (pred_token as nat, max_score) == best_of(scores@, k as nat),
        decreases scores@.len() - k,
    {
        if greater_single(scores[k], max_score) {
            max_score = scores[k];
            pred_token = k;
        }
        k += 1;
    }
    pred_token
}

/// No score is greater than the predicted one, and all before it are smaller.
pub proof fn law_prediction_is_first_best(scores: Seq<u32>)
    requires
        forall|i: int| 0 <= i < scores.len() ==> !single_is_nan(#[trigger] scores[i]),
        exists|i: int| 0 <= i < scores.len() && single_greater(#[trigger] scores[i], LOWEST),
    ensures
        predicted(scores) < scores.len(),
        forall|i: int| 0 <= i < scores.len() ==> !single_greater(#[trigger] scores[i], scores[predicted(scores) as int]),
        forall|i: int| 0 <= i < predicted(scores) ==> single_greater(scores[predicted(scores) as int], #[trigger] scores[i]),
{
    lemma_best_of(scores, scores.len());
    let (p, m) = best_of(scores, scores.len());
    let w = choose|i: int| 0 <= i < scores.len() && single_greater(#[trigger] scores[i], LOWEST);
    assert(!single_greater(scores[w], m));
    assert(m != LOWEST);
}

proof fn lemma_best_of(scores: Seq<u32>, k: nat)
    requires
        k <= scores.len(),
        forall|i: int| 0 <= i < scores.len() ==> !single_is_nan(#[trigger] scores[i]),
    ensures
        ({
            let (p, m) = best_of(scores, k);
            &&& !single_is_nan(m)
            &&& m != LOWEST ==> p < k && scores[p as int] == m
            &&& forall|i: int| 0 <= i < k ==> !single_greater(#[trigger] scores[i], m)
            &&& m != LOWEST ==> forall|i: int| 0 <= i < p ==> single_greater(m, #[trigger] scores[i])
        }),
    decreases k,
{
    if k > 0 {
        lemma_best_of(scores, (k - 1) as nat);
        let (p, m) = best_of(scores, (k - 1) as nat);
        if single_greater(scores[k - 1], m) {
            assert(scores[k - 1] != LOWEST);
            assert forall|i: int| 0 <= i < k - 1 implies single_greater(scores[k - 1], #[trigger] scores[i]) by {
                assert(!single_greater(scores[i], m));
            }
        }
    }
}

/// How many of the first `k` rows predict their targets.
pub open spec fn hits(rows: Seq<Seq<u32>>, targets: Seq<usize>, k: nat) -> nat
    decreases k,
{
    if k == 0 {
        0
    } else {
        hits(rows, targets, (k - 1) as nat) + if predicted(rows[k - 1]) == targets[k - 1] {
            1nat
        } else {
            0nat
        }
    }
}

/// How many targets of the first `k` windows are predicted.
pub open spec fn window_hits(logits: Seq<Vec<Vec<u32>>>, loader: DataLoader, k: nat) -> nat
    decreases k,
{
    if k == 0 {
        0
    } else {
        window_hits(logits, loader, (k - 1) as nat) + hits(
            grid(logits[k - 1]@),
            targets_of(loader, k - 1),
            loader.max_length as nat,
        )
    }
}

/// The hits are the rows whose greatest score is that of their target.
pub proof fn law_hits_are_counted(rows: Seq<Seq<u32>>, targets: Seq<usize>, k: nat)
    ensures
        Set::new(|i: int| 0 <= i < k && predicted(rows[i]) == targets[i]).finite(),
        hits(rows, targets, k) == Set::new(|i: int| 0 <= i < k && predicted(rows[i]) == targets[i]).len(),
    decreases k,
{
    let all = Set::new(|i: int| 0 <= i < k && predicted(rows[i]) == targets[i]);
    if k == 0 {
        assert(all =~= Set::<int>::empty());
    } else {
        law_hits_are_counted(rows, targets, (k - 1) as nat);
        let fewer = Set::new(|i: int| 0 <= i < k - 1 && predicted(rows[i]) == targets[i]);
        assert(fewer =~= Set::new(|i: int| 0 <= i < (k - 1) as nat && predicted(rows[i]) == targets[i]));
        if predicted(rows[k - 1]) == targets[k - 1] {
            assert(all =~= fewer.insert(k - 1));
        } else {
            assert(all =~= fewer);
        }
    }
}

fn count_hits(rows: &Vec<Vec<u32>>, targets: &Vec<usize>) -> (r: usize)
    requires
        rows@.len() >= targets@.len(),
    ensures
        r == hits(grid(rows@), targets@, targets@.len()),
        r <= targets@.len(),
{
    let ghost all = grid(rows@);
    let mut correct: usize = 0;
    let mut pos: usize = 0;
    while pos < targets.len()
        invariant
            pos <= targets@.len(),
            rows@.len() >= targets@.len(),
            all == grid(rows@),
            correct == hits(all, targets@, pos as nat),
            correct <= pos,
        decreases targets@.len() - pos,
    {
        assert(all[pos as int] == rows@[pos as int]@);
        if predict(&rows[pos]) == targets[pos] {
            correct += 1;
        }
        pos += 1;
    }
    correct
}

/// The share of all targets that is predicted, in percent, from what a model predicted for each
/// window. Zero if there are no targets.
pub fn calc_accuracy<N: Arithmetic>(n: &N, logits: &Vec<Vec<Vec<u32>>>, data_loader: &DataLoader) -> (r: N::Num)
    requires
        n.wf(),
        data_loader.countable(),
        logits@.len() >= data_loader.count(),
        forall|i: int| 0 <= i < data_loader.count() ==> (#[trigger] logits@[i])@.len() >= data_loader.max_length,
        data_loader.count() * data_loader.max_length <= usize::MAX,
    ensures
        ({
            let correct = window_hits(logits@, *data_loader, data_loader.count());
            let total = data_loader.count() * data_loader.max_length;
            r == if total == 0 {
                zero(n)
            } else {
                n.value(
                    Term::Mul(
                        n.value(
                            Term::Div(
                                n.value(Term::Count(correct as usize)),
                                n.value(Term::Count(total as usize)),
                            ),
                        ),
                        n.value(Term::Decimal(100, 0)),
                    ),
                )
            }
        }),
{
    let windows: usize = data_loader.len();
    let mut correct: usize = 0;
    let mut total: usize = 0;
    let mut i: usize = 0;
    while i < windows
        invariant
            data_loader.countable(),
            windows == data_loader.count(),
            i <= windows,
            logits@.len() >= windows,
            forall|k: int| 0 <= k < windows ==> (#[trigger] logits@[k])@.len() >= data_loader.max_length,
            windows * data_loader.max_length <= usize::MAX,
            total == i * data_loader.max_length,
            correct == window_hits(logits@, *data_loader, i as nat),
            correct <= total,
        decreases windows - i,
    {
        proof {
            law_counted_windows_fit(
                data_loader.token_ids@.len(),
                data_loader.max_length as nat,
                data_loader.stride as nat,
                i as nat,
            );
        }
        let (_, targets) = data_loader.get_item(i);
        assert(logits@[i as int]@.len() >= data_loader.max_length);
        assert(targets@ == targets_of(*data_loader, i as int));
        assert(targets@.len() == data_loader.max_length);
        assert((i + 1) * data_loader.max_length == i * data_loader.max_length + data_loader.max_length)
            by (nonlinear_arith);
        assert((i + 1) * data_loader.max_length <= windows * data_loader.max_length) by (nonlinear_arith)
            requires
                i + 1 <= windows,
        ;
        let right: usize = count_hits(&logits[i], &targets);
        correct = correct + right;
        total = total + targets.len();
        i += 1;
    }
    if total == 0 {
        n.eval(Term::Decimal(0, 0))
    } else {
        let share = n.eval(Term::Div(n.eval(Term::Count(correct)), n.eval(Term::Count(total))));
        n.eval(Term::Mul(share, n.eval(Term::Decimal(100, 0))))
    }
}

/// Whether losses are reported after an epoch, counted from one: after the first, after every tenth
/// and after the last.
pub open spec fn reported_epoch(epoch: nat, epochs: nat) -> bool {
    epoch == 1 || epoch % 10 == 0 || epoch == epochs
}

/// Whether losses are reported after an epoch.
pub fn reports_after(epoch: usize, epochs: usize) -> (r: bool)
    ensures
        r == reported_epoch(epoch as nat, epochs as nat),
{
    epoch == 1 || epoch % 10 == 0 || epoch == epochs
}

/// Which batch comes when: every batch once in every epoch, and a counter that runs through.
pub struct TrainingClock {
    /// How many epochs there are.
    pub epochs: usize,
    /// How many batches an epoch has.
    pub per_epoch: usize,
    /// The current epoch, counted from one.
    pub epoch: usize,
    /// The next batch.
    pub batch: usize,
    /// How many batches came before.
    pub global_step: usize,
}

/// One batch in its place.
#[derive(Clone, Copy, PartialEq, Eq, Structural)]
pub struct Tick {
    /// The epoch, counted from one.
    pub epoch: usize,
    /// The batch.
    pub batch: usize,
    /// How many batches came before.
    pub global_step: usize,
}

impl TrainingClock {
    /// The counter agrees with epoch and batch.
    pub open spec fn wf(&self) -> bool {
        &&& self.epochs < usize::MAX
        &&& self.epochs * self.per_epoch < usize::MAX
        &&& 1 <= self.epoch <= self.epochs + 1
        &&& self.batch < self.per_epoch || self.batch == 0
        &&& self.epoch == self.epochs + 1 ==> self.batch == 0
        &&& self.global_step == (self.epoch - 1) * self.per_epoch + self.batch
    }

    /// Whether a batch is left.
    pub open spec fn goes_on(&self) -> bool {
        self.per_epoch > 0 && self.epoch <= self.epochs
    }

    /// A clock at the first batch.
    pub fn new(epochs: usize, per_epoch: usize) -> (r: Self)
        requires
            epochs < usize::MAX,
            epochs * per_epoch < usize::MAX,
        ensures
            r.wf(),
            r.epochs == epochs,
            r.per_epoch == per_epoch,
            r.epoch == 1,
            r.batch == 0,
            r.global_step == 0,
    {
        TrainingClock { epochs, per_epoch, epoch: 1, batch: 0, global_step: 0 }
    }

    /// The next batch, if one is left.
    pub fn tick(&mut self) -> (r: Option<Tick>)
        requires
            old(self).wf(),
        ensures
            final(self).wf(),
            final(self).epochs == old(self).epochs,
            final(self).per_epoch == old(self).per_epoch,
            match r {
                Some(t) => {
                    &&& old(self).goes_on()
                    &&& t == (Tick {
                        epoch: old(self).epoch,
                        batch: old(self).batch,
                        global_step: old(self).global_step,
                    })
                    &&& final(self).global_step == old(self).global_step + 1
                    &&& if old(self).batch + 1 < old(self).per_epoch {
                        final(self).epoch == old(self).epoch && final(self).batch == old(self).batch + 1
                    } else {
                        final(self).epoch == old(self).epoch + 1 && final(self).batch == 0
                    }
                },
                None => !old(self).goes_on() && *final(self) == *old(self),
            },
    {
        if self.per_epoch == 0 || self.epoch > self.epochs {
            return None;
        }
        let t = Tick { epoch: self.epoch, batch: self.batch, global_step: self.global_step };
        proof {
            let e = self.epoch as int;
            let p = self.per_epoch as int;
            let all = self.epochs as int;
            assert(e * p == (e - 1) * p + p) by (nonlinear_arith);
            assert(e * p <= all * p) by (nonlinear_arith)
                requires
                    e <= all,
                    p >= 0,
            ;
        }
        self.global_step = self.global_step + 1;
        if self.batch < self.per_epoch - 1 {
            self.batch = self.batch + 1;
        } else {
            self.batch = 0;
            self.epoch = self.epoch + 1;
        }
        Some(t)
    }
}

/// The counter tells epoch and batch apart: the batch is its rest after whole epochs.
pub proof fn law_step_names_epoch_and_batch(clock: TrainingClock)
    requires
        clock.wf(),
        clock.goes_on(),
    ensures
        clock.batch == clock.global_step as int % clock.per_epoch as int,
        clock.epoch == clock.global_step as int / clock.per_epoch as int + 1,
{
    vstd::arithmetic::div_mod::lemma_fundamental_div_mod_converse(
        clock.global_step as int,
        clock.per_epoch as int,
        clock.epoch - 1,
        clock.batch as int,
    );
}

} // verus!
