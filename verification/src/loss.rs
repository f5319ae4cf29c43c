//! Cross-entropy loss.

use vstd::prelude::*;

use crate::activation::{are_scores, law_softmax_shares_out, shares_of, softmax, softmaxed};
use crate::matrix::grid;
use crate::numbers::{one, zero, Arithmetic, Term};
use crate::reals::{exact, lemma_sum_add, lemma_sum_same, lemma_sum_scale, lemma_sum_single, lemma_zero, rpow, sum_of, Reals};

verus! {

/// Whether every one of the first `rows` rows has an element at its target.
pub open spec fn targets_inside<T>(logits: Seq<Seq<T>>, targets: Seq<usize>) -> bool {
    targets.len() >= logits.len() && forall|i: int|
        0 <= i < logits.len() ==> (#[trigger] targets[i]) < logits[i].len()
}

/// The negative logarithm of the probability that a row gives to its target.
pub open spec fn row_loss<N: Arithmetic>(n: &N, row: Seq<N::Num>, target: usize) -> N::Num {
    n.value(
        Term::Neg(
            n.value(Term::Ln(n.value(Term::Add(softmaxed(n, row)[target as int], n.value(Term::Decimal(1, 8)))))),
        ),
    )
}

/// The losses of the first `k` rows, added up.
pub open spec fn summed_loss<N: Arithmetic>(n: &N, logits: Seq<Seq<N::Num>>, targets: Seq<usize>, k: nat) -> N::Num
    decreases k,
{
    if k == 0 {
        zero(n)
    } else {
        n.value(
            Term::Add(summed_loss(n, logits, targets, (k - 1) as nat), row_loss(n, logits[k - 1], targets[k - 1])),
        )
    }
}

/// The mean loss of all rows.
pub open spec fn mean_loss<N: Arithmetic>(n: &N, logits: Seq<Seq<N::Num>>, targets: Seq<usize>) -> N::Num {
    n.value(
        Term::Div(summed_loss(n, logits, targets, logits.len()), n.value(Term::Count(logits.len() as usize))),
    )
}

/// The mean loss of a sequence of predictions.
pub fn cross_entropy_loss<N: Arithmetic>(n: &N, logits: &Vec<Vec<N::Num>>, targets: &Vec<usize>) -> (r: N::Num)
    requires
        n.wf(),
        logits@.len() == targets@.len(),
        targets_inside(grid(logits@), targets@),
    ensures
        r == mean_loss(n, grid(logits@), targets@),
        forall|q: Reals<N::Num>|
            #![trigger exact(n, q)]
            exact(n, q) && can_predict(n, q, grid(logits@), targets@) ==> is_mean_loss(n, q, grid(logits@), targets@, r),
{
    let ghost rows = grid(logits@);
    let mut total_loss = n.eval(Term::Decimal(0, 0));
    let mut i: usize = 0;
    while i < logits.len()
        invariant
            n.wf(),
            rows == grid(logits@),
            targets_inside(rows, targets@),
            i <= logits@.len(),
            total_loss == summed_loss(n, rows, targets@, i as nat),
        decreases logits@.len() - i,
    {
        assert(rows[i as int] == logits@[i as int]@);
        let probs = softmax(n, &logits[i]);
        let target_id: usize = targets[i];
        assert(targets@[i as int] < rows[i as int].len());
        let tiny = n.eval(Term::Decimal(1, 8));
        let log = n.eval(Term::Ln(n.eval(Term::Add(probs[target_id], tiny))));
        let loss = n.eval(Term::Neg(log));
        total_loss = n.eval(Term::Add(total_loss, loss));
        i += 1;
    }
    let rows_seen = n.eval(Term::Count(logits.len()));
    let mean = n.eval(Term::Div(total_loss, rows_seen));
    proof {
        assert forall|q: Reals<N::Num>|
            #![trigger exact(n, q)]
            exact(n, q) && can_predict(n, q, rows, targets@) implies is_mean_loss(n, q, rows, targets@, mean) by {
            law_mean_loss(n, q, rows, targets@);
        }
    }
    mean
}

/// The gradient of one row: the probabilities, less one at the target, shared out over `count` rows.
pub open spec fn row_gradient<N: Arithmetic>(n: &N, row: Seq<N::Num>, target: usize, count: usize) -> Seq<N::Num> {
    let probs = softmaxed(n, row);
    let lowered = probs.update(target as int, n.value(Term::Sub(probs[target as int], one(n))));
    lowered.map_values(|g: N::Num| n.value(Term::Div(g, n.value(Term::Count(count)))))
}

/// The gradients of all rows.
pub open spec fn loss_gradient<N: Arithmetic>(n: &N, logits: Seq<Seq<N::Num>>, targets: Seq<usize>) -> Seq<Seq<N::Num>> {
    Seq::new(logits.len(), |i: int| row_gradient(n, logits[i], targets[i], logits.len() as usize))
}

/// The gradient of the mean loss with respect to the raw scores.
pub fn cross_entropy_backward<N: Arithmetic>(n: &N, logits: &Vec<Vec<N::Num>>, targets: &Vec<usize>) -> (r: Vec<
    Vec<N::Num>,
>)
    requires
        n.wf(),
        targets_inside(grid(logits@), targets@),
    ensures
        grid(r@) == loss_gradient(n, grid(logits@), targets@),
        forall|q: Reals<N::Num>|
            #![trigger exact(n, q)]
            exact(n, q) && can_predict(n, q, grid(logits@), targets@) ==> is_loss_gradient(
                n,
                q,
                grid(logits@),
                targets@,
                grid(r@),
            ),
{
    let ghost rows = grid(logits@);
    let ghost goal = loss_gradient(n, rows, targets@);
    let count: usize = logits.len();
    let mut out: Vec<Vec<N::Num>> = Vec::new();
    let mut i: usize = 0;
    while i < count
        invariant
            n.wf(),
            count == logits@.len(),
            rows == grid(logits@),
            goal == loss_gradient(n, rows, targets@),
            targets_inside(rows, targets@),
            i <= count,
            grid(out@) == goal.take(i as int),
        decreases count - i,
    {
        assert(rows[i as int] == logits@[i as int]@);
        let mut row = softmax(n, &logits[i]);
        let ghost probs = row@;
        let target_id: usize = targets[i];
        assert(targets@[i as int] < rows[i as int].len());
        let unit = n.eval(Term::Decimal(1, 0));
        row[target_id] = n.eval(Term::Sub(row[target_id], unit));
        let ghost lowered = row@;
        assert(lowered =~= probs.update(target_id as int, n.value(Term::Sub(probs[target_id as int], one(n)))));
        let mut j: usize = 0;
        while j < row.len()
            invariant
                n.wf(),
                count == logits@.len(),
                j <= row@.len(),
                row@.len() == lowered.len(),
                forall|k: int|
                    0 <= k < j ==> #[trigger] row@[k] == n.value(
                        Term::Div(lowered[k], n.value(Term::Count(count))),
                    ),
                forall|k: int| j <= k < row@.len() ==> #[trigger] row@[k] == lowered[k],
            decreases row@.len() - j,
        {
            let rows_seen = n.eval(Term::Count(count));
            row[j] = n.eval(Term::Div(row[j], rows_seen));
            j += 1;
        }
        assert(row@ =~= goal[i as int]);
        let ghost before = grid(out@);
        out.push(row);
        assert(grid(out@) =~= before.push(row@));
        i += 1;
        assert(grid(out@) =~= goal.take(i as int));
    }
    assert(goal.take(i as int) =~= goal);
    proof {
        assert forall|q: Reals<N::Num>|
            #![trigger exact(n, q)]
            exact(n, q) && can_predict(n, q, rows, targets@) implies is_loss_gradient(n, q, rows, targets@, goal) by {
            law_loss_gradient(n, q, rows, targets@);
        }
    }
    out
}

/// Whether every row holds scores, one of them a real number, and one at its target.
pub open spec fn can_predict<N: Arithmetic>(
    n: &N,
    r: Reals<N::Num>,
    logits: Seq<Seq<N::Num>>,
    targets: Seq<usize>,
) -> bool {
    &&& 0 < logits.len() <= usize::MAX
    &&& targets_inside(logits, targets)
    &&& forall|i: int|
        0 <= i < logits.len() ==> are_scores(n, r, #[trigger] logits[i]) && exists|k: int|
            0 <= k < logits[i].len() && r.holds(#[trigger] logits[i][k])
}

/// The probability that a row gives to its target.
pub open spec fn chance<N: Arithmetic>(n: &N, r: Reals<N::Num>, row: Seq<N::Num>, target: usize) -> real {
    r.at(softmaxed(n, row)[target as int])
}

/// Whether a number is the mean, over all rows, of losses whose negative exponentials are the
/// probabilities of the targets, a hundred-millionth added.
pub open spec fn is_mean_loss<N: Arithmetic>(
    n: &N,
    r: Reals<N::Num>,
    logits: Seq<Seq<N::Num>>,
    targets: Seq<usize>,
    loss: N::Num,
) -> bool {
    exists|parts: Seq<real>|
        #![trigger parts.len()]
        {
            &&& parts.len() == logits.len()
            &&& forall|i: int|
                0 <= i < parts.len() ==> r.exp(-(#[trigger] parts[i])) * rpow(10 as real, 8) == chance(
                    n,
                    r,
                    logits[i],
                    targets[i],
                ) * rpow(10 as real, 8) + 1 as real
            &&& r.holds(loss)
            &&& r.at(loss) * (logits.len() as real) == sum_of(parts.len(), |i: int| parts[i])
        }
}

/// Whether a matrix holds the gradient of the mean loss: for each row, the movement of its loss, times
/// the probability of the target with a hundred-millionth added, is that probability times the
/// movement of the scores, weighed by the gradient and taken once for every row of the mean.
pub open spec fn is_loss_gradient<N: Arithmetic>(
    n: &N,
    r: Reals<N::Num>,
    logits: Seq<Seq<N::Num>>,
    targets: Seq<usize>,
    gradient: Seq<Seq<N::Num>>,
) -> bool {
    &&& gradient.len() == logits.len()
    &&& forall|i: int|
        0 <= i < logits.len() ==> {
            let g = #[trigger] gradient[i];
            let p = chance(n, r, logits[i], targets[i]);
            let step = sum_of(logits[i].len(), |j: int| r.at(g[j]) * r.rate(logits[i][j]));
            &&& g.len() == logits[i].len()
            &&& r.all(g)
            &&& r.rate(row_loss(n, logits[i], targets[i])) * (p * rpow(10 as real, 8) + 1 as real) == p * rpow(
                10 as real,
                8,
            ) * (step * (logits.len() as real))
            &&& sum_of(g.len(), |j: int| r.at(g[j])) == 0 as real
        }
}

/// The loss of a row: its negative exponential is the probability of the target, a hundred-millionth
/// added.
pub proof fn law_row_loss<N: Arithmetic>(n: &N, r: Reals<N::Num>, row: Seq<N::Num>, target: usize, some: int)
    requires
        exact(n, r),
        are_scores(n, r, row),
        0 <= some < row.len(),
        r.holds(row[some]),
        target < row.len(),
    ensures
        r.holds(row_loss(n, row, target)),
        r.exp(-r.at(row_loss(n, row, target))) * rpow(10 as real, 8) == chance(n, r, row, target) * rpow(10 as real, 8)
            + 1 as real,
        r.rate(row_loss(n, row, target)) * (chance(n, r, row, target) * rpow(10 as real, 8) + 1 as real) == chance(
            n,
            r,
            row,
            target,
        ) * rpow(10 as real, 8) * (sum_of(row.len(), |k: int| r.at(softmaxed(n, row)[k]) * r.rate(row[k])) - r.rate(
            row[target as int],
        )),
{
    law_softmax_shares_out(n, r, row, some);
    let y = softmaxed(n, row);
    let t = target as int;
    assert(shares_of(n, r, row, y));
    assert(r.holds(y[t]));
    let tiny = n.value(Term::Decimal(1, 8));
    let shifted = n.value(Term::Add(y[t], tiny));
    let log = n.value(Term::Ln(shifted));
    let ten = rpow(10 as real, 8);
    lemma_ten();
    let small = r.at(tiny);
    assert(small * ten == 1 as real);
    assert(small > 0 as real) by (nonlinear_arith)
        requires
            small * ten == 1 as real,
            ten > 0 as real,
    ;
    let p = r.at(y[t]);
    assert(p >= 0 as real);
    assert(r.at(shifted) == p + small);
    assert(r.holds(log) && r.exp(r.at(log)) == p + small);
    let loss = row_loss(n, row, target);
    assert(r.at(loss) == -r.at(log));
    assert(-r.at(loss) == r.at(log));
    assert((p + small) * ten == p * ten + 1 as real) by (nonlinear_arith)
        requires
            small * ten == 1 as real,
    ;
    let mean = sum_of(row.len(), |k: int| r.at(y[k]) * r.rate(row[k]));
    let d = r.rate(y[t]);
    let c = r.rate(row[t]);
    assert(d == p * (c - mean));
    let dl = r.rate(log);
    assert(dl * (p + small) == d);
    let q = r.rate(loss);
    assert(q * (p * ten + 1 as real) == p * ten * (mean - c)) by (nonlinear_arith)
        requires
            q == -dl,
            dl * (p + small) == d,
            d == p * (c - mean),
            (p + small) * ten == p * ten + 1 as real,
    ;
}

proof fn lemma_ten()
    ensures
        rpow(10 as real, 8) > 0 as real,
{
    lemma_power_positive(10 as real, 8);
}

proof fn lemma_power_positive(x: real, k: nat)
    requires
        x > 0 as real,
    ensures
        rpow(x, k) > 0 as real,
    decreases k,
{
    if k > 0 {
        lemma_power_positive(x, (k - 1) as nat);
        let y = rpow(x, (k - 1) as nat);
        assert(y * x > 0 as real) by (nonlinear_arith)
            requires
                y > 0 as real,
                x > 0 as real,
        ;
    }
}

/// The better of two predictions has the smaller loss.
pub proof fn law_better_prediction_smaller_loss<N: Arithmetic>(
    n: &N,
    r: Reals<N::Num>,
    better: Seq<N::Num>,
    worse: Seq<N::Num>,
    target: usize,
    some: int,
    other: int,
)
    requires
        exact(n, r),
        are_scores(n, r, better),
        are_scores(n, r, worse),
        0 <= some < better.len(),
        r.holds(better[some]),
        0 <= other < worse.len(),
        r.holds(worse[other]),
        target < better.len(),
        target < worse.len(),
        chance(n, r, better, target) > chance(n, r, worse, target),
    ensures
        r.at(row_loss(n, better, target)) < r.at(row_loss(n, worse, target)),
{
    law_row_loss(n, r, better, target, some);
    law_row_loss(n, r, worse, target, other);
    lemma_ten();
    let a = r.at(row_loss(n, better, target));
    let b = r.at(row_loss(n, worse, target));
    let ten = rpow(10 as real, 8);
    let p = chance(n, r, better, target);
    let q = chance(n, r, worse, target);
    let ea = r.exp(-a);
    let eb = r.exp(-b);
    assert(ea > eb) by (nonlinear_arith)
        requires
            ea * ten == p * ten + 1 as real,
            eb * ten == q * ten + 1 as real,
            p > q,
            ten > 0 as real,
    ;
    if a > b {
        assert(-a < -b);
    }
}

proof fn lemma_summed_loss<N: Arithmetic>(
    n: &N,
    r: Reals<N::Num>,
    logits: Seq<Seq<N::Num>>,
    targets: Seq<usize>,
    k: nat,
)
    requires
        exact(n, r),
        can_predict(n, r, logits, targets),
        k <= logits.len(),
    ensures
        r.holds(summed_loss(n, logits, targets, k)),
        r.at(summed_loss(n, logits, targets, k)) == sum_of(k, |i: int| r.at(row_loss(n, logits[i], targets[i]))),
    decreases k,
{
    lemma_zero(n, r);
    if k > 0 {
        lemma_summed_loss(n, r, logits, targets, (k - 1) as nat);
        let row = logits[k - 1];
        assert(are_scores(n, r, row));
        let some = choose|j: int| 0 <= j < row.len() && r.holds(#[trigger] row[j]);
        assert(targets[k - 1] < row.len());
        law_row_loss(n, r, row, targets[k - 1], some);
    }
}

/// The loss is the mean of the losses of all rows.
pub proof fn law_mean_loss<N: Arithmetic>(n: &N, r: Reals<N::Num>, logits: Seq<Seq<N::Num>>, targets: Seq<usize>)
    requires
        exact(n, r),
        can_predict(n, r, logits, targets),
    ensures
        is_mean_loss(n, r, logits, targets, mean_loss(n, logits, targets)),
{
    let rows = logits.len();
    lemma_summed_loss(n, r, logits, targets, rows);
    let parts = Seq::new(rows, |i: int| r.at(row_loss(n, logits[i], targets[i])));
    assert forall|i: int| 0 <= i < parts.len() implies r.exp(-(#[trigger] parts[i])) * rpow(10 as real, 8) == chance(
        n,
        r,
        logits[i],
        targets[i],
    ) * rpow(10 as real, 8) + 1 as real by {
        let row = logits[i];
        assert(are_scores(n, r, row));
        let some = choose|j: int| 0 <= j < row.len() && r.holds(#[trigger] row[j]);
        assert(targets[i] < row.len());
        law_row_loss(n, r, row, targets[i], some);
    }
    lemma_sum_same(rows, |i: int| r.at(row_loss(n, logits[i], targets[i])), |i: int| parts[i]);
    let count = n.value(Term::Count(rows as usize));
    assert(r.at(count) == rows as real);
    assert(r.at(count) != 0 as real);
    assert(parts.len() == rows);
}

/// The gradient of the loss is its derivative.
pub proof fn law_loss_gradient<N: Arithmetic>(n: &N, r: Reals<N::Num>, logits: Seq<Seq<N::Num>>, targets: Seq<usize>)
    requires
        exact(n, r),
        can_predict(n, r, logits, targets),
    ensures
        is_loss_gradient(n, r, logits, targets, loss_gradient(n, logits, targets)),
{
    let rows = logits.len();
    let all = loss_gradient(n, logits, targets);
    let count = n.value(Term::Count(rows as usize));
    lemma_zero(n, r);
    assert forall|i: int| 0 <= i < rows implies ({
        let g = #[trigger] all[i];
        let p = chance(n, r, logits[i], targets[i]);
        let step = sum_of(logits[i].len(), |j: int| r.at(g[j]) * r.rate(logits[i][j]));
        &&& g.len() == logits[i].len()
        &&& r.all(g)
        &&& r.rate(row_loss(n, logits[i], targets[i])) * (p * rpow(10 as real, 8) + 1 as real) == p * rpow(10 as real, 8)
            * (step * (rows as real))
        &&& sum_of(g.len(), |j: int| r.at(g[j])) == 0 as real
    }) by {
        let row = logits[i];
        let t = targets[i] as int;
        let len = row.len();
        assert(are_scores(n, r, row));
        let some = choose|j: int| 0 <= j < row.len() && r.holds(#[trigger] row[j]);
        assert(targets[i] < row.len());
        law_row_loss(n, r, row, targets[i], some);
        law_softmax_shares_out(n, r, row, some);
        let y = softmaxed(n, row);
        let g = all[i];
        let c = rows as real;
        assert forall|j: int| 0 <= j < len implies r.holds(#[trigger] g[j]) && c * r.at(g[j]) == r.at(y[j]) - (if j == t {
            1 as real
        } else {
            0 as real
        }) by {
            assert(r.holds(y[j]));
            let a = r.at(g[j]);
            assert(c * a == a * c) by (nonlinear_arith);
        }
        let f = |j: int| r.at(g[j]) * r.rate(row[j]);
        let scaled = |j: int| c * f(j);
        lemma_sum_scale(len, c, f, scaled);
        let mean = |k: int| r.at(y[k]) * r.rate(row[k]);
        let single = |j: int| if j == t {
            -r.rate(row[t])
        } else {
            0 as real
        };
        assert forall|j: int| 0 <= j < len implies #[trigger] scaled(j) == mean(j) + single(j) by {
            assert(r.holds(g[j]));
            let a = r.at(g[j]);
            let b = r.rate(row[j]);
            let q = r.at(y[j]);
            if j == t {
                assert(c * (a * b) == q * b + (-b)) by (nonlinear_arith)
                    requires
                        c * a == q - 1 as real,
                ;
            } else {
                assert(c * (a * b) == q * b) by (nonlinear_arith)
                    requires
                        c * a == q - 0 as real,
                ;
            }
        }
        lemma_sum_add(len, mean, single, scaled);
        lemma_sum_single(len, single, t);
        let step = sum_of(len, f);
        assert(step * c == c * step) by (nonlinear_arith);
        lemma_sum_same(len, f, |j: int| r.at(g[j]) * r.rate(logits[i][j]));
        // The parts of one, less one.
        let plain = |j: int| r.at(g[j]);
        let taken = |j: int| c * plain(j);
        lemma_sum_scale(len, c, plain, taken);
        let share = |k: int| r.at(y[k]);
        let unit = |j: int| if j == t {
            -(1 as real)
        } else {
            0 as real
        };
        assert forall|j: int| 0 <= j < len implies #[trigger] taken(j) == share(j) + unit(j) by {
            assert(r.holds(g[j]));
        }
        lemma_sum_add(len, share, unit, taken);
        lemma_sum_single(len, unit, t);
        let whole = sum_of(len, plain);
        assert(whole == 0 as real) by (nonlinear_arith)
            requires
                c * whole == 0 as real,
                c > 0 as real,
        ;
    }
}

} // verus!
