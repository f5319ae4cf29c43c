//! Softmax.

use vstd::prelude::*;

use crate::calculus::law_total_is_the_sum;
use crate::numbers::{one, sum, total, zero, Arithmetic, Question, Term};
use crate::reals::{
    exact, lemma_sum_add, lemma_sum_bounds, lemma_sum_same, lemma_sum_scale, lemma_zero, sum_of, Reals,
};

verus! {

/// The largest element, starting from negative infinity.
pub open spec fn largest<N: Arithmetic>(n: &N, x: Seq<N::Num>) -> N::Num
    decreases x.len(),
{
    if x.len() == 0 {
        n.value(Term::NegInfinity)
    } else {
        n.value(Term::Max(largest(n, x.drop_last()), x.last()))
    }
}

/// The exponential of the distance to `top`; zero for negative infinity.
pub open spec fn shifted_exp<N: Arithmetic>(n: &N, v: N::Num, top: N::Num) -> N::Num {
    if n.answer(Question::Equal(v, n.value(Term::NegInfinity))) {
        zero(n)
    } else {
        n.value(Term::Exp(n.value(Term::Sub(v, top))))
    }
}

/// The exponentials of the distances to the largest element.
pub open spec fn shifted_exps<N: Arithmetic>(n: &N, x: Seq<N::Num>) -> Seq<N::Num> {
    x.map_values(|v: N::Num| shifted_exp(n, v, largest(n, x)))
}

/// The exponentials divided by their sum; equal parts if the sum is zero.
pub open spec fn softmaxed<N: Arithmetic>(n: &N, x: Seq<N::Num>) -> Seq<N::Num> {
    let exps = shifted_exps(n, x);
    let whole = total(n, exps);
    if n.answer(Question::Equal(whole, zero(n))) {
        Seq::new(x.len(), |i: int| n.value(Term::Div(one(n), n.value(Term::Count(x.len() as usize)))))
    } else {
        exps.map_values(|e: N::Num| n.value(Term::Div(e, whole)))
    }
}

/// Turns raw scores into probabilities.
pub fn softmax<N: Arithmetic>(n: &N, x: &Vec<N::Num>) -> (r: Vec<N::Num>)
    requires
        n.wf(),
    ensures
        r@.len() == x@.len(),
        r@ == softmaxed(n, x@),
{
    if x.len() == 0 {
        let out: Vec<N::Num> = Vec::new();
        assert(out@ =~= softmaxed(n, x@));
        return out;
    }
    let mut top = n.eval(Term::NegInfinity);
    let mut i: usize = 0;
    while i < x.len()
        invariant
            n.wf(),
            i <= x@.len(),
            top == largest(n, x@.take(i as int)),
        decreases x@.len() - i,
    {
        assert(x@.take(i + 1).drop_last() =~= x@.take(i as int));
        top = n.eval(Term::Max(top, x[i]));
        i += 1;
    }
    assert(x@.take(i as int) =~= x@);
    let low = n.eval(Term::NegInfinity);
    let nothing = n.eval(Term::Decimal(0, 0));
    let mut exps: Vec<N::Num> = Vec::new();
    let mut k: usize = 0;
    while k < x.len()
        invariant
            n.wf(),
            k <= x@.len(),
            top == largest(n, x@),
            low == n.value(Term::NegInfinity),
            nothing == zero(n),
            exps@ == shifted_exps(n, x@).take(k as int),
        decreases x@.len() - k,
    {
        let v = x[k];
        if n.ask(Question::Equal(v, low)) {
            exps.push(nothing);
        } else {
            exps.push(n.eval(Term::Exp(n.eval(Term::Sub(v, top)))));
        }
        k += 1;
        assert(exps@ =~= shifted_exps(n, x@).take(k as int));
    }
    assert(exps@ =~= shifted_exps(n, x@));
    let whole = sum(n, &exps);
    let even: bool = n.ask(Question::Equal(whole, nothing));
    let ghost goal = softmaxed(n, x@);
    let mut out: Vec<N::Num> = Vec::new();
    let mut j: usize = 0;
    while j < x.len()
        invariant
            n.wf(),
            j <= x@.len(),
            exps@ == shifted_exps(n, x@),
            whole == total(n, exps@),
            even == n.answer(Question::Equal(whole, zero(n))),
            goal == softmaxed(n, x@),
            out@ == goal.take(j as int),
        decreases x@.len() - j,
    {
        if even {
            let unit = n.eval(Term::Decimal(1, 0));
            out.push(n.eval(Term::Div(unit, n.eval(Term::Count(x.len())))));
        } else {
            out.push(n.eval(Term::Div(exps[j], whole)));
        }
        j += 1;
        assert(out@ =~= goal.take(j as int));
    }
    assert(out@ =~= goal);
    out
}

/// Whether every score is a real number or negative infinity.
pub open spec fn are_scores<N: Arithmetic>(n: &N, r: Reals<N::Num>, x: Seq<N::Num>) -> bool {
    forall|i: int| 0 <= i < x.len() ==> r.holds(#[trigger] x[i]) || x[i] == n.value(Term::NegInfinity)
}

/// What the exponentials of scores share out: parts of one. A score of negative infinity gets nothing,
/// of two other scores each gets in proportion to its exponential, and each part moves by its distance
/// from the movement of all scores, weighed by their parts.
pub open spec fn shares_of<N: Arithmetic>(n: &N, r: Reals<N::Num>, x: Seq<N::Num>, y: Seq<N::Num>) -> bool {
    &&& y.len() == x.len()
    &&& r.all(y)
    &&& sum_of(y.len(), |k: int| r.at(y[k])) == 1 as real
    &&& forall|i: int|
        0 <= i < x.len() ==> if r.holds(x[i]) {
            r.at(#[trigger] y[i]) > 0 as real
        } else {
            r.at(y[i]) == 0 as real
        }
    &&& forall|i: int, j: int|
        0 <= i < x.len() && 0 <= j < x.len() && r.holds(x[i]) && r.holds(x[j]) ==> r.at(#[trigger] y[i]) * r.exp(
            r.at(x[j]),
        ) == r.at(#[trigger] y[j]) * r.exp(r.at(x[i]))
    &&& forall|i: int|
        0 <= i < x.len() ==> r.rate(#[trigger] y[i]) == r.at(y[i]) * (r.rate(x[i]) - sum_of(
            x.len(),
            |k: int| r.at(y[k]) * r.rate(x[k]),
        ))
}

proof fn lemma_largest<N: Arithmetic>(n: &N, r: Reals<N::Num>, x: Seq<N::Num>, some: int)
    requires
        exact(n, r),
        are_scores(n, r, x),
        -1 <= some < x.len(),
        some >= 0 ==> r.holds(x[some]),
    ensures
        r.holds(largest(n, x)) || largest(n, x) == n.value(Term::NegInfinity),
        some >= 0 ==> r.holds(largest(n, x)),
    decreases x.len(),
{
    if x.len() > 0 {
        let init = x.drop_last();
        assert forall|i: int| 0 <= i < init.len() implies r.holds(#[trigger] init[i]) || init[i] == n.value(
            Term::NegInfinity,
        ) by {
            assert(init[i] == x[i]);
        }
        lemma_largest(
            n,
            r,
            init,
            if some < init.len() {
                some
            } else {
                -1
            },
        );
        assert(r.holds(x[x.len() - 1]) || x[x.len() - 1] == n.value(Term::NegInfinity));
        let low = n.value(Term::NegInfinity);
        let before = largest(n, init);
        let last = x.last();
        assert(n.value(Term::Max(before, last)) == largest(n, x));
        if before == low && last == low {
            assert(n.value(Term::Max(low, low)) == low);
        }
    }
}

/// Softmax turns scores into shares of one.
pub proof fn law_softmax_shares_out<N: Arithmetic>(n: &N, r: Reals<N::Num>, x: Seq<N::Num>, some: int)
    requires
        exact(n, r),
        are_scores(n, r, x),
        0 <= some < x.len(),
        r.holds(x[some]),
    ensures
        shares_of(n, r, x, softmaxed(n, x)),
{
    let exps = shifted_exps(n, x);
    let top = largest(n, x);
    let whole = total(n, exps);
    let y = softmaxed(n, x);
    let low = n.value(Term::NegInfinity);
    let len = x.len();
    lemma_zero(n, r);
    lemma_largest(n, r, x, some);
    let m = r.at(top);
    let rm = r.rate(top);
    assert forall|i: int| 0 <= i < len implies r.holds(#[trigger] exps[i]) && (if r.holds(x[i]) {
        r.at(exps[i]) == r.exp(r.at(x[i]) - m) && r.at(exps[i]) > 0 as real
    } else {
        r.at(exps[i]) == 0 as real
    }) && r.rate(exps[i]) == r.at(exps[i]) * (r.rate(x[i]) - rm) by {
        assert(r.holds(x[i]) || x[i] == low);
        if r.holds(x[i]) {
            let d = n.value(Term::Sub(x[i], top));
            assert(r.holds(d) && r.at(d) == r.at(x[i]) - m);
            assert(r.exp(r.at(d)) > 0 as real);
        } else {
            let c = r.rate(x[i]) - rm;
            assert((0 as real) * c == 0 as real) by (nonlinear_arith);
        }
    }
    law_total_is_the_sum(n, r, exps);
    let w = r.at(whole);
    let e = |k: int| r.at(exps[k]);
    assert forall|k: int| 0 <= k < len implies #[trigger] e(k) >= 0 as real by {
        assert(r.holds(exps[k]));
    }
    lemma_sum_bounds(len, e, some);
    assert(e(some) > 0 as real) by {
        assert(r.holds(exps[some]));
    }
    lemma_sum_same(len, e, |i: int| r.at(exps[i]));
    assert(w > 0 as real);
    assert forall|i: int| 0 <= i < len implies r.holds(#[trigger] y[i]) && r.at(y[i]) * w == r.at(exps[i]) && r.rate(y[i])
        * w + r.at(y[i]) * r.rate(whole) == r.rate(exps[i]) by {
        assert(r.holds(exps[i]));
        assert(y[i] == n.value(Term::Div(exps[i], whole)));
    }
    let share = |k: int| r.at(y[k]);
    assert forall|k: int| 0 <= k < len implies #[trigger] e(k) == w * share(k) by {
        assert(r.at(y[k]) * w == r.at(exps[k]));
        let a = r.at(y[k]);
        assert(a * w == w * a) by (nonlinear_arith);
    }
    lemma_sum_scale(len, w, share, e);
    let all = sum_of(len, share);
    assert(all == 1 as real) by (nonlinear_arith)
        requires
            w == w * all,
            w > 0 as real,
    ;
    assert forall|i: int| 0 <= i < len implies (if r.holds(x[i]) {
        r.at(#[trigger] y[i]) > 0 as real
    } else {
        r.at(y[i]) == 0 as real
    }) by {
        let a = r.at(y[i]);
        let b = r.at(exps[i]);
        assert(r.holds(exps[i]));
        assert(a * w == b);
        if r.holds(x[i]) {
            assert(a > 0 as real) by (nonlinear_arith)
                requires
                    a * w == b,
                    b > 0 as real,
                    w > 0 as real,
            ;
        } else {
            assert(a == 0 as real) by (nonlinear_arith)
                requires
                    a * w == b,
                    b == 0 as real,
                    w > 0 as real,
            ;
        }
    }
    assert forall|i: int, j: int| 0 <= i < len && 0 <= j < len && r.holds(x[i]) && r.holds(x[j]) implies r.at(
        #[trigger] y[i],
    ) * r.exp(r.at(x[j])) == r.at(#[trigger] y[j]) * r.exp(r.at(x[i])) by {
        let a = r.at(y[i]);
        let b = r.at(y[j]);
        let ea = r.at(exps[i]);
        let eb = r.at(exps[j]);
        let em = r.exp(m);
        assert(r.holds(exps[i]) && r.holds(exps[j]));
        lemma_exp_sum(n, r, r.at(x[i]) - m, m);
        lemma_exp_sum(n, r, r.at(x[j]) - m, m);
        let fa = r.exp(r.at(x[i]));
        let fb = r.exp(r.at(x[j]));
        assert(a * fb == b * fa) by (nonlinear_arith)
            requires
                a * w == ea,
                b * w == eb,
                fa == ea * em,
                fb == eb * em,
                w > 0 as real,
        {
            assert((a * fb) * w == (b * fa) * w);
        }
    }
    // The movement of the whole.
    let moves = |k: int| r.at(y[k]) * r.rate(x[k]);
    let drift = |k: int| -rm * r.at(y[k]);
    let both = |k: int| r.at(y[k]) * r.rate(x[k]) - rm * r.at(y[k]);
    let steps = |k: int| r.rate(exps[k]);
    lemma_sum_scale(len, -rm, share, drift);
    assert forall|k: int| 0 <= k < len implies #[trigger] both(k) == moves(k) + drift(k) by {
        let a = r.at(y[k]);
        assert(-(rm * a) == -rm * a) by (nonlinear_arith);
    }
    lemma_sum_add(len, moves, drift, both);
    assert forall|k: int| 0 <= k < len implies #[trigger] steps(k) == w * both(k) by {
        assert(r.holds(exps[k]));
        let a = r.at(y[k]);
        let c = r.rate(x[k]);
        let b = r.at(exps[k]);
        assert(b * (c - rm) == w * (a * c - rm * a)) by (nonlinear_arith)
            requires
                a * w == b,
        ;
    }
    lemma_sum_scale(len, w, both, steps);
    lemma_sum_same(len, steps, |i: int| r.rate(exps[i]));
    let mean = sum_of(len, moves);
    let rw = r.rate(whole);
    assert(rw == w * (mean - rm)) by (nonlinear_arith)
        requires
            rw == w * (mean + (-rm) * all),
            all == 1 as real,
    ;
    assert forall|i: int| 0 <= i < len implies r.rate(#[trigger] y[i]) == r.at(y[i]) * (r.rate(x[i]) - mean) by {
        let a = r.at(y[i]);
        let c = r.rate(x[i]);
        let b = r.at(exps[i]);
        let d = r.rate(y[i]);
        assert(r.holds(exps[i]));
        assert(d == a * (c - mean)) by (nonlinear_arith)
            requires
                a * w == b,
                d * w + a * rw == b * (c - rm),
                rw == w * (mean - rm),
                w > 0 as real,
        {
            assert(d * w == (a * (c - mean)) * w);
        }
    }
    lemma_sum_same(len, moves, |k: int| r.at(y[k]) * r.rate(x[k]));
    lemma_sum_same(len, share, |k: int| r.at(y[k]));
}

/// The exponential of a sum.
pub proof fn lemma_exp_sum<N: Arithmetic>(n: &N, r: Reals<N::Num>, x: real, y: real)
    requires
        exact(n, r),
    ensures
        r.exp(x + y) == r.exp(x) * r.exp(y),
{
    assert(r.exp(x + y) == r.exp(x) * r.exp(y));
}

} // verus!
