//! Arithmetic that the caller supplies.
//!
//! The numerical code of this library is written over numbers of an open type. What a sum or a
//! square root is, the caller says; which of them are taken, in which order and of what, is fixed
//! here.

use core::marker::PhantomData;
use vstd::prelude::*;

use crate::pure_fn::{call1, fn1, pure1};

verus! {

/// One step of arithmetic.
pub enum Term<T> {
    /// The sum of two numbers.
    Add(T, T),
    /// The first number less the second.
    Sub(T, T),
    /// The product of two numbers.
    Mul(T, T),
    /// The first number divided by the second.
    Div(T, T),
    /// The larger of two numbers.
    Max(T, T),
    /// The smaller of two numbers.
    Min(T, T),
    /// The first number to the power of the second.
    Pow(T, T),
    /// A number to an integer power.
    PowInt(T, usize),
    /// The negated number.
    Neg(T),
    /// The square root.
    Sqrt(T),
    /// The exponential.
    Exp(T),
    /// The natural logarithm.
    Ln(T),
    /// The cosine.
    Cos(T),
    /// The number nearest to an integer.
    Count(usize),
    /// The number nearest to the first integer divided by ten to the power of the second.
    Decimal(i64, u32),
    /// Negative infinity.
    NegInfinity,
    /// The circle constant.
    Pi,
}

/// A question about two numbers.
pub enum Question<T> {
    /// Whether the first is smaller than the second.
    Less(T, T),
    /// Whether both are equal.
    Equal(T, T),
}

/// Numbers and what can be computed with them.
pub trait Arithmetic {
    /// The numbers.
    type Num: Copy;

    /// Every step has one result, and every question one answer.
    spec fn wf(&self) -> bool;

    /// The result of a step.
    spec fn value(&self, term: Term<Self::Num>) -> Self::Num;

    /// The answer to a question.
    spec fn answer(&self, question: Question<Self::Num>) -> bool;

    /// Takes a step.
    fn eval(&self, term: Term<Self::Num>) -> (r: Self::Num)
        requires
            self.wf(),
        ensures
            r == self.value(term),
    ;

    /// Answers a question.
    fn ask(&self, question: Question<Self::Num>) -> (r: bool)
        requires
            self.wf(),
        ensures
            r == self.answer(question),
    ;
}

/// Arithmetic by two functions: one takes steps, one answers questions.
pub struct Numbers<T, F, G> {
    step: F,
    test: G,
    of: PhantomData<T>,
}

impl<T: Copy, F: Fn(Term<T>) -> T, G: Fn(Question<T>) -> bool> Numbers<T, F, G> {
    /// The function that takes steps.
    pub closed spec fn stepping(&self) -> F {
        self.step
    }

    /// The function that answers questions.
    pub closed spec fn testing(&self) -> G {
        self.test
    }

    /// Arithmetic by the two functions.
    pub fn new(step: F, test: G) -> (r: Self)
        ensures
            r.stepping() == step,
            r.testing() == test,
            pure1(step) && pure1(test) ==> r.wf(),
            forall|term: Term<T>| #[trigger] r.value(term) == fn1(step)(term),
            forall|question: Question<T>| #[trigger] r.answer(question) == fn1(test)(question),
    {
        Numbers { step, test, of: PhantomData }
    }
}

impl<T: Copy, F: Fn(Term<T>) -> T, G: Fn(Question<T>) -> bool> Arithmetic for Numbers<T, F, G> {
    type Num = T;

    open spec fn wf(&self) -> bool {
        pure1(self.stepping()) && pure1(self.testing())
    }

    open spec fn value(&self, term: Term<T>) -> T {
        fn1(self.stepping())(term)
    }

    open spec fn answer(&self, question: Question<T>) -> bool {
        fn1(self.testing())(question)
    }

    fn eval(&self, term: Term<T>) -> (r: T) {
        call1(&self.step, term)
    }

    fn ask(&self, question: Question<T>) -> (r: bool) {
        call1(&self.test, question)
    }
}

/// Zero.
pub open spec fn zero<N: Arithmetic>(n: &N) -> N::Num {
    n.value(Term::Decimal(0, 0))
}

/// One.
pub open spec fn one<N: Arithmetic>(n: &N) -> N::Num {
    n.value(Term::Decimal(1, 0))
}

/// The sum of a list, added up from zero, from left to right.
pub open spec fn total<N: Arithmetic>(n: &N, list: Seq<N::Num>) -> N::Num
    decreases list.len(),
{
    if list.len() == 0 {
        zero(n)
    } else {
        n.value(Term::Add(total(n, list.drop_last()), list.last()))
    }
}

/// Adds up a list, from zero, from left to right.
pub fn sum<N: Arithmetic>(n: &N, list: &Vec<N::Num>) -> (r: N::Num)
    requires
        n.wf(),
    ensures
        r == total(n, list@),
{
    let mut out = n.eval(Term::Decimal(0, 0));
    let mut i: usize = 0;
    while i < list.len()
        invariant
            n.wf(),
            i <= list@.len(),
            out == total(n, list@.take(i as int)),
        decreases list@.len() - i,
    {
        assert(list@.take(i + 1).drop_last() =~= list@.take(i as int));
        out = n.eval(Term::Add(out, list[i]));
        i += 1;
    }
    assert(list@.take(i as int) =~= list@);
    out
}

} // verus!
