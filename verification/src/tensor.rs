//! Tensors: numbers in a shape.

use vstd::prelude::*;

use crate::numbers::{zero, Arithmetic, Term};
use crate::pure_fn::{call1, fn1, pure1};
use crate::rows::{copy_row, make_row, uniform_row};

verus! {

/// Numbers in a shape, the last dimension running fastest.
pub struct Tensor<T> {
    /// The length of each dimension.
    pub dims: Vec<usize>,
    /// The numbers.
    pub data: Vec<T>,
    /// Whether the numbers are floating-point ones.
    pub is_float: bool,
}

/// What a tensor holds.
pub struct TensorView<T> {
    /// The length of each dimension.
    pub dims: Seq<usize>,
    /// The numbers.
    pub data: Seq<T>,
    /// Whether the numbers are floating-point ones.
    pub is_float: bool,
}

/// How many numbers a shape has room for.
pub open spec fn room(dims: Seq<usize>) -> nat
    decreases dims.len(),
{
    if dims.len() == 0 {
        1
    } else {
        room(dims.drop_last()) * dims.last() as nat
    }
}

impl<T> View for Tensor<T> {
    type V = TensorView<T>;

    open spec fn view(&self) -> TensorView<T> {
        TensorView { dims: self.dims@, data: self.data@, is_float: self.is_float }
    }
}

impl<T> TensorView<T> {
    /// There are as many numbers as the shape has room for.
    pub open spec fn wf(self) -> bool {
        self.data.len() == room(self.dims)
    }

    /// A tensor of the same shape and kind with other numbers.
    pub open spec fn with(self, data: Seq<T>) -> TensorView<T> {
        TensorView { dims: self.dims, data, is_float: self.is_float }
    }
}

/// What the tensors of a list hold.
pub open spec fn contents<T>(list: Seq<Tensor<T>>) -> Seq<TensorView<T>> {
    list.map_values(|t: Tensor<T>| t@)
}

/// What the tensors behind a list of references hold.
pub open spec fn shown<T>(list: Seq<&Tensor<T>>) -> Seq<TensorView<T>> {
    list.map_values(|t: &Tensor<T>| t@)
}

/// Whether two tensors of one shape cannot be combined: they have elements, and one is made of
/// floating-point numbers and the other is not.
pub open spec fn kinds_clash<T>(a: TensorView<T>, b: TensorView<T>) -> bool {
    a.data.len() > 0 && a.is_float != b.is_float
}

/// Whether two tensors of one shape cannot be combined.
pub fn clash<T>(a: &Tensor<T>, b: &Tensor<T>) -> (r: bool)
    ensures
        r == kinds_clash(a@, b@),
{
    a.data.len() > 0 && a.is_float != b.is_float
}

/// Whether all tensors have as many numbers as their shapes have room for.
pub open spec fn all_wf<T>(list: Seq<TensorView<T>>) -> bool {
    forall|i: int| 0 <= i < list.len() ==> (#[trigger] list[i]).wf()
}

/// Whether two shapes are the same.
pub fn same_dims(a: &Vec<usize>, b: &Vec<usize>) -> (r: bool)
    ensures
        r == (a@ == b@),
{
    if a.len() != b.len() {
        return false;
    }
    let mut i: usize = 0;
    while i < a.len()
        invariant
            i <= a@.len(),
            a@.len() == b@.len(),
            forall|k: int| 0 <= k < i ==> #[trigger] a@[k] == b@[k],
        decreases a@.len() - i,
    {
        if a[i] != b[i] {
            assert(a@[i as int] != b@[i as int]);
            return false;
        }
        i += 1;
    }
    assert(a@ =~= b@);
    true
}

fn copy_dims(a: &Vec<usize>) -> (r: Vec<usize>)
    ensures
        r@ == a@,
{
    copy_row(a)
}

/// Arithmetic on tensors: scalars are of a wide type, elements of a narrow one.
pub struct TensorMath<N, E, F> {
    /// Arithmetic on scalars.
    pub wide: N,
    /// Arithmetic on elements.
    pub narrow: E,
    /// Turns a scalar into an element.
    pub cast: F,
}

impl<N: Arithmetic, E: Arithmetic, F: Fn(N::Num) -> E::Num> TensorMath<N, E, F> {
    /// Every step has one result.
    pub open spec fn wf(&self) -> bool {
        self.wide.wf() && self.narrow.wf() && pure1(self.cast)
    }

    /// A scalar as an element.
    pub open spec fn cast_of(&self, x: N::Num) -> E::Num {
        fn1(self.cast)(x)
    }

    /// Every element times `factor` plus `shift`.
    pub open spec fn scaled(&self, t: TensorView<E::Num>, factor: N::Num, shift: N::Num) -> TensorView<E::Num> {
        t.with(
            t.data.map_values(
                |x: E::Num|
                    self.narrow.value(
                        Term::Add(
                            self.narrow.value(Term::Mul(x, self.cast_of(factor))),
                            self.cast_of(shift),
                        ),
                    ),
            ),
        )
    }

    /// Every element times `factor` plus `shift`.
    pub fn affine(&self, t: &Tensor<E::Num>, factor: N::Num, shift: N::Num) -> (r: Tensor<E::Num>)
        requires
            self.wf(),
        ensures
            r@ == self.scaled(t@, factor, shift),
    {
        let by = call1(&self.cast, factor);
        let plus = call1(&self.cast, shift);
        let ghost goal = self.scaled(t@, factor, shift);
        let mut data: Vec<E::Num> = Vec::new();
        let mut i: usize = 0;
        while i < t.data.len()
            invariant
                self.wf(),
                by == self.cast_of(factor),
                plus == self.cast_of(shift),
                goal == self.scaled(t@, factor, shift),
                i <= t.data@.len(),
                data@ == goal.data.take(i as int),
            decreases t.data@.len() - i,
        {
            data.push(self.narrow.eval(Term::Add(self.narrow.eval(Term::Mul(t.data[i], by)), plus)));
            i += 1;
            assert(data@ =~= goal.data.take(i as int));
        }
        assert(data@ =~= goal.data);
        Tensor { dims: copy_dims(&t.dims), data, is_float: t.is_float }
    }
}

/// A way to make one element of two.
pub enum Pairing {
    /// Their sum.
    Sum,
    /// The first less the second.
    Difference,
    /// The first divided by the second.
    Quotient,
}

/// One element made of two.
pub open spec fn paired<E: Arithmetic>(e: &E, how: Pairing, x: E::Num, y: E::Num) -> E::Num {
    match how {
        Pairing::Sum => e.value(Term::Add(x, y)),
        Pairing::Difference => e.value(Term::Sub(x, y)),
        Pairing::Quotient => e.value(Term::Div(x, y)),
    }
}

/// Two tensors of one shape combined element by element.
pub open spec fn combined<E: Arithmetic>(e: &E, how: Pairing, a: TensorView<E::Num>, b: TensorView<E::Num>) -> TensorView<
    E::Num,
> {
    a.with(Seq::new(a.data.len(), |i: int| paired(e, how, a.data[i], b.data[i])))
}

/// Combines two tensors of one shape element by element.
pub fn combine<E: Arithmetic>(e: &E, how: Pairing, a: &Tensor<E::Num>, b: &Tensor<E::Num>) -> (r: Tensor<E::Num>)
    requires
        e.wf(),
        a@.data.len() == b@.data.len(),
    ensures
        r@ == combined(e, how, a@, b@),
{
    let ghost goal = combined(e, how, a@, b@);
    let mut data: Vec<E::Num> = Vec::new();
    let mut i: usize = 0;
    while i < a.data.len()
        invariant
            e.wf(),
            i <= a.data@.len(),
            a.data@.len() == b.data@.len(),
            goal == combined(e, how, a@, b@),
            data@ == goal.data.take(i as int),
        decreases a.data@.len() - i,
    {
        let x = a.data[i];
        let y = b.data[i];
        let made = match how {
            Pairing::Sum => e.eval(Term::Add(x, y)),
            Pairing::Difference => e.eval(Term::Sub(x, y)),
            Pairing::Quotient => e.eval(Term::Div(x, y)),
        };
        data.push(made);
        i += 1;
        assert(data@ =~= goal.data.take(i as int));
    }
    assert(data@ =~= goal.data);
    Tensor { dims: copy_dims(&a.dims), data, is_float: a.is_float }
}

/// Every element squared.
pub open spec fn squared<E: Arithmetic>(e: &E, t: TensorView<E::Num>) -> TensorView<E::Num> {
    t.with(t.data.map_values(|x: E::Num| e.value(Term::Mul(x, x))))
}

/// Squares every element.
pub fn square<E: Arithmetic>(e: &E, t: &Tensor<E::Num>) -> (r: Tensor<E::Num>)
    requires
        e.wf(),
    ensures
        r@ == squared(e, t@),
{
    let ghost goal = squared(e, t@);
    let mut data: Vec<E::Num> = Vec::new();
    let mut i: usize = 0;
    while i < t.data.len()
        invariant
            e.wf(),
            goal == squared(e, t@),
            i <= t.data@.len(),
            data@ == goal.data.take(i as int),
        decreases t.data@.len() - i,
    {
        data.push(e.eval(Term::Mul(t.data[i], t.data[i])));
        i += 1;
        assert(data@ =~= goal.data.take(i as int));
    }
    assert(data@ =~= goal.data);
    Tensor { dims: copy_dims(&t.dims), data, is_float: t.is_float }
}

/// The square root of every element.
pub open spec fn rooted<E: Arithmetic>(e: &E, t: TensorView<E::Num>) -> TensorView<E::Num> {
    t.with(t.data.map_values(|x: E::Num| e.value(Term::Sqrt(x))))
}

/// Takes the square root of every element.
pub fn root<E: Arithmetic>(e: &E, t: &Tensor<E::Num>) -> (r: Tensor<E::Num>)
    requires
        e.wf(),
    ensures
        r@ == rooted(e, t@),
{
    let ghost goal = rooted(e, t@);
    let mut data: Vec<E::Num> = Vec::new();
    let mut i: usize = 0;
    while i < t.data.len()
        invariant
            e.wf(),
            goal == rooted(e, t@),
            i <= t.data@.len(),
            data@ == goal.data.take(i as int),
        decreases t.data@.len() - i,
    {
        data.push(e.eval(Term::Sqrt(t.data[i])));
        i += 1;
        assert(data@ =~= goal.data.take(i as int));
    }
    assert(data@ =~= goal.data);
    Tensor { dims: copy_dims(&t.dims), data, is_float: t.is_float }
}

impl<T: Copy> Tensor<T> {
    /// Floating-point numbers in a shape.
    pub fn new(dims: Vec<usize>, data: Vec<T>) -> (r: Self)
        requires
            data@.len() == room(dims@),
        ensures
            r@ == (TensorView { dims: dims@, data: data@, is_float: true }),
            r@.wf(),
    {
        Tensor { dims, data, is_float: true }
    }

    /// Floating-point numbers in one dimension.
    pub fn vector(data: Vec<T>) -> (r: Self)
        ensures
            r@ == (TensorView { dims: seq![data@.len() as usize], data: data@, is_float: true }),
            r@.wf(),
    {
        let mut dims: Vec<usize> = Vec::new();
        dims.push(data.len());
        assert(dims@ =~= seq![data@.len() as usize]);
        assert(dims@.drop_last() =~= Seq::<usize>::empty());
        proof {
            let inner = room(dims@.drop_last());
            let last = dims@.last() as nat;
            assert(inner == 1);
            assert(inner * last == last) by (nonlinear_arith)
                requires
                    inner == 1,
            ;
        }
        Tensor { dims, data, is_float: true }
    }

    /// An independent copy.
    pub fn copy(&self) -> (r: Self)
        ensures
            r@ == self@,
    {
        Tensor { dims: copy_dims(&self.dims), data: copy_row(&self.data), is_float: self.is_float }
    }

    /// Floating-point zeros in the shape of this tensor.
    pub fn zeros_like<E: Arithmetic<Num = T>>(&self, e: &E) -> (r: Self)
        requires
            e.wf(),
        ensures
            r@ == zeros_of(e, self@),
    {
        let data = make_row(e.eval(Term::Decimal(0, 0)), self.data.len());
        Tensor { dims: copy_dims(&self.dims), data, is_float: true }
    }
}

/// Floating-point zeros in the shape of a tensor.
pub open spec fn zeros_of<E: Arithmetic>(e: &E, t: TensorView<E::Num>) -> TensorView<E::Num> {
    TensorView {
        dims: t.dims,
        data: uniform_row(zero(e), t.data.len()),
        is_float: true,
    }
}

/// Independent copies of tensors.
pub fn copy_all<T: Copy>(list: &Vec<&Tensor<T>>) -> (r: Vec<Tensor<T>>)
    ensures
        contents(r@) == shown(list@),
{
    let mut out: Vec<Tensor<T>> = Vec::new();
    let mut i: usize = 0;
    while i < list.len()
        invariant
            i <= list@.len(),
            contents(out@) == shown(list@).take(i as int),
        decreases list@.len() - i,
    {
        let ghost before = contents(out@);
        let one = list[i].copy();
        out.push(one);
        assert(contents(out@) =~= before.push(one@));
        i += 1;
        assert(contents(out@) =~= shown(list@).take(i as int));
    }
    assert(contents(out@) =~= shown(list@));
    out
}

} // verus!
