//! Numbers read as real numbers.
//!
//! What the numerical code is for is said of real numbers. A caller's numbers are near to them as far
//! as the caller's arithmetic is exact.

use vstd::prelude::*;

use crate::numbers::{Arithmetic, Question, Term};

verus! {

/// A reading of numbers as real numbers that move.
#[verifier::reject_recursive_types(T)]
pub struct Reals<T> {
    /// Which numbers stand for real ones.
    pub domain: spec_fn(T) -> bool,
    /// The real number that a number stands for.
    pub reading: spec_fn(T) -> real,
    /// How fast it moves.
    pub speed: spec_fn(T) -> real,
    /// The exponential.
    pub power: spec_fn(real) -> real,
    /// The cosine.
    pub wave: spec_fn(real) -> real,
    /// The circle constant.
    pub half_turn: real,
}

impl<T> Reals<T> {
    /// Whether a number stands for a real one.
    pub open spec fn holds(self, x: T) -> bool {
        (self.domain)(x)
    }

    /// The real number that a number stands for.
    pub open spec fn at(self, x: T) -> real {
        (self.reading)(x)
    }

    /// How fast the real number moves.
    pub open spec fn rate(self, x: T) -> real {
        (self.speed)(x)
    }

    /// The exponential of a real number.
    pub open spec fn exp(self, x: real) -> real {
        (self.power)(x)
    }

    /// The cosine of a real number.
    pub open spec fn cos(self, x: real) -> real {
        (self.wave)(x)
    }

    /// Whether all numbers of a list stand for real ones.
    pub open spec fn all(self, list: Seq<T>) -> bool {
        forall|i: int| 0 <= i < list.len() ==> self.holds(#[trigger] list[i])
    }

    /// Whether all numbers of a matrix stand for real ones.
    pub open spec fn grid(self, rows: Seq<Seq<T>>) -> bool {
        forall|i: int| 0 <= i < rows.len() ==> self.all(#[trigger] rows[i])
    }
}

/// A number to an integer power.
pub open spec fn rpow(x: real, k: nat) -> real
    decreases k,
{
    if k == 0 {
        1 as real
    } else {
        rpow(x, (k - 1) as nat) * x
    }
}

/// Sums, differences, products and quotients are those of real numbers, and they move as these do.
pub open spec fn exact_field<N: Arithmetic>(n: &N, r: Reals<N::Num>) -> bool {
    &&& forall|a: N::Num, b: N::Num|
        #![trigger n.value(Term::Add(a, b))]
        r.holds(a) && r.holds(b) ==> {
            let v = n.value(Term::Add(a, b));
            r.holds(v) && r.at(v) == r.at(a) + r.at(b) && r.rate(v) == r.rate(a) + r.rate(b)
        }
    &&& forall|a: N::Num, b: N::Num|
        #![trigger n.value(Term::Sub(a, b))]
        r.holds(a) && r.holds(b) ==> {
            let v = n.value(Term::Sub(a, b));
            r.holds(v) && r.at(v) == r.at(a) - r.at(b) && r.rate(v) == r.rate(a) - r.rate(b)
        }
    &&& forall|a: N::Num, b: N::Num|
        #![trigger n.value(Term::Mul(a, b))]
        r.holds(a) && r.holds(b) ==> {
            let v = n.value(Term::Mul(a, b));
            r.holds(v) && r.at(v) == r.at(a) * r.at(b) && r.rate(v) == r.rate(a) * r.at(b) + r.at(a) * r.rate(b)
        }
    &&& forall|a: N::Num, b: N::Num|
        #![trigger n.value(Term::Div(a, b))]
        r.holds(a) && r.holds(b) && r.at(b) != 0 as real ==> {
            let v = n.value(Term::Div(a, b));
            r.holds(v) && r.at(v) * r.at(b) == r.at(a) && r.rate(v) * r.at(b) + r.at(v) * r.rate(b) == r.rate(a)
        }
    &&& forall|a: N::Num|
        #![trigger n.value(Term::Neg(a))]
        r.holds(a) ==> {
            let v = n.value(Term::Neg(a));
            r.holds(v) && r.at(v) == -r.at(a) && r.rate(v) == -r.rate(a)
        }
    &&& forall|k: usize|
        #![trigger n.value(Term::Count(k))]
        {
            let v = n.value(Term::Count(k));
            r.holds(v) && r.at(v) == k as real && r.rate(v) == 0 as real
        }
    &&& forall|d: i64, e: u32|
        #![trigger n.value(Term::Decimal(d, e))]
        {
            let v = n.value(Term::Decimal(d, e));
            r.holds(v) && r.at(v) * rpow(10 as real, e as nat) == d as real && r.rate(v) == 0 as real
        }
}

/// Square roots and integer powers are those of real numbers.
pub open spec fn exact_powers<N: Arithmetic>(n: &N, r: Reals<N::Num>) -> bool {
    &&& forall|a: N::Num|
        #![trigger n.value(Term::Sqrt(a))]
        r.holds(a) && r.at(a) >= 0 as real ==> {
            let v = n.value(Term::Sqrt(a));
            r.holds(v) && r.at(v) >= 0 as real && r.at(v) * r.at(v) == r.at(a) && (r.at(a) > 0 as real ==> (2 as real)
                * r.at(v) * r.rate(v) == r.rate(a))
        }
    &&& forall|a: N::Num, k: usize|
        #![trigger n.value(Term::PowInt(a, k))]
        r.holds(a) ==> {
            let v = n.value(Term::PowInt(a, k));
            r.holds(v) && r.at(v) == rpow(r.at(a), k as nat) && (k > 0 ==> r.rate(v) == (k as real) * rpow(
                r.at(a),
                (k - 1) as nat,
            ) * r.rate(a))
        }
    &&& forall|a: N::Num, k: usize|
        #![trigger n.value(Term::Pow(a, n.value(Term::Count(k))))]
        r.holds(a) ==> {
            let v = n.value(Term::Pow(a, n.value(Term::Count(k))));
            r.holds(v) && r.at(v) == rpow(r.at(a), k as nat)
        }
}

/// The exponential turns sums into products and grows; the logarithm undoes it; the cosine falls from
/// one to minus one in half a turn.
pub open spec fn exact_curves<N: Arithmetic>(n: &N, r: Reals<N::Num>) -> bool {
    &&& forall|x: real, y: real| #[trigger] r.exp(x + y) == r.exp(x) * r.exp(y)
    &&& forall|x: real, y: real| x < y ==> #[trigger] r.exp(x) < #[trigger] r.exp(y)
    &&& forall|x: real| #[trigger] r.exp(x) > 0 as real
    &&& forall|a: N::Num|
        #![trigger n.value(Term::Exp(a))]
        r.holds(a) ==> {
            let v = n.value(Term::Exp(a));
            r.holds(v) && r.at(v) == r.exp(r.at(a)) && r.rate(v) == r.at(v) * r.rate(a)
        }
    &&& forall|a: N::Num|
        #![trigger n.value(Term::Ln(a))]
        r.holds(a) && r.at(a) > 0 as real ==> {
            let v = n.value(Term::Ln(a));
            r.holds(v) && r.exp(r.at(v)) == r.at(a) && r.rate(v) * r.at(a) == r.rate(a)
        }
    &&& r.half_turn > 0 as real
    &&& r.cos(0 as real) == 1 as real
    &&& r.cos(r.half_turn) == -(1 as real)
    &&& forall|x: real, y: real|
        0 as real <= x < y <= r.half_turn ==> #[trigger] r.cos(x) > #[trigger] r.cos(y)
    &&& forall|a: N::Num|
        #![trigger n.value(Term::Cos(a))]
        r.holds(a) ==> {
            let v = n.value(Term::Cos(a));
            r.holds(v) && r.at(v) == r.cos(r.at(a))
        }
    &&& r.holds(n.value(Term::Pi)) && r.at(n.value(Term::Pi)) == r.half_turn
}

/// Comparisons are those of real numbers; negative infinity is none of them and is below all.
pub open spec fn exact_order<N: Arithmetic>(n: &N, r: Reals<N::Num>) -> bool {
    let low = n.value(Term::NegInfinity);
    &&& !r.holds(low)
    &&& n.answer(Question::Equal(low, low))
    &&& forall|a: N::Num| r.holds(a) ==> !#[trigger] n.answer(Question::Equal(a, low))
    &&& forall|a: N::Num|
        #![trigger n.value(Term::Max(low, a))]
        r.holds(a) ==> {
            let v = n.value(Term::Max(low, a));
            r.holds(v) && r.at(v) == r.at(a)
        }
    &&& forall|a: N::Num|
        #![trigger n.value(Term::Max(a, low))]
        r.holds(a) ==> {
            let v = n.value(Term::Max(a, low));
            r.holds(v) && r.at(v) == r.at(a)
        }
    &&& n.value(Term::Max(low, low)) == low
    &&& forall|a: N::Num, b: N::Num|
        #![trigger n.value(Term::Max(a, b))]
        r.holds(a) && r.holds(b) ==> {
            let v = n.value(Term::Max(a, b));
            &&& r.holds(v)
            &&& r.at(v) == if r.at(a) >= r.at(b) {
                r.at(a)
            } else {
                r.at(b)
            }
            &&& r.at(a) > r.at(b) ==> r.rate(v) == r.rate(a)
            &&& r.at(a) < r.at(b) ==> r.rate(v) == r.rate(b)
        }
    &&& forall|a: N::Num, b: N::Num|
        #![trigger n.value(Term::Min(a, b))]
        r.holds(a) && r.holds(b) ==> {
            let v = n.value(Term::Min(a, b));
            r.holds(v) && r.at(v) == if r.at(a) <= r.at(b) {
                r.at(a)
            } else {
                r.at(b)
            }
        }
    &&& forall|a: N::Num, b: N::Num|
        r.holds(a) && r.holds(b) ==> #[trigger] n.answer(Question::Less(a, b)) == (r.at(a) < r.at(b))
    &&& forall|a: N::Num, b: N::Num|
        r.holds(a) && r.holds(b) ==> #[trigger] n.answer(Question::Equal(a, b)) == (r.at(a) == r.at(b))
}

/// Whether arithmetic is that of real numbers.
pub open spec fn exact<N: Arithmetic>(n: &N, r: Reals<N::Num>) -> bool {
    &&& exact_field(n, r)
    &&& exact_powers(n, r)
    &&& exact_curves(n, r)
    &&& exact_order(n, r)
}

/// The sum of `f` over the first `k` places.
pub open spec fn sum_of(k: nat, f: spec_fn(int) -> real) -> real
    decreases k,
{
    if k == 0 {
        0 as real
    } else {
        sum_of((k - 1) as nat, f) + f(k - 1)
    }
}

/// Sums of the same numbers are the same.
pub proof fn lemma_sum_same(k: nat, f: spec_fn(int) -> real, g: spec_fn(int) -> real)
    requires
        forall|i: int| 0 <= i < k ==> #[trigger] f(i) == g(i),
    ensures
        sum_of(k, f) == sum_of(k, g),
    decreases k,
{
    if k > 0 {
        lemma_sum_same((k - 1) as nat, f, g);
        assert(f(k - 1) == g(k - 1));
    }
}

/// A sum of sums.
pub proof fn lemma_sum_add(k: nat, f: spec_fn(int) -> real, g: spec_fn(int) -> real, h: spec_fn(int) -> real)
    requires
        forall|i: int| 0 <= i < k ==> #[trigger] h(i) == f(i) + g(i),
    ensures
        sum_of(k, h) == sum_of(k, f) + sum_of(k, g),
    decreases k,
{
    if k > 0 {
        lemma_sum_add((k - 1) as nat, f, g, h);
        assert(h(k - 1) == f(k - 1) + g(k - 1));
    }
}

/// A sum of multiples.
pub proof fn lemma_sum_scale(k: nat, c: real, f: spec_fn(int) -> real, h: spec_fn(int) -> real)
    requires
        forall|i: int| 0 <= i < k ==> #[trigger] h(i) == c * f(i),
    ensures
        sum_of(k, h) == c * sum_of(k, f),
    decreases k,
{
    if k > 0 {
        lemma_sum_scale((k - 1) as nat, c, f, h);
        let rest = sum_of((k - 1) as nat, f);
        let last = f(k - 1);
        assert(h(k - 1) == c * last);
        assert(c * (rest + last) == c * rest + c * last) by (nonlinear_arith);
    } else {
        assert(c * (0 as real) == 0 as real) by (nonlinear_arith);
    }
}

/// A sum of nothing but zeros.
pub proof fn lemma_sum_zero(k: nat, f: spec_fn(int) -> real)
    requires
        forall|i: int| 0 <= i < k ==> #[trigger] f(i) == 0 as real,
    ensures
        sum_of(k, f) == 0 as real,
    decreases k,
{
    if k > 0 {
        lemma_sum_zero((k - 1) as nat, f);
        assert(f(k - 1) == 0 as real);
    }
}

/// A sum with one number in it that is not zero.
pub proof fn lemma_sum_single(k: nat, f: spec_fn(int) -> real, at: int)
    requires
        0 <= at < k,
        forall|i: int| 0 <= i < k && i != at ==> #[trigger] f(i) == 0 as real,
    ensures
        sum_of(k, f) == f(at),
    decreases k,
{
    if at == k - 1 {
        lemma_sum_zero((k - 1) as nat, f);
    } else {
        assert(f(k - 1) == 0 as real);
        lemma_sum_single((k - 1) as nat, f, at);
    }
}

/// A sum of numbers of which none is negative is at least as large as each of them.
pub proof fn lemma_sum_bounds(k: nat, f: spec_fn(int) -> real, at: int)
    requires
        0 <= at < k,
        forall|i: int| 0 <= i < k ==> #[trigger] f(i) >= 0 as real,
    ensures
        sum_of(k, f) >= f(at),
    decreases k,
{
    assert(f(k - 1) >= 0 as real);
    if at == k - 1 {
        lemma_sum_nonnegative((k - 1) as nat, f);
    } else {
        lemma_sum_bounds((k - 1) as nat, f, at);
    }
}

/// A sum of numbers of which none is negative is not negative.
pub proof fn lemma_sum_nonnegative(k: nat, f: spec_fn(int) -> real)
    requires
        forall|i: int| 0 <= i < k ==> #[trigger] f(i) >= 0 as real,
    ensures
        sum_of(k, f) >= 0 as real,
    decreases k,
{
    if k > 0 {
        assert(f(k - 1) >= 0 as real);
        lemma_sum_nonnegative((k - 1) as nat, f);
    }
}

/// The sum over a rectangle, row by row.
pub open spec fn sum_over(rows: nat, cols: nat, f: spec_fn(int, int) -> real) -> real {
    sum_of(rows, |i: int| sum_of(cols, |j: int| f(i, j)))
}

/// Sums over a rectangle of the same numbers are the same.
pub proof fn lemma_over_same(rows: nat, cols: nat, f: spec_fn(int, int) -> real, g: spec_fn(int, int) -> real)
    requires
        forall|i: int, j: int| 0 <= i < rows && 0 <= j < cols ==> #[trigger] f(i, j) == g(i, j),
    ensures
        sum_over(rows, cols, f) == sum_over(rows, cols, g),
{
    let a = |i: int| sum_of(cols, |j: int| f(i, j));
    let b = |i: int| sum_of(cols, |j: int| g(i, j));
    assert forall|i: int| 0 <= i < rows implies #[trigger] a(i) == b(i) by {
        lemma_sum_same(cols, |j: int| f(i, j), |j: int| g(i, j));
    }
    lemma_sum_same(rows, a, b);
}

/// A sum over a rectangle of sums.
pub proof fn lemma_over_add(
    rows: nat,
    cols: nat,
    f: spec_fn(int, int) -> real,
    g: spec_fn(int, int) -> real,
    h: spec_fn(int, int) -> real,
)
    requires
        forall|i: int, j: int| 0 <= i < rows && 0 <= j < cols ==> #[trigger] h(i, j) == f(i, j) + g(i, j),
    ensures
        sum_over(rows, cols, h) == sum_over(rows, cols, f) + sum_over(rows, cols, g),
{
    let a = |i: int| sum_of(cols, |j: int| f(i, j));
    let b = |i: int| sum_of(cols, |j: int| g(i, j));
    let c = |i: int| sum_of(cols, |j: int| h(i, j));
    assert forall|i: int| 0 <= i < rows implies #[trigger] c(i) == a(i) + b(i) by {
        lemma_sum_add(cols, |j: int| f(i, j), |j: int| g(i, j), |j: int| h(i, j));
    }
    lemma_sum_add(rows, a, b, c);
}

/// A sum over a rectangle is the same column by column.
pub proof fn lemma_over_swap(rows: nat, cols: nat, f: spec_fn(int, int) -> real)
    ensures
        sum_over(rows, cols, f) == sum_over(cols, rows, |j: int, i: int| f(i, j)),
    decreases rows,
{
    let g = |j: int, i: int| f(i, j);
    let by_cols = |j: int| sum_of(rows, |i: int| g(j, i));
    if rows == 0 {
        lemma_sum_zero(cols, by_cols);
    } else {
        let less = (rows - 1) as nat;
        lemma_over_swap(less, cols, f);
        let short = |j: int| sum_of(less, |i: int| g(j, i));
        let last = |j: int| f(rows - 1, j);
        assert forall|j: int| 0 <= j < cols implies #[trigger] by_cols(j) == short(j) + last(j) by {
            assert(sum_of(rows, |i: int| g(j, i)) == sum_of(less, |i: int| g(j, i)) + g(j, rows - 1));
        }
        lemma_sum_add(cols, short, last, by_cols);
        assert(sum_over(cols, less, g) == sum_of(cols, short));
    }
}

/// The zero of exact arithmetic.
pub proof fn lemma_zero<N: Arithmetic>(n: &N, r: Reals<N::Num>)
    requires
        exact_field(n, r),
    ensures
        r.holds(n.value(Term::Decimal(0, 0))),
        r.at(n.value(Term::Decimal(0, 0))) == 0 as real,
        r.rate(n.value(Term::Decimal(0, 0))) == 0 as real,
        r.holds(n.value(Term::Decimal(1, 0))),
        r.at(n.value(Term::Decimal(1, 0))) == 1 as real,
        r.rate(n.value(Term::Decimal(1, 0))) == 0 as real,
{
    assert(rpow(10 as real, 0) == 1 as real);
    let z = n.value(Term::Decimal(0, 0));
    let o = n.value(Term::Decimal(1, 0));
    assert(r.at(z) * (1 as real) == r.at(z)) by (nonlinear_arith);
    assert(r.at(o) * (1 as real) == r.at(o)) by (nonlinear_arith);
}

/// A factor that is not zero can be left out.
pub proof fn lemma_cancel(s: real, x: real, y: real)
    requires
        s != 0 as real,
        s * x == s * y,
    ensures
        x == y,
{
    assert(x == y) by (nonlinear_arith)
        requires
            s != 0 as real,
            s * x == s * y,
    ;
}

/// A number that is not negative and whose square is positive is positive.
pub proof fn lemma_root_positive(w: real, x: real)
    requires
        w >= 0 as real,
        w * w == x,
        x > 0 as real,
    ensures
        w > 0 as real,
{
    if w == 0 as real {
        assert(w * w == 0 as real) by (nonlinear_arith)
            requires
                w == 0 as real,
        ;
    }
}

/// A product of positive numbers is positive.
pub proof fn lemma_product_positive(a: real, b: real)
    requires
        a > 0 as real,
        b > 0 as real,
    ensures
        a * b > 0 as real,
{
    assert(a * b > 0 as real) by (nonlinear_arith)
        requires
            a > 0 as real,
            b > 0 as real,
    ;
}

/// A number whose product with a positive one is not negative is not negative.
pub proof fn lemma_factor_nonnegative(m: real, v: real)
    requires
        m > 0 as real,
        m * v >= 0 as real,
    ensures
        v >= 0 as real,
{
    if v < 0 as real {
        assert(m * v < 0 as real) by (nonlinear_arith)
            requires
                m > 0 as real,
                v < 0 as real,
        ;
    }
}

/// Nothing times a number.
pub proof fn lemma_times_zero(x: real)
    ensures
        x * (0 as real) == 0 as real,
        (0 as real) * x == 0 as real,
        x * (1 as real) == x,
        (1 as real) * x == x,
{
    assert(x * (0 as real) == 0 as real) by (nonlinear_arith);
    assert((0 as real) * x == 0 as real) by (nonlinear_arith);
    assert(x * (1 as real) == x) by (nonlinear_arith);
    assert((1 as real) * x == x) by (nonlinear_arith);
}

/// Factors can change places.
pub proof fn lemma_commute(x: real, y: real)
    ensures
        x * y == y * x,
{
    assert(x * y == y * x) by (nonlinear_arith);
}

/// A factor of a sum is one of each part.
pub proof fn lemma_spread(x: real, y: real, z: real)
    ensures
        x * (y + z) == x * y + x * z,
        x * (y - z) == x * y - x * z,
{
    assert(x * (y + z) == x * y + x * z) by (nonlinear_arith);
    assert(x * (y - z) == x * y - x * z) by (nonlinear_arith);
}

/// Factors can be taken together in any way.
pub proof fn lemma_group(x: real, y: real, z: real)
    ensures
        x * (y * z) == (x * y) * z,
        x * (y * z) == y * (x * z),
        x * (y * z) == z * (x * y),
{
    assert(x * (y * z) == (x * y) * z) by (nonlinear_arith);
    assert(x * (y * z) == y * (x * z)) by (nonlinear_arith);
    assert(x * (y * z) == z * (x * y)) by (nonlinear_arith);
}

/// Squares are not negative.
pub proof fn lemma_square(e: real)
    ensures
        e * e >= 0 as real,
{
    assert(e * e >= 0 as real) by (nonlinear_arith);
}

/// A product with a negated factor.
pub proof fn lemma_negated(c: real, m: real)
    ensures
        -c * m == -(m * c),
        -c * m == -(c * m),
{
    let none = 0 as real;
    assert(none - c == -c);
    lemma_spread(m, none, c);
    lemma_times_zero(m);
    lemma_commute(m, -c);
    lemma_commute(m, c);
}

/// A product with a difference.
pub proof fn lemma_difference(p: real, q: real, c: real)
    ensures
        p * (q - c) == p * q + -c * p,
{
    lemma_spread(p, q, c);
    lemma_negated(c, p);
}

/// A product with twice a product.
pub proof fn lemma_doubled(m: real, w: real, x: real)
    ensures
        m * ((2 as real) * w * x) == (2 as real) * (w * (m * x)),
{
    let two = 2 as real;
    lemma_group(m, two * w, x);
    lemma_group(two, w, m * x);
}

/// A product with a sum of products.
pub proof fn lemma_apart(m: real, u: real, w: real, p: real, x: real)
    ensures
        m * (u * w + p * x) == m * (w * u) + p * (m * x),
{
    lemma_spread(m, u * w, p * x);
    lemma_commute(u, w);
    lemma_group(m, p, x);
}

/// Four factors in another order.
pub proof fn lemma_four(m: real, w: real, p: real, v: real)
    ensures
        (m * w) * (p * v) == p * (m * (w * v)),
{
    lemma_group(m * w, p, v);
    lemma_group(m, w, v);
}

/// A factor of a product from which two things are taken away.
pub proof fn lemma_less_two(p: real, m: real, q: real, s: real, t: real, x: real)
    ensures
        p * (m * q - s - t * x) == m * (p * q) + (-s * p + -x * (t * p)),
{
    lemma_spread(p, m * q - s, t * x);
    lemma_spread(p, m * q, s);
    lemma_group(p, m, q);
    lemma_negated(s, p);
    lemma_group(p, t, x);
    lemma_commute(p, t);
    lemma_negated(x, t * p);
}

/// A factor of a difference of three.
pub proof fn lemma_less(m: real, x: real, p: real, s: real)
    ensures
        m * (x - p - s) == m * x - p * m - s * m,
{
    lemma_spread(m, x - p, s);
    lemma_spread(m, x, p);
    lemma_commute(m, p);
    lemma_commute(m, s);
}

/// A product of numbers that are not negative is not negative.
pub proof fn lemma_product_nonnegative(a: real, b: real)
    requires
        a >= 0 as real,
        b >= 0 as real,
    ensures
        a * b >= 0 as real,
{
    lemma_times_zero(a);
    lemma_times_zero(b);
    if a > 0 as real && b > 0 as real {
        lemma_product_positive(a, b);
    }
}

/// A part of a number is not more than it.
pub proof fn lemma_part(p: real, x: real)
    requires
        0 as real <= p <= 1 as real,
        x >= 0 as real,
    ensures
        0 as real <= p * x <= x,
{
    lemma_product_nonnegative(p, x);
    lemma_product_nonnegative((1 as real) - p, x);
    lemma_spread(x, 1 as real, p);
    lemma_times_zero(x);
    lemma_commute(x, (1 as real) - p);
    lemma_commute(x, p);
}

/// Five factors in another order.
pub proof fn lemma_fade(c: real, p: real, kept: real, x: real)
    ensures
        c * (p * kept) * x == kept * (c * p * x),
{
    lemma_group(c, p, kept);
    lemma_group(kept, c * p, x);
}

/// What is left of a number that comes again.
pub proof fn lemma_fade_again(kept: real, p: real, c: real)
    ensures
        kept * (((1 as real) - p) * c) + ((1 as real) - kept) * c == ((1 as real) - p * kept) * c,
{
    let lost = (1 as real) - p;
    let new = (1 as real) - kept;
    lemma_group(kept, lost, c);
    lemma_spread(kept, 1 as real, p);
    lemma_commute(kept, p);
    lemma_spread(c, kept * lost, new);
    lemma_commute(c, kept * lost);
    lemma_commute(c, new);
    lemma_commute(c, kept * lost + new);
    assert(kept * lost + new == (1 as real) - p * kept);
}

/// Four factors grouped in another way.
pub proof fn lemma_regroup(l: real, x: real, d: real, k: real)
    ensures
        ((l * x) * d) * k == l * ((x * d) * k),
{
    lemma_group(l, x, d);
    lemma_group(l, x * d, k);
}

/// Five tenths are a half.
pub proof fn lemma_half(h: real)
    requires
        h * (10 as real) == 5 as real,
    ensures
        (2 as real) * h == 1 as real,
{
    assert((2 as real) * h == 1 as real) by (nonlinear_arith)
        requires
            h * (10 as real) == 5 as real,
    ;
}

} // verus!
