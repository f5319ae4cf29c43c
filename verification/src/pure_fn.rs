//! Functions handed in by the caller, seen as mathematical functions.
//!
//! Arithmetic on numbers that this library only carries comes in as functions. They are required
//! to accept every argument and to give the same result for the same arguments, so that a contract
//! can name their results.

use vstd::prelude::*;

verus! {

/// `f` accepts every argument and has one result for each.
pub open spec fn pure1<A, R, F: Fn(A) -> R>(f: F) -> bool {
    &&& forall|a: A| #[trigger] call_requires(f, (a,))
    &&& forall|a: A, r: R, s: R| #[trigger] call_ensures(f, (a,), r) && #[trigger] call_ensures(f, (a,), s) ==> r == s
}

/// The mathematical function that `f` computes.
pub open spec fn fn1<A, R, F: Fn(A) -> R>(f: F) -> spec_fn(A) -> R {
    |a: A| choose|r: R| call_ensures(f, (a,), r)
}

/// `f` accepts every pair of arguments and has one result for each.
pub open spec fn pure2<A, B, R, F: Fn(A, B) -> R>(f: F) -> bool {
    &&& forall|a: A, b: B| #[trigger] call_requires(f, (a, b))
    &&& forall|a: A, b: B, r: R, s: R| #[trigger]
        call_ensures(f, (a, b), r) && #[trigger] call_ensures(f, (a, b), s) ==> r == s
}

/// The mathematical function that `f` computes.
pub open spec fn fn2<A, B, R, F: Fn(A, B) -> R>(f: F) -> spec_fn(A, B) -> R {
    |a: A, b: B| choose|r: R| call_ensures(f, (a, b), r)
}

/// Calls `f`.
pub fn call1<A, R, F: Fn(A) -> R>(f: &F, a: A) -> (r: R)
    requires
        pure1(*f),
    ensures
        r == fn1(*f)(a),
{
    f(a)
}

/// Calls `f`.
pub fn call2<A, B, R, F: Fn(A, B) -> R>(f: &F, a: A, b: B) -> (r: R)
    requires
        pure2(*f),
    ensures
        r == fn2(*f)(a, b),
{
    f(a, b)
}

} // verus!
