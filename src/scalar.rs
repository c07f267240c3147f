use vstd::prelude::*;

verus! {

/// A unary operation that may be called on every argument and always gives
/// the same result for the same argument.
pub open spec fn is_fn1<A, R, F: Fn(A) -> R>(f: F) -> bool {
    &&& forall|a: A| #[trigger] f.requires((a,))
    &&& forall|a: A, r1: R, r2: R|
        #[trigger] f.ensures((a,), r1) && #[trigger] f.ensures((a,), r2) ==> r1 == r2
}

/// A binary operation that may be called on every pair of arguments and
/// always gives the same result for the same arguments.
pub open spec fn is_fn2<A, B, R, F: Fn(A, B) -> R>(f: F) -> bool {
    &&& forall|a: A, b: B| #[trigger] f.requires((a, b))
    &&& forall|a: A, b: B, r1: R, r2: R|
        #[trigger] f.ensures((a, b), r1) && #[trigger] f.ensures((a, b), r2) ==> r1 == r2
}

/// The value that a unary operation gives on `a`.
pub open spec fn ap1<A, R, F: Fn(A) -> R>(f: F, a: A) -> R {
    choose|r: R| f.ensures((a,), r)
}

/// The value that a binary operation gives on `a` and `b`. For an operation
/// meeting `is_fn2`, a caller that has seen `f(a, b)` return `r` knows that
/// this is `r`.
pub open spec fn ap2<A, B, R, F: Fn(A, B) -> R>(f: F, a: A, b: B) -> R {
    choose|r: R| f.ensures((a, b), r)
}

/// Calls `f` on `a`.
pub(crate) fn call1<A, R, F: Fn(A) -> R>(f: &F, a: A) -> (r: R)
    requires
        is_fn1(*f),
    ensures
        r == ap1(*f, a),
{
    let r = f(a);
    assert(f.ensures((a,), r));
    r
}

/// Calls `f` on `a` and `b`.
pub(crate) fn call2<A, B, R, F: Fn(A, B) -> R>(f: &F, a: A, b: B) -> (r: R)
    requires
        is_fn2(*f),
    ensures
        r == ap2(*f, a, b),
{
    let r = f(a, b);
    assert(f.ensures((a, b), r));
    r
}

} // verus!
