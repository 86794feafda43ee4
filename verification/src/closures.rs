//! What a caller's function computes.
//!
//! Arithmetic on samples is handed in by the caller as functions. A contract then speaks of
//! every mathematical function that the caller's function computes.
use vstd::prelude::*;

verus! {

/// Whatever `f` returns is the value of `s`.
pub open spec fn computes1<A, B, F: Fn(A) -> B>(f: F, s: spec_fn(A) -> B) -> bool {
    forall|a: A, b: B| #[trigger] f.ensures((a,), b) ==> b == s(a)
}

/// Whatever `f` returns is the value of `s`.
pub open spec fn computes2<A, B, C, F: Fn(A, B) -> C>(f: F, s: spec_fn(A, B) -> C) -> bool {
    forall|a: A, b: B, c: C| #[trigger] f.ensures((a, b), c) ==> c == s(a, b)
}

/// Whatever `f` returns is the value of `s`.
pub open spec fn computes3<A, B, C, D, F: Fn(A, B, C) -> D>(f: F, s: spec_fn(A, B, C) -> D) -> bool {
    forall|a: A, b: B, c: C, d: D| #[trigger] f.ensures((a, b, c), d) ==> d == s(a, b, c)
}

/// `f` accepts every argument.
pub open spec fn accepts1<A, B, F: Fn(A) -> B>(f: F) -> bool {
    forall|a: A| #[trigger] f.requires((a,))
}

/// `f` accepts every argument.
pub open spec fn accepts2<A, B, C, F: Fn(A, B) -> C>(f: F) -> bool {
    forall|a: A, b: B| #[trigger] f.requires((a, b))
}

/// `f` accepts every argument.
pub open spec fn accepts3<A, B, C, D, F: Fn(A, B, C) -> D>(f: F) -> bool {
    forall|a: A, b: B, c: C| #[trigger] f.requires((a, b, c))
}

/// Whatever `f` returns of a borrowed value is the value of `s`.
pub open spec fn reads<B, R, F: Fn(&B) -> R>(f: F, s: spec_fn(B) -> R) -> bool {
    forall|b: &B, r: R| #[trigger] f.ensures((b,), r) ==> r == s(*b)
}

/// Whatever `f` returns of a borrowed value and an argument is the value of `s`.
pub open spec fn reads_with<B, A, R, F: Fn(&B, A) -> R>(f: F, s: spec_fn(B, A) -> R) -> bool {
    forall|b: &B, a: A, r: R| #[trigger] f.ensures((b, a), r) ==> r == s(*b, a)
}

/// `f` accepts every borrowed value.
pub open spec fn accepts_ref<B, R, F: Fn(&B) -> R>(f: F) -> bool {
    forall|b: &B| #[trigger] f.requires((b,))
}

/// `f` accepts every borrowed value and argument.
pub open spec fn accepts_ref_with<B, A, R, F: Fn(&B, A) -> R>(f: F) -> bool {
    forall|b: &B, a: A| #[trigger] f.requires((b, a))
}

} // verus!
