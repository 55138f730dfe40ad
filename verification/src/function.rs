use vstd::prelude::*;

verus! {

/// `f`, of one argument, has at most one answer for each argument.
pub open spec fn single_valued1<A, Out, F: Fn(A) -> Out>(f: F) -> bool {
    forall|a: A, x: Out, y: Out| #[trigger] call_ensures(f, (a,), x) && #[trigger] call_ensures(f, (a,), y) ==> x == y
}

/// `f`, of two arguments, has at most one answer for each pair of them.
pub open spec fn single_valued2<A, B, Out, F: Fn(A, B) -> Out>(f: F) -> bool {
    forall|a: A, b: B, x: Out, y: Out| #[trigger]
        call_ensures(f, (a, b), x) && #[trigger] call_ensures(f, (a, b), y) ==> x == y
}

/// `f`, of three arguments, has at most one answer for each triple of them.
pub open spec fn single_valued3<A, B, C, Out, F: Fn(A, B, C) -> Out>(f: F) -> bool {
    forall|a: A, b: B, c: C, x: Out, y: Out| #[trigger]
        call_ensures(f, (a, b, c), x) && #[trigger] call_ensures(f, (a, b, c), y) ==> x == y
}

/// `f`, of four arguments, has at most one answer for each choice of them.
pub open spec fn single_valued4<A, B, C, D, Out, F: Fn(A, B, C, D) -> Out>(f: F) -> bool {
    forall|a: A, b: B, c: C, d: D, x: Out, y: Out| #[trigger]
        call_ensures(f, (a, b, c, d), x) && #[trigger] call_ensures(f, (a, b, c, d), y) ==> x == y
}

} // verus!
