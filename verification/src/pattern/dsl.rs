//! Helper functions for constructing complex patterns.
use vstd::prelude::*;

use super::{And, Not, Or, Pattern};

verus! {

/// Constructs the negation of a pattern.
pub fn not<P: Pattern>(p: P) -> (r: Not<P>)
    ensures
        r.pattern == p,
        forall|path: Seq<char>| #[trigger] r.accepts(path) <==> !p.accepts(path),
{
    Not { pattern: p }
}

/// Constructs the conjunction of two patterns.
pub fn and<A: Pattern, B: Pattern>(a: A, b: B) -> (r: And<A, B>)
    ensures
        r.left == a,
        r.right == b,
        forall|path: Seq<char>| #[trigger] r.accepts(path) <==> (a.accepts(path) && b.accepts(path)),
{
    And { left: a, right: b }
}

/// Constructs the disjunction of two patterns.
pub fn or<A: Pattern, B: Pattern>(a: A, b: B) -> (r: Or<A, B>)
    ensures
        r.left == a,
        r.right == b,
        forall|path: Seq<char>| #[trigger] r.accepts(path) <==> (a.accepts(path) || b.accepts(path)),
{
    Or { left: a, right: b }
}

} // verus!
