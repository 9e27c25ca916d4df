//! The meaning of clauses and formulas: valuations, partial assignments and
//! entailment.
use vstd::prelude::*;
use crate::literal::Literal;

verus! {

/// A literal holds under a total valuation of the variables.
pub open spec fn lit_holds(sigma: spec_fn(nat) -> bool, l: Literal) -> bool {
    sigma(l.vidx()) == l.pos()
}

/// A clause holds when one of its literals does.
pub open spec fn clause_holds(sigma: spec_fn(nat) -> bool, c: Seq<Literal>) -> bool {
    exists|i: int| 0 <= i < c.len() && #[trigger] lit_holds(sigma, c[i])
}

/// A formula holds when every one of its clauses does.
pub open spec fn formula_holds(sigma: spec_fn(nat) -> bool, f: Seq<Seq<Literal>>) -> bool {
    forall|j: int| 0 <= j < f.len() ==> #[trigger] clause_holds(sigma, f[j])
}

/// Some valuation makes every clause hold.
pub open spec fn satisfiable(f: Seq<Seq<Literal>>) -> bool {
    exists|sigma: spec_fn(nat) -> bool| #[trigger] formula_holds(sigma, f)
}

/// Every valuation that makes `f` hold makes `c` hold.
pub open spec fn entails(f: Seq<Seq<Literal>>, c: Seq<Literal>) -> bool {
    forall|sigma: spec_fn(nat) -> bool| #[trigger] formula_holds(sigma, f) ==> clause_holds(sigma, c)
}

/// Every valuation that makes `f` hold makes the literal `l` hold.
pub open spec fn entails_lit(f: Seq<Seq<Literal>>, l: Literal) -> bool {
    forall|sigma: spec_fn(nat) -> bool| #[trigger] formula_holds(sigma, f) ==> lit_holds(sigma, l)
}

/// Two clauses that hold under the same valuations.
pub open spec fn same_literals(a: Seq<Literal>, b: Seq<Literal>) -> bool {
    forall|l: Literal| a.contains(l) <==> b.contains(l)
}

/// A partial assignment, given as the literals made true, satisfies a clause.
pub open spec fn satisfied_by(a: Seq<Literal>, c: Seq<Literal>) -> bool {
    exists|i: int| 0 <= i < c.len() && a.contains(#[trigger] c[i])
}

/// A literal is false under a partial assignment.
pub open spec fn lit_false(a: Seq<Literal>, l: Literal) -> bool {
    a.contains(l.neg())
}

/// A variable has a value under a partial assignment.
pub open spec fn var_assigned(a: Seq<Literal>, v: nat) -> bool {
    exists|i: int| 0 <= i < a.len() && (#[trigger] a[i]).vidx() == v
}

/// Every literal of the clause is false: the clause is falsified.
pub open spec fn falsified(a: Seq<Literal>, c: Seq<Literal>) -> bool {
    forall|i: int| 0 <= i < c.len() ==> lit_false(a, #[trigger] c[i])
}

/// No literal of the clause is true and exactly one has no value: the
/// clause is unit.
pub open spec fn is_unit_under(a: Seq<Literal>, c: Seq<Literal>) -> bool {
    !satisfied_by(a, c) && exists|k: int|
        0 <= k < c.len() && !var_assigned(a, (#[trigger] c[k]).vidx()) && forall|i: int|
            0 <= i < c.len() && i != k ==> lit_false(a, #[trigger] c[i])
}

/// No variable has two literals in the assignment.
pub open spec fn consistent(a: Seq<Literal>) -> bool {
    forall|i: int, j: int|
        0 <= i < a.len() && 0 <= j < a.len() && i != j ==> (#[trigger] a[i]).vidx() != (
        #[trigger] a[j]).vidx()
}


/// Literals that are equal as values have the same variable and polarity.
pub proof fn lemma_lit_eq(a: Literal, b: Literal)
    requires
        a.vidx() == b.vidx(),
        a.pos() == b.pos(),
    ensures
        a == b,
{
}




} // verus!
