//! Clauses: literal lists kept sorted by variable, without repeats.
use vstd::prelude::*;
use crate::literal::Literal;
use crate::cnf::same_literals;
use crate::sorted_vec::{sort_and_dedupe, strictly_sorted};

verus! {

/// The list holds a literal and its complement.
pub open spec fn tautology(s: Seq<Literal>) -> bool {
    exists|i: int, j: int|
        0 <= i < s.len() && 0 <= j < s.len() && (#[trigger] s[i]).vidx() == (#[trigger] s[j]).vidx()
            && s[i] != s[j]
}

/// Variables strictly increase along the list: sorted by variable, with
/// each variable at most once.
pub open spec fn var_sorted(s: Seq<Literal>) -> bool {
    forall|i: int, j: int| 0 <= i < j < s.len() ==> (#[trigger] s[i]).vidx() < (#[trigger] s[j]).vidx()
}

/// A disjunction of literals, normalised at construction.
#[derive(Clone, Debug)]
pub struct Clause {
    pub id: usize,
    pub literals: Vec<Literal>,
}

impl Clause {
    pub open spec fn view(&self) -> Seq<Literal> {
        self.literals@
    }

    pub open spec fn wf(&self) -> bool {
        var_sorted(self.literals@)
    }

    /// Builds a clause from a literal list that holds no complementary pair.
    pub fn new(lits: &Vec<Literal>) -> (r: Clause)
        requires
            !tautology(lits@),
        ensures
            r.wf(),
            var_sorted(r@),
            same_literals(r@, lits@),
            r.id == 0,
    {
        Self::new_with_id(0, lits)
    }

    /// Builds a clause with the given identifier from a literal list that
    /// holds no complementary pair: the literals are sorted by variable and
    /// repeats are dropped.
    pub fn new_with_id(ix: usize, lits: &Vec<Literal>) -> (r: Clause)
        requires
            !tautology(lits@),
        ensures
            r.wf(),
            var_sorted(r@),
            same_literals(r@, lits@),
            r.id == ix,
    {
        let mut literals = lits.clone();
        sort_and_dedupe(&mut literals);
        proof {
            lemma_sorted_no_tautology(literals@, lits@);
        }
        Clause { id: ix, literals }
    }

    /// Builds a clause as `new_with_id` does, or returns `None` when the list
    /// holds a literal and its complement.
    pub fn checked(ix: usize, lits: &Vec<Literal>) -> (r: Option<Clause>)
        ensures
            r is None <==> tautology(lits@),
            r matches Some(c) ==> c.wf() && var_sorted(c@) && same_literals(c@, lits@) && c.id == ix,
    {
        let mut literals = lits.clone();
        sort_and_dedupe(&mut literals);
        let n = literals.len();
        if n == 0 {
            proof {
                lemma_no_tautology(literals@, lits@);
            }
            return Some(Clause { id: ix, literals });
        }
        let mut i: usize = 0;
        while i + 1 < n
            invariant
                n == literals.len(),
                n > 0,
                i < n,
                strictly_sorted(literals@),
                forall|a: int, b: int| 0 <= a < b <= i ==> (#[trigger] literals@[a]).vidx() < (
                #[trigger] literals@[b]).vidx(),
                forall|l: Literal| literals@.contains(l) <==> lits@.contains(l),
            decreases n - i,
        {
            if literals[i].var().0 == literals[i + 1].var().0 {
                proof {
                    let x = literals@[i as int];
                    let y = literals@[i + 1];
                    assert(x.0 < y.0);
                    assert(literals@.contains(x) && literals@.contains(y));
                    let a = choose|a: int| 0 <= a < lits@.len() && lits@[a] == x;
                    let b = choose|b: int| 0 <= b < lits@.len() && lits@[b] == y;
                    assert(lits@[a].vidx() == lits@[b].vidx() && lits@[a] != lits@[b]);
                }
                return None;
            }
            proof {
                let x = literals@[i as int];
                let y = literals@[i + 1];
                assert(x.0 < y.0);
                assert(x.vidx() < y.vidx());
                assert forall|a: int, b: int| 0 <= a < b <= i + 1 implies (#[trigger] literals@[a]).vidx()
                    < (#[trigger] literals@[b]).vidx() by {
                    if b == i + 1 && a < i {
                        assert(literals@[a].vidx() < literals@[i as int].vidx());
                    }
                }
            }
            i = i + 1;
        }
        proof {
            lemma_no_tautology(literals@, lits@);
        }
        Some(Clause { id: ix, literals })
    }

    pub fn len(&self) -> (r: usize)
        ensures
            r == self@.len(),
    {
        self.literals.len()
    }

    pub fn is_unit(&self) -> (r: bool)
        ensures
            r == (self@.len() == 1),
    {
        self.literals.len() == 1
    }

    pub fn literals(&self) -> (r: &Vec<Literal>)
        ensures
            r@ == self@,
    {
        &self.literals
    }

    pub fn into_literals(self) -> (r: Vec<Literal>)
        ensures
            r@ == self@,
    {
        self.literals
    }
}

/// Sorted by packed word, without a complementary pair in the source list,
/// the literals are sorted strictly by variable.
proof fn lemma_sorted_no_tautology(s: Seq<Literal>, src: Seq<Literal>)
    requires
        strictly_sorted(s),
        forall|l: Literal| s.contains(l) <==> src.contains(l),
        !tautology(src),
    ensures
        var_sorted(s),
{
    assert forall|i: int, j: int| 0 <= i < j < s.len() implies (#[trigger] s[i]).vidx() < (
    #[trigger] s[j]).vidx() by {
        assert(s[i].0 < s[j].0);
        if s[i].vidx() >= s[j].vidx() {
            assert(s.contains(s[i]) && s.contains(s[j]));
            let a = choose|a: int| 0 <= a < src.len() && src[a] == s[i];
            let b = choose|b: int| 0 <= b < src.len() && src[b] == s[j];
            assert(src[a].vidx() == src[b].vidx() && src[a] != src[b]);
        }
    }
}

/// A list strictly sorted by variable holds no complementary pair, nor does
/// a list with the same literals.
proof fn lemma_no_tautology(s: Seq<Literal>, src: Seq<Literal>)
    requires
        var_sorted(s),
        forall|l: Literal| s.contains(l) <==> src.contains(l),
    ensures
        !tautology(src),
{
    if tautology(src) {
        let (a, b) = choose|a: int, b: int|
            0 <= a < src.len() && 0 <= b < src.len() && (#[trigger] src[a]).vidx() == (
            #[trigger] src[b]).vidx() && src[a] != src[b];
        assert(src.contains(src[a]) && src.contains(src[b]));
        let i = choose|i: int| 0 <= i < s.len() && s[i] == src[a];
        let j = choose|j: int| 0 <= j < s.len() && s[j] == src[b];
        assert(i != j);
        if i < j {
            assert(s[i].vidx() < s[j].vidx());
        } else {
            assert(s[j].vidx() < s[i].vidx());
        }
    }
}

} // verus!
