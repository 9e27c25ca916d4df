//! A set of literals with at most one polarity per variable: an assignment.
use vstd::prelude::*;
use crate::literal::{Literal, Variable, MAX_LITERAL};
use crate::clause::Clause;

verus! {

broadcast use {Literal::lemma_neg, Literal::lemma_of, Literal::lemma_of_parts};

/// How a clause fares under a partial assignment.
#[derive(Debug, Clone, Copy, PartialEq, Eq, Hash, PartialOrd, Ord, Structural)]
pub enum EvaluationResult {
    True,
    False,
    Unknown,
}

/// The number of variables that have a value.
pub open spec fn count_some(s: Seq<Option<bool>>) -> nat
    decreases s.len(),
{
    if s.len() == 0 {
        0
    } else {
        count_some(s.drop_last()) + if s.last() is Some { 1nat } else { 0nat }
    }
}

pub proof fn lemma_count_some_update(s: Seq<Option<bool>>, i: int, x: Option<bool>)
    requires
        0 <= i < s.len(),
    ensures
        count_some(s.update(i, x)) == count_some(s) - (if s[i] is Some { 1int } else { 0int }) + (
        if x is Some { 1int } else { 0int }),
    decreases s.len(),
{
    let t = s.update(i, x);
    if i == s.len() - 1 {
        assert(t.drop_last() == s.drop_last());
    } else {
        assert(t.drop_last() == s.drop_last().update(i, x));
        lemma_count_some_update(s.drop_last(), i, x);
    }
}

pub proof fn lemma_count_some_push_none(s: Seq<Option<bool>>)
    ensures
        count_some(s.push(None)) == count_some(s),
{
    assert(s.push(None).drop_last() == s);
}

pub proof fn lemma_count_some_bound(s: Seq<Option<bool>>)
    ensures
        count_some(s) <= s.len(),
    decreases s.len(),
{
    if s.len() > 0 {
        lemma_count_some_bound(s.drop_last());
    }
}

/// The value of each variable, if any, and how many have one.
#[derive(Clone, Debug, PartialEq, Eq)]
pub struct LiteralSet {
    pub values: Vec<Option<bool>>,
    pub count: usize,
}

impl LiteralSet {
    pub open spec fn wf(&self) -> bool {
        self.count == count_some(self.values@)
    }

    /// The value of variable `v`.
    pub open spec fn value(&self, v: nat) -> Option<bool> {
        if v < self.values@.len() {
            self.values@[v as int]
        } else {
            None
        }
    }

    /// The literal of `v` in the set.
    pub open spec fn has(&self, l: Literal) -> bool {
        self.value(l.vidx()) == Some(l.pos())
    }

    pub fn new() -> (r: LiteralSet)
        ensures
            r.wf(),
            forall|v: nat| r.value(v) is None,
            r.count == 0,
    {
        LiteralSet { values: Vec::new(), count: 0 }
    }

    /// An empty set with room for the variables below `n`.
    pub fn with_vars(n: usize) -> (r: LiteralSet)
        ensures
            r.wf(),
            forall|v: nat| r.value(v) is None,
            r.count == 0,
            r.values@.len() == n,
    {
        let mut values: Vec<Option<bool>> = Vec::new();
        let mut i: usize = 0;
        while i < n
            invariant
                i <= n,
                values@.len() == i,
                forall|k: int| 0 <= k < i ==> values@[k] is None,
                count_some(values@) == 0,
            decreases n - i,
        {
            proof {
                lemma_count_some_push_none(values@);
            }
            values.push(None);
            i = i + 1;
        }
        LiteralSet { values, count: 0 }
    }

    /// Gives the variable of `lit` the polarity of `lit`.
    pub fn add(&mut self, lit: Literal)
        requires
            old(self).wf(),
            lit.vidx() < usize::MAX,
        ensures
            final(self).wf(),
            forall|v: nat| v != lit.vidx() ==> final(self).value(v) == old(self).value(v),
            final(self).value(lit.vidx()) == Some(lit.pos()),
            final(self).count == old(self).count + (if old(self).value(lit.vidx()) is None { 1int } else { 0int }),
            old(self).values@.len() <= final(self).values@.len(),
            lit.vidx() < old(self).values@.len() ==> final(self).values@.len() == old(self).values@.len(),
    {
        let v = lit.var().0 as usize;
        while self.values.len() <= v
            invariant
                self.wf(),
                v == lit.vidx(),
                forall|u: nat| #[trigger] self.value(u) == old(self).value(u),
                old(self).values@.len() <= self.values@.len(),
                old(self).count == self.count,
                v < old(self).values@.len() ==> self.values@.len() == old(self).values@.len(),
            decreases v + 1 - self.values.len(),
        {
            proof {
                lemma_count_some_push_none(self.values@);
            }
            let ghost prev = *self;
            self.values.push(None);
            assert forall|u: nat| #[trigger] self.value(u) == prev.value(u) by {
                if u < prev.values@.len() {
                    assert(self.values@[u as int] == prev.values@[u as int]);
                }
            }
        }
        proof {
            lemma_count_some_update(self.values@, v as int, Some(lit.pos()));
            lemma_count_some_bound(self.values@.update(v as int, Some(lit.pos())));
        }
        let ghost prev = *self;
        assert(prev.value(lit.vidx()) == old(self).value(lit.vidx()));
        if self.values[v].is_none() {
            self.count = self.count + 1;
        }
        self.values.set(v, Some(lit.polarity()));
        assert forall|u: nat| u != lit.vidx() implies #[trigger] self.value(u) == prev.value(u) by {
            if u < prev.values@.len() {
                assert(self.values@[u as int] == prev.values@[u as int]);
            }
        }
    }

    /// The literal of `var` in the set, if any.
    pub fn get(&self, var: Variable) -> (r: Option<Literal>)
        requires
            var.0 < MAX_LITERAL,
        ensures
            r matches Some(l) ==> l.vidx() == var.0 && self.value(var.0 as nat) == Some(l.pos()),
            r is None <==> self.value(var.0 as nat) is None,
    {
        let v = var.0;
        if v < self.values.len() as u64 {
            match self.values[v as usize] {
                Some(p) => Some(Literal::new(var, p)),
                None => None,
            }
        } else {
            None
        }
    }

    /// The value of the variable with index `v`, if any.
    pub fn value_of(&self, v: u64) -> (r: Option<bool>)
        ensures
            r == self.value(v as nat),
    {
        if v < self.values.len() as u64 {
            self.values[v as usize]
        } else {
            None
        }
    }

    pub fn contains(&self, lit: Literal) -> (r: bool)
        ensures
            r == self.has(lit),
    {
        let v = lit.var().0;
        match self.value_of(v) {
            Some(p) => p == lit.polarity(),
            None => false,
        }
    }

    pub fn contains_var(&self, var: Variable) -> (r: bool)
        ensures
            r == self.value(var.0 as nat) is Some,
    {
        self.value_of(var.0).is_some()
    }

    /// Removes `lit`, which must be in the set.
    pub fn remove(&mut self, lit: Literal)
        requires
            old(self).wf(),
            old(self).has(lit),
        ensures
            final(self).wf(),
            forall|v: nat| v != lit.vidx() ==> final(self).value(v) == old(self).value(v),
            final(self).value(lit.vidx()) is None,
            final(self).count == old(self).count - 1,
            final(self).values@.len() == old(self).values@.len(),
    {
        let v = lit.var().0 as usize;
        proof {
            lemma_count_some_update(self.values@, v as int, None);
        }
        let ghost prev = *self;
        self.values.set(v, None);
        self.count = self.count - 1;
        assert forall|u: nat| u != lit.vidx() implies #[trigger] self.value(u) == prev.value(u) by {
            if u < prev.values@.len() {
                assert(self.values@[u as int] == prev.values@[u as int]);
            }
        }
    }

    /// The number of variables with a value.
    pub fn size(&self) -> (r: usize)
        ensures
            r == self.count,
    {
        self.count
    }

    pub fn from_assignment_vec(asses: &Vec<Literal>) -> (r: LiteralSet)
        requires
            forall|i: int| 0 <= i < asses@.len() ==> (#[trigger] asses@[i]).vidx() < usize::MAX,
        ensures
            r.wf(),
            forall|l: Literal| r.has(l) ==> asses@.contains(l),
            forall|i: int| 0 <= i < asses@.len() ==> (#[trigger] r.value(asses@[i].vidx())) is Some,
    {
        let mut set = LiteralSet::new();
        let mut i: usize = 0;
        while i < asses.len()
            invariant
                i <= asses@.len(),
                set.wf(),
                forall|i: int| 0 <= i < asses@.len() ==> (#[trigger] asses@[i]).vidx() < usize::MAX,
                forall|l: Literal| set.has(l) ==> asses@.subrange(0, i as int).contains(l),
                forall|k: int| 0 <= k < i ==> (#[trigger] set.value(asses@[k].vidx())) is Some,
            decreases asses.len() - i,
        {
            let l = asses[i];
            let ghost old_set = set;
            set.add(l);
            proof {
                assert forall|m: Literal| set.has(m) implies asses@.subrange(0, i + 1).contains(m) by {
                    if m.vidx() == l.vidx() {
                        crate::cnf::lemma_lit_eq(m, l);
                        assert(asses@.subrange(0, i + 1)[i as int] == l);
                    } else {
                        assert(old_set.has(m));
                        let s = asses@.subrange(0, i as int);
                        let k = choose|k: int| 0 <= k < s.len() && s[k] == m;
                        assert(asses@.subrange(0, i + 1)[k] == m);
                    }
                }
            }
            i = i + 1;
        }
        assert(asses@.subrange(0, asses@.len() as int) == asses@);
        set
    }

    /// The literals of the set, by variable.
    pub fn as_assignment_vec(&self) -> (r: Vec<Literal>)
        requires
            self.values@.len() <= MAX_LITERAL,
        ensures
            forall|l: Literal| r@.contains(l) <==> self.has(l),
            crate::cnf::consistent(r@),
    {
        let mut out: Vec<Literal> = Vec::new();
        let mut v: usize = 0;
        while v < self.values.len()
            invariant
                v <= self.values@.len() <= MAX_LITERAL,
                forall|l: Literal| out@.contains(l) <==> (self.has(l) && l.vidx() < v),
                forall|k: int| 0 <= k < out@.len() ==> (#[trigger] out@[k]).vidx() < v,
                crate::cnf::consistent(out@),
            decreases self.values.len() - v,
        {
            if let Some(p) = self.values[v] {
                let l = Literal::new(Variable(v as u64), p);
                let ghost prev = out@;
                out.push(l);
                proof {
                    assert forall|m: Literal| out@.contains(m) <==> (self.has(m) && m.vidx() < v + 1) by {
                        if self.has(m) && m.vidx() == v {
                            crate::cnf::lemma_lit_eq(m, l);
                            assert(out@[prev.len() as int] == l);
                        }
                        if out@.contains(m) && m != l {
                            let k = choose|k: int| 0 <= k < out@.len() && out@[k] == m;
                            assert(prev[k] == m);
                        }
                        if prev.contains(m) {
                            let k = choose|k: int| 0 <= k < prev.len() && prev[k] == m;
                            assert(out@[k] == m);
                        }
                    }
                }
            }
            v = v + 1;
        }
        out
    }

    /// Evaluates a clause: `True` when one of its literals is in the set,
    /// `False` when every literal's complement is, `Unknown` otherwise.
    pub fn evaluate(&self, clause: &Clause) -> (r: EvaluationResult)
        ensures
            r == EvaluationResult::True <==> exists|i: int|
                0 <= i < clause@.len() && self.has(#[trigger] clause@[i]),
            r == EvaluationResult::False <==> (forall|i: int|
                0 <= i < clause@.len() ==> self.has(#[trigger] clause@[i].neg())),
    {
        let lits = clause.literals();
        let mut unknown = false;
        let mut i: usize = 0;
        while i < lits.len()
            invariant
                lits@ == clause@,
                i <= lits@.len(),
                forall|k: int| 0 <= k < i ==> !self.has(#[trigger] lits@[k]),
                !unknown ==> forall|k: int| 0 <= k < i ==> self.has(#[trigger] lits@[k].neg()),
                unknown ==> exists|k: int| 0 <= k < i && !self.has(#[trigger] lits@[k].neg()),
            decreases lits.len() - i,
        {
            let l = lits[i];
            match self.value_of(l.var().0) {
                Some(p) => {
                    if p == l.polarity() {
                        assert(self.has(lits@[i as int]));
                        return EvaluationResult::True;
                    }
                    assert(self.has(lits@[i as int].neg()));
                },
                None => {
                    assert(!self.has(lits@[i as int].neg()));
                    unknown = true;
                },
            }
            i = i + 1;
        }
        if unknown {
            EvaluationResult::Unknown
        } else {
            EvaluationResult::False
        }
    }
}

} // verus!
