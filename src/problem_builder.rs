//! A builder that turns Boolean expressions into clauses, introducing one
//! auxiliary variable per gate (Tseitin encoding).
use vstd::prelude::*;
use crate::literal::{Literal, Variable, MAX_LITERAL};
use crate::clause::tautology;
use crate::variable_registry::VariableRegister;
use crate::dfs::Instance;

verus! {

broadcast use {Literal::lemma_neg, Literal::lemma_of, Literal::lemma_of_parts};

/// A variable, or its negation.
#[derive(Clone, Copy, Debug, PartialEq, Eq, Structural)]
pub enum BoolExpr {
    Not(Variable),
    Variable(Variable),
}

impl BoolExpr {
    pub open spec fn var_of(self) -> Variable {
        match self {
            BoolExpr::Not(v) => v,
            BoolExpr::Variable(v) => v,
        }
    }

    /// The literal that the expression stands for.
    pub open spec fn lit(self) -> Literal {
        match self {
            BoolExpr::Not(v) => Literal::of(v.0 as nat, false),
            BoolExpr::Variable(v) => Literal::of(v.0 as nat, true),
        }
    }

    pub fn as_literal(&self) -> (r: Literal)
        requires
            self.var_of().0 < MAX_LITERAL,
        ensures
            r == self.lit(),
    {
        match *self {
            BoolExpr::Variable(v) => Literal::new(v, true),
            BoolExpr::Not(v) => Literal::new(v, false),
        }
    }
}

#[derive(Clone, Debug)]
pub struct ProblemBuilder {
    pub variables: VariableRegister,
    pub expressions: Vec<Vec<Literal>>,
}

impl ProblemBuilder {
    /// The clauses produced so far.
    pub open spec fn clauses(&self) -> Seq<Seq<Literal>> {
        self.expressions@.map_values(|c: Vec<Literal>| c@)
    }

    pub open spec fn wf(&self) -> bool {
        &&& self.variables.wf()
        &&& forall|c: int, k: int|
            0 <= c < self.expressions@.len() && 0 <= k < self.expressions@[c]@.len() ==> (
            #[trigger] self.expressions@[c]@[k]).vidx() < self.variables.count()
        &&& forall|c: int| 0 <= c < self.expressions@.len() ==> (#[trigger] self.expressions@[c])@.len() > 0
    }

    /// The expression is over a registered variable.
    pub open spec fn holds(&self, e: BoolExpr) -> bool {
        e.var_of().0 < self.variables.count()
    }

    pub fn new() -> (r: ProblemBuilder)
        ensures
            r.wf(),
            r.variables.count() == 0,
            r.clauses().len() == 0,
    {
        ProblemBuilder { variables: VariableRegister::new(), expressions: Vec::new() }
    }

    /// A fresh original variable named `name`.
    pub fn var(&mut self, name: &str) -> (r: BoolExpr)
        requires
            old(self).wf(),
            old(self).variables.count() + 1 < MAX_LITERAL,
        ensures
            final(self).wf(),
            r == BoolExpr::Variable(Variable(old(self).variables.count() as u64)),
            final(self).variables.count() == old(self).variables.count() + 1,
            final(self).variables@ == old(self).variables@.push(name@),
            final(self).variables.original_variables@ == old(self).variables.original_variables@.push(
                old(self).variables.count() as u64,
            ),
            final(self).clauses() == old(self).clauses(),
    {
        let v = self.variables.create_original(name);
        proof {
            assert(self.clauses() =~= old(self).clauses());
        }
        BoolExpr::Variable(v)
    }

    /// Requires `expr` to hold: adds it as a unit clause.
    pub fn require(&mut self, expr: BoolExpr)
        requires
            old(self).wf(),
            old(self).holds(expr),
        ensures
            final(self).wf(),
            final(self).variables == old(self).variables,
            final(self).clauses() == old(self).clauses().push(seq![expr.lit()]),
    {
        let l = expr.as_literal();
        let mut c: Vec<Literal> = Vec::new();
        c.push(l);
        assert(c@ =~= seq![expr.lit()]);
        self.expressions.push(c);
        proof {
            assert(self.clauses() =~= old(self).clauses().push(seq![expr.lit()]));
        }
    }

    /// The instance over the clauses built, which must hold no complementary
    /// pair.
    pub fn build(self) -> (r: Instance)
        requires
            self.wf(),
            forall|c: int| 0 <= c < self.clauses().len() ==> !tautology(#[trigger] self.clauses()[c]),
        ensures
            r.wf(),
            r.variables == self.variables,
            r.formula().len() == self.clauses().len(),
            forall|c: int| 0 <= c < self.clauses().len() ==> crate::cnf::same_literals(#[trigger] r.formula()[c], self.clauses()[c]),
    {
        let ghost cls = self.clauses();
        proof {
            assert forall|c: int| 0 <= c < self.expressions@.len() implies !tautology(#[trigger] self.expressions@[c]@) by {
                assert(cls[c] == self.expressions@[c]@);
            }
        }
        let ghost count = self.variables.count();
        proof {
            assert forall|c: int| 0 <= c < cls.len() implies (#[trigger] cls[c]).len() > 0 && forall|k: int|
                0 <= k < cls[c].len() ==> (#[trigger] cls[c][k]).vidx() < count by {
                assert(cls[c] == self.expressions@[c]@);
            }
        }
        let r = Instance::new(self.expressions, self.variables);
        proof {
            assert forall|c: int| 0 <= c < cls.len() implies crate::cnf::same_literals(#[trigger] r.formula()[c], cls[c]) by {
                assert(r.formula()[c] == r.clauses@[c]@);
            }
            assert forall|c: int| 0 <= c < r.clauses@.len() implies (#[trigger] r.clauses@[c]).wf() && r.clauses@[c]@.len() > 0 by {
                assert(crate::cnf::same_literals(r.clauses@[c]@, cls[c]));
                assert(cls[c].contains(cls[c][0]));
            }
            assert forall|c: int, k: int|
                0 <= c < r.clauses@.len() && 0 <= k < r.clauses@[c]@.len() implies (#[trigger] r.clauses@[c]@[k]).vidx() < count by {
                assert(crate::cnf::same_literals(r.clauses@[c]@, cls[c]));
                assert(r.clauses@[c]@.contains(r.clauses@[c]@[k]));
                let j = choose|j: int| 0 <= j < cls[c].len() && cls[c][j] == r.clauses@[c]@[k];
            }
        }
        r
    }

    /// The negation of `expr`.
    pub fn not(&self, expr: BoolExpr) -> (r: BoolExpr)
        ensures
            r.var_of() == expr.var_of(),
            expr is Variable ==> r is Not,
            expr is Not ==> r is Variable,
            expr.var_of().0 < MAX_LITERAL ==> r.lit() == expr.lit().neg(),
    {
        match expr {
            BoolExpr::Not(lit) => BoolExpr::Variable(lit),
            BoolExpr::Variable(lit) => BoolExpr::Not(lit),
        }
    }

    /// A fresh variable `t` for `a || b`, with the clauses `!t | a | b`,
    /// `t | !a` and `t | !b`.
    pub fn or(&mut self, a: BoolExpr, b: BoolExpr) -> (r: BoolExpr)
        requires
            old(self).wf(),
            old(self).holds(a),
            old(self).holds(b),
            old(self).variables.count() + 1 < MAX_LITERAL,
        ensures
            final(self).wf(),
            r == BoolExpr::Variable(Variable(old(self).variables.count() as u64)),
            final(self).variables.count() == old(self).variables.count() + 1,
            final(self).variables.original_variables == old(self).variables.original_variables,
            final(self).clauses() == old(self).clauses() + seq![
                seq![r.lit().neg(), a.lit(), b.lit()],
                seq![r.lit(), a.lit().neg()],
                seq![r.lit(), b.lit().neg()],
            ],
    {
        let expr_label = self.variables.create_tseitin();
        let t = Literal::new(expr_label, true);
        let nt = Literal::new(expr_label, false);
        let la = a.as_literal();
        let lb = b.as_literal();
        self.expressions.push(vec![nt, la, lb]);
        self.expressions.push(vec![t, la.invert()]);
        self.expressions.push(vec![t, lb.invert()]);
        proof {
            assert(self.clauses() =~= old(self).clauses() + seq![
                seq![t.neg(), la, lb],
                seq![t, la.neg()],
                seq![t, lb.neg()],
            ]);
        }
        BoolExpr::Variable(expr_label)
    }

    /// A fresh variable `t` for `a && b`, with the clauses `t | !a | !b`,
    /// `!t | a` and `!t | b`.
    pub fn and(&mut self, a: BoolExpr, b: BoolExpr) -> (r: BoolExpr)
        requires
            old(self).wf(),
            old(self).holds(a),
            old(self).holds(b),
            old(self).variables.count() + 1 < MAX_LITERAL,
        ensures
            final(self).wf(),
            r == BoolExpr::Variable(Variable(old(self).variables.count() as u64)),
            final(self).variables.count() == old(self).variables.count() + 1,
            final(self).variables.original_variables == old(self).variables.original_variables,
            final(self).clauses() == old(self).clauses() + seq![
                seq![r.lit(), a.lit().neg(), b.lit().neg()],
                seq![r.lit().neg(), a.lit()],
                seq![r.lit().neg(), b.lit()],
            ],
    {
        let expr_label = self.variables.create_tseitin();
        let t = Literal::new(expr_label, true);
        let nt = Literal::new(expr_label, false);
        let la = a.as_literal();
        let lb = b.as_literal();
        self.expressions.push(vec![t, la.invert(), lb.invert()]);
        self.expressions.push(vec![nt, la]);
        self.expressions.push(vec![nt, lb]);
        proof {
            assert(self.clauses() =~= old(self).clauses() + seq![
                seq![t, la.neg(), lb.neg()],
                seq![nt, la],
                seq![nt, lb],
            ]);
        }
        BoolExpr::Variable(expr_label)
    }

    /// The number of clauses built so far.
    pub fn clause_count(&self) -> (r: usize)
        ensures
            r == self.clauses().len(),
    {
        self.expressions.len()
    }
}

} // verus!
