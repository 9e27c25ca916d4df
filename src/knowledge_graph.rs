//! The implication graph: for each variable, why and when it got its value.
use vstd::prelude::*;
use crate::literal::Literal;

verus! {

broadcast use {Literal::lemma_neg, Literal::lemma_of, Literal::lemma_of_parts};

/// What is recorded for one variable. The edges of the graph are implicit:
/// they run from the other literals of the antecedent clause.
#[derive(Clone, Copy, Debug)]
pub struct Vertex {
    /// The index of the clause that forced the value, if one did.
    pub antecedent: Option<usize>,
    /// The level at which the value was set.
    pub decision_level: usize,
    /// The decision of that level; none at level 0.
    pub decision: Option<Literal>,
}

pub open spec fn blank() -> Vertex {
    Vertex { antecedent: None, decision_level: 0, decision: None }
}

pub struct KnowledgeGraph {
    pub vertices: Vec<Vertex>,
}

impl KnowledgeGraph {
    pub open spec fn view(&self) -> Seq<Vertex> {
        self.vertices@
    }

    /// A graph over `variable_count` variables, none of them recorded.
    pub fn new(variable_count: usize) -> (r: KnowledgeGraph)
        ensures
            r@.len() == variable_count,
            forall|v: int| 0 <= v < variable_count ==> #[trigger] r@[v] == blank(),
    {
        let mut vertices: Vec<Vertex> = Vec::new();
        let mut i: usize = 0;
        while i < variable_count
            invariant
                i <= variable_count,
                vertices@.len() == i,
                forall|v: int| 0 <= v < i ==> #[trigger] vertices@[v] == blank(),
            decreases variable_count - i,
        {
            vertices.push(Vertex { antecedent: None, decision_level: 0, decision: None });
            i = i + 1;
        }
        KnowledgeGraph { vertices }
    }

    /// Records a level-0 literal: no antecedent, no decision.
    pub fn add_initial(&mut self, lit: Literal)
        requires
            lit.vidx() < old(self)@.len(),
        ensures
            final(self)@ == old(self)@.update(lit.vidx() as int, blank()),
    {
        let v = lit.var_index(self.vertices.len());
        self.vertices.set(v, Vertex { antecedent: None, decision_level: 0, decision: None });
    }

    /// Records a decision made at `level`.
    pub fn add_decision(&mut self, decision: Literal, level: usize)
        requires
            decision.vidx() < old(self)@.len(),
        ensures
            final(self)@ == old(self)@.update(
                decision.vidx() as int,
                Vertex { antecedent: None, decision_level: level, decision: Some(decision) },
            ),
    {
        let v = decision.var_index(self.vertices.len());
        self.vertices.set(v, Vertex { antecedent: None, decision_level: level, decision: Some(decision) });
    }

    /// Records a literal forced by clause `clause` at `level`.
    pub fn add_inferred(&mut self, inferred: Literal, level: usize, decision: Option<Literal>, clause: usize)
        requires
            inferred.vidx() < old(self)@.len(),
        ensures
            final(self)@ == old(self)@.update(
                inferred.vidx() as int,
                Vertex { antecedent: Some(clause), decision_level: level, decision },
            ),
    {
        let v = inferred.var_index(self.vertices.len());
        self.vertices.set(v, Vertex { antecedent: Some(clause), decision_level: level, decision });
    }

    /// Clears the records of the given literals' variables.
    pub fn remove(&mut self, literals: &Vec<Literal>)
        requires
            forall|i: int| 0 <= i < literals@.len() ==> (#[trigger] literals@[i]).vidx() < old(self)@.len(),
        ensures
            final(self)@.len() == old(self)@.len(),
            forall|v: int|
                0 <= v < old(self)@.len() ==> #[trigger] final(self)@[v] == if exists|i: int|
                    0 <= i < literals@.len() && (#[trigger] literals@[i]).vidx() == v {
                    blank()
                } else {
                    old(self)@[v]
                },
    {
        let mut i: usize = 0;
        while i < literals.len()
            invariant
                i <= literals@.len(),
                self@.len() == old(self)@.len(),
                forall|i: int| 0 <= i < literals@.len() ==> (#[trigger] literals@[i]).vidx() < old(self)@.len(),
                forall|v: int|
                    0 <= v < old(self)@.len() ==> #[trigger] self@[v] == if exists|j: int|
                        0 <= j < i && (#[trigger] literals@[j]).vidx() == v {
                        blank()
                    } else {
                        old(self)@[v]
                    },
            decreases literals.len() - i,
        {
            let v = literals[i].var_index(self.vertices.len());
            self.vertices.set(v, Vertex { antecedent: None, decision_level: 0, decision: None });
            proof {
                assert forall|u: int| 0 <= u < old(self)@.len() implies #[trigger] self@[u] == if exists|j: int|
                    0 <= j < i + 1 && (#[trigger] literals@[j]).vidx() == u {
                    blank()
                } else {
                    old(self)@[u]
                } by {
                    if u == v {
                        assert(literals@[i as int].vidx() == u);
                    }
                }
            }
            i = i + 1;
        }
    }

    /// The record of variable `v`.
    pub fn vertex(&self, v: usize) -> (r: Vertex)
        requires
            v < self@.len(),
        ensures
            r == self@[v as int],
    {
        self.vertices[v]
    }
}

} // verus!
