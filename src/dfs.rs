//! The search driver: the CDCL loop of decide, propagate, and on conflict
//! analyse, learn and backjump.
use vstd::prelude::*;
use crate::literal::{Literal, Variable, MAX_LITERAL};
use crate::cnf::{
    entails, entails_lit, falsified, is_unit_under, lit_false, satisfiable, satisfied_by, same_literals,
    var_assigned, clause_holds, formula_holds, lit_holds,
};
use crate::clause::{Clause, tautology, var_sorted};
use crate::assignment_set::LiteralSet;
use crate::trail::Trail;
use crate::clause_store::{ClauseStore, storable, stored, dedup, clause_views};
use crate::knowledge_graph::{KnowledgeGraph, Vertex, blank};
use crate::backtrack::{AnalyzedConflict, analyse_conflict, learnt_ok, lvl, lemma_entails_superset};
use crate::unit_propagator::propagate_units;
use crate::clause_index::{ClauseIndex, tracks, lemma_tracks_push, lemma_count_free_zero, count_free};
use crate::variable_registry::VariableRegister;
use crate::state::{
    lemma_not_both,
    trail_code, wt,
    inv_core, pending_in, quiescent, touches, reason, pos_level, is_decision_pos, lemma_pos_level, lemma_pos_level_is, lemma_pos_level_end, lemma_wf_increasing, lemma_push_status,
    lemma_prefix_stable, lemma_refuted, lemma_lit_state, };

verus! {

broadcast use {Literal::lemma_neg, Literal::lemma_of, Literal::lemma_of_parts};

/// The clause has a literal in the set.
pub open spec fn true_in(set: LiteralSet, c: Seq<Literal>) -> bool {
    exists|k: int| 0 <= k < c.len() && set.has(#[trigger] c[k])
}

/// Every clause has a literal in the set.
pub open spec fn models(set: LiteralSet, f: Seq<Seq<Literal>>) -> bool {
    forall|j: int| 0 <= j < f.len() ==> true_in(set, #[trigger] f[j])
}

/// What a search guarantees of its result on formula `f` over `n`
/// variables: a satisfying assignment to variables below `n` exactly when
/// the verdict is satisfiable, and an unsatisfiable verdict exactly when no
/// valuation satisfies `f`.
pub open spec fn solve_ok(f: Seq<Seq<Literal>>, n: nat, r: Solution) -> bool {
    &&& r.verdict == Verdict::Satisfiable <==> r.solution is Some
    &&& r.solution matches Some(set) ==> set.wf() && models(set, f) && set.values@.len() == n
    &&& r.verdict == Verdict::Unsatisfiable ==> !satisfiable(f)
    &&& satisfiable(f) ==> r.verdict == Verdict::Satisfiable
}

/// A set that gives a literal of every clause shows the formula satisfiable.
pub proof fn lemma_model_satisfies(set: LiteralSet, f: Seq<Seq<Literal>>)
    requires
        models(set, f),
    ensures
        satisfiable(f),
{
    let sigma = |v: nat| set.value(v) == Some(true);
    assert forall|j: int| 0 <= j < f.len() implies #[trigger] clause_holds(sigma, f[j]) by {
        assert(true_in(set, f[j]));
        let k = choose|k: int| 0 <= k < f[j].len() && set.has(#[trigger] f[j][k]);
        assert(lit_holds(sigma, f[j][k]));
    }
    assert(formula_holds(sigma, f));
}

/// Solving the same formula twice gives the same verdict, and a satisfying
/// assignment each time the verdict is satisfiable.
pub proof fn lemma_verdicts_agree(f: Seq<Seq<Literal>>, n: nat, r1: Solution, r2: Solution)
    requires
        solve_ok(f, n, r1),
        solve_ok(f, n, r2),
    ensures
        r1.verdict == r2.verdict,
        r1.verdict == Verdict::Satisfiable ==> models(r1.solution.unwrap(), f) && models(r2.solution.unwrap(), f),
{
    if r1.verdict == Verdict::Satisfiable {
        lemma_model_satisfies(r1.solution.unwrap(), f);
    }
    if r2.verdict == Verdict::Satisfiable {
        lemma_model_satisfies(r2.solution.unwrap(), f);
    }
}

/// The outcome of a search.
#[derive(Debug, Clone, Copy, PartialEq, Eq, Structural)]
pub enum Verdict {
    Satisfiable,
    Unsatisfiable,
}

/// Counters kept during search, for information.
#[derive(Clone, Copy, Debug, PartialEq, Eq, Structural)]
pub struct EvaluationStats {
    pub step_count: usize,
    pub initial_unit_count: usize,
    pub unit_prop_count: usize,
    pub backtrack_count: usize,
    pub learnt_clause_count: usize,
}

#[derive(Clone, Debug)]
pub struct Solution {
    pub literals: VariableRegister,
    pub verdict: Verdict,
    /// The satisfying assignment, when one was found.
    pub solution: Option<LiteralSet>,
    pub stats: EvaluationStats,
}

impl Solution {
    /// The literals of the satisfying assignment on the original variables,
    /// in order of registration; auxiliary variables are left out.
    pub fn assignments(&self) -> (r: Option<Vec<Literal>>)
        requires
            self.literals.wf(),
        ensures
            r is Some <==> self.solution is Some,
            r matches Some(v) ==> forall|l: Literal|
                v@.contains(l) <==> ((exists|j: int|
                    0 <= j < self.literals.original_variables@.len()
                        && #[trigger] self.literals.original_variables@[j] as nat == l.vidx()) && self.solution.unwrap().has(l)),
            r matches Some(v) ==> crate::cnf::consistent(v@),
    {
        match &self.solution {
            Some(set) => {
                let orig = &self.literals.original_variables;
                let mut out: Vec<Literal> = Vec::new();
                let mut i: usize = 0;
                while i < orig.len()
                    invariant
                        self.literals.wf(),
                        orig@ == self.literals.original_variables@,
                        i <= orig@.len(),
                        forall|l: Literal|
                            out@.contains(l) <==> ((exists|j: int| 0 <= j < i && #[trigger] orig@[j] as nat == l.vidx()) && set.has(l)),
                        forall|k: int| 0 <= k < out@.len() ==> exists|j: int| 0 <= j < i && (#[trigger] out@[k]).vidx() == orig@[j],
                        crate::cnf::consistent(out@),
                    decreases orig.len() - i,
                {
                    let v = orig[i];
                    let ghost prev = out@;
                    proof {
                        assert(orig@[i as int] < self.literals.count());
                    }
                    match set.value_of(v) {
                        Some(p) => {
                            let l = Literal::new(Variable(v), p);
                            out.push(l);
                            proof {
                                assert forall|a: int, b: int|
                                    0 <= a < out@.len() && 0 <= b < out@.len() && a != b implies (#[trigger] out@[a]).vidx() != (
                                    #[trigger] out@[b]).vidx() by {
                                    if a == prev.len() && b < prev.len() {
                                        let j = choose|j: int| 0 <= j < i && (#[trigger] prev[b]).vidx() == orig@[j];
                                        assert(orig@[j] < orig@[i as int]);
                                    }
                                    if b == prev.len() && a < prev.len() {
                                        let j = choose|j: int| 0 <= j < i && (#[trigger] prev[a]).vidx() == orig@[j];
                                        assert(orig@[j] < orig@[i as int]);
                                    }
                                }
                            }
                        },
                        None => {},
                    }
                    proof {
                        assert forall|l: Literal| out@.contains(l) <==> ((exists|j: int| 0 <= j < i + 1 && #[trigger] orig@[j] as nat == l.vidx()) && set.has(l)) by {
                            if out@.contains(l) && !prev.contains(l) {
                                let k = choose|k: int| 0 <= k < out@.len() && out@[k] == l;
                                assert(k == prev.len());
                                assert(orig@[i as int] as nat == l.vidx());
                            }
                            if prev.contains(l) {
                                let k = choose|k: int| 0 <= k < prev.len() && prev[k] == l;
                                assert(out@[k] == l);
                            }
                            if set.has(l) && orig@[i as int] as nat == l.vidx() {
                                crate::cnf::lemma_lit_eq(l, Literal::of(v as nat, l.pos()));
                                assert(out@[out@.len() - 1] == l);
                            }
                            if (exists|j: int| 0 <= j < i + 1 && #[trigger] orig@[j] as nat == l.vidx()) && set.has(l) {
                                let j = choose|j: int| 0 <= j < i + 1 && #[trigger] orig@[j] as nat == l.vidx();
                                if j < i {
                                    assert(prev.contains(l));
                                    let k = choose|k: int| 0 <= k < prev.len() && prev[k] == l;
                                    assert(out@[k] == l);
                                }
                            }
                        }
                        assert forall|k: int| 0 <= k < out@.len() implies exists|j: int| 0 <= j < i + 1 && (#[trigger] out@[k]).vidx() == orig@[j] by {
                            if k < prev.len() {
                                assert(out@[k] == prev[k]);
                                let j = choose|j: int| 0 <= j < i && (#[trigger] prev[k]).vidx() == orig@[j];
                            } else {
                                assert(out@[k].vidx() == orig@[i as int]);
                            }
                        }
                    }
                    i = i + 1;
                }
                assert(orig@.subrange(0, i as int) == orig@);
                Some(out)
            },
            None => None,
        }
    }

    pub fn is_sat(&self) -> (r: bool)
        ensures
            r == (self.verdict == Verdict::Satisfiable),
    {
        self.verdict == Verdict::Satisfiable
    }
}

fn bump(x: usize) -> (r: usize)
    ensures
        r == if x < usize::MAX { x + 1 } else { x as int },
{
    if x < usize::MAX {
        x + 1
    } else {
        x
    }
}

/// How far to undo the trail after a conflict.
#[derive(Debug, Clone, Copy, PartialEq, Eq, Structural)]
pub enum BacktrackStrategy {
    /// Non-chronological: to the backjump level of the learnt clause.
    Backjump,
    /// Chronological: to just below the most recent positive decision.
    Dumb,
}

impl BacktrackStrategy {
    /// The level to keep: for `Backjump` the backjump level of the analysed
    /// conflict; for `Dumb` the level below the last level whose decision is
    /// positive, or `None` when there is none.
    pub fn find_backtrack_point(&self, path: &Trail, analyzed: Option<&AnalyzedConflict>) -> (r: Option<usize>)
        requires
            path.wf(),
        ensures
            *self == BacktrackStrategy::Backjump ==> r == match analyzed {
                Some(a) => Some(a.backjump_level),
                None => None::<usize>,
            },
            *self == BacktrackStrategy::Dumb ==> (r matches Some(k) ==> k < path.level() && path@[path.seg_start(
                (k + 1) as nat,
            )].pos() && forall|j: nat| k + 1 < j <= path.level() ==> !path@[#[trigger] path.seg_start(j)].pos()),
            *self == BacktrackStrategy::Dumb ==> (r is None <==> forall|j: nat|
                1 <= j <= path.level() ==> !path@[#[trigger] path.seg_start(j)].pos()),
    {
        match *self {
            BacktrackStrategy::Backjump => match analyzed {
                Some(a) => Some(a.backjump_level),
                None => None,
            },
            BacktrackStrategy::Dumb => {
                let mut k = path.current_decision_level();
                while k > 0
                    invariant
                        *self == BacktrackStrategy::Dumb,
                        path.wf(),
                        k <= path.level(),
                        forall|j: nat| k < j <= path.level() ==> !path@[#[trigger] path.seg_start(j)].pos(),
                    decreases k,
                {
                    let s = path.level_start(k);
                    if path.lit_at(s).polarity() {
                        return Some(k - 1);
                    }
                    k = k - 1;
                }
                None
            },
        }
    }
}

#[derive(Clone, Debug)]
pub struct Instance {
    pub variables: VariableRegister,
    pub clauses: Vec<Clause>,
}

impl Instance {
    /// The formula: the clauses' literal lists.
    pub open spec fn formula(&self) -> Seq<Seq<Literal>> {
        self.clauses@.map_values(|c: Clause| c@)
    }

    pub open spec fn wf(&self) -> bool {
        &&& self.variables.wf()
        &&& forall|c: int| 0 <= c < self.clauses@.len() ==> (#[trigger] self.clauses@[c]).wf() && self.clauses@[c]@.len() > 0
        &&& forall|c: int, k: int|
            0 <= c < self.clauses@.len() && 0 <= k < self.clauses@[c]@.len() ==> (
            #[trigger] self.clauses@[c]@[k]).vidx() < self.variables.count()
    }

    /// An instance over the given clauses and registry.
    pub fn new_from_clauses(clauses: Vec<Clause>, literals: VariableRegister) -> (r: Instance)
        ensures
            r.clauses == clauses,
            r.variables == literals,
    {
        Instance { variables: literals, clauses }
    }

    /// An instance over literal lists, none of which may hold a literal and
    /// its complement; each becomes a clause whose identifier is its index.
    pub fn new(cnf: Vec<Vec<Literal>>, literals: VariableRegister) -> (r: Instance)
        requires
            forall|c: int| 0 <= c < cnf@.len() ==> !tautology(#[trigger] cnf@[c]@),
        ensures
            r.clauses@.len() == cnf@.len(),
            forall|c: int| 0 <= c < cnf@.len() ==> (#[trigger] r.clauses@[c]).wf() && same_literals(r.clauses@[c]@, cnf@[c]@) && r.clauses@[c].id == c,
            r.variables == literals,
    {
        let mut clauses: Vec<Clause> = Vec::new();
        let mut i: usize = 0;
        while i < cnf.len()
            invariant
                i <= cnf@.len(),
                clauses@.len() == i,
                forall|c: int| 0 <= c < cnf@.len() ==> !tautology(#[trigger] cnf@[c]@),
                forall|c: int| 0 <= c < i ==> (#[trigger] clauses@[c]).wf() && same_literals(clauses@[c]@, cnf@[c]@) && clauses@[c].id == c,
            decreases cnf.len() - i,
        {
            clauses.push(Clause::new_with_id(i, &cnf[i]));
            i = i + 1;
        }
        Self::new_from_clauses(clauses, literals)
    }
}


/// A trail satisfying every stored clause gives a model of every clause of
/// `f` that is stored.
proof fn lemma_models_from_store(store: &ClauseStore, trail: &Trail, f: Seq<Seq<Literal>>)
    requires
        trail.wf(),
        forall|c: int| 0 <= c < store@.len() ==> satisfied_by(trail@, #[trigger] store@[c]),
        forall|j: int| 0 <= j < f.len() ==> stored(store@, #[trigger] f[j]),
    ensures
        models(trail.assignment, f),
{
    assert forall|j: int| 0 <= j < f.len() implies true_in(trail.assignment, #[trigger] f[j]) by {
        assert(stored(store@, f[j]));
        let c = choose|c: int| 0 <= c < store@.len() && #[trigger] store@[c] == f[j];
        assert(satisfied_by(trail@, store@[c]));
        let k = choose|k: int| 0 <= k < store@[c].len() && trail@.contains(#[trigger] store@[c][k]);
        assert(trail.assignment.has(f[j][k]));
    }
}

/// With every variable assigned and no clause falsified, every clause is
/// satisfied.
proof fn lemma_sat(store: &ClauseStore, trail: &Trail, n: nat)
    requires
        store.wf(),
        store.nvars() == n,
        trail.wf(),
        forall|v: nat| v < n ==> (#[trigger] trail.assignment.value(v)) is Some,
        quiescent(store@, trail@),
    ensures
        forall|c: int| 0 <= c < store@.len() ==> satisfied_by(trail@, #[trigger] store@[c]),
{
    assert forall|c: int| 0 <= c < store@.len() implies satisfied_by(trail@, #[trigger] store@[c]) by {
        let cl = store@[c];
        if !satisfied_by(trail@, cl) {
            assert forall|k: int| 0 <= k < cl.len() implies lit_false(trail@, #[trigger] cl[k]) by {
                lemma_lit_state(trail, cl[k]);
                assert(trail.assignment.value(cl[k].vidx()) is Some);
                if trail@.contains(cl[k]) {
                    assert(satisfied_by(trail@, cl));
                }
            }
            assert(falsified(trail@, cl));
        }
    }
}

/// Opening a level with a fresh decision keeps the invariant, and only
/// clauses with the decision's variable can have become unit or falsified.
proof fn lemma_decide(
    store: &ClauseStore,
    t0: &Trail,
    g0: &KnowledgeGraph,
    t1: &Trail,
    g1: &KnowledgeGraph,
    f: Seq<Seq<Literal>>,
    n: nat,
    dl: Literal,
)
    requires
        inv_core(store, t0, g0, f, n),
        quiescent(store@, t0@),
        !var_assigned(t0@, dl.vidx()),
        dl.vidx() < n,
        t0.level() + 1 <= usize::MAX,
        t1.wf(),
        t1@ == t0@.push(dl),
        t1.starts@ == t0.starts@.push(t0@.len() as usize),
        t1.assignment.values@.len() == t0.assignment.values@.len(),
        g1@ == g0@.update(
            dl.vidx() as int,
            Vertex { antecedent: None, decision_level: (t0.level() + 1) as usize, decision: Some(dl) },
        ),
    ensures
        inv_core(store, t1, g1, f, n),
        pending_in(store@, t1@, t1.seg_start(t1.level()), t1@.len() as int),
{
    reveal(inv_core);
    let s = store@;
    let t = t0@;
    let u = t1@;
    let st0 = t0.starts@;
    let st1 = t1.starts@;
    lemma_wf_increasing(t0);
    lemma_wf_increasing(t1);
    assert forall|p: int| 0 <= p < t.len() implies (#[trigger] t[p]).vidx() != dl.vidx() by {
    }
    assert forall|p: int| 0 <= p < t.len() implies pos_level(st1, p) == pos_level(st0, p) by {
        lemma_pos_level(st0, p);
        let m = pos_level(st0, p);
        if m >= 1 {
            assert(st1[m - 1] == st0[m - 1]);
        }
        if m < st0.len() {
            assert(st1[m as int] == st0[m as int]);
        }
        lemma_pos_level_is(st1, p, m);
    }
    assert(st1[st0.len() as int] == t.len());
    lemma_pos_level_is(st1, t.len() as int, st1.len());
    assert forall|p: int| 0 <= p < u.len() implies (#[trigger] u[p]).vidx() < n by {
        if p < t.len() {
            assert(u[p] == t[p]);
        }
    }
    assert forall|p: int|
        0 <= p < u.len() implies g1@[(#[trigger] u[p]).vidx() as int].decision_level == pos_level(st1, p) by {
        if p < t.len() {
            assert(u[p] == t[p]);
            assert(t[p].vidx() != dl.vidx());
            assert(pos_level(st1, p) == pos_level(st0, p));
        }
    }
    assert forall|p: int| 0 <= p < u.len() && pos_level(st1, p) == 0 implies entails_lit(f, #[trigger] u[p]) by {
        if p < t.len() {
            assert(u[p] == t[p]);
        }
    }
    assert forall|p: int|
        0 <= p < u.len() && pos_level(st1, p) > 0 && !is_decision_pos(st1, p) implies {
            let a = g1@[(#[trigger] u[p]).vidx() as int].antecedent;
            &&& a is Some
            &&& a.unwrap() < s.len()
            &&& reason(s[a.unwrap() as int], u, p)
        } by {
        if p < t.len() {
            assert(u[p] == t[p]);
            assert(t[p].vidx() != dl.vidx());
            assert(pos_level(st1, p) == pos_level(st0, p));
            lemma_pos_level(st0, p);
            let m = pos_level(st0, p);
            assert(st1[m - 1] == st0[m - 1]);
            assert(!is_decision_pos(st0, p));
            assert(u.subrange(0, p) == t.subrange(0, p));
            let a = g0@[t[p].vidx() as int].antecedent;
            assert(reason(s[a.unwrap() as int], t, p));
        }
    }
    assert forall|k: nat| k < t1.level() implies quiescent(s, u.subrange(0, #[trigger] t1.seg_end(k))) by {
        if k < t0.level() {
            assert(t0.seg_end(k) == t1.seg_end(k));
            assert(u.subrange(0, t.len() as int) =~= t);
            lemma_prefix_stable(t, u, t0.seg_end(k));
            assert(quiescent(s, t.subrange(0, t0.seg_end(k))));
        } else {
            assert(t1.seg_end(k) == t.len());
            assert(u.subrange(0, t.len() as int) =~= t);
        }
    }
    assert(inv_core(store, t1, g1, f, n));
    assert forall|c: int|
        0 <= c < s.len() && (is_unit_under(u, #[trigger] s[c]) || falsified(u, s[c])) implies touches(
        s[c],
        u,
        t1.seg_start(t1.level()),
        u.len() as int,
    ) by {
        assert(t1.seg_start(t1.level()) == t.len());
        if exists|k: int| 0 <= k < s[c].len() && (#[trigger] s[c][k]).vidx() == dl.vidx() {
            let k = choose|k: int| 0 <= k < s[c].len() && (#[trigger] s[c][k]).vidx() == dl.vidx();
            assert(u[t.len() as int] == dl);
            assert(s[c][k].vidx() == u[t.len() as int].vidx());
        } else {
            lemma_push_status(t, dl, s[c]);
        }
    }
}


/// After backjumping to the learnt clause's level and storing the clause,
/// the invariant holds again; the clause's level-`L` literal lies on the
/// current level, and the levels kept are free of unit and falsified clauses
/// of the old store.
proof fn lemma_backjump(
    s0: &ClauseStore,
    s2: &ClauseStore,
    t0: &Trail,
    g0: &KnowledgeGraph,
    t1: &Trail,
    g1: &KnowledgeGraph,
    f: Seq<Seq<Literal>>,
    n: nat,
    ac: AnalyzedConflict,
    cl: Seq<Literal>,
)
    requires
        inv_core(s0, t0, g0, f, n),
        t0.level() >= 1,
        learnt_ok(t0, g0, f, ac),
        t1.wf(),
        t1@ == t0@.subrange(0, t0.seg_end(ac.backjump_level as nat)),
        t1.starts@ == t0.starts@.subrange(0, ac.backjump_level as int),
        t1.assignment.values@.len() == t0.assignment.values@.len(),
        g1@.len() == g0@.len(),
        forall|p: int| 0 <= p < t1@.len() ==> g1@[(#[trigger] t1@[p]).vidx() as int] == g0@[t1@[p].vidx() as int],
        var_sorted(cl),
        same_literals(cl, ac.learnt_clause@),
        s2.wf(),
        s2.nvars() == n,
        s2@ == s0@ || s2@ == s0@.push(cl),
    ensures
        inv_core(s2, t1, g1, f, n),
        quiescent(s0@, t1@),
        ac.learnt_clause@.len() > 1 ==> pending_in(s2@, t1@, t1.seg_start(t1.level()), t1@.len() as int),
{
    reveal(inv_core);
    let s = s0@;
    let t = t0@;
    let u = t1@;
    let st0 = t0.starts@;
    let st1 = t1.starts@;
    let l = ac.learnt_clause@;
    let big_l = ac.backjump_level as nat;
    let d = t0.level();
    lemma_wf_increasing(t0);
    lemma_wf_increasing(t1);
    assert(t0.seg_end(big_l) <= t.len()) by {
        if big_l < st0.len() {
        }
    }
    assert forall|p: int| 0 <= p < u.len() implies #[trigger] u[p] == t[p] by {
    }
    assert forall|p: int| 0 <= p < u.len() implies pos_level(st1, p) == pos_level(st0, p) by {
        lemma_pos_level_end(t0, p, big_l);
        lemma_pos_level(st0, p);
        let m = pos_level(st0, p);
        if m >= 1 {
            assert(st1[m - 1] == st0[m - 1]);
        }
        if m < big_l {
            assert(st1[m as int] == st0[m as int]);
        }
        lemma_pos_level_is(st1, p, m);
    }
    // the learnt clause is entailed
    assert forall|x: Literal| l.contains(x) implies cl.contains(x) by {
    }
    lemma_entails_superset(f, l, cl);
    assert forall|k: int| 0 <= k < cl.len() implies (#[trigger] cl[k]).vidx() < n by {
        assert(l.contains(cl[k]));
        let j = choose|j: int| 0 <= j < l.len() && l[j] == cl[k];
        assert(t.contains(l[j].neg()));
        let q = choose|q: int| 0 <= q < t.len() && t[q] == l[j].neg();
    }
    assert forall|c: int| 0 <= c < s2@.len() implies entails(f, #[trigger] s2@[c]) by {
        if c < s.len() {
            assert(s2@[c] == s[c]);
        }
    }
    assert forall|j: int| 0 <= j < f.len() implies stored(s2@, #[trigger] f[j]) by {
        assert(stored(s, f[j]));
        let c = choose|c: int| 0 <= c < s.len() && #[trigger] s[c] == f[j];
        assert(s2@[c] == s[c]);
    }
    assert forall|p: int| 0 <= p < u.len() implies (#[trigger] u[p]).vidx() < n by {
        assert(u[p] == t[p]);
    }
    assert forall|p: int|
        0 <= p < u.len() implies g1@[(#[trigger] u[p]).vidx() as int].decision_level == pos_level(st1, p) by {
        assert(u[p] == t[p]);
        assert(pos_level(st1, p) == pos_level(st0, p));
    }
    assert forall|p: int| 0 <= p < u.len() && pos_level(st1, p) == 0 implies entails_lit(f, #[trigger] u[p]) by {
        assert(u[p] == t[p]);
        assert(pos_level(st1, p) == pos_level(st0, p));
    }
    assert forall|p: int|
        0 <= p < u.len() && pos_level(st1, p) > 0 && !is_decision_pos(st1, p) implies {
            let a = g1@[(#[trigger] u[p]).vidx() as int].antecedent;
            &&& a is Some
            &&& a.unwrap() < s2@.len()
            &&& reason(s2@[a.unwrap() as int], u, p)
        } by {
        assert(u[p] == t[p]);
        assert(pos_level(st1, p) == pos_level(st0, p));
        lemma_pos_level_end(t0, p, big_l);
        let m = pos_level(st0, p);
        assert(st1[m - 1] == st0[m - 1]);
        assert(!is_decision_pos(st0, p));
        assert(u.subrange(0, p) == t.subrange(0, p));
        let a = g0@[t[p].vidx() as int].antecedent;
        assert(reason(s[a.unwrap() as int], t, p));
        assert(s2@[a.unwrap() as int] == s[a.unwrap() as int]);
    }
    // where the unique implication point and the level-L literal sit
    let qu = choose|q: int| 0 <= q < t.len() && t[q] == ac.uip;
    assert(g0@[t[qu].vidx() as int].decision_level == pos_level(st0, qu));
    assert forall|k: nat| k < t1.level() implies quiescent(s2@, u.subrange(0, #[trigger] t1.seg_end(k))) by {
        assert(t1.seg_end(k) == t0.seg_end(k));
        let e = t0.seg_end(k);
        assert(st0[k as int] < st0[big_l as int] || big_l == st0.len());
        assert(e <= u.len());
        assert(u.subrange(0, e) =~= t.subrange(0, e));
        let pre = t.subrange(0, e);
        assert(quiescent(s, pre));
        // the unique implication point has no value before the end of level k
        lemma_pos_level_end(t0, qu, k);
        assert(!var_assigned(pre, ac.uip.vidx())) by {
            if var_assigned(pre, ac.uip.vidx()) {
                let r = choose|r: int| 0 <= r < pre.len() && (#[trigger] pre[r]).vidx() == ac.uip.vidx();
                assert(t[r].vidx() == t[qu].vidx());
            }
        }
        let m = choose|m: int| 1 <= m < l.len() && lvl(g0, #[trigger] l[m]) == ac.backjump_level;
        assert(t.contains(l[m].neg()));
        let qz = choose|q: int| 0 <= q < t.len() && t[q] == l[m].neg();
        assert(g0@[t[qz].vidx() as int].decision_level == pos_level(st0, qz));
        lemma_pos_level_end(t0, qz, k);
        assert(!var_assigned(pre, l[m].vidx())) by {
            if var_assigned(pre, l[m].vidx()) {
                let r = choose|r: int| 0 <= r < pre.len() && (#[trigger] pre[r]).vidx() == l[m].vidx();
                assert(t[r].vidx() == t[qz].vidx());
            }
        }
        assert(l.contains(l[0]) && l.contains(l[m]));
        let i1 = choose|i: int| 0 <= i < cl.len() && cl[i] == l[0];
        let i2 = choose|i: int| 0 <= i < cl.len() && cl[i] == l[m];
        assert(l[0].vidx() != l[m].vidx());
        assert forall|c: int| 0 <= c < s2@.len() implies !is_unit_under(pre, #[trigger] s2@[c]) && !falsified(
            pre,
            s2@[c],
        ) by {
            if c < s.len() {
                assert(s2@[c] == s[c]);
            } else {
                assert(s2@[c] == cl);
                assert(!lit_false(pre, cl[i1])) by {
                    if pre.contains(ac.uip) {
                        let r = choose|r: int| 0 <= r < pre.len() && pre[r] == ac.uip;
                        assert(pre[r].vidx() == ac.uip.vidx());
                    }
                }
                if is_unit_under(pre, cl) {
                    let k0 = choose|k0: int|
                        0 <= k0 < cl.len() && !var_assigned(pre, (#[trigger] cl[k0]).vidx()) && forall|i: int|
                            0 <= i < cl.len() && i != k0 ==> lit_false(pre, #[trigger] cl[i]);
                    if k0 != i1 {
                        assert(lit_false(pre, cl[i1]));
                    } else {
                        assert(lit_false(pre, cl[i2]));
                        let r = choose|r: int| 0 <= r < pre.len() && pre[r] == cl[i2].neg();
                        assert(pre[r].vidx() == l[m].vidx());
                    }
                }
            }
        }
    }
    // the levels kept were free of unit and falsified clauses
    assert(quiescent(s, u)) by {
        assert(big_l < d);
        assert(quiescent(s, t.subrange(0, t0.seg_end(big_l))));
    }
    if l.len() > 1 {
        let m = choose|m: int| 1 <= m < l.len() && lvl(g0, #[trigger] l[m]) == ac.backjump_level;
        assert(t.contains(l[m].neg()));
        let qz = choose|q: int| 0 <= q < t.len() && t[q] == l[m].neg();
        assert(g0@[t[qz].vidx() as int].decision_level == pos_level(st0, qz));
        lemma_pos_level_end(t0, qz, big_l);
        assert(t1.seg_start(t1.level()) == t0.seg_start(big_l)) by {
            if big_l >= 1 {
                assert(st1[big_l - 1] == st0[big_l - 1]);
            }
        }
        assert(l.contains(l[m]));
        let i2 = choose|i: int| 0 <= i < cl.len() && cl[i] == l[m];
        assert forall|c: int|
            0 <= c < s2@.len() && (is_unit_under(u, #[trigger] s2@[c]) || falsified(u, s2@[c])) implies touches(
            s2@[c],
            u,
            t1.seg_start(t1.level()),
            u.len() as int,
        ) by {
            if c < s.len() {
                assert(s2@[c] == s[c]);
            } else {
                assert(s2@[c] == cl);
                assert(u[qz] == t[qz]);
                assert(cl[i2].vidx() == u[qz].vidx());
            }
        }
    }
}


/// Adding an entailed literal at level 0 keeps the invariant.
proof fn lemma_add_level0(
    store: &ClauseStore,
    t1: &Trail,
    g1: &KnowledgeGraph,
    t2: &Trail,
    g2: &KnowledgeGraph,
    f: Seq<Seq<Literal>>,
    n: nat,
    x: Literal,
)
    requires
        inv_core(store, t1, g1, f, n),
        t1.level() == 0,
        entails_lit(f, x),
        !var_assigned(t1@, x.vidx()),
        x.vidx() < n,
        t2.wf(),
        t2@ == t1@.push(x),
        t2.starts@ == t1.starts@,
        t2.assignment.values@.len() == t1.assignment.values@.len(),
        g2@ == g1@.update(x.vidx() as int, blank()),
    ensures
        inv_core(store, t2, g2, f, n),
{
    reveal(inv_core);
    let t = t1@;
    let u = t2@;
    let st = t1.starts@;
    assert forall|p: int| 0 <= p < t.len() implies (#[trigger] t[p]).vidx() != x.vidx() by {
    }
    assert forall|p: int| 0 <= p < u.len() implies pos_level(st, p) == 0 by {
    }
    assert forall|p: int| 0 <= p < u.len() implies (#[trigger] u[p]).vidx() < n by {
        if p < t.len() {
            assert(u[p] == t[p]);
        }
    }
    assert forall|p: int|
        0 <= p < u.len() implies g2@[(#[trigger] u[p]).vidx() as int].decision_level == pos_level(st, p) by {
        if p < t.len() {
            assert(u[p] == t[p]);
        }
    }
    assert forall|p: int| 0 <= p < u.len() && pos_level(st, p) == 0 implies entails_lit(f, #[trigger] u[p]) by {
        if p < t.len() {
            assert(u[p] == t[p]);
        }
    }
}


/// Once every unit clause is satisfied, every clause that is unit or
/// falsified touches the trail.
proof fn lemma_units_pending(store: &ClauseStore, t: Seq<Literal>)
    requires
        store.wf(),
        forall|c: int| 0 <= c < store@.len() && (#[trigger] store@[c]).len() == 1 ==> t.contains(store@[c][0]),
    ensures
        pending_in(store@, t, 0, t.len() as int),
{
    let s = store@;
    assert forall|c: int|
        0 <= c < s.len() && (is_unit_under(t, #[trigger] s[c]) || falsified(t, s[c])) implies touches(
        s[c],
        t,
        0,
        t.len() as int,
    ) by {
        let cl = s[c];
        assert(cl.len() > 0);
        if falsified(t, cl) {
            assert(lit_false(t, cl[0]));
            let q = choose|q: int| 0 <= q < t.len() && t[q] == cl[0].neg();
            assert(cl[0].vidx() == t[q].vidx());
        } else {
            let k0 = choose|k0: int|
                0 <= k0 < cl.len() && !var_assigned(t, (#[trigger] cl[k0]).vidx()) && forall|i: int|
                    0 <= i < cl.len() && i != k0 ==> lit_false(t, #[trigger] cl[i]);
            if cl.len() == 1 {
                assert(t.contains(cl[0]));
                assert(satisfied_by(t, cl));
            } else {
                let i = if k0 == 0 { 1int } else { 0int };
                assert(lit_false(t, cl[i]));
                let q = choose|q: int| 0 <= q < t.len() && t[q] == cl[i].neg();
                assert(cl[i].vidx() == t[q].vidx());
            }
        }
    }
}

/// Drops the trail's levels above `level`, resolving their variables back
/// and clearing their records.
fn undo_to(
    store: &ClauseStore,
    trail: &mut Trail,
    graph: &mut KnowledgeGraph,
    index: &mut ClauseIndex,
    level: usize,
    Ghost(n): Ghost<nat>,
)
    requires
        old(trail).wf(),
        level <= old(trail).level(),
        old(graph)@.len() == n,
        old(index).resolved@.len() == n,
        forall|p: int| 0 <= p < old(trail)@.len() ==> (#[trigger] old(trail)@[p]).vidx() < n,
        tracks(old(index), store, old(trail)@),
    ensures
        final(trail).wf(),
        final(trail)@ == old(trail)@.subrange(0, old(trail).seg_end(level as nat)),
        final(trail).starts@ == old(trail).starts@.subrange(0, level as int),
        final(trail).assignment.values@.len() == old(trail).assignment.values@.len(),
        old(trail).seg_end(level as nat) <= old(trail)@.len(),
        final(graph)@.len() == old(graph)@.len(),
        forall|p: int| 0 <= p < final(trail)@.len() ==> final(graph)@[(#[trigger] final(trail)@[p]).vidx() as int]
            == old(graph)@[final(trail)@[p].vidx() as int],
        forall|p: int|
            old(trail).seg_end(level as nat) <= p < old(trail)@.len() ==> final(graph)@[(#[trigger] old(trail)@[p]).vidx() as int]
                == crate::knowledge_graph::blank(),
        tracks(final(index), store, final(trail)@),
{
    let ghost t0 = *trail;
    let ghost g0 = *graph;
        let removed = trail.backtrack(level);
    proof {
        assert(t0.seg_end(level as nat) <= t0@.len()) by {
            lemma_wf_increasing(&t0);
            if (level as nat) < t0.starts@.len() {
            }
        }
        assert forall|i: int| 0 <= i < removed@.len() implies (#[trigger] removed@[i]).vidx() < g0@.len() by {
            assert(removed@[i] == t0@[t0.seg_end(level as nat) + i]);
        }
    }
    graph.remove(&removed);
    let mut i: usize = 0;
    proof {
        let e = t0.seg_end(level as nat);
        assert forall|v: int| 0 <= v < index.resolved@.len() implies #[trigger] index.resolved@[v] == (var_assigned(trail@, v as nat) || exists|k: int| i <= k < removed@.len() && (#[trigger] removed@[k]).vidx() == v) by {
            assert(index.resolved@[v] == var_assigned(t0@, v as nat));
            if var_assigned(t0@, v as nat) {
                let q = choose|q: int| 0 <= q < t0@.len() && (#[trigger] t0@[q]).vidx() == v as nat;
                if q < e {
                    assert(trail@[q] == t0@[q]);
                } else {
                    assert(removed@[q - e] == t0@[q]);
                }
            }
            if var_assigned(trail@, v as nat) {
                let q = choose|q: int| 0 <= q < trail@.len() && (#[trigger] trail@[q]).vidx() == v as nat;
                assert(t0@[q] == trail@[q]);
            }
            if exists|k: int| i <= k < removed@.len() && (#[trigger] removed@[k]).vidx() == v {
                let k = choose|k: int| i <= k < removed@.len() && (#[trigger] removed@[k]).vidx() == v;
                assert(removed@[k] == t0@[e + k]);
            }
        }
    }
    while i < removed.len()
        invariant
            index.wf(store),
            store.wf(),
            i <= removed@.len(),
            removed@ == t0@.subrange(t0.seg_end(level as nat), t0@.len() as int),
            t0.seg_end(level as nat) <= t0@.len(),
            trail@ == t0@.subrange(0, t0.seg_end(level as nat)),
            crate::cnf::consistent(t0@),
            forall|p: int| 0 <= p < t0@.len() ==> (#[trigger] t0@[p]).vidx() < n,
            index.resolved@.len() == n,
            forall|v: int| 0 <= v < index.resolved@.len() ==> #[trigger] index.resolved@[v] == (var_assigned(trail@, v as nat) || exists|k: int| i <= k < removed@.len() && (#[trigger] removed@[k]).vidx() == v),
        decreases removed.len() - i,
    {
        let x = removed[i];
        let ghost e = t0.seg_end(level as nat);
        proof {
            assert(removed@[i as int] == t0@[e + i]);
            assert(index.resolved@[x.vidx() as int]);
        }
        let ghost r0 = index.resolved@;
        index.mark_unresolved(store, x.var());
        proof {
            assert forall|v: int| 0 <= v < index.resolved@.len() implies #[trigger] index.resolved@[v] == (var_assigned(trail@, v as nat) || exists|k: int| i + 1 <= k < removed@.len() && (#[trigger] removed@[k]).vidx() == v) by {
                if v == x.vidx() {
                    if var_assigned(trail@, v as nat) {
                        let q = choose|q: int| 0 <= q < trail@.len() && (#[trigger] trail@[q]).vidx() == v as nat;
                        assert(t0@[q] == trail@[q]);
                        assert(t0@[q].vidx() == t0@[e + i].vidx());
                    }
                    if exists|k: int| i + 1 <= k < removed@.len() && (#[trigger] removed@[k]).vidx() == v {
                        let k = choose|k: int| i + 1 <= k < removed@.len() && (#[trigger] removed@[k]).vidx() == v;
                        assert(removed@[k] == t0@[e + k]);
                        assert(t0@[e + k].vidx() == t0@[e + i].vidx());
                    }
                } else {
                    assert(index.resolved@[v] == r0[v]);
                    if exists|k: int| i <= k < removed@.len() && (#[trigger] removed@[k]).vidx() == v {
                        let k = choose|k: int| i <= k < removed@.len() && (#[trigger] removed@[k]).vidx() == v;
                        assert(k != i);
                    }
                }
            }
        }
        i = i + 1;
    }
    proof {
        let e = t0.seg_end(level as nat);
        assert forall|p: int| 0 <= p < trail@.len() implies graph@[(#[trigger] trail@[p]).vidx() as int]
            == g0@[trail@[p].vidx() as int] by {
            assert(trail@[p] == t0@[p]);
            if exists|i: int| 0 <= i < removed@.len() && (#[trigger] removed@[i]).vidx() == trail@[p].vidx() {
                let i = choose|i: int| 0 <= i < removed@.len() && (#[trigger] removed@[i]).vidx() == trail@[p].vidx();
                assert(removed@[i] == t0@[e + i]);
                assert(t0@[e + i].vidx() == t0@[p].vidx());
            }
        }
        assert forall|p: int| e <= p < t0@.len() implies graph@[(#[trigger] t0@[p]).vidx() as int] == crate::knowledge_graph::blank() by {
            assert(removed@[p - e] == t0@[p]);
        }
    }
}

/// Putting the complement of the unique implication point on the trail
/// after the backjump, forced by the learnt clause, keeps the invariant.
#[verifier::rlimit(60)]
proof fn lemma_assert_uip(
    s0: &ClauseStore,
    store: &ClauseStore,
    t1: &Trail,
    g1: &KnowledgeGraph,
    t2: &Trail,
    g2: &KnowledgeGraph,
    f: Seq<Seq<Literal>>,
    n: nat,
    ac: AnalyzedConflict,
    idx: usize,
    cl: Seq<Literal>,
)
    requires
        inv_core(store, t1, g1, f, n),
        quiescent(s0@, t1@),
        store@ == s0@ || store@ == s0@.push(cl),
        idx < store@.len(),
        store@[idx as int] == cl,
        same_literals(cl, ac.learnt_clause@),
        entails(f, ac.learnt_clause@),
        ac.learnt_clause@.len() >= 1,
        t1.level() == ac.backjump_level,
        forall|k: int|
            1 <= k < ac.learnt_clause@.len() ==> t1@.contains((#[trigger] ac.learnt_clause@[k]).neg()),
        forall|a: int, b: int|
            0 <= a < ac.learnt_clause@.len() && 0 <= b < ac.learnt_clause@.len() && a != b ==> (
            #[trigger] ac.learnt_clause@[a]).vidx() != (#[trigger] ac.learnt_clause@[b]).vidx(),
        !var_assigned(t1@, ac.learnt_clause@[0].vidx()),
        ac.learnt_clause@[0].vidx() < n,
        t2.wf(),
        t2@ == t1@.push(ac.learnt_clause@[0]),
        t2.starts@ == t1.starts@,
        t2.assignment.values@.len() == t1.assignment.values@.len(),
        ac.backjump_level == 0 ==> g2@ == g1@.update(ac.learnt_clause@[0].vidx() as int, blank()),
        ac.backjump_level > 0 ==> g2@ == g1@.update(
            ac.learnt_clause@[0].vidx() as int,
            Vertex {
                antecedent: Some(idx),
                decision_level: ac.backjump_level,
                decision: Some(t1@[t1.seg_start(t1.level())]),
            },
        ),
    ensures
        inv_core(store, t2, g2, f, n),
        pending_in(store@, t2@, t2.seg_start(t2.level()), t2@.len() as int),
{
    reveal(inv_core);
    let l = ac.learnt_clause@;
    let x = l[0];
    let t = t1@;
    let u = t2@;
    let st = t1.starts@;
    let big_l = ac.backjump_level;
    lemma_wf_increasing(t1);
    assert forall|p: int| 0 <= p < t.len() implies (#[trigger] t[p]).vidx() != x.vidx() by {
    }
    assert forall|p: int| 0 <= p < u.len() implies (#[trigger] u[p]).vidx() < n by {
        if p < t.len() {
            assert(u[p] == t[p]);
        }
    }
    lemma_pos_level(st, t.len() as int);
    if st.len() > 0 {
        assert(st[st.len() - 1] < t.len());
    }
    lemma_pos_level_is(st, t.len() as int, st.len());
    assert forall|p: int|
        0 <= p < u.len() implies g2@[(#[trigger] u[p]).vidx() as int].decision_level == pos_level(st, p) by {
        if p < t.len() {
            assert(u[p] == t[p]);
        }
    }
    assert(l.contains(x));
    assert(cl.contains(x));
    assert forall|k: int| 0 <= k < cl.len() && cl[k] != x implies t.contains((#[trigger] cl[k]).neg()) by {
        assert(l.contains(cl[k]));
        let j = choose|j: int| 0 <= j < l.len() && l[j] == cl[k];
        assert(j != 0);
    }
    assert forall|p: int| 0 <= p < u.len() && pos_level(st, p) == 0 implies entails_lit(f, #[trigger] u[p]) by {
        if p < t.len() {
            assert(u[p] == t[p]);
        } else {
            assert(big_l == 0);
            assert forall|q: int| 0 <= q < t.len() implies entails_lit(f, #[trigger] t[q]) by {
                assert(pos_level(st, q) == 0);
            }
            assert forall|x2: Literal| l.contains(x2) implies cl.contains(x2) by {
            }
            lemma_entails_superset(f, l, cl);
            crate::state::lemma_forced_entailed(f, cl, t, x);
        }
    }
    assert forall|p: int|
        0 <= p < u.len() && pos_level(st, p) > 0 && !is_decision_pos(st, p) implies {
            let a = g2@[(#[trigger] u[p]).vidx() as int].antecedent;
            &&& a is Some
            &&& a.unwrap() < store@.len()
            &&& reason(store@[a.unwrap() as int], u, p)
        } by {
        if p < t.len() {
            assert(u[p] == t[p]);
            assert(u.subrange(0, p) == t.subrange(0, p));
            let a = g1@[t[p].vidx() as int].antecedent;
            assert(reason(store@[a.unwrap() as int], t, p));
        } else {
            assert(u.subrange(0, p) =~= t);
            assert(u[p] == x);
        }
    }
    assert forall|k: nat| k < t2.level() implies quiescent(store@, u.subrange(0, #[trigger] t2.seg_end(k))) by {
        assert(t1.seg_end(k) == t2.seg_end(k));
        assert(t1.seg_end(k) <= t.len());
        assert(u.subrange(0, t.len() as int) =~= t);
        lemma_prefix_stable(t, u, t1.seg_end(k));
        assert(quiescent(store@, t.subrange(0, t1.seg_end(k))));
    }
    assert(inv_core(store, t2, g2, f, n));
    assert(t2.seg_start(t2.level()) <= t.len()) by {
        if st.len() > 0 {
            assert(st[st.len() - 1] < t.len());
        }
    }
    assert forall|c: int|
        0 <= c < store@.len() && (is_unit_under(u, #[trigger] store@[c]) || falsified(u, store@[c])) implies touches(
        store@[c],
        u,
        t2.seg_start(t2.level()),
        u.len() as int,
    ) by {
        let s2 = store@;
        if exists|k: int| 0 <= k < s2[c].len() && (#[trigger] s2[c][k]).vidx() == x.vidx() {
            let k = choose|k: int| 0 <= k < s2[c].len() && (#[trigger] s2[c][k]).vidx() == x.vidx();
            assert(u[t.len() as int] == x);
            assert(s2[c][k].vidx() == u[t.len() as int].vidx());
        } else {
            lemma_push_status(t, x, s2[c]);
            if c < s0@.len() {
                assert(s2[c] == s0@[c]);
            } else {
                assert(s2[c] == cl);
                let k = choose|k: int| 0 <= k < cl.len() && cl[k] == x;
            }
        }
    }
}

/// Undoes the trail to the backjump level of the analysed conflict and
/// stores the learnt clause, then puts the complement of the unique
/// implication point on the trail, forced by that clause (a learnt unit at
/// level 0 with no antecedent). Returns whether the clause was new.
#[verifier::rlimit(100)]
fn learn(
    store: &mut ClauseStore,
    trail: &mut Trail,
    graph: &mut KnowledgeGraph,
    index: &mut ClauseIndex,
    ac: &AnalyzedConflict,
    Ghost(f): Ghost<Seq<Seq<Literal>>>,
    Ghost(n): Ghost<nat>,
) -> (added: bool)
    requires
        inv_core(old(store), old(trail), old(graph), f, n),
        old(trail).level() >= 1,
        learnt_ok(old(trail), old(graph), f, *ac),
        tracks(old(index), old(store), old(trail)@),
    ensures
        inv_core(final(store), final(trail), final(graph), f, n),
        tracks(final(index), final(store), final(trail)@),
        pending_in(final(store)@, final(trail)@, final(trail).seg_start(final(trail).level()), final(trail)@.len() as int),
        added,
        final(trail).level() == ac.backjump_level,
        final(trail)@ == old(trail)@.subrange(0, old(trail).seg_end(ac.backjump_level as nat)).push(ac.learnt_clause@[0]),
        old(trail)@.len() <= n ==> trail_code(final(trail), n) > trail_code(old(trail), n),
{
    proof {
        reveal(inv_core);
    }
    let ghost s0 = *store;
    let ghost t0 = *trail;
    let ghost g0 = *graph;
    let level = ac.backjump_level;
    proof {
        reveal(inv_core);
        lemma_wf_increasing(&t0);
    }
    undo_to(store, trail, graph, index, level, Ghost(n));
    proof {
        let l = ac.learnt_clause@;
        assert(!tautology(l)) by {
            if tautology(l) {
                let (a, b) = choose|a: int, b: int|
                    0 <= a < l.len() && 0 <= b < l.len() && (#[trigger] l[a]).vidx() == (#[trigger] l[b]).vidx()
                        && l[a] != l[b];
            }
        }
    }
    let ghost t1 = *trail;
    let ghost g1 = *graph;
    let clause = Clause::new(&ac.learnt_clause);
    let lits = clause.into_literals();
    let ghost cl = lits@;
    proof {
        let l = ac.learnt_clause@;
        assert(l.contains(l[0]));
        assert(cl.len() > 0);
        assert forall|k: int| 0 <= k < cl.len() implies (#[trigger] cl[k]).vidx() < n by {
            assert(l.contains(cl[k]));
            let j = choose|j: int| 0 <= j < l.len() && l[j] == cl[k];
            assert(t0@.contains(l[j].neg()));
            let q = choose|q: int| 0 <= q < t0@.len() && t0@[q] == l[j].neg();
        }
    }
    let found = store.find(&lits);
    let idx: usize = match found {
        Some(i) => i,
        None => {
            let ghost sb = *store;
            let r = store.add_clause(lits);
            index.add_clause(store);
            store.num_clauses() - 1
        },
    };
    proof {
        lemma_backjump(&s0, store, &t0, &g0, &t1, &g1, f, n, *ac, cl);
        assert(tracks(index, store, trail@));
        assert(store@[idx as int] == cl);
    }
    let x = ac.learnt_clause[0];
    let decision = trail.last_decision();
    proof {
        let l = ac.learnt_clause@;
        let st0 = t0.starts@;
        lemma_wf_increasing(&t0);
        let qu = choose|q: int| 0 <= q < t0@.len() && t0@[q] == ac.uip;
        assert(g0@[t0@[qu].vidx() as int].decision_level == pos_level(st0, qu));
        assert(!var_assigned(t1@, x.vidx())) by {
            if var_assigned(t1@, x.vidx()) {
                let r = choose|r: int| 0 <= r < t1@.len() && (#[trigger] t1@[r]).vidx() == x.vidx();
                assert(t1@[r] == t0@[r]);
                assert(t0@[r].vidx() == t0@[qu].vidx());
                lemma_pos_level_end(&t0, qu, level as nat);
            }
        }
        assert forall|k: int| 1 <= k < l.len() implies t1@.contains((#[trigger] l[k]).neg()) by {
            assert(t0@.contains(l[k].neg()));
            let q = choose|q: int| 0 <= q < t0@.len() && t0@[q] == l[k].neg();
            assert(g0@[t0@[q].vidx() as int].decision_level == pos_level(st0, q));
            lemma_pos_level_end(&t0, q, level as nat);
            assert(t1@[q] == t0@[q]);
        }
        lemma_lit_state(trail, x);
        assert(x.vidx() < n);
        assert(index.resolved@[x.vidx() as int] == var_assigned(t1@, x.vidx()));
        // the learnt clause is unit on the levels kept, so it was not stored
        if found is Some {
            assert(store@ == s0@);
            assert(s0@[idx as int] == cl);
            assert(l.contains(x));
            let k0 = choose|k0: int| 0 <= k0 < cl.len() && cl[k0] == x;
            assert forall|i: int| 0 <= i < cl.len() && i != k0 implies crate::cnf::lit_false(t1@, #[trigger] cl[i]) by {
                assert(cl[i].vidx() != cl[k0].vidx()) by {
                    if i < k0 {
                        assert(cl[i].vidx() < cl[k0].vidx());
                    } else {
                        assert(cl[k0].vidx() < cl[i].vidx());
                    }
                }
                assert(l.contains(cl[i]));
                let k = choose|k: int| 0 <= k < l.len() && l[k] == cl[i];
            }
            assert(!satisfied_by(t1@, cl)) by {
                if satisfied_by(t1@, cl) {
                    let i = choose|i: int| 0 <= i < cl.len() && t1@.contains(#[trigger] cl[i]);
                    if i == k0 {
                        let q = choose|q: int| 0 <= q < t1@.len() && t1@[q] == x;
                        assert(t1@[q].vidx() == x.vidx());
                    } else {
                        lemma_not_both(t1@, cl[i]);
                    }
                }
            }
            assert(is_unit_under(t1@, cl));
            assert(!is_unit_under(t1@, s0@[idx as int]));
        }
    }
    let ghost t2a = *trail;
    let ghost g2a = *graph;
    let ghost i2a = *index;
    let nv = trail.assignment.values.len();
    assert(x.vidx() < nv);
    trail.add_inferred(x);
    if level == 0 {
        graph.add_initial(x);
    } else {
        graph.add_inferred(x, level, decision, idx);
    }
    index.mark_resolved(store, x.var());
    proof {
        lemma_tracks_push(store, &i2a, index, t2a@, x);
        lemma_assert_uip(&s0, store, &t2a, &g2a, trail, graph, f, n, *ac, idx, cl);
        if t0@.len() <= n {
            crate::state::lemma_levels_bound(&t0);
            crate::state::lemma_code_backjump(&t0, trail, n, level as nat);
        }
    }
    found.is_none()
}

/// Every variable of every clause has a value.
pub open spec fn all_resolved(s: Seq<Seq<Literal>>, t: Seq<Literal>) -> bool {
    forall|c: int, k: int| 0 <= c < s.len() && 0 <= k < s[c].len() ==> var_assigned(t, (#[trigger] s[c][k]).vidx())
}


/// With every clause resolved and none falsified, every clause is
/// satisfied.
proof fn lemma_sat_resolved(store: &ClauseStore, trail: &Trail)
    requires
        store.wf(),
        trail.wf(),
        all_resolved(store@, trail@),
        quiescent(store@, trail@),
    ensures
        forall|c: int| 0 <= c < store@.len() ==> satisfied_by(trail@, #[trigger] store@[c]),
{
    assert forall|c: int| 0 <= c < store@.len() implies satisfied_by(trail@, #[trigger] store@[c]) by {
        let cl = store@[c];
        if !satisfied_by(trail@, cl) {
            assert forall|k: int| 0 <= k < cl.len() implies lit_false(trail@, #[trigger] cl[k]) by {
                lemma_lit_state(trail, cl[k]);
                assert(var_assigned(trail@, cl[k].vidx()));
                if trail@.contains(cl[k]) {
                    assert(satisfied_by(trail@, cl));
                }
            }
            assert(falsified(trail@, cl));
        }
    }
}

/// Opens a new level whose decision gives variable `v` the positive
/// polarity.
fn decide(
    store: &ClauseStore,
    trail: &mut Trail,
    graph: &mut KnowledgeGraph,
    index: &mut ClauseIndex,
    v: usize,
    Ghost(f): Ghost<Seq<Seq<Literal>>>,
    Ghost(n): Ghost<nat>,
)
    requires
        inv_core(store, old(trail), old(graph), f, n),
        quiescent(store@, old(trail)@),
        tracks(old(index), store, old(trail)@),
        v < n,
        n < MAX_LITERAL,
        n <= usize::MAX,
        old(trail).assignment.value(v as nat) is None,
        old(trail)@.len() <= n,
    ensures
        inv_core(store, final(trail), final(graph), f, n),
        pending_in(store@, final(trail)@, final(trail).seg_start(final(trail).level()), final(trail)@.len() as int),
        tracks(final(index), store, final(trail)@),
        final(trail)@.len() <= n,
        trail_code(final(trail), n) > trail_code(old(trail), n),
        0 <= trail_code(final(trail), n) < wt(n, n + 1),
        final(trail).level() == old(trail).level() + 1,
        final(trail)@ == old(trail)@.push(Literal::of(v as nat, true)),
        final(trail).starts@ == old(trail).starts@.push(old(trail)@.len() as usize),
{
    let d = trail.current_decision_level();
    proof {
        reveal(inv_core);
        crate::state::lemma_levels_bound(trail);
        crate::state::lemma_value_assigned(trail, v as nat);
    }
    let dl = Literal::new(Variable(v as u64), true);
    let ghost t0 = *trail;
    let ghost g0 = *graph;
    let ghost i0 = *index;
    trail.add_decision(dl);
    graph.add_decision(dl, d + 1);
    proof {
        assert(index.resolved@[v as int] == var_assigned(t0@, v as nat));
    }
    index.mark_resolved(store, Variable(v as u64));
    proof {
        lemma_tracks_push(store, &i0, index, t0@, dl);
        lemma_decide(store, &t0, &g0, trail, graph, f, n, dl);
        crate::assignment_set::lemma_count_some_bound(trail.assignment.values@);
        crate::state::lemma_code_decide(&t0, trail, n);
        crate::state::lemma_code_bound(trail, n);
    }
}

/// The first variable below `n` without a value, if any.
fn first_unassigned(trail: &Trail, n: usize) -> (r: Option<usize>)
    ensures
        r matches Some(v) ==> v < n && trail.assignment.value(v as nat) is None && forall|u: nat|
            u < v ==> (#[trigger] trail.assignment.value(u)) is Some,
        r is None ==> forall|v: nat| v < n ==> (#[trigger] trail.assignment.value(v)) is Some,
{
    let mut v: usize = 0;
    while v < n
        invariant
            v <= n,
            forall|u: nat| u < v ==> (#[trigger] trail.assignment.value(u)) is Some,
        decreases n - v,
    {
        if trail.assignment.value_of(v as u64).is_none() {
            return Some(v);
        }
        v = v + 1;
    }
    None
}


/// Some unit clause below index `c` holds literal `l`.
pub open spec fn unit_before(s: Seq<Seq<Literal>>, c: int, l: Literal) -> bool {
    exists|c2: int| 0 <= c2 < c && (#[trigger] s[c2]).len() == 1 && s[c2][0] == l
}


/// Some clause of `f` is a unit clause.
pub open spec fn has_unit(f: Seq<Seq<Literal>>) -> bool {
    exists|j: int| 0 <= j < f.len() && (#[trigger] f[j]).len() == 1
}

/// What the statistics of a search on `f` show: two complementary unit
/// clauses give an unsatisfiable verdict before any decision; without unit
/// clauses, an unsatisfiable verdict comes after a backjump and a learnt
/// clause.
pub open spec fn stats_ok(f: Seq<Seq<Literal>>, r: Solution) -> bool {
    &&& complementary_units(f, f.len() as int) ==> r.verdict == Verdict::Unsatisfiable && r.stats.step_count == 0
    &&& !has_unit(f) && r.verdict == Verdict::Unsatisfiable ==> r.stats.backtrack_count >= 1
        && r.stats.learnt_clause_count >= 1
}

/// Two unit clauses below index `c` hold complementary literals.
pub open spec fn complementary_units(s: Seq<Seq<Literal>>, c: int) -> bool {
    exists|a: int, b: int|
        0 <= a < c && 0 <= b < c && (#[trigger] s[a]).len() == 1 && (#[trigger] s[b]).len() == 1 && s[a][0]
            == s[b][0].neg()
}

/// Puts the literal of every unit clause on level 0. Returns `false` when
/// two unit clauses contradict each other, and the formula is then
/// unsatisfiable.
fn find_initial_assignment(
    store: &ClauseStore,
    trail: &mut Trail,
    graph: &mut KnowledgeGraph,
    index: &mut ClauseIndex,
    Ghost(f): Ghost<Seq<Seq<Literal>>>,
    Ghost(n): Ghost<nat>,
) -> (ok: bool)
    requires
        inv_core(store, old(trail), old(graph), f, n),
        old(trail).level() == 0,
        old(trail)@.len() == 0,
        tracks(old(index), store, old(trail)@),
    ensures
        inv_core(store, final(trail), final(graph), f, n),
        tracks(final(index), store, final(trail)@),
        final(trail).level() == 0,
        ok ==> forall|c: int|
            0 <= c < store@.len() && (#[trigger] store@[c]).len() == 1 ==> final(trail)@.contains(store@[c][0]),
        ok ==> forall|l: Literal| final(trail)@.contains(l) <==> stored(store@, seq![l]),
        !ok <==> complementary_units(store@, store@.len() as int),
        !ok ==> !satisfiable(f),
{
    proof {
        reveal(inv_core);
    }
    let nc = store.num_clauses();
    let nv = trail.assignment.values.len();
    let mut c: usize = 0;
    while c < nc
        invariant
            inv_core(store, trail, graph, f, n),
            trail.level() == 0,
            nc == store@.len(),
            nv == n,
            tracks(index, store, trail@),
            c <= nc,
            forall|c2: int| 0 <= c2 < c && (#[trigger] store@[c2]).len() == 1 ==> trail@.contains(store@[c2][0]),
            forall|l: Literal| trail@.contains(l) ==> unit_before(store@, c as int, l),
            !complementary_units(store@, c as int),
        decreases nc - c,
    {
        proof {
            reveal(inv_core);
        }
        if store.clause_len(c) == 1 {
            let x = store.clause_lit(c, 0);
            let ghost cl = store@[c as int];
            proof {
                lemma_lit_state(trail, x);
                assert(x.vidx() < n);
                assert forall|p: int| 0 <= p < trail@.len() implies crate::cnf::entails_lit(f, #[trigger] trail@[p]) by {
                    assert(pos_level(trail.starts@, p) == 0);
                }
            }
            match trail.assignment.value_of(x.var().0) {
                Some(p) => {
                    if p != x.polarity() {
                        proof {
                            assert(trail@.contains(x.neg()));
                            assert(falsified(trail@, cl));
                            lemma_refuted(f, cl, trail@);
                            let c2 = choose|c2: int| 0 <= c2 < c && (#[trigger] store@[c2]).len() == 1 && store@[c2][0] == x.neg();
                            assert(store@[c as int][0] == store@[c2][0].neg());
                            assert(complementary_units(store@, store@.len() as int));
                        }
                        return false;
                    }
                    proof {
                        assert(trail@.contains(x));
                        assert forall|l: Literal| trail@.contains(l) implies unit_before(store@, c + 1, l) by {
                            let c2 = choose|c2: int| 0 <= c2 < c && (#[trigger] store@[c2]).len() == 1 && store@[c2][0] == l;
                        }
                        assert(!complementary_units(store@, c + 1)) by {
                            if complementary_units(store@, c + 1) {
                                let (a, b) = choose|a: int, b: int|
                                    0 <= a < c + 1 && 0 <= b < c + 1 && (#[trigger] store@[a]).len() == 1 && (#[trigger] store@[b]).len() == 1 && store@[a][0]
                                        == store@[b][0].neg();
                                if a == c && b < c {
                                    assert(trail@.contains(store@[b][0]));
                                    lemma_not_both(trail@, x);
                                } else if b == c && a < c {
                                    assert(trail@.contains(store@[a][0]));
                                    lemma_not_both(trail@, x);
                                } else if a == c && b == c {
                                } else {
                                    assert(complementary_units(store@, c as int));
                                }
                            }
                        }
                    }
                },
                None => {
                    let ghost t1 = *trail;
                    let ghost g1 = *graph;
                    proof {
                        assert(forall|l: Literal| t1@.contains(l) ==> unit_before(store@, c as int, l));
                        assert(entails_lit(f, x)) by {
                            assert forall|sigma: spec_fn(nat) -> bool| #[trigger] formula_holds(sigma, f) implies lit_holds(sigma, x) by {
                                assert(clause_holds(sigma, cl));
                            }
                        }
                    }
                    let ghost i1 = *index;
                    proof {
                        assert(index.resolved@[x.vidx() as int] == var_assigned(t1@, x.vidx()));
                    }
                    trail.add_inferred(x);
                    graph.add_initial(x);
                    index.mark_resolved(store, x.var());
                    proof {
                        lemma_tracks_push(store, &i1, index, t1@, x);
                        lemma_add_level0(store, &t1, &g1, trail, graph, f, n, x);
                        assert forall|c2: int|
                            0 <= c2 < c && (#[trigger] store@[c2]).len() == 1 implies trail@.contains(store@[c2][0]) by {
                            let q = choose|q: int| 0 <= q < t1@.len() && t1@[q] == store@[c2][0];
                            assert(trail@[q] == t1@[q]);
                        }
                        assert(trail@[t1@.len() as int] == x);
                        assert forall|l: Literal| trail@.contains(l) implies unit_before(store@, c + 1, l) by {
                            if l != x {
                                let q = choose|q: int| 0 <= q < trail@.len() && trail@[q] == l;
                                assert(q < t1@.len());
                                assert(t1@[q] == l);
                                assert(t1@.contains(l));
                                assert(unit_before(store@, c as int, l));
                                let c2 = choose|c2: int| 0 <= c2 < c && (#[trigger] store@[c2]).len() == 1 && store@[c2][0] == l;
                            } else {
                                assert(store@[c as int].len() == 1);
                            }
                        }
                        assert(!complementary_units(store@, c + 1)) by {
                            if complementary_units(store@, c + 1) {
                                let (a, b) = choose|a: int, b: int|
                                    0 <= a < c + 1 && 0 <= b < c + 1 && (#[trigger] store@[a]).len() == 1 && (#[trigger] store@[b]).len() == 1 && store@[a][0]
                                        == store@[b][0].neg();
                                if a == c && b < c {
                                    assert(t1@.contains(store@[b][0]));
                                    assert(t1@.contains(x.neg()));
                                    lemma_lit_state(&t1, x);
                                } else if b == c && a < c {
                                    assert(t1@.contains(store@[a][0]));
                                    assert(store@[a][0] == x.neg());
                                    lemma_lit_state(&t1, x);
                                } else if a == c && b == c {
                                } else {
                                    assert(complementary_units(store@, c as int));
                                }
                            }
                        }
                    }
                },
            }
        } else {
            proof {
                assert forall|l: Literal| trail@.contains(l) implies unit_before(store@, c + 1, l) by {
                    let c2 = choose|c2: int| 0 <= c2 < c && (#[trigger] store@[c2]).len() == 1 && store@[c2][0] == l;
                }
                assert(!complementary_units(store@, c + 1)) by {
                    if complementary_units(store@, c + 1) {
                        let (a, b) = choose|a: int, b: int|
                            0 <= a < c + 1 && 0 <= b < c + 1 && (#[trigger] store@[a]).len() == 1 && (#[trigger] store@[b]).len() == 1 && store@[a][0]
                                == store@[b][0].neg();
                        assert(complementary_units(store@, c as int));
                    }
                }
            }
        }
        c = c + 1;
    }
    proof {
        assert forall|l: Literal| trail@.contains(l) <==> stored(store@, seq![l]) by {
            if trail@.contains(l) {
                let c2 = choose|c2: int| 0 <= c2 < c && (#[trigger] store@[c2]).len() == 1 && store@[c2][0] == l;
                assert(store@[c2] =~= seq![l]);
            }
            if stored(store@, seq![l]) {
                let c2 = choose|c2: int| 0 <= c2 < store@.len() && #[trigger] store@[c2] == seq![l];
                assert(store@[c2].len() == 1);
            }
        }
    }
    true
}

fn copy_clauses(clauses: &Vec<Clause>) -> (r: Vec<Clause>)
    ensures
        r@.len() == clauses@.len(),
        forall|c: int| 0 <= c < clauses@.len() ==> (#[trigger] r@[c])@ == clauses@[c]@,
{
    let mut out: Vec<Clause> = Vec::new();
    let mut i: usize = 0;
    while i < clauses.len()
        invariant
            i <= clauses@.len(),
            out@.len() == i,
            forall|c: int| 0 <= c < i ==> (#[trigger] out@[c])@ == clauses@[c]@,
        decreases clauses.len() - i,
    {
        let lits = clauses[i].literals();
        let mut copy: Vec<Literal> = Vec::new();
        let mut k: usize = 0;
        while k < lits.len()
            invariant
                k <= lits@.len(),
                copy@ == lits@.subrange(0, k as int),
            decreases lits.len() - k,
        {
            copy.push(lits[k]);
            assert(copy@ == lits@.subrange(0, k + 1));
            k = k + 1;
        }
        assert(copy@ == lits@);
        out.push(Clause { id: clauses[i].id, literals: copy });
        i = i + 1;
    }
    out
}

impl Instance {
    /// Decides the formula. `Satisfiable` comes with an assignment under
    /// which every clause has a true literal; `Unsatisfiable` is reported
    /// only for formulas that no valuation satisfies.
    pub fn solve(&mut self) -> (r: Solution)
        requires
            old(self).wf(),
        ensures
            *final(self) == *old(self),
            solve_ok(old(self).formula(), old(self).variables.count(), r),
            stats_ok(old(self).formula(), r),
            r.literals.wf(),
            r.literals@ == old(self).variables@,
            r.literals.original_variables@ == old(self).variables.original_variables@,
    {
        self.search()
    }


    proof fn lemma_sat_resolved_models(
        &self,
        store: &ClauseStore,
        trail: &Trail,
        index: &ClauseIndex,
        f: Seq<Seq<Literal>>,
    )
        requires
            store.wf(),
            trail.wf(),
            quiescent(store@, trail@),
            forall|j: int| 0 <= j < f.len() ==> stored(store@, #[trigger] f[j]),
            tracks(index, store, trail@),
            forall|c: int| 0 <= c < store@.len() ==> count_free(#[trigger] store@[c], index.resolved@) == 0,
        ensures
            models(trail.assignment, f),
    {
        assert forall|c: int, k: int| 0 <= c < store@.len() && 0 <= k < store@[c].len() implies var_assigned(trail@, (#[trigger] store@[c][k]).vidx()) by {
            lemma_count_free_zero(store@[c], index.resolved@);
            assert(storable(store@[c], store.nvars()));
            assert(index.resolved@[store@[c][k].vidx() as int]);
        }
        lemma_sat_resolved(store, trail);
        lemma_models_from_store(store, trail, f);
    }



    #[verifier::rlimit(100)]
    #[verifier::spinoff_prover]
    fn search(&self) -> (r: Solution)
        requires
            self.wf(),
        ensures
            solve_ok(self.formula(), self.variables.count(), r),
            stats_ok(self.formula(), r),
            r.literals.wf(),
            r.literals@ == self.variables@,
            r.literals.original_variables@ == self.variables.original_variables@,
    {
        let ghost f = self.formula();
        let n = self.variables.names.len();
        let ghost gn = n as nat;
        let mut stats = EvaluationStats {
            step_count: 0,
            initial_unit_count: 0,
            unit_prop_count: 0,
            backtrack_count: 0,
            learnt_clause_count: 0,
        };
        let clauses = copy_clauses(&self.clauses);
        let mut store = ClauseStore::with_vars(clauses, n);
        let mut trail = Trail::with_vars(n);
        let mut graph = KnowledgeGraph::new(n);
        let mut index = ClauseIndex::new(&store);
        proof {
            reveal(inv_core);
            assert forall|j: int| 0 <= j < f.len() implies stored(store@, #[trigger] f[j]) by {
                assert(f[j] == self.clauses@[j]@);
                assert(clauses@[j]@ == self.clauses@[j]@);
                assert(stored(store@, clauses@[j]@));
            }
            assert forall|c: int| 0 <= c < store@.len() implies entails(f, #[trigger] store@[c]) by {
                let j = choose|j: int| 0 <= j < clauses@.len() && #[trigger] store@[c] == clauses@[j]@;
                assert(f[j] == self.clauses@[j]@);
                assert(clauses@[j]@ == self.clauses@[j]@);
                assert forall|sigma: spec_fn(nat) -> bool| #[trigger] formula_holds(sigma, f) implies clause_holds(sigma, store@[c]) by {
                    assert(clause_holds(sigma, f[j]));
                }
            }
            assert(inv_core(&store, &trail, &graph, f, gn));
            assert(tracks(&index, &store, trail@));
        }
        let ok = find_initial_assignment(&store, &mut trail, &mut graph, &mut index, Ghost(f), Ghost(gn));
        proof {
            if complementary_units(f, f.len() as int) {
                let (a, b) = choose|a: int, b: int|
                    0 <= a < f.len() && 0 <= b < f.len() && (#[trigger] f[a]).len() == 1 && (#[trigger] f[b]).len() == 1
                        && f[a][0] == f[b][0].neg();
                assert(stored(store@, f[a]) && stored(store@, f[b]));
                let ca = choose|c: int| 0 <= c < store@.len() && #[trigger] store@[c] == f[a];
                let cb = choose|c: int| 0 <= c < store@.len() && #[trigger] store@[c] == f[b];
                assert(complementary_units(store@, store@.len() as int));
            }
            assert forall|c: int| 0 <= c < store@.len() && (#[trigger] store@[c]).len() == 1 implies has_unit(f) by {
                let j = choose|j: int| 0 <= j < clauses@.len() && #[trigger] store@[c] == clauses@[j]@;
                assert(f[j] == self.clauses@[j]@);
                assert(clauses@[j]@ == self.clauses@[j]@);
            }
            if !ok {
                let (a, b) = choose|a: int, b: int|
                    0 <= a < store@.len() && 0 <= b < store@.len() && (#[trigger] store@[a]).len() == 1 && (#[trigger] store@[b]).len() == 1
                        && store@[a][0] == store@[b][0].neg();
                assert(has_unit(f));
            }
            if ok && !has_unit(f) {
                if trail@.len() > 0 {
                    assert(trail@.contains(trail@[0]));
                    assert(stored(store@, seq![trail@[0]]));
                    let c = choose|c: int| 0 <= c < store@.len() && #[trigger] store@[c] == seq![trail@[0]];
                    assert(store@[c].len() == 1);
                }
            }
        }
        if !ok {
            return Solution { literals: self.variables.duplicate(), verdict: Verdict::Unsatisfiable, solution: None, stats };
        }
        stats.initial_unit_count = trail.len();
        proof {
            reveal(inv_core);
            lemma_units_pending(&store, trail@);
            crate::assignment_set::lemma_count_some_bound(trail.assignment.values@);
        }
        proof {
            crate::state::lemma_code_bound(&trail, gn);
        }
        loop
            invariant
                inv_core(&store, &trail, &graph, f, gn),
                pending_in(store@, trail@, trail.seg_start(trail.level()), trail@.len() as int),
                n == gn,
                trail@.len() <= n,
                f == self.formula(),
                tracks(&index, &store, trail@),
                0 <= trail_code(&trail, gn) < wt(gn, gn + 1),
                self.wf(),
                n == self.variables.count(),
                !complementary_units(f, f.len() as int),
                stats.backtrack_count >= 1 ==> stats.learnt_clause_count >= 1,
                !has_unit(f) && stats.backtrack_count == 0 ==> trail@.len() == 0 || trail.level() >= 1,
            decreases wt(gn, gn + 1) - trail_code(&trail, gn),
        {
            let ghost t_start = trail;
            proof {
                crate::state::lemma_inv_facts(&store, &trail, &graph, f, gn);
            }
            let before = trail.len();
            let conflict = propagate_units(&store, &mut trail, &mut graph, &mut index, Ghost(f), Ghost(gn));
            let after = trail.len();
            proof {
                crate::state::lemma_inv_facts(&store, &trail, &graph, f, gn);
                crate::assignment_set::lemma_count_some_bound(trail.assignment.values@);
                crate::state::lemma_levels_bound(&t_start);
                crate::state::lemma_code_extend(&t_start, &trail, gn);
                if !has_unit(f) && stats.backtrack_count == 0 && t_start.level() == 0 {
                    assert(t_start.seg_start(0) == 0);
                }
            }
            if after - before <= usize::MAX - stats.unit_prop_count {
                stats.unit_prop_count = stats.unit_prop_count + (after - before);
            }
            match conflict {
                Some(cf) => {
                    if trail.current_decision_level() == 0 {
                        proof {
                            lemma_refuted(f, store@[cf.conflicting_clause as int], trail@);
                            if !has_unit(f) && stats.backtrack_count == 0 {
                                assert(t_start.level() == 0);
                                assert(t_start.seg_start(0) == 0);
                            }
                        }
                        return Solution {
                            literals: self.variables.duplicate(),
                            verdict: Verdict::Unsatisfiable,
                            solution: None,
                            stats,
                        };
                    }
                    let ac = analyse_conflict(&store, &trail, &graph, &cf, Ghost(f), Ghost(gn));
                    let added = learn(&mut store, &mut trail, &mut graph, &mut index, &ac, Ghost(f), Ghost(gn));
                    stats.backtrack_count = bump(stats.backtrack_count);
                    if added {
                        stats.learnt_clause_count = bump(stats.learnt_clause_count);
                    }
                    proof {
                        crate::state::lemma_inv_facts(&store, &trail, &graph, f, gn);
                        crate::assignment_set::lemma_count_some_bound(trail.assignment.values@);
                        crate::state::lemma_code_bound(&trail, gn);
                    }
                },
                None => {
                    if index.all_clauses_resolved(&store) {
                        proof {
                            self.lemma_sat_resolved_models(&store, &trail, &index, f);
                        }
                        let set = trail.assignment;
                        return Solution {
                            literals: self.variables.duplicate(),
                            verdict: Verdict::Satisfiable,
                            solution: Some(set),
                            stats,
                        };
                    }
                    match first_unassigned(&trail, n) {
                        None => {
                            proof {
                                lemma_sat(&store, &trail, gn);
                                lemma_models_from_store(&store, &trail, f);
                            }
                            let set = trail.assignment;
                            assert(models(set, f));
                            return Solution {
                                literals: self.variables.duplicate(),
                                verdict: Verdict::Satisfiable,
                                solution: Some(set),
                                stats,
                            };
                        },
                        Some(v) => {
                            decide(&store, &mut trail, &mut graph, &mut index, v, Ghost(f), Ghost(gn));
                            stats.step_count = bump(stats.step_count);
                        },
                    }
                },
            }
        }
    }
}

} // verus!
