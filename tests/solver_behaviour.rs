use std::collections::HashMap;

use smellysat::assignment_set::{EvaluationResult, LiteralSet};
use smellysat::clause::Clause;
use smellysat::clause_index::ClauseIndex;
use smellysat::clause_store::ClauseStore;
use smellysat::dfs::{BacktrackStrategy, Instance};
use smellysat::knowledge_graph::KnowledgeGraph;
use smellysat::literal::{Literal, Variable};
use smellysat::problem_builder::{BoolExpr, ProblemBuilder};
use smellysat::trail::Trail;
use smellysat::unit_propagator::propagate;
use smellysat::variable_registry::VariableRegister;

#[test]
fn test_literal_bookkeeping() {
    for idx in vec![0, 10000000, 1000, 1 << 46] {
        let var = Variable(idx);
        let lit = Literal::new(var, true);
        assert_eq!(lit.var(), var);
        assert_eq!(lit.invert().var(), var);
        assert_eq!(lit.polarity(), true);
        assert_eq!(lit.invert().polarity(), false);
    }
}

#[test]
fn test_build_unary_problem() {
    let mut pb = ProblemBuilder::new();

    let x = pb.var("x");
    let y = pb.var("y");

    assert_ne!(x, y);
    assert_ne!(pb.not(x), x);
}

#[test]
fn test_build_binary_problem() {
    let mut pb = ProblemBuilder::new();

    let x = pb.var("x");
    let y = pb.var("y");

    let y_or_y = pb.or(y, y);
    let both = pb.and(x, y_or_y);
    assert_ne!(both, x);
    assert_eq!(pb.expressions.len(), 6);
}

fn or_list(pb: &mut ProblemBuilder, xs: &Vec<BoolExpr>) -> BoolExpr {
    match xs.len() {
        0 => panic!("Cannot or empty list"),
        1 => xs[0],
        _ => {
            let mut acc = xs[0];
            for i in 1..xs.len() {
                acc = pb.or(acc, xs[i])
            }
            acc
        }
    }
}

#[test]
fn test_build_and_run_simple_assignment() {
    let mut pb = ProblemBuilder::new();

    let children = vec!["laurie", "lucy", "eric", "rita"];
    let seats = vec!["a", "b", "c", "d"];

    let mut by_child = HashMap::new();
    let mut by_seat = HashMap::new();

    for child in children.iter() {
        for seat in seats.iter() {
            let var = pb.var(&format!("{}x{}", &child, &seat));
            by_child
                .entry(child)
                .or_insert(HashMap::new())
                .insert(seat, var);
            by_seat
                .entry(seat)
                .or_insert(HashMap::new())
                .insert(child, var);
        }
    }
    // everyone needs a seat
    for child in &children {
        let options = by_child[child].values().map(|x| *x).collect::<Vec<BoolExpr>>();
        let any = or_list(&mut pb, &options);
        pb.require(any)
    }

    let mut instance = pb.build();
    let sol = instance.solve();
    assert!(sol.solution.is_some());
}

#[test]
fn test_evaluate_clause_true() {
    let a = Variable(0);
    let b = Variable(1);
    let c = Variable(2);
    // A OR !C
    let clause = Clause::new(&vec![Literal::new(a, true), Literal::new(c, false)]);
    // a = true, b = true, c = false
    assert_eq!(
        LiteralSet::from_assignment_vec(&vec![
            Literal::new(a, true),
            Literal::new(b, true),
            Literal::new(c, false),
        ])
        .evaluate(&clause),
        EvaluationResult::True
    );
    // a = false, b = false, c = false
    assert_eq!(
        LiteralSet::from_assignment_vec(&vec![
            Literal::new(a, false),
            Literal::new(b, false),
            Literal::new(c, false),
        ])
        .evaluate(&clause),
        EvaluationResult::True
    );
    // a = false, b = false, c = true
    assert_eq!(
        LiteralSet::from_assignment_vec(&vec![
            Literal::new(a, false),
            Literal::new(b, false),
            Literal::new(c, true),
        ])
        .evaluate(&clause),
        EvaluationResult::False
    )
}

#[test]
fn test_evaluate_clause_missing() {
    let c = Clause::new(&vec![Literal::new(Variable(0), true)]);
    assert_eq!(LiteralSet::new().evaluate(&c), EvaluationResult::Unknown)
}

#[test]
fn test_iter_clause_store() {
    let a = Literal::new(Variable(0), true);
    let b = Literal::new(Variable(1), true);
    let c = Literal::new(Variable(2), true);

    // Ensure we get coverage of long, pair, and unit clauses
    let clauses = vec![
        Clause::new(&vec![a, b, c]),
        Clause::new(&vec![b, c]),
        Clause::new(&vec![c]),
    ];

    let cs = ClauseStore::new(clauses);

    let clauses = cs.iter();

    assert_eq!(clauses.len(), 3);
    assert_eq!(clauses[0].literals(&cs), vec![a, b, c]);
    assert_eq!(clauses[1].literals(&cs), vec![b, c]);
    assert_eq!(clauses[2].literals(&cs), vec![c]);
}

// This test starts with a satisfiable formula (A OR B), and then goes into an unsatisfiable formula.
#[test]
fn test_build_and_solve_infeasible() {
    let mut pb = ProblemBuilder::new();

    let a = pb.var("a");
    let b = pb.var("b");

    let x = pb.var("x");
    let y = pb.var("y");
    let z = pb.var("z");
    let p = pb.var("p");
    let q = pb.var("q");
    let r = pb.var("r");

    let e = pb.or(a, b);
    pb.require(e);

    let e = pb.and(y, z);
    let e = pb.or(x, e);
    pb.require(e);
    let e = pb.and(z, p);
    let e = pb.or(y, e);
    pb.require(e);
    let e = pb.and(p, q);
    let e = pb.or(z, e);
    pb.require(e);
    let e = pb.and(q, r);
    let e = pb.or(p, e);
    pb.require(e);
    let e = pb.and(r, x);
    let e = pb.or(q, e);
    pb.require(e);

    for (u, v) in [(x, y), (y, z), (z, p), (p, q), (q, r)] {
        let nu = pb.not(u);
        let nv = pb.not(v);
        let e = pb.or(nu, nv);
        pb.require(e);
    }

    let mut instance = pb.build();
    let solution = instance.solve();
    assert!(solution.solution.is_none());
    println!("{:?}", solution);
}

#[test]
fn test_build_and_solve_feasible() {
    let mut pb = ProblemBuilder::new();

    let a = pb.var("a");
    let b = pb.var("b");
    let c = pb.var("c");

    let x = pb.var("x");
    let y = pb.var("y");
    let z = pb.var("z");
    let p = pb.var("p");
    let q = pb.var("q");
    let r = pb.var("r");

    let na = pb.not(a);
    let nb = pb.not(b);
    let nc = pb.not(c);
    let e = pb.or(nb, nc);
    let e = pb.or(na, e);
    pb.require(e);

    let e = pb.and(y, z);
    let e = pb.or(x, e);
    pb.require(e);
    let e = pb.and(p, q);
    let e = pb.or(z, e);
    pb.require(e);
    let e = pb.and(r, x);
    let e = pb.or(q, e);
    pb.require(e);

    for (u, v) in [(x, y), (y, z), (z, p), (p, q), (q, r)] {
        let nu = pb.not(u);
        let nv = pb.not(v);
        let e = pb.or(nu, nv);
        pb.require(e);
    }

    let mut instance = pb.build();
    let solution = instance.solve();
    assert!(solution.solution.is_some());
    println!("{:?}", solution);
}

#[test]
fn test_build_and_solve_feasible_from_initial() {
    let mut vr = VariableRegister::new();
    let a = vr.create_original("a");
    let b = vr.create_original("b");
    let c = vr.create_original("c");
    let clauses = vec![
        Clause::new(&vec![Literal::new(a, true)]),
        Clause::new(&vec![Literal::new(a, false), Literal::new(b, true)]),
        Clause::new(&vec![Literal::new(b, false), Literal::new(c, true)]),
    ];

    let mut instance = Instance::new_from_clauses(clauses, vr);
    let solution = instance.solve();

    let mut expected = LiteralSet::new();
    expected.add(Literal::new(a, true));
    expected.add(Literal::new(b, true));
    expected.add(Literal::new(c, true));
    assert_eq!(solution.solution, Some(expected));
}

// This test requires the solver to step into a=true, and then use unit prop to resolve the other variables
#[test]
fn test_build_and_solve_feasible_one_step_and_prop() {
    let mut vr = VariableRegister::new();
    let a = vr.create_original("a");
    let b = vr.create_original("b");
    let c = vr.create_original("c");
    let clauses = vec![
        Clause::new(&vec![Literal::new(a, true), Literal::new(b, true)]),
        Clause::new(&vec![Literal::new(a, false), Literal::new(b, true)]),
        Clause::new(&vec![Literal::new(b, false), Literal::new(c, true)]),
    ];

    let mut instance = Instance::new_from_clauses(clauses, vr);
    let solution = instance.solve();

    let mut expected = LiteralSet::new();
    expected.add(Literal::new(a, true));
    expected.add(Literal::new(b, true));
    expected.add(Literal::new(c, true));
    assert_eq!(solution.solution, Some(expected));
}

// This test requires the solver to step into a=true, hit conflicts, backtrack, and then try a=false
#[test]
fn test_build_and_solve_feasible_backtrack() {
    let mut vr = VariableRegister::new();
    let va = vr.create_original("a");
    let vb = vr.create_original("b");
    let vc = vr.create_original("c");

    let a = Literal::new(va, true);
    let b = Literal::new(vb, true);
    let c = Literal::new(vc, true);
    let clauses = vec![
        Clause::new(&vec![a.invert(), b.invert()]),
        Clause::new(&vec![a.invert(), c.invert()]),
        Clause::new(&vec![b, c]),
    ];

    let mut instance = Instance::new_from_clauses(clauses, vr);
    let solution = instance.solve();

    let mut expected = LiteralSet::new();
    expected.add(a.invert());
    expected.add(b);
    expected.add(c);
    assert_eq!(solution.solution, Some(expected));
}

#[test]
fn trail_test_bookkeeping() {
    let a = Variable(0);
    let b = Variable(1);
    let c = Variable(2);

    let mut sp = Trail::new();

    sp.add_decision(Literal::new(a, true));
    assert_eq!(sp.current_decision_level(), 1);
    assert_eq!(sp.assignment().size(), 1);

    sp.add_inferred(Literal::new(b, true));
    assert_eq!(sp.current_decision_level(), 1);
    assert_eq!(sp.assignment().size(), 2);

    sp.add_inferred(Literal::new(c, true));
    assert_eq!(sp.current_decision_level(), 1);
    assert_eq!(sp.assignment().size(), 3);
}

// Primarily tests that we are cleaning up the trail's assignments when we roll back.
// The literals removed come back in the order they were added.
#[test]
fn test_backtrack_rollback() {
    let a = Variable(0);
    let b = Variable(1);
    let c = Variable(2);
    let notc = Literal::new(c, false);

    let mut path = Trail::new();
    let strategy = BacktrackStrategy::Dumb;

    path.add_decision(Literal::new(a, true));
    path.add_inferred(notc);

    let backtrack_res = path.backtrack_to(strategy.find_backtrack_point(&path, None).unwrap());
    assert_eq!(path.current_decision_level(), 0);
    assert_eq!(backtrack_res.assignments, vec![Literal::new(a, true), notc]);
    assert_eq!(backtrack_res.last_decision, Some(Literal::new(a, true)));

    // Here we will backtrack up to A, as we've explored B's true path earlier
    path.add_decision(Literal::new(a, true));
    path.add_decision(Literal::new(b, false));
    path.add_inferred(notc);
    let backtrack_res = path.backtrack_to(strategy.find_backtrack_point(&path, None).unwrap());
    assert_eq!(path.current_decision_level(), 0);
    assert_eq!(
        backtrack_res.assignments,
        vec![Literal::new(a, true), Literal::new(b, false), notc]
    );
    assert_eq!(backtrack_res.last_decision, Some(Literal::new(a, true)));
}

/// Set up a instance of `A && !B`, and an assignment of !A.
/// This should cause us to infer !B through unit prop.
#[test]
fn test_unit_prop_single_unit_simple() {
    let va = Variable(0);
    let vb = Variable(1);
    let a = Literal::new(va, true);
    let b = Literal::new(vb, true);

    // a & !b
    let clause = Clause::new(&vec![a, b.invert()]);

    let clause_store = ClauseStore::new(vec![clause]);
    let mut trail = Trail::with_vars(2);
    let mut knowledge_graph = KnowledgeGraph::new(2);

    let mut index = ClauseIndex::new(&clause_store);

    let decision = a.invert();
    trail.add_decision(decision);
    index.mark_resolved(&clause_store, decision.var());
    knowledge_graph.add_decision(decision, 1);

    let result = propagate(&clause_store, &mut trail, &mut knowledge_graph, &mut index);

    assert_eq!(result, None);
    assert_eq!(
        trail.assignment(),
        &LiteralSet::from_assignment_vec(&vec![a.invert(), b.invert()])
    );
}

#[test]
fn test_unit_prop_single_unit_conflict() {
    let a = Variable(0);
    let b = Variable(1);

    // These two clauses will conflict when we try to propogate a=false
    // a | !b
    let clause_one = Clause::new(&vec![Literal::new(a, true), Literal::new(b, false)]);
    // a | b
    let clause_two = Clause::new(&vec![Literal::new(a, true), Literal::new(b, false)]);
    let clauses = vec![clause_one, clause_two];

    let clause_store = ClauseStore::new(clauses);
    let mut trail = Trail::with_vars(2);
    let mut knowledge_graph = KnowledgeGraph::new(2);

    let mut index = ClauseIndex::new(&clause_store);

    let decision = Literal::new(a, false);
    trail.add_decision(decision);
    index.mark_resolved(&clause_store, a);
    knowledge_graph.add_decision(decision, 1);

    let result = propagate(&clause_store, &mut trail, &mut knowledge_graph, &mut index);

    assert_eq!(result, None);
}

#[test]
fn test_clause_index() {
    let a = Variable(0);
    let b = Variable(1);
    let c = Variable(2);
    let clauses = vec![
        // a || c
        Clause::new(&vec![Literal::new(a, true), Literal::new(c, true)]),
        // b || c
        Clause::new(&vec![Literal::new(b, true), Literal::new(c, true)]),
        // c || c
        Clause::new(&vec![Literal::new(c, true), Literal::new(c, true)]),
        // b
        Clause::new(&vec![Literal::new(b, true)]),
    ];

    let store = ClauseStore::new(clauses);
    let mut idx = ClauseIndex::new(&store);

    assert!(!idx.all_clauses_resolved(&store));

    // With a=false, the first clause is a candidate for unit prop
    let nota = Literal::new(a, false);
    idx.mark_resolved(&store, nota.var());
    assert_eq!(idx.find_unit_prop_candidates(&store, nota).len(), 1);
    idx.mark_unresolved(&store, nota.var());
    // With b=false, the second clause is a candidate for unit prop
    let notb = Literal::new(b, false);
    idx.mark_resolved(&store, notb.var());
    assert_eq!(idx.find_unit_prop_candidates(&store, notb).len(), 1);
    idx.mark_unresolved(&store, notb.var());
    // With c=false, the 3rd clause is evaluatable
    let notc = Literal::new(c, false);
    idx.mark_resolved(&store, notc.var());
    assert_eq!(idx.find_evaluatable_candidates(&store, notc).len(), 1);
    idx.mark_unresolved(&store, notc.var());

    // Now let's resolve everything
    idx.mark_resolved(&store, a);
    idx.mark_resolved(&store, b);
    idx.mark_resolved(&store, c);
    assert!(idx.all_clauses_resolved(&store));
}
