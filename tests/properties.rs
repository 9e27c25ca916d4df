use smellysat::assignment_set::LiteralSet;
use smellysat::clause::Clause;
use smellysat::clause_store::ClauseStore;
use smellysat::dfs::{Instance, Verdict};
use smellysat::dimacs::{format_dimacs, parse_text, read_dimacs, DimacsError};
use smellysat::literal::{Literal, Variable};
use smellysat::problem_builder::{BoolExpr, ProblemBuilder};
use smellysat::decimal::decimal;
use smellysat::sorted_vec::sort_and_dedupe;
use smellysat::variable_registry::VariableRegister;

fn model_satisfies(set: &LiteralSet, instance: &Instance) -> bool {
    instance
        .clauses
        .iter()
        .all(|c| c.literals().iter().any(|l| set.contains(*l)))
}

fn literal_named(instance: &Instance, name: &str, polarity: bool) -> Literal {
    let var = instance.variables.get_by_name(name).unwrap();
    Literal::new(var, polarity)
}

#[test]
fn dimacs_two_clauses_is_satisfiable() {
    let mut instance = parse_text(b"p cnf 3 2\n1 2 0\n-1 3 0\n").unwrap();
    let sol = instance.solve();
    assert_eq!(sol.verdict, Verdict::Satisfiable);
    assert!(model_satisfies(sol.solution.as_ref().unwrap(), &instance));
}

#[test]
fn dimacs_level_zero_contradiction_is_unsatisfiable() {
    let mut instance = parse_text(b"p cnf 1 2\n1 0\n-1 0\n").unwrap();
    let sol = instance.solve();
    assert_eq!(sol.verdict, Verdict::Unsatisfiable);
    assert!(sol.solution.is_none());
    assert!(sol.assignments().is_none());
}

#[test]
fn dimacs_backjump_commits_first_variable_false() {
    let mut instance = parse_text(b"p cnf 3 3\n-1 -2 0\n-1 -3 0\n2 3 0\n").unwrap();
    let sol = instance.solve();
    assert_eq!(sol.verdict, Verdict::Satisfiable);
    let set = sol.solution.as_ref().unwrap();
    assert!(model_satisfies(set, &instance));
    assert!(set.contains(literal_named(&instance, "1", false)));
    assert!(sol.stats.backtrack_count >= 1);
    assert!(sol.stats.learnt_clause_count >= 1);
}

#[test]
fn empty_formula_is_satisfiable_with_empty_assignment() {
    let mut instance = parse_text(b"p cnf 0 0\n").unwrap();
    let sol = instance.solve();
    assert_eq!(sol.verdict, Verdict::Satisfiable);
    assert_eq!(sol.assignments().unwrap(), vec![]);

    let mut direct = Instance::new(vec![], VariableRegister::new());
    let sol = direct.solve();
    assert_eq!(sol.verdict, Verdict::Satisfiable);
    assert_eq!(sol.assignments().unwrap().len(), 0);
}

#[test]
fn single_unit_clause_sets_variable_true() {
    let mut pb = ProblemBuilder::new();
    let x = pb.var("x");
    pb.require(x);
    let mut instance = pb.build();
    let sol = instance.solve();
    assert_eq!(sol.verdict, Verdict::Satisfiable);
    assert_eq!(sol.assignments().unwrap(), vec![Literal::new(Variable(0), true)]);
}

#[test]
fn unit_clause_and_its_negation_are_unsatisfiable() {
    let mut pb = ProblemBuilder::new();
    let x = pb.var("x");
    pb.require(x);
    let nx = pb.not(x);
    pb.require(nx);
    let mut instance = pb.build();
    let sol = instance.solve();
    assert_eq!(sol.verdict, Verdict::Unsatisfiable);
}

#[test]
fn tautological_clause_is_rejected() {
    let a = Literal::new(Variable(3), true);
    let b = Literal::new(Variable(5), false);
    assert!(Clause::checked(0, &vec![a, b, a.invert()]).is_none());
    let c = Clause::checked(7, &vec![b, a, b]).unwrap();
    assert_eq!(c.id, 7);
    assert_eq!(c.literals(), &vec![a, b]);
    assert!(matches!(
        parse_text(b"p cnf 2 1\n1 2 -1 0\n"),
        Err(DimacsError::InvalidLine(_))
    ));
}

#[test]
fn clause_over_several_lines_is_one_clause() {
    let (header, clauses) = read_dimacs(b"c a comment\np cnf 3 1\n1 2\n-3\n0\n").unwrap();
    assert_eq!(header.var_count, 3);
    assert_eq!(header.clause_count, 1);
    assert_eq!(clauses, vec![vec![1, 2, -3]]);
}

#[test]
fn several_clauses_on_one_line() {
    let (_, clauses) = read_dimacs(b"p cnf 3 3\n1 -2 0 2 3 0 -1 0\n").unwrap();
    assert_eq!(clauses, vec![vec![1, -2], vec![2, 3], vec![-1]]);
}

#[test]
fn dimacs_errors() {
    assert!(matches!(parse_text(b"p dnf 1 1\n1 0\n"), Err(DimacsError::MalformedHeader)));
    assert!(matches!(parse_text(b"p cnf 1\n"), Err(DimacsError::MalformedHeader)));
    assert!(matches!(parse_text(b"p cnf x 1\n1 0\n"), Err(DimacsError::ParseError)));
    assert!(matches!(parse_text(b"p cnf 1 1\n1 a 0\n"), Err(DimacsError::ParseError)));
    assert!(matches!(
        parse_text(b"p cnf 1 1\n99999999999999999999 0\n"),
        Err(DimacsError::ParseError)
    ));
    assert!(matches!(parse_text(b"p cnf 1 2\n1 0 0\n"), Err(DimacsError::InvalidLine(_))));
}

#[test]
fn dimacs_reads_signs_and_comments() {
    let (header, clauses) =
        read_dimacs(b"c first\nc second line\np cnf +4 2\r\n+1 -9223372036854775808 0\n\t4\t-0\n").unwrap();
    assert_eq!(header.var_count, 4);
    assert_eq!(clauses, vec![vec![1, i64::MIN], vec![4]]);
}

#[test]
fn dimacs_names_variables_by_number() {
    let instance = parse_text(b"p cnf 20 2\n17 -3 0\n3 20 0\n").unwrap();
    assert_eq!(instance.variables.get(Variable(0)), "17");
    assert_eq!(instance.variables.get(Variable(1)), "3");
    assert_eq!(instance.variables.get(Variable(2)), "20");
    assert_eq!(instance.clauses.len(), 2);
}

#[test]
fn print_then_read_gives_the_same_clauses() {
    let text = b"c example\np cnf 5 3\n1 -2\n 3 0 -5 4 0\n2 0\n";
    let (header, clauses) = read_dimacs(text).unwrap();
    let printed = format_dimacs(header.var_count, &clauses);
    assert_eq!(
        String::from_utf8(printed.clone()).unwrap(),
        "p cnf 5 3\n1 -2 3 0\n-5 4 0\n2 0\n"
    );
    let (header2, clauses2) = read_dimacs(&printed).unwrap();
    assert_eq!(header2.var_count, 5);
    assert_eq!(clauses2, clauses);
}

#[test]
fn solving_twice_gives_the_same_verdict() {
    let text = b"p cnf 4 5\n1 2 0\n-1 3 0\n-3 -2 0\n4 -1 0\n-4 2 3 0\n";
    let mut instance = parse_text(text).unwrap();
    let first = instance.solve();
    let second = instance.solve();
    assert_eq!(first.verdict, second.verdict);
    if first.verdict == Verdict::Satisfiable {
        assert!(model_satisfies(first.solution.as_ref().unwrap(), &instance));
        assert!(model_satisfies(second.solution.as_ref().unwrap(), &instance));
    }
}

/// A chain of three-variable parity constraints over `3n` variables whose
/// parities add up to 1: unsatisfiable, in the shape of the dubois family.
fn parity_chain(n: usize) -> String {
    let u = |i: usize| (i % (2 * n)) as i64 + 1;
    let w = |j: usize| (2 * n + j) as i64 + 1;
    let mut out = format!("p cnf {} {}\n", 3 * n, 8 * n);
    for i in 0..2 * n {
        let j = i / 2;
        let (a, b, c) = if i % 2 == 0 { (u(i), u(i + 1), w(j)) } else { (u(i), u(i + 1), w(j)) };
        let parity = if i == 2 * n - 1 { 1 } else { 0 };
        for bits in 0..8u32 {
            let (sa, sb, sc) = (bits & 1, (bits >> 1) & 1, (bits >> 2) & 1);
            if (sa ^ sb ^ sc) != parity {
                let la = if sa == 1 { -a } else { a };
                let lb = if sb == 1 { -b } else { b };
                let lc = if sc == 1 { -c } else { c };
                out.push_str(&format!("{} {} {} 0\n", la, lb, lc));
            }
        }
    }
    out
}

#[test]
fn parity_chain_of_size_twenty_is_unsatisfiable() {
    let text = parity_chain(20);
    let mut instance = parse_text(text.as_bytes()).unwrap();
    assert_eq!(instance.clauses.len(), 160);
    let sol = instance.solve();
    assert_eq!(sol.verdict, Verdict::Unsatisfiable);
    assert!(sol.stats.learnt_clause_count > 0);
    assert!(sol.stats.backtrack_count > 0);
}

fn or_all(pb: &mut ProblemBuilder, xs: &[BoolExpr]) -> BoolExpr {
    let mut acc = xs[0];
    for x in &xs[1..] {
        acc = pb.or(acc, *x);
    }
    acc
}

#[test]
fn eight_queens_rows_and_columns() {
    let mut pb = ProblemBuilder::new();
    let grid: Vec<BoolExpr> = (0..64).map(|ix| pb.var(&format!("{}x{}", ix / 8, ix % 8))).collect();
    let lines: Vec<Vec<usize>> = (0..8)
        .map(|r| (0..8).map(|c| r * 8 + c).collect())
        .chain((0..8).map(|c| (0..8).map(|r| r * 8 + c).collect()))
        .collect();
    for line in &lines {
        let cells: Vec<BoolExpr> = line.iter().map(|&ix| grid[ix]).collect();
        let some = or_all(&mut pb, &cells);
        pb.require(some);
        for i in 0..line.len() {
            for j in (i + 1)..line.len() {
                let a = pb.not(grid[line[i]]);
                let b = pb.not(grid[line[j]]);
                let not_both = pb.or(a, b);
                pb.require(not_both);
            }
        }
    }
    let mut instance = pb.build();
    let sol = instance.solve();
    assert_eq!(sol.verdict, Verdict::Satisfiable);
    let set = sol.solution.as_ref().unwrap();
    assert!(model_satisfies(set, &instance));
    let queen = |ix: usize| set.contains(Literal::new(Variable(ix as u64), true));
    for line in &lines {
        assert_eq!(line.iter().filter(|&&ix| queen(ix)).count(), 1);
    }
    assert_eq!((0..64).filter(|&ix| queen(ix)).count(), 8);
}

#[test]
fn decimal_and_sorting() {
    assert_eq!(decimal(0), "0");
    assert_eq!(decimal(1907), "1907");
    assert_eq!(decimal(u64::MAX), "18446744073709551615");
    let mut v = vec![
        Literal::new(Variable(4), true),
        Literal::new(Variable(1), false),
        Literal::new(Variable(4), true),
        Literal::new(Variable(1), true),
    ];
    sort_and_dedupe(&mut v);
    assert_eq!(
        v,
        vec![
            Literal::new(Variable(1), false),
            Literal::new(Variable(1), true),
            Literal::new(Variable(4), true)
        ]
    );
}

#[test]
fn registry_names_tseitin_variables() {
    let mut vr = VariableRegister::new();
    let a = vr.create_original("a");
    let t = vr.create_tseitin();
    let again = vr.ensure_original("a");
    let b = vr.ensure_original("b");
    assert_eq!(a, again);
    assert_eq!(vr.get(t), "t#1");
    assert_eq!(b, Variable(2));
    assert_eq!(vr.iter_original(), vec![a, b]);
    assert_eq!(vr.get_by_name("t#1"), Some(t));
    assert_eq!(vr.get_by_name("zz"), None);
}

#[test]
fn builder_gates_add_three_clauses_each() {
    let mut pb = ProblemBuilder::new();
    let x = pb.var("x");
    let y = pb.var("y");
    let o = pb.or(x, y);
    assert_eq!(o, BoolExpr::Variable(Variable(2)));
    assert_eq!(
        pb.expressions[0],
        vec![
            Literal::new(Variable(2), false),
            Literal::new(Variable(0), true),
            Literal::new(Variable(1), true)
        ]
    );
    let ny = pb.not(y);
    let a = pb.and(x, ny);
    assert_eq!(a, BoolExpr::Variable(Variable(3)));
    assert_eq!(
        pb.expressions[3],
        vec![
            Literal::new(Variable(3), true),
            Literal::new(Variable(0), false),
            Literal::new(Variable(1), true)
        ]
    );
    assert_eq!(pb.clause_count(), 6);
}

#[test]
fn store_keeps_one_copy_of_equal_clauses() {
    let a = Literal::new(Variable(0), true);
    let b = Literal::new(Variable(1), false);
    let store = ClauseStore::new(vec![
        Clause::new(&vec![a, b]),
        Clause::new(&vec![b, a]),
        Clause::new(&vec![a]),
        Clause::new(&vec![a, b]),
    ]);
    let refs = store.iter();
    assert_eq!(refs.len(), 2);
    assert_eq!(refs[0].literals(&store), vec![a, b]);
    assert_eq!(refs[1].literals(&store), vec![a]);
}

#[test]
fn assignments_report_original_variables_only() {
    let mut pb = ProblemBuilder::new();
    let x = pb.var("x");
    let y = pb.var("y");
    let both = pb.and(x, y);
    pb.require(both);
    let mut instance = pb.build();
    let sol = instance.solve();
    assert_eq!(sol.verdict, Verdict::Satisfiable);
    assert_eq!(
        sol.assignments().unwrap(),
        vec![Literal::new(Variable(0), true), Literal::new(Variable(1), true)]
    );
}

#[test]
fn complementary_units_stop_before_any_decision() {
    let mut instance = parse_text(b"p cnf 1 2\n1 0\n-1 0\n").unwrap();
    let sol = instance.solve();
    assert_eq!(sol.verdict, Verdict::Unsatisfiable);
    assert_eq!(sol.stats.step_count, 0);
}
