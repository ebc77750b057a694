//! End-to-end tests of the engine: unification, the knowledge base, and
//! the resolution search.

use logic_engine::ast::{AtomExpr, DefStatement, Expr, PredicateObj, Statement, VarExpr, VarID};
use logic_engine::env::{Environment, ScopeMap, VarAllocator, VarSubstitution};
use logic_engine::error::ErrorKind;
use logic_engine::evaluation::{SolutionGenerator, StepResult};
use logic_engine::unifier::{occur_check, unify_exprs};

fn atom(name: &str, args: Vec<Expr>) -> Expr {
    AtomExpr::new(name.to_string(), args)
}

fn var(name: &str) -> Expr {
    VarExpr::new(name.to_string())
}

fn var_with_id(name: &str, id: VarID) -> Expr {
    Expr::Var(VarExpr { name: name.to_string(), id: Some(id) })
}

fn pred(name: &str, args: Vec<Expr>) -> PredicateObj {
    PredicateObj::new(name.to_string(), args)
}

fn def(conclusion: PredicateObj, premises: Vec<PredicateObj>) -> DefStatement {
    match DefStatement::new(conclusion, premises) {
        Statement::Def(d) => d,
        Statement::Query(_) => unreachable!(),
    }
}

/// Runs a query against the knowledge base, pulling at most `max_steps`
/// search steps, and returns the solutions found together with whether
/// the search reported exhaustion.
fn solve(
    env: &Environment,
    mut query: PredicateObj,
    max_steps: usize,
) -> (Vec<VarSubstitution>, Vec<(String, VarID)>, bool) {
    let (mut gen, table) = SolutionGenerator::new(&mut query, env).expect("query setup failed");
    let mut solutions = Vec::new();
    for _ in 0..max_steps {
        match gen.next().expect("search step failed") {
            StepResult::Solution(s) => solutions.push(s),
            StepResult::Pending => {}
            StepResult::Exhausted => return (solutions, table, true),
        }
    }
    (solutions, table, false)
}

#[test]
fn test_unify1() {
    let expr1 = atom("s", vec![var("t")]);
    let expr2 = atom("s", vec![atom("a", Vec::new())]);

    let mut var_alloc = VarAllocator::new();
    let mut exprs = vec![expr1, expr2];
    let mut assigned = ScopeMap::new();
    assert!(var_alloc.assign_new_ids(&mut exprs, &mut assigned).is_ok());

    let e2 = exprs.pop().unwrap();
    let e1 = exprs.pop().unwrap();
    let constraints = unify_exprs(vec![(e1, e2)]);
    assert!(constraints.is_some());

    assert!(constraints.unwrap().get(0).is_some());
}

#[test]
fn test_unify2() {
    let expr1 = atom("s", vec![var("t")]);
    let expr2 = atom("s", vec![atom("s", vec![var("t")])]);

    let mut var_alloc = VarAllocator::new();
    let mut exprs = vec![expr1, expr2];
    let mut assigned = ScopeMap::new();
    assert!(var_alloc.assign_new_ids(&mut exprs, &mut assigned).is_ok());

    let e2 = exprs.pop().unwrap();
    let e1 = exprs.pop().unwrap();
    assert!(unify_exprs(vec![(e1, e2)]).is_none());
}

#[test]
fn unify_ground_atom_with_itself_is_empty() {
    let a1 = atom("f", vec![atom("a", vec![]), atom("g", vec![atom("b", vec![])])]);
    let a2 = atom("f", vec![atom("a", vec![]), atom("g", vec![atom("b", vec![])])]);
    let r = unify_exprs(vec![(a1, a2)]).expect("ground atom must unify with itself");
    assert!(r.entries.is_empty());
}

#[test]
fn unify_variable_with_term_containing_it_fails() {
    let x = var_with_id("x", 0);
    let fx = atom("f", vec![var_with_id("x", 0)]);
    assert!(occur_check(&fx, 0));
    assert!(unify_exprs(vec![(x, fx)]).is_none());
}

#[test]
fn unify_binds_variable_to_atom() {
    let x = var_with_id("x", 0);
    let a = atom("a", vec![]);
    let r = unify_exprs(vec![(x, a)]).expect("variable must unify with a constant");
    assert_eq!(r.get(0), Some(&atom("a", vec![])));
}

#[test]
fn unify_handles_a_worklist_of_pairs() {
    // An argument list can be unified position by position in one call.
    let pairs = vec![
        (var_with_id("x", 0), atom("a", vec![])),
        (atom("b", vec![]), var_with_id("y", 1)),
    ];
    let r = unify_exprs(pairs).expect("both pairs are solvable");
    assert_eq!(r.get(0), Some(&atom("a", vec![])));
    assert_eq!(r.get(1), Some(&atom("b", vec![])));
}

#[test]
fn unify_variable_with_itself_binds_nothing() {
    let r = unify_exprs(vec![(var_with_id("x", 0), var_with_id("x", 0))])
        .expect("a variable unifies with itself");
    assert!(r.entries.is_empty());
}

#[test]
fn unify_two_variables_binds_the_left_one() {
    let r = unify_exprs(vec![(var_with_id("x", 0), var_with_id("y", 1))])
        .expect("two variables unify");
    assert_eq!(r.get(0), Some(&var_with_id("y", 1)));
    assert!(r.get(1).is_none());
}

#[test]
fn unify_mismatched_names_fails() {
    let a = atom("a", vec![]);
    let b = atom("b", vec![]);
    assert!(unify_exprs(vec![(a, b)]).is_none());
}

#[test]
fn unify_mismatched_arity_fails() {
    let one = atom("f", vec![atom("a", vec![])]);
    let two = atom("f", vec![atom("a", vec![]), atom("a", vec![])]);
    assert!(unify_exprs(vec![(one, two)]).is_none());
}

#[test]
fn merge_propagates_earlier_bindings_into_later_ones() {
    // Later binding: 1 -> foo($0); earlier binding: 0 -> a.
    let mut later = VarSubstitution::new();
    later.insert(1, atom("foo", vec![var_with_id("x", 0)]));
    let mut earlier = VarSubstitution::new();
    earlier.insert(0, atom("a", vec![]));

    later.merge(&earlier);

    assert_eq!(later.get(0), Some(&atom("a", vec![])));
    assert_eq!(later.get(1), Some(&atom("foo", vec![atom("a", vec![])])));
}

#[test]
fn substitute_replaces_bound_variables_only() {
    let mut s = VarSubstitution::new();
    s.insert(0, atom("a", vec![]));
    let mut e = atom("f", vec![var_with_id("x", 0), var_with_id("y", 1)]);
    s.substitute(&mut e);
    assert_eq!(e, atom("f", vec![atom("a", vec![]), var_with_id("y", 1)]));
}

#[test]
fn expressions_render_in_source_syntax() {
    assert_eq!(var("x").to_string(), "$x");
    assert_eq!(atom("a", vec![]).to_string(), "a");
    assert_eq!(
        atom("f", vec![atom("a", vec![]), var("x"), atom("g", vec![var("y")])]).to_string(),
        "f(a, $x, g($y))"
    );
}

#[test]
fn arity_mismatch_is_reported_with_recorded_then_offending() {
    let mut env = Environment::new();
    assert!(env.update(def(pred("num", vec![atom("z", vec![])]), vec![])).is_ok());

    let r = env.update(def(pred("num", vec![atom("a", vec![]), atom("b", vec![])]), vec![]));
    match r {
        Err(ErrorKind::ArityMismatch(name, expected, actual)) => {
            assert_eq!(name, "num");
            assert_eq!(expected, 1);
            assert_eq!(actual, 2);
        }
        _ => panic!("expected an arity mismatch"),
    }
}

#[test]
fn premise_arity_mismatch_aborts_update() {
    let mut env = Environment::new();
    assert!(env.update(def(pred("r", vec![atom("a", vec![])]), vec![])).is_ok());
    // Premise uses r with two arguments although r is recorded with one.
    let r = env.update(def(
        pred("s", vec![atom("a", vec![])]),
        vec![pred("r", vec![atom("b", vec![]), atom("c", vec![])])],
    ));
    match r {
        Err(ErrorKind::ArityMismatch(name, expected, actual)) => {
            assert_eq!(name, "r");
            assert_eq!(expected, 1);
            assert_eq!(actual, 2);
        }
        _ => panic!("expected an arity mismatch"),
    }
    // The conclusion predicate was never registered.
    assert!(env.get_rules(&"s".to_string()).is_none());
}

#[test]
fn premise_registrations_survive_conclusion_mismatch() {
    let mut env = Environment::new();
    assert!(env.update(def(pred("num", vec![atom("z", vec![])]), vec![])).is_ok());
    // The premise registers fresh(c) before the conclusion fails its check.
    let r = env.update(def(
        pred("num", vec![atom("a", vec![]), atom("b", vec![])]),
        vec![pred("fresh", vec![atom("c", vec![])])],
    ));
    assert!(matches!(r, Err(ErrorKind::ArityMismatch(_, 1, 2))));
    // fresh stays registered with arity 1: a second arity is now rejected.
    assert!(env.validate(&pred("fresh", vec![atom("d", vec![])])).is_ok());
    assert!(env.validate(&pred("fresh", vec![atom("d", vec![]), atom("e", vec![])])).is_err());
}

#[test]
fn variable_id_reuse_is_detected() {
    let mut var_alloc = VarAllocator::new();
    let mut exprs = vec![var_with_id("x", 7)];
    let mut assigned = ScopeMap::new();
    let r = var_alloc.assign_new_ids(&mut exprs, &mut assigned);
    match r {
        Err(ErrorKind::VariableIDAlreadyAssigned(name)) => assert_eq!(name, "x"),
        _ => panic!("expected a variable-identifier violation"),
    }
}

#[test]
fn repeated_names_share_one_identifier_per_scope() {
    let mut var_alloc = VarAllocator::new();
    let mut exprs = vec![atom("f", vec![var("x"), var("y"), var("x")])];
    let mut assigned = ScopeMap::new();
    assert!(var_alloc.assign_new_ids(&mut exprs, &mut assigned).is_ok());
    match &exprs[0] {
        Expr::Atom(a) => {
            let ids: Vec<Option<u32>> = a
                .arguments
                .iter()
                .map(|e| match e {
                    Expr::Var(v) => v.id,
                    Expr::Atom(_) => None,
                })
                .collect();
            assert_eq!(ids, vec![Some(0), Some(1), Some(0)]);
        }
        Expr::Var(_) => panic!("expected an atom"),
    }
}

#[test]
fn recursive_rule_proves_ground_query_once() {
    // num(z).  num(s($x)) <- num($x).  ?num(s(s(z)))
    let mut env = Environment::new();
    assert!(env.update(def(pred("num", vec![atom("z", vec![])]), vec![])).is_ok());
    assert!(env
        .update(def(
            pred("num", vec![atom("s", vec![var("x")])]),
            vec![pred("num", vec![var("x")])],
        ))
        .is_ok());

    let query = pred("num", vec![atom("s", vec![atom("s", vec![atom("z", vec![])])])]);
    let (solutions, table, exhausted) = solve(&env, query, 10_000);
    assert_eq!(solutions.len(), 1);
    assert!(table.is_empty());
    assert!(exhausted);
}

#[test]
fn solutions_come_in_definition_order() {
    // p(a).  p(b).  ?p($x)
    let mut env = Environment::new();
    assert!(env.update(def(pred("p", vec![atom("a", vec![])]), vec![])).is_ok());
    assert!(env.update(def(pred("p", vec![atom("b", vec![])]), vec![])).is_ok());

    let query = pred("p", vec![var("x")]);
    let (solutions, table, exhausted) = solve(&env, query, 10_000);
    assert!(exhausted);
    assert_eq!(solutions.len(), 2);
    assert_eq!(table.len(), 1);
    assert_eq!(table[0].0, "x");
    let x = table[0].1;
    assert_eq!(solutions[0].get(x), Some(&atom("a", vec![])));
    assert_eq!(solutions[1].get(x), Some(&atom("b", vec![])));
}

#[test]
fn recursive_rule_enumerates_solutions_lazily() {
    // num(z).  num(s($x)) <- num($x).  ?num($y) has infinitely many
    // solutions; the search hands them out one pull at a time.
    let mut env = Environment::new();
    assert!(env.update(def(pred("num", vec![atom("z", vec![])]), vec![])).is_ok());
    assert!(env
        .update(def(
            pred("num", vec![atom("s", vec![var("x")])]),
            vec![pred("num", vec![var("x")])],
        ))
        .is_ok());

    let mut query = pred("num", vec![var("y")]);
    let (mut gen, table) = SolutionGenerator::new(&mut query, &env).expect("query setup failed");
    let y = table[0].1;
    let mut solutions = Vec::new();
    for _ in 0..10_000 {
        if solutions.len() == 2 {
            break;
        }
        match gen.next().expect("search step failed") {
            StepResult::Solution(s) => solutions.push(s),
            StepResult::Pending => {}
            StepResult::Exhausted => panic!("this search never exhausts"),
        }
    }
    assert_eq!(solutions.len(), 2);
    assert_eq!(solutions[0].get(y).expect("y is bound").to_string(), "z");
    assert_eq!(solutions[1].get(y).expect("y is bound").to_string(), "s(z)");
}

#[test]
fn undefined_predicate_yields_no_solutions_and_no_error() {
    let mut env = Environment::new();
    assert!(env.update(def(pred("p", vec![atom("a", vec![])]), vec![])).is_ok());

    let query = pred("q", vec![var("x")]);
    let (solutions, _table, exhausted) = solve(&env, query, 10_000);
    assert!(exhausted);
    assert!(solutions.is_empty());
}

#[test]
fn rule_with_premises_chains_substitutions() {
    // both($x) <- p($x), q($x).  p(a).  q(a).  ?both($w) resolves $w to a.
    let mut env = Environment::new();
    assert!(env.update(def(pred("p", vec![atom("a", vec![])]), vec![])).is_ok());
    assert!(env.update(def(pred("q", vec![atom("a", vec![])]), vec![])).is_ok());
    assert!(env
        .update(def(
            pred("both", vec![var("x")]),
            vec![pred("p", vec![var("x")]), pred("q", vec![var("x")])],
        ))
        .is_ok());

    let query = pred("both", vec![var("w")]);
    let (solutions, table, exhausted) = solve(&env, query, 10_000);
    assert!(exhausted);
    assert_eq!(solutions.len(), 1);
    let w = table.iter().find(|(n, _)| n == "w").expect("w must be reported").1;
    assert_eq!(solutions[0].get(w), Some(&atom("a", vec![])));
}

#[test]
fn get_rules_returns_rules_in_order() {
    let mut env = Environment::new();
    assert!(env.update(def(pred("p", vec![atom("a", vec![])]), vec![])).is_ok());
    assert!(env.update(def(pred("p", vec![atom("b", vec![])]), vec![])).is_ok());
    let rules = env.get_rules(&"p".to_string()).expect("p is defined");
    assert_eq!(rules.len(), 2);
    assert_eq!(rules[0].0, pred("p", vec![atom("a", vec![])]));
    assert_eq!(rules[1].0, pred("p", vec![atom("b", vec![])]));
    assert!(rules[0].1.is_empty());
}
