use satkit::Error;
use satkit::domain::{Domain, Value};
use satkit::expr::{check_wf, Cmp, Expr};
use satkit::session::{CheckResult, Session};

fn var(i: usize) -> Expr {
    Expr::Var(i)
}

fn not(e: Expr) -> Expr {
    Expr::Not(Box::new(e))
}

fn or(a: Expr, b: Expr) -> Expr {
    Expr::Or(Box::new(a), Box::new(b))
}

fn and(a: Expr, b: Expr) -> Expr {
    Expr::And(Box::new(a), Box::new(b))
}

#[test]
fn declared_name_round_trips_to_same_handle() {
    let mut s = Session::new();
    let x = s.declare("x".to_string(), Domain::Boolean).unwrap();
    let y = s.declare("y".to_string(), Domain::BoundedInt(0, 5)).unwrap();
    assert_eq!(s.lookup(&"x".to_string()).unwrap(), x);
    assert_eq!(s.lookup(&"y".to_string()).unwrap(), y);
    assert_ne!(x, y);
}

#[test]
fn duplicate_name_is_rejected() {
    let mut s = Session::new();
    s.declare("x".to_string(), Domain::Boolean).unwrap();
    assert_eq!(
        s.declare("x".to_string(), Domain::Boolean),
        Err(Error::DuplicateName)
    );
    assert_eq!(
        s.declare("x".to_string(), Domain::BoundedInt(0, 1)),
        Err(Error::DuplicateName)
    );
}

#[test]
fn lookup_of_absent_name_is_not_found() {
    let s = Session::new();
    assert_eq!(s.lookup(&"missing".to_string()), Err(Error::NotFound));
}

#[test]
fn invalid_domain_is_rejected() {
    let mut s = Session::new();
    assert_eq!(
        s.declare("b".to_string(), Domain::BoundedInt(3, 2)),
        Err(Error::InvalidDomain)
    );
}

#[test]
fn push_pop_restores_the_session_exactly() {
    let mut s = Session::new();
    let x = s.declare("x".to_string(), Domain::Boolean).unwrap();
    let y = s.declare("y".to_string(), Domain::Boolean).unwrap();
    s.assert_expr(or(var(x), var(y)));
    s.assert_expr(var(x));
    let before_len = s.trail_len();
    let before_depth = s.depth();
    assert_eq!(s.check(), CheckResult::Sat);
    let before = s.solution().unwrap();

    s.push();
    s.assert_expr(not(var(x)));
    assert_eq!(s.check(), CheckResult::Unsat);

    s.pop(1).unwrap();
    assert_eq!(s.trail_len(), before_len);
    assert_eq!(s.depth(), before_depth);
    assert_eq!(s.check(), CheckResult::Sat);
    let after = s.solution().unwrap();
    assert!(before.same_as(&after));
    assert_eq!(after.get(x), Value::Bool(true));
}

#[test]
fn pop_on_empty_stack_is_unbalanced() {
    let mut s = Session::new();
    assert_eq!(s.pop(1), Err(Error::UnbalancedStack));
    s.push();
    assert_eq!(s.pop(2), Err(Error::UnbalancedStack));
    assert_eq!(s.pop(1), Ok(()));
}

#[test]
fn model_is_only_available_right_after_sat() {
    let mut s = Session::new();
    let x = s.declare("x".to_string(), Domain::Boolean).unwrap();
    match s.solution() {
        Err(Error::NoModelAvailable) => {}
        other => panic!("expected NoModelAvailable, got {:?}", other.is_ok()),
    }
    s.assert_expr(var(x));
    assert_eq!(s.check(), CheckResult::Sat);
    assert!(s.solution().is_ok());
    s.assert_expr(var(x));
    match s.solution() {
        Err(Error::NoModelAvailable) => {}
        other => panic!("expected NoModelAvailable, got {:?}", other.is_ok()),
    }
}

#[test]
fn extracted_values_respect_declared_domains() {
    let mut s = Session::new();
    let b = s.declare("flag".to_string(), Domain::Boolean).unwrap();
    let n = s.declare("count".to_string(), Domain::BoundedInt(2, 7)).unwrap();
    s.assert_expr(var(b));
    s.assert_expr(Expr::IntEq(n, 5));
    assert_eq!(s.check(), CheckResult::Sat);
    let a = s.solution().unwrap();
    assert_eq!(a.get(b), Value::Bool(true));
    assert_eq!(a.get(n), Value::Int(5));
    assert!(s.satisfies_trail(&a));
}

#[test]
fn unsatisfied_trail_is_detected_by_the_evaluator() {
    let mut s = Session::new();
    let x = s.declare("x".to_string(), Domain::Boolean).unwrap();
    let y = s.declare("y".to_string(), Domain::Boolean).unwrap();
    s.assert_expr(and(var(x), not(var(y))));
    let good = satkit::domain::Assignment {
        values: vec![Value::Bool(true), Value::Bool(false)],
    };
    let bad = satkit::domain::Assignment {
        values: vec![Value::Bool(true), Value::Bool(true)],
    };
    assert!(s.satisfies_trail(&good));
    assert!(!s.satisfies_trail(&bad));
}

#[test]
fn constraint_well_formedness_is_checked_at_runtime() {
    let in_range = and(var(0), not(var(1)));
    let out_of_range = or(var(0), var(5));
    assert!(check_wf(&in_range, 2));
    assert!(!check_wf(&out_of_range, 2));
    assert!(check_wf(&Expr::SumCmp(vec![0, 1], Cmp::Ge, 1), 2));
    assert!(!check_wf(&Expr::SumCmp(vec![0, 3], Cmp::Ge, 1), 2));
}

#[test]
fn generated_names_collide_with_equal_caller_names() {
    // The first block variable would be handle 1, under the generated name
    // for index 1; a caller-declared variable already holding that name must
    // make the block declaration fail.
    let mut s = Session::new();
    s.declare("v1".to_string(), Domain::Boolean).unwrap();
    assert_eq!(
        s.declare_block(2, Domain::Boolean),
        Err(Error::DuplicateName)
    );
}

#[test]
fn generated_names_are_distinct_from_each_other() {
    let mut s = Session::new();
    let ids = s.declare_block(50, Domain::Boolean).unwrap();
    assert_eq!(ids.len(), 50);
    for (k, &id) in ids.iter().enumerate() {
        assert_eq!(id, k);
    }
}
