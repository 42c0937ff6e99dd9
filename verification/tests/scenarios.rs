use satkit::domain::{Domain, Value};
use satkit::expr::Expr;
use satkit::session::{CheckResult, Session};

fn var(i: usize) -> Expr {
    Expr::Var(i)
}

fn not(e: Expr) -> Expr {
    Expr::Not(Box::new(e))
}

fn or(a: Expr, b: Expr) -> Expr {
    Expr::Or(Box::new(a), Box::new(b))
}

fn and(a: Expr, b: Expr) -> Expr {
    Expr::And(Box::new(a), Box::new(b))
}

#[test]
fn mutual_implication_is_sat_with_equal_values() {
    let mut s = Session::new();
    let x = s.declare("x".to_string(), Domain::Boolean).unwrap();
    let y = s.declare("y".to_string(), Domain::Boolean).unwrap();
    // y -> x and x -> y, each as a disjunction.
    s.assert_expr(or(var(x), not(var(y))));
    s.assert_expr(or(not(var(x)), var(y)));
    assert_eq!(s.check(), CheckResult::Sat);
    let a = s.solution().unwrap();
    assert!(s.satisfies_trail(&a));
    assert_eq!(a.get(x), a.get(y));

    // Every model of this system has x == y: enumerate them all.
    let en = satkit::enumerate::enumerate_solutions(&mut s, &vec![x, y], 10).unwrap();
    assert_eq!(en.end, satkit::enumerate::EnumEnd::Exhausted);
    assert_eq!(en.found.len(), 2);
    for m in &en.found {
        assert_eq!(m.get(x), m.get(y));
    }
}

#[test]
fn contradictory_system_is_unsat() {
    let mut s = Session::new();
    let x = s.declare("x".to_string(), Domain::Boolean).unwrap();
    let y = s.declare("y".to_string(), Domain::Boolean).unwrap();
    let z = s.declare("z".to_string(), Domain::Boolean).unwrap();
    s.assert_expr(and(var(x), not(var(y))));
    s.assert_expr(and(not(var(x)), var(y)));
    s.assert_expr(and(var(x), var(z)));
    assert_eq!(s.check(), CheckResult::Unsat);
}

#[test]
fn four_node_graph_has_a_closed_tour() {
    // Edges: 0 -> 1, 1 -> 2, 2 -> 3, 3 -> 0, 3 -> 1.
    let n: usize = 4;
    let adj: Vec<Vec<bool>> = vec![
        vec![false, true, false, false],
        vec![false, false, true, false],
        vec![false, false, false, true],
        vec![true, true, false, false],
    ];
    let mut s = Session::new();
    let board = satkit::cycle::cycle_board(&mut s, n).unwrap();
    satkit::cycle::cycle_constraints(&mut s, &board, n, &adj);

    assert_eq!(s.check(), CheckResult::Sat);
    let a = s.solution().unwrap();
    assert!(s.satisfies_trail(&a));

    // Decode the tour: the node of each slot.
    let mut tour: Vec<usize> = Vec::new();
    for i in 0..=n {
        let mut node = None;
        for j in 0..n {
            if a.get(board[i * n + j]) == Value::Bool(true) {
                assert!(node.is_none(), "two nodes in one slot");
                node = Some(j);
            }
        }
        tour.push(node.expect("empty slot"));
    }
    // Starts and ends at the same node.
    assert_eq!(tour[0], tour[n]);
    // Visits all nodes exactly once over the first n slots.
    let mut seen = vec![false; n];
    for i in 0..n {
        assert!(!seen[tour[i]], "node visited twice");
        seen[tour[i]] = true;
    }
    assert!(seen.iter().all(|&b| b));
    // Consecutive slots are edge-connected.
    for i in 0..n {
        assert!(adj[tour[i]][tour[i + 1]], "missing edge in tour");
    }
    // The only cycle of this graph.
    let start = tour.iter().position(|&v| v == 0).unwrap();
    let rotated: Vec<usize> = (0..n).map(|i| tour[(start + i) % n]).collect();
    assert_eq!(rotated, vec![0, 1, 2, 3]);
}

#[test]
fn graph_without_tour_is_unsat() {
    // Edges: 0 -> 1, 1 -> 2, 2 -> 3, 3 -> 1: node 0 is unreachable.
    let n: usize = 4;
    let adj: Vec<Vec<bool>> = vec![
        vec![false, true, false, false],
        vec![false, false, true, false],
        vec![false, false, false, true],
        vec![false, true, false, false],
    ];
    let mut s = Session::new();
    let board = satkit::cycle::cycle_board(&mut s, n).unwrap();
    satkit::cycle::cycle_constraints(&mut s, &board, n, &adj);
    assert_eq!(s.check(), CheckResult::Unsat);
}
