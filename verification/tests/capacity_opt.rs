use satkit::capacity;
use satkit::domain::{Domain, Value};
use satkit::optimize::{improve_once, refine_to_min, Refinement};
use satkit::session::{CheckResult, Session};

/// Declare `count` role units, each an integer in 0..=1, constrained to the
/// two roles.
fn unit_session(count: usize) -> (Session, Vec<usize>) {
    let mut s = Session::new();
    let units = s.declare_block(count, Domain::BoundedInt(0, 1)).unwrap();
    capacity::restrict_roles(&mut s, &units);
    (s, units)
}

fn role(a: &satkit::domain::Assignment, v: usize) -> i64 {
    match a.get(v) {
        Value::Int(x) => x,
        Value::Bool(_) => panic!("unit with a boolean value"),
    }
}

fn zone_sum(a: &satkit::domain::Assignment, zone: &[usize]) -> i64 {
    zone.iter().map(|&v| role(a, v)).sum()
}

#[test]
fn zone_bounds_hold_in_every_returned_assignment() {
    // A zone of 8 members whose sum must lie in 2..=4: no extracted
    // assignment may ever show a sum of 1 or 5.
    let (mut s, units) = unit_session(8);
    capacity::require_zone_at_least(&mut s, &units, 2);
    capacity::require_zone_at_most(&mut s, &units, 4);
    let en = satkit::enumerate::enumerate_solutions(&mut s, &units, 30).unwrap();
    assert!(en.found.len() > 0);
    for a in &en.found {
        assert!(
            capacity::zone_within_bounds(&units, a, 2, 4),
            "zone sum out of the asserted bounds: builder or oracle violation"
        );
        let sum = zone_sum(a, &units);
        assert!(sum != 1 && sum != 5);
    }
}

#[test]
fn fixed_total_is_respected() {
    let (mut s, units) = unit_session(6);
    capacity::fix_total(&mut s, &units, 4);
    assert_eq!(s.check(), CheckResult::Sat);
    let a = s.solution().unwrap();
    assert!(s.satisfies_trail(&a));
    assert_eq!(zone_sum(&a, &units), 4);
}

#[test]
fn sibling_units_never_share_the_scarce_role() {
    let (mut s, units) = unit_session(4);
    // Units 0 and 2 share a core, and so do 1 and 3.
    let groups: Vec<u64> = vec![10, 20, 10, 20];
    capacity::forbid_sibling_pairs(&mut s, &units, &groups);
    capacity::fix_total(&mut s, &units, 2);
    let en = satkit::enumerate::enumerate_solutions(&mut s, &units, 30).unwrap();
    assert!(en.found.len() > 0);
    for a in &en.found {
        assert!(!(role(a, units[0]) == 1 && role(a, units[2]) == 1));
        assert!(!(role(a, units[1]) == 1 && role(a, units[3]) == 1));
    }
}

#[test]
fn refinement_reaches_the_balanced_optimum() {
    // Four units in two zones of two, with a fixed total of two: the optimal
    // worst-zone load is one unit per zone.
    let (mut s, units) = unit_session(4);
    capacity::fix_total(&mut s, &units, 2);
    let zones: Vec<Vec<usize>> = vec![
        vec![units[0], units[1]],
        vec![units[2], units[3]],
    ];
    // Start from the worst assignment: both scarce roles in one zone.
    s.push();
    s.assert_expr(satkit::expr::Expr::IntEq(units[0], 1));
    s.assert_expr(satkit::expr::Expr::IntEq(units[1], 1));
    assert_eq!(s.check(), CheckResult::Sat);
    let start = s.solution().unwrap();
    s.pop(1).unwrap();
    assert_eq!(zone_sum(&start, &zones[0]), 2);

    let out = refine_to_min(&mut s, &zones, start).unwrap();
    assert!(out.conclusive);
    let best_max = zones
        .iter()
        .map(|z| zone_sum(&out.best, z))
        .max()
        .unwrap();
    assert_eq!(best_max, 1);
}

#[test]
fn each_improvement_strictly_lowers_the_maximum() {
    let (mut s, units) = unit_session(4);
    capacity::fix_total(&mut s, &units, 2);
    let zones: Vec<Vec<usize>> = vec![
        vec![units[0], units[1]],
        vec![units[2], units[3]],
    ];
    s.push();
    s.assert_expr(satkit::expr::Expr::IntEq(units[0], 1));
    s.assert_expr(satkit::expr::Expr::IntEq(units[1], 1));
    assert_eq!(s.check(), CheckResult::Sat);
    let start = s.solution().unwrap();
    s.pop(1).unwrap();

    let mut current = start;
    let mut maxima: Vec<i64> = vec![zones.iter().map(|z| zone_sum(&current, z)).max().unwrap()];
    loop {
        match improve_once(&mut s, &zones, &current).unwrap() {
            Refinement::Improved(next) => {
                let m = zones.iter().map(|z| zone_sum(&next, z)).max().unwrap();
                assert!(m < *maxima.last().unwrap(), "maximum did not decrease");
                maxima.push(m);
                current = next;
            }
            Refinement::Exhausted => break,
            Refinement::Inconclusive => panic!("oracle gave up on a tiny instance"),
        }
    }
    assert_eq!(*maxima.last().unwrap(), 1);
}
