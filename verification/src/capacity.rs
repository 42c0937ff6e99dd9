//! The capacity/partition constraint family: units take one of two roles,
//! sibling units never both take the scarce role, zone aggregates are
//! bounded, and the total of the scarce role is fixed.
//!
//! Whether a zone gets only a lower bound or a bounded range is the caller's
//! choice: the two bounds are separate constraints.

use vstd::prelude::*;
use crate::Error;
use crate::domain::{Assignment, Value};
use crate::expr::{Cmp, Expr, copy_indices, sat_all, sum_values, vars_below};
use crate::session::Session;

verus! {

/// No two units of one sibling group both take role one.
pub open spec fn siblings_ok(units: Seq<usize>, groups: Seq<u64>, a: Seq<Value>) -> bool {
    forall|p: int, q: int| 0 <= p < q < units.len() && groups[p] == groups[q]
        ==> !(a[(#[trigger] units[p]) as int].as_int() == 1 && a[(#[trigger] units[q]) as int]
        .as_int() == 1)
}

/// [`siblings_ok`] restricted to the pairs lexicographically before `(i, j)`.
spec fn sibs_ok_upto(units: Seq<usize>, groups: Seq<u64>, a: Seq<Value>, i: int, j: int) -> bool {
    forall|p: int, q: int| 0 <= p < q < units.len() && (p < i || (p == i && q < j))
        && groups[p] == groups[q] ==> !(a[(#[trigger] units[p]) as int].as_int() == 1 && a[(
    #[trigger] units[q]) as int].as_int() == 1)
}

/// Constrain every unit to the two roles: its value is zero or one.  One
/// constraint per unit is asserted, in unit order.
pub fn restrict_roles(s: &mut Session, units: &Vec<usize>)
    requires
        old(s).inv(),
        vars_below(units@, old(s).num_vars()),
    ensures
        final(s).inv(),
        final(s).registry() == old(s).registry(),
        final(s).frames() == old(s).frames(),
        final(s).trail().len() == old(s).trail().len() + units@.len(),
        final(s).trail().take(old(s).trail().len() as int) == old(s).trail(),
        forall|k: int, a: Seq<Value>| 0 <= k < units@.len() ==> ((#[trigger] final(s).trail()[
            old(s).trail().len() + k].eval(a)) == (a[units@[k] as int].as_int() == 0 || a[
            units@[k] as int].as_int() == 1)),
{
    let ghost base = old(s).trail().len() as int;
    proof {
        assert(s.trail().take(base) =~= old(s).trail());
    }
    let n = units.len();
    let mut k: usize = 0;
    while k < n
        invariant
            s.inv(),
            s.registry() == old(s).registry(),
            s.frames() == old(s).frames(),
            vars_below(units@, s.num_vars()),
            n == units@.len(),
            k <= n,
            base == old(s).trail().len(),
            s.trail().len() == base + k,
            s.trail().take(base) == old(s).trail(),
            forall|kk: int, a: Seq<Value>| 0 <= kk < k ==> ((#[trigger] s.trail()[base + kk]
                .eval(a)) == (a[units@[kk] as int].as_int() == 0 || a[units@[kk] as int]
                .as_int() == 1)),
        decreases n - k,
    {
        let u = units[k];
        let e = Expr::Or(
            Box::new(Expr::IntEq(u, 0)),
            Box::new(Expr::IntEq(u, 1)),
        );
        proof {
            assert(e.wf(s.num_vars())) by {
                reveal_with_fuel(Expr::wf, 3);
                assert(units@[k as int] < s.num_vars());
            }
        }
        let ghost old_trail = s.trail();
        s.assert_expr(e);
        proof {
            assert(s.trail().take(base) =~= old_trail.take(base));
            assert forall|kk: int, a: Seq<Value>| 0 <= kk < k + 1 implies ((
            #[trigger] s.trail()[base + kk].eval(a)) == (a[units@[kk] as int].as_int() == 0
                || a[units@[kk] as int].as_int() == 1)) by {
                reveal_with_fuel(Expr::eval, 3);
                if kk < k {
                    assert(s.trail()[base + kk] == old_trail[base + kk]);
                } else {
                    assert(s.trail()[base + kk] == e);
                }
            }
        }
        k += 1;
    }
}

/// Forbid every sibling pair — two units with the same group — from both
/// taking role one.
pub fn forbid_sibling_pairs(s: &mut Session, units: &Vec<usize>, groups: &Vec<u64>)
    requires
        old(s).inv(),
        vars_below(units@, old(s).num_vars()),
        groups@.len() == units@.len(),
    ensures
        final(s).inv(),
        final(s).registry() == old(s).registry(),
        final(s).frames() == old(s).frames(),
        final(s).trail().len() >= old(s).trail().len(),
        final(s).trail().take(old(s).trail().len() as int) == old(s).trail(),
        forall|a: Seq<Value>| #[trigger] sat_all(
            final(s).trail().skip(old(s).trail().len() as int),
            a,
        ) == siblings_ok(units@, groups@, a),
{
    let ghost base = old(s).trail().len() as int;
    proof {
        assert(s.trail().take(base) =~= old(s).trail());
        assert(s.trail().skip(base) =~= Seq::<Expr>::empty());
    }
    let n = units.len();
    let mut i: usize = 0;
    while i < n
        invariant
            s.inv(),
            s.registry() == old(s).registry(),
            s.frames() == old(s).frames(),
            vars_below(units@, s.num_vars()),
            n == units@.len(),
            groups@.len() == n,
            i <= n,
            base == old(s).trail().len(),
            s.trail().len() >= base,
            s.trail().take(base) == old(s).trail(),
            forall|a: Seq<Value>| #[trigger] sat_all(s.trail().skip(base), a)
                == sibs_ok_upto(units@, groups@, a, i as int, i as int + 1),
        decreases n - i,
    {
        let mut j: usize = i + 1;
        while j < n
            invariant
                s.inv(),
                s.registry() == old(s).registry(),
                s.frames() == old(s).frames(),
                vars_below(units@, s.num_vars()),
                n == units@.len(),
                groups@.len() == n,
                i < n,
                i + 1 <= j <= n,
                base == old(s).trail().len(),
                s.trail().len() >= base,
                s.trail().take(base) == old(s).trail(),
                forall|a: Seq<Value>| #[trigger] sat_all(s.trail().skip(base), a)
                    == sibs_ok_upto(units@, groups@, a, i as int, j as int),
            decreases n - j,
        {
            if groups[i] == groups[j] {
                let e = Expr::Not(
                    Box::new(
                        Expr::And(
                            Box::new(Expr::IntEq(units[i], 1)),
                            Box::new(Expr::IntEq(units[j], 1)),
                        ),
                    ),
                );
                proof {
                    assert(e.wf(s.num_vars())) by {
                        reveal_with_fuel(Expr::wf, 5);
                        assert(units@[i as int] < s.num_vars());
                        assert(units@[j as int] < s.num_vars());
                    }
                }
                let ghost old_trail = s.trail();
                s.assert_expr(e);
                proof {
                    assert(s.trail().take(base) =~= old_trail.take(base));
                    assert(s.trail().skip(base) =~= old_trail.skip(base).push(e));
                    assert forall|a: Seq<Value>| #[trigger] sat_all(s.trail().skip(base), a)
                        == sibs_ok_upto(units@, groups@, a, i as int, j as int + 1) by {
                        crate::expr::lemma_sat_all_push(old_trail.skip(base), e, a);
                        assert(e.eval(a) == !(a[units@[i as int] as int].as_int() == 1
                            && a[units@[j as int] as int].as_int() == 1)) by {
                            reveal_with_fuel(Expr::eval, 5);
                        }
                        if sat_all(s.trail().skip(base), a) {
                            assert forall|p: int, q: int|
                                0 <= p < q < units@.len() && (p < i as int || (p == i
                                    as int && q < j as int + 1)) && groups@[p]
                                    == groups@[q] implies !(a[(#[trigger] units@[p])
                                as int].as_int() == 1 && a[(#[trigger] units@[q]) as int]
                                .as_int() == 1) by {
                                if p == i as int && q == j as int {
                                    assert(e.eval(a));
                                }
                            }
                        }
                        if sibs_ok_upto(units@, groups@, a, i as int, j as int + 1) {
                            assert(sibs_ok_upto(units@, groups@, a, i as int, j as int));
                            assert(!(a[units@[i as int] as int].as_int() == 1 && a[units@[
                                j as int] as int].as_int() == 1));
                        }
                    }
                }
            } else {
                proof {
                    assert forall|a: Seq<Value>| #[trigger] sat_all(s.trail().skip(base), a)
                        == sibs_ok_upto(units@, groups@, a, i as int, j as int + 1) by {
                        assert(sibs_ok_upto(units@, groups@, a, i as int, j as int)
                            == sibs_ok_upto(units@, groups@, a, i as int, j as int + 1))
                            by {
                            if sibs_ok_upto(units@, groups@, a, i as int, j as int) {
                                assert forall|p: int, q: int|
                                    0 <= p < q < units@.len() && (p < i as int || (p == i
                                        as int && q < j as int + 1)) && groups@[p]
                                        == groups@[q] implies !(a[(#[trigger] units@[p])
                                    as int].as_int() == 1 && a[(#[trigger] units@[q])
                                    as int].as_int() == 1) by {
                                    assert(p < i as int || (p == i as int && q < j
                                        as int));
                                }
                            }
                        }
                    }
                }
            }
            j += 1;
        }
        proof {
            assert forall|a: Seq<Value>| #[trigger] sat_all(s.trail().skip(base), a)
                == sibs_ok_upto(units@, groups@, a, i as int + 1, i as int + 2) by {
                assert(sibs_ok_upto(units@, groups@, a, i as int, n as int) == sibs_ok_upto(
                    units@,
                    groups@,
                    a,
                    i as int + 1,
                    i as int + 2,
                )) by {
                    if sibs_ok_upto(units@, groups@, a, i as int, n as int) {
                        assert forall|p: int, q: int|
                            0 <= p < q < units@.len() && (p < i as int + 1 || (p == i
                                as int + 1 && q < i as int + 2)) && groups@[p]
                                == groups@[q] implies !(a[(#[trigger] units@[p]) as int]
                            .as_int() == 1 && a[(#[trigger] units@[q]) as int].as_int()
                            == 1) by {
                            assert(p < i as int || (p == i as int && q < n as int));
                        }
                    }
                    if sibs_ok_upto(units@, groups@, a, i as int + 1, i as int + 2) {
                        assert forall|p: int, q: int|
                            0 <= p < q < units@.len() && (p < i as int || (p == i as int
                                && q < n as int)) && groups@[p] == groups@[q] implies !(
                        a[(#[trigger] units@[p]) as int].as_int() == 1 && a[(
                        #[trigger] units@[q]) as int].as_int() == 1) by {
                            assert(p < i as int + 1);
                        }
                    }
                }
            }
        }
        i += 1;
    }
    proof {
        assert forall|a: Seq<Value>| #[trigger] sat_all(s.trail().skip(base), a)
            == siblings_ok(units@, groups@, a) by {
            if sibs_ok_upto(units@, groups@, a, n as int, n as int + 1) {
                assert forall|p: int, q: int| 0 <= p < q < units@.len() && groups@[p]
                    == groups@[q] implies !(a[(#[trigger] units@[p]) as int].as_int() == 1
                    && a[(#[trigger] units@[q]) as int].as_int() == 1) by {
                    assert(p < n as int);
                }
            }
        }
    }
}

/// Require the sum over a zone's members to be at least `min`.
pub fn require_zone_at_least(s: &mut Session, zone: &Vec<usize>, min: i64)
    requires
        old(s).inv(),
        vars_below(zone@, old(s).num_vars()),
        zone@.len() < 0x1_0000_0000,
    ensures
        final(s).inv(),
        final(s).registry() == old(s).registry(),
        final(s).frames() == old(s).frames(),
        final(s).trail().len() == old(s).trail().len() + 1,
        final(s).trail().take(old(s).trail().len() as int) == old(s).trail(),
        forall|a: Seq<Value>| (#[trigger] final(s).trail().last().eval(a)) == (sum_values(
            zone@,
            a,
        ) >= min),
{
    let members = copy_indices(zone);
    let e = Expr::SumCmp(members, Cmp::Ge, min);
    proof {
        assert(e.wf(s.num_vars()));
    }
    let ghost old_trail = s.trail();
    s.assert_expr(e);
    proof {
        assert(s.trail().take(old_trail.len() as int) =~= old_trail);
        assert(s.trail().last() == e);
    }
}

/// Require the sum over a zone's members to be at most `max`.
pub fn require_zone_at_most(s: &mut Session, zone: &Vec<usize>, max: i64)
    requires
        old(s).inv(),
        vars_below(zone@, old(s).num_vars()),
        zone@.len() < 0x1_0000_0000,
    ensures
        final(s).inv(),
        final(s).registry() == old(s).registry(),
        final(s).frames() == old(s).frames(),
        final(s).trail().len() == old(s).trail().len() + 1,
        final(s).trail().take(old(s).trail().len() as int) == old(s).trail(),
        forall|a: Seq<Value>| (#[trigger] final(s).trail().last().eval(a)) == (sum_values(
            zone@,
            a,
        ) <= max),
{
    let members = copy_indices(zone);
    let e = Expr::SumCmp(members, Cmp::Le, max);
    proof {
        assert(e.wf(s.num_vars()));
    }
    let ghost old_trail = s.trail();
    s.assert_expr(e);
    proof {
        assert(s.trail().take(old_trail.len() as int) =~= old_trail);
        assert(s.trail().last() == e);
    }
}

/// Fix the total of role values over all units to exactly `total`.
pub fn fix_total(s: &mut Session, units: &Vec<usize>, total: i64)
    requires
        old(s).inv(),
        vars_below(units@, old(s).num_vars()),
        units@.len() < 0x1_0000_0000,
    ensures
        final(s).inv(),
        final(s).registry() == old(s).registry(),
        final(s).frames() == old(s).frames(),
        final(s).trail().len() == old(s).trail().len() + 1,
        final(s).trail().take(old(s).trail().len() as int) == old(s).trail(),
        forall|a: Seq<Value>| (#[trigger] final(s).trail().last().eval(a)) == (sum_values(
            units@,
            a,
        ) == total),
{
    let members = copy_indices(units);
    let e = Expr::SumCmp(members, Cmp::Eq, total);
    proof {
        assert(e.wf(s.num_vars()));
    }
    let ghost old_trail = s.trail();
    s.assert_expr(e);
    proof {
        assert(s.trail().take(old_trail.len() as int) =~= old_trail);
        assert(s.trail().last() == e);
    }
}

/// Classify one zone of an extracted assignment: true exactly when its sum
/// lies within the inclusive bounds.  A sum outside the bounds of a zone
/// whose bounds were asserted marks a builder or oracle violation.
pub fn zone_within_bounds(zone: &Vec<usize>, a: &Assignment, min: i64, max: i64) -> (r: bool)
    requires
        vars_below(zone@, a.values@.len()),
        zone@.len() < 0x1_0000_0000,
    ensures
        r == (min <= sum_values(zone@, a.values@) <= max),
{
    let sv = crate::expr::sum_over(zone, &a.values);
    min as i128 <= sv && sv <= max as i128
}

} // verus!
