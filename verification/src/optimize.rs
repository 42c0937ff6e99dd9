//! The iterative min-max optimizer: tighten the worst per-zone aggregate.
//!
//! The oracle has no native objective, so the driver refines: from the
//! current assignment it computes each zone's sum and their maximum, opens a
//! checkpoint, asserts every zone sum strictly below that maximum, and asks
//! again.  On success the tighter constraints stay for the next round; on
//! failure the round unwinds its own checkpoint exactly.  Each returned
//! improvement is validated by the crate's evaluator, so its maximum is
//! proved strictly smaller — the sequence of maxima strictly decreases until
//! the search stops.

use vstd::prelude::*;
use crate::Error;
use crate::domain::{Assignment, Domain, Value, value_in_domain};
use crate::expr::{Cmp, Expr, sat_all, sum_values};
use crate::session::{CheckResult, Session};

verus! {

/// The zone lists as sequences.
pub open spec fn views_of(zones: Vec<Vec<usize>>) -> Seq<Seq<usize>> {
    zones@.map_values(|z: Vec<usize>| z@)
}

/// A zone list fit for aggregate constraints: every member is a declared
/// variable with a non-negative integer domain of moderate bound, and the
/// zone is short enough that its sum fits the constraint constants.
pub open spec fn zone_ok(zone: Seq<usize>, doms: Seq<Domain>) -> bool {
    &&& zone.len() >= 1
    &&& zone.len() <= 0x8000_0000
    &&& forall|j: int| 0 <= j < zone.len() ==> (#[trigger] zone[j]) < doms.len()
        && (doms[zone[j] as int] matches Domain::BoundedInt(lo, hi) && 0 <= lo && hi
        <= 0x8000_0000)
}

/// All zones fit for aggregate constraints.
pub open spec fn zones_ok(zs: Seq<Seq<usize>>, doms: Seq<Domain>) -> bool {
    forall|z: int| 0 <= z < zs.len() ==> zone_ok(#[trigger] zs[z], doms)
}

/// The largest per-zone sum under an assignment.
pub open spec fn max_zone_sum(zs: Seq<Seq<usize>>, a: Seq<Value>) -> int
    decreases zs.len(),
{
    if zs.len() <= 1 {
        if zs.len() == 0 {
            0
        } else {
            sum_values(zs[0], a)
        }
    } else {
        let rest = max_zone_sum(zs.drop_last(), a);
        let last = sum_values(zs.last(), a);
        if last > rest {
            last
        } else {
            rest
        }
    }
}

/// A zone's sum under an in-domain assignment is bounded by the domain
/// bounds times the zone length.
proof fn lemma_zone_sum_bounds(zone: Seq<usize>, doms: Seq<Domain>, a: Seq<Value>)
    requires
        forall|j: int| 0 <= j < zone.len() ==> (#[trigger] zone[j]) < doms.len()
            && (doms[zone[j] as int] matches Domain::BoundedInt(lo, hi) && 0 <= lo && hi
            <= 0x8000_0000),
        a.len() == doms.len(),
        forall|i: int| 0 <= i < doms.len() ==> value_in_domain(#[trigger] a[i], doms[i]),
    ensures
        0 <= sum_values(zone, a) <= zone.len() * 0x8000_0000,
    decreases zone.len(),
{
    if zone.len() > 0 {
        lemma_zone_sum_bounds(zone.drop_last(), doms, a);
        let v = zone.last();
        assert(value_in_domain(a[v as int], doms[v as int]));
        assert(0 <= a[v as int].as_int() <= 0x8000_0000);
    }
}

/// The maximum over non-empty zones is one of the zone sums, and at least
/// each of them.
proof fn lemma_max_zone_sum_props(zs: Seq<Seq<usize>>, a: Seq<Value>)
    requires
        zs.len() >= 1,
    ensures
        forall|z: int| 0 <= z < zs.len() ==> sum_values(#[trigger] zs[z], a)
            <= max_zone_sum(zs, a),
        exists|z: int| 0 <= z < zs.len() && sum_values(#[trigger] zs[z], a) == max_zone_sum(
            zs,
            a,
        ),
    decreases zs.len(),
{
    if zs.len() == 1 {
        assert(sum_values(zs[0], a) == max_zone_sum(zs, a));
    } else {
        lemma_max_zone_sum_props(zs.drop_last(), a);
        assert forall|z: int| 0 <= z < zs.len() implies sum_values(#[trigger] zs[z], a)
            <= max_zone_sum(zs, a) by {
            if z < zs.len() - 1 {
                assert(zs.drop_last()[z] == zs[z]);
            }
        }
        if max_zone_sum(zs, a) == sum_values(zs.last(), a) {
            assert(sum_values(zs[zs.len() - 1], a) == max_zone_sum(zs, a));
        } else {
            let z = choose|z: int| 0 <= z < zs.drop_last().len() && sum_values(
                #[trigger] zs.drop_last()[z],
                a,
            ) == max_zone_sum(zs.drop_last(), a);
            assert(zs.drop_last()[z] == zs[z]);
            assert(sum_values(zs[z], a) == max_zone_sum(zs, a));
        }
    }
}

/// The outcome of one refinement round.
pub enum Refinement {
    /// A strictly better assignment was found; the tightening constraints
    /// stay active.
    Improved(Assignment),
    /// No further improvement exists; the round's checkpoint was unwound and
    /// the session is exactly as before the round.
    Exhausted,
    /// The oracle gave up; the round's checkpoint was unwound.
    Inconclusive,
}

/// The largest per-zone sum of an assignment, computed client-side.
pub fn zone_max(s: &Session, zones: &Vec<Vec<usize>>, a: &Assignment) -> (m: i64)
    requires
        s.inv(),
        a.wf(s.registry().domains()),
        zones@.len() >= 1,
        zones_ok(views_of(*zones), s.registry().domains()),
    ensures
        m == max_zone_sum(views_of(*zones), a.values@),
        0 <= m <= 0x4000_0000_0000_0000,
{
    let ghost zv = views_of(*zones);
    let ghost doms = s.registry().domains();
    let n = zones.len();
    proof {
        assert(zv[0] == zones@[0]@);
        lemma_zone_sum_bounds(zv[0], doms, a.values@);
        assert(zv[0].len() * 0x8000_0000 <= 0x8000_0000 * 0x8000_0000) by (nonlinear_arith)
            requires zv[0].len() <= 0x8000_0000;
    }
    let s0 = crate::expr::sum_over(&zones[0], &a.values);
    let mut m: i128 = s0;
    let mut z: usize = 1;
    while z < n
        invariant
            s.inv(),
            a.wf(doms),
            doms == s.registry().domains(),
            zv == views_of(*zones),
            zones_ok(zv, doms),
            n == zones@.len(),
            1 <= z <= n,
            m == max_zone_sum(zv.take(z as int), a.values@),
            0 <= m <= 0x4000_0000_0000_0000,
        decreases n - z,
    {
        proof {
            assert(zv[z as int] == zones@[z as int]@);
            lemma_zone_sum_bounds(zv[z as int], doms, a.values@);
            assert(zv[z as int].len() * 0x8000_0000 <= 0x8000_0000 * 0x8000_0000)
                by (nonlinear_arith)
                requires zv[z as int].len() <= 0x8000_0000;
        }
        let sz = crate::expr::sum_over(&zones[z], &a.values);
        if sz > m {
            m = sz;
        }
        proof {
            assert(zv.take(z + 1).drop_last() =~= zv.take(z as int));
            assert(zv.take(z + 1).last() == zv[z as int]);
        }
        z += 1;
    }
    proof {
        assert(zv.take(n as int) =~= zv);
    }
    m as i64
}

/// One refinement round.  On `Improved(next)`, the returned assignment is
/// valid for the declared domains, satisfies every constraint active at
/// entry, and its largest zone sum is strictly below the current one — the
/// monotone-narrowing guarantee; the tightening checkpoint stays open.  On
/// `Exhausted` and `Inconclusive`, and on error, the session is restored to
/// exactly its entry state.
pub fn improve_once(s: &mut Session, zones: &Vec<Vec<usize>>, current: &Assignment) -> (r:
    Result<Refinement, Error>)
    requires
        old(s).inv(),
        current.wf(old(s).registry().domains()),
        zones@.len() >= 1,
        zones_ok(views_of(*zones), old(s).registry().domains()),
    ensures
        final(s).inv(),
        final(s).registry() == old(s).registry(),
        (match r {
            Ok(Refinement::Improved(next)) => {
                &&& next.wf(old(s).registry().domains())
                &&& sat_all(old(s).trail(), next.values@)
                &&& max_zone_sum(views_of(*zones), next.values@) < max_zone_sum(
                    views_of(*zones),
                    current.values@,
                )
                &&& final(s).frames() == old(s).frames().push(
                    old(s).trail().len() as usize,
                )
                &&& final(s).trail().take(old(s).trail().len() as int) == old(s).trail()
                &&& final(s).trail().len() == old(s).trail().len() + zones@.len()
                &&& (forall|k: int, a: Seq<Value>| 0 <= k < zones@.len() ==> ((
                #[trigger] final(s).trail()[old(s).trail().len() + k].eval(a)) == (
                sum_values(views_of(*zones)[k], a) < max_zone_sum(
                    views_of(*zones),
                    current.values@,
                ))))
            },
            _ => {
                &&& final(s).trail() == old(s).trail()
                &&& final(s).frames() == old(s).frames()
            },
        }),
        (match r {
            Ok(_) => true,
            Err(e) => e == Error::OracleViolation || e == Error::Unbound || e
                == Error::OutOfDomain,
        }),
{
    let ghost zv = views_of(*zones);
    let ghost doms = old(s).registry().domains();
    let ghost t0 = old(s).trail();
    let ghost base = t0.len() as int;
    let cur_max = zone_max(s, zones, current);
    let tl = s.trail_len();
    proof {
        assert(t0.len() == tl);
    }
    s.push();
    let n = zones.len();
    let mut z: usize = 0;
    while z < n
        invariant
            s.inv(),
            s.registry() == old(s).registry(),
            doms == s.registry().domains(),
            zv == views_of(*zones),
            zones_ok(zv, doms),
            n == zones@.len(),
            z <= n,
            t0 == old(s).trail(),
            base == t0.len(),
            s.frames() == old(s).frames().push(t0.len() as usize),
            s.trail().len() == base + z,
            s.trail().take(base) == t0,
            forall|k: int, a: Seq<Value>| 0 <= k < z ==> ((#[trigger] s.trail()[base + k]
                .eval(a)) == (sum_values(zv[k], a) < cur_max)),
        decreases n - z,
    {
        let members = crate::expr::copy_indices(&zones[z]);
        let e = Expr::SumCmp(members, Cmp::Lt, cur_max);
        proof {
            assert(zv[z as int] == zones@[z as int]@);
            assert(e.wf(s.num_vars()));
        }
        let ghost old_trail = s.trail();
        s.assert_expr(e);
        proof {
            assert(s.trail().take(base) =~= old_trail.take(base));
            assert forall|k: int, a: Seq<Value>| 0 <= k < z + 1 implies ((
            #[trigger] s.trail()[base + k].eval(a)) == (sum_values(zv[k], a)
                < cur_max)) by {
                if k < z {
                    assert(s.trail()[base + k] == old_trail[base + k]);
                } else {
                    assert(s.trail()[base + k] == e);
                }
            }
        }
        z += 1;
    }
    let cr = s.check();
    match cr {
        CheckResult::Sat => {
            let a = match s.solution() {
                Ok(a) => a,
                Err(e) => {
                    let pr = s.pop(1);
                    proof {
                        assert(pr is Ok);
                        assert(s.frames() =~= old(s).frames());
                        assert(s.trail() == t0);
                    }
                    return Err(e);
                },
            };
            if !s.satisfies_trail(&a) {
                let pr = s.pop(1);
                proof {
                    assert(pr is Ok);
                    assert(s.frames() =~= old(s).frames());
                    assert(s.trail() == t0);
                }
                return Err(Error::OracleViolation);
            }
            proof {
                crate::expr::lemma_sat_all_subrange(s.trail(), 0, base, a.values@);
                assert(s.trail().subrange(0, base) =~= s.trail().take(base));
                assert(sat_all(t0, a.values@));
                assert forall|k: int| 0 <= k < zv.len() implies sum_values(
                    #[trigger] zv[k],
                    a.values@,
                ) < cur_max by {
                    assert(s.trail()[base + k].eval(a.values@));
                }
                lemma_max_zone_sum_props(zv, a.values@);
                let zw = choose|zz: int| 0 <= zz < zv.len() && sum_values(
                    #[trigger] zv[zz],
                    a.values@,
                ) == max_zone_sum(zv, a.values@);
                assert(max_zone_sum(zv, a.values@) < cur_max);
            }
            Ok(Refinement::Improved(a))
        },
        CheckResult::Unsat => {
            let pr = s.pop(1);
            proof {
                assert(pr is Ok);
                assert(s.frames() =~= old(s).frames());
                assert(s.trail() == t0);
            }
            Ok(Refinement::Exhausted)
        },
        CheckResult::Unknown => {
            let pr = s.pop(1);
            proof {
                assert(pr is Ok);
                assert(s.frames() =~= old(s).frames());
                assert(s.trail() == t0);
            }
            Ok(Refinement::Inconclusive)
        },
    }
}

/// The final outcome of the refinement loop.
pub struct Refined {
    /// The best assignment reached.
    pub best: Assignment,
    /// True when the last round ended in `Unsat` — the best assignment is
    /// optimal under this search procedure.  False when the oracle gave up.
    pub conclusive: bool,
}

/// Drive refinement rounds until no further improvement exists.  The
/// largest zone sum strictly decreases every successful round and is
/// bounded below by zero (zone domains are non-negative), so the loop
/// terminates; the result's maximum never exceeds the starting one.
pub fn refine_to_min(s: &mut Session, zones: &Vec<Vec<usize>>, start: Assignment) -> (r:
    Result<Refined, Error>)
    requires
        old(s).inv(),
        start.wf(old(s).registry().domains()),
        zones@.len() >= 1,
        zones_ok(views_of(*zones), old(s).registry().domains()),
    ensures
        final(s).inv(),
        final(s).registry() == old(s).registry(),
        final(s).frames().len() >= old(s).frames().len(),
        (match r {
            Ok(out) => {
                &&& out.best.wf(old(s).registry().domains())
                &&& max_zone_sum(views_of(*zones), out.best.values@) <= max_zone_sum(
                    views_of(*zones),
                    start.values@,
                )
            },
            Err(e) => e == Error::OracleViolation || e == Error::Unbound || e
                == Error::OutOfDomain,
        }),
{
    let ghost zv = views_of(*zones);
    let ghost doms = old(s).registry().domains();
    let mut current = start;
    proof {
        lemma_max_zone_sum_props(zv, current.values@);
        let zz = choose|zz: int| 0 <= zz < zv.len() && sum_values(#[trigger] zv[zz],
            current.values@) == max_zone_sum(zv, current.values@);
        assert(zone_ok(zv[zz], doms));
        lemma_zone_sum_bounds(zv[zz], doms, current.values@);
    }
    loop
        invariant
            s.inv(),
            s.registry() == old(s).registry(),
            doms == s.registry().domains(),
            zv == views_of(*zones),
            zones_ok(zv, doms),
            zones@.len() >= 1,
            s.frames().len() >= old(s).frames().len(),
            current.wf(doms),
            max_zone_sum(zv, current.values@) <= max_zone_sum(zv, start.values@),
            max_zone_sum(zv, current.values@) >= 0,
        decreases max_zone_sum(zv, current.values@),
    {
        let step = match improve_once(s, zones, &current) {
            Ok(step) => step,
            Err(e) => {
                return Err(e);
            },
        };
        match step {
            Refinement::Improved(next) => {
                proof {
                    lemma_max_zone_sum_props(zv, next.values@);
                    let zz = choose|zz: int| 0 <= zz < zv.len() && sum_values(
                        #[trigger] zv[zz],
                        next.values@,
                    ) == max_zone_sum(zv, next.values@);
                    lemma_zone_sum_bounds(zv[zz], doms, next.values@);
                }
                current = next;
            },
            Refinement::Exhausted => {
                return Ok(Refined { best: current, conclusive: true });
            },
            Refinement::Inconclusive => {
                return Ok(Refined { best: current, conclusive: false });
            },
        }
    }
}

} // verus!
