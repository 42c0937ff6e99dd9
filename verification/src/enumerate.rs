//! The solution enumerator: find distinct satisfying assignments by
//! blocking clauses.
//!
//! After each model, one clause is asserted that excludes exactly that
//! model over the watched variables, and the oracle is asked again.  Every
//! model the oracle returns is re-checked against the active constraints by
//! the crate's own evaluator, so the guarantees below — every returned
//! assignment satisfies the constraints that were active at entry, and no
//! two returned assignments agree on all watched variables — hold whatever
//! the oracle does.

use vstd::prelude::*;
use crate::Error;
use crate::builder::{differs_from, differs_some, lemma_differs_distinct};
use crate::domain::{Assignment, Value};
use crate::expr::{sat_all, vars_below};
use crate::session::{CheckResult, Session};

verus! {

/// Why an enumeration stopped.
#[derive(Clone, Copy, Debug, PartialEq, Eq, Structural)]
pub enum EnumEnd {
    /// The oracle reported the remaining space unsatisfiable: the list is
    /// complete.  This is a successful outcome, not a failure.
    Exhausted,
    /// The caller-supplied cap on the number of solutions was reached.
    LimitReached,
    /// The oracle gave up; the list so far is valid but maybe incomplete.
    Inconclusive,
}

/// The result of an enumeration: the assignments found, and why the search
/// stopped.
pub struct Enumeration {
    pub found: Vec<Assignment>,
    pub end: EnumEnd,
}

/// Find up to `limit` satisfying assignments, each time blocking the one
/// just found over the `watched` variables.  Errors surface an oracle or
/// extraction fault; the trail only grows (by the blocking clauses), and the
/// checkpoint stack is untouched.
pub fn enumerate_solutions(s: &mut Session, watched: &Vec<usize>, limit: usize) -> (r: Result<
    Enumeration,
    Error,
>)
    requires
        old(s).inv(),
        watched@.len() >= 1,
        vars_below(watched@, old(s).num_vars()),
    ensures
        final(s).inv(),
        final(s).registry() == old(s).registry(),
        final(s).frames() == old(s).frames(),
        final(s).trail().len() >= old(s).trail().len(),
        final(s).trail().take(old(s).trail().len() as int) == old(s).trail(),
        (match r {
            Ok(en) => {
                &&& en.found@.len() <= limit
                &&& (en.end == EnumEnd::LimitReached ==> en.found@.len() == limit)
                &&& (forall|i: int| 0 <= i < en.found@.len() ==> (#[trigger] en.found@[i]).wf(
                    old(s).registry().domains(),
                ))
                &&& (forall|i: int| 0 <= i < en.found@.len() ==> sat_all(
                    old(s).trail(),
                    (#[trigger] en.found@[i]).values@,
                ))
                &&& (forall|i: int, j: int| 0 <= i < j < en.found@.len() ==> differs_some(
                    watched@,
                    en.found@[i].values@,
                    en.found@[j].values@,
                ))
                &&& (forall|i: int, j: int| 0 <= i < j < en.found@.len()
                    ==> en.found@[i].values@ != en.found@[j].values@)
            },
            Err(e) => e == Error::OracleViolation || e == Error::Unbound || e
                == Error::OutOfDomain,
        }),
{
    let ghost t0 = old(s).trail();
    let ghost base = old(s).trail().len() as int;
    let mut found: Vec<Assignment> = Vec::new();
    proof {
        assert(s.trail().take(base) =~= t0);
    }
    while found.len() < limit
        invariant
            s.inv(),
            s.registry() == old(s).registry(),
            s.frames() == old(s).frames(),
            watched@.len() >= 1,
            vars_below(watched@, s.num_vars()),
            t0 == old(s).trail(),
            base == t0.len(),
            found@.len() <= limit,
            s.trail().len() == base + found@.len(),
            s.trail().take(base) == t0,
            forall|i: int| 0 <= i < found@.len() ==> (#[trigger] found@[i]).wf(
                s.registry().domains(),
            ),
            forall|i: int| 0 <= i < found@.len() ==> sat_all(
                t0,
                (#[trigger] found@[i]).values@,
            ),
            forall|k: int, a: Seq<Value>| 0 <= k < found@.len() ==> (#[trigger] s.trail()[
                base + k].eval(a)) == differs_some(watched@, found@[k].values@, a),
            forall|i: int, j: int| 0 <= i < j < found@.len() ==> differs_some(
                watched@,
                found@[i].values@,
                found@[j].values@,
            ),
            forall|i: int, j: int| 0 <= i < j < found@.len() ==> found@[i].values@
                != found@[j].values@,
        decreases limit - found@.len(),
    {
        let cr = s.check();
        match cr {
            CheckResult::Unsat => {
                return Ok(Enumeration { found, end: EnumEnd::Exhausted });
            },
            CheckResult::Unknown => {
                return Ok(Enumeration { found, end: EnumEnd::Inconclusive });
            },
            CheckResult::Sat => {
                let a = match s.solution() {
                    Ok(a) => a,
                    Err(e) => {
                        return Err(e);
                    },
                };
                if !s.satisfies_trail(&a) {
                    return Err(Error::OracleViolation);
                }
                proof {
                    crate::expr::lemma_sat_all_subrange(s.trail(), 0, base, a.values@);
                    assert(s.trail().subrange(0, base) =~= s.trail().take(base));
                    assert(sat_all(t0, a.values@));
                    assert forall|k: int| 0 <= k < found@.len() implies differs_some(
                        watched@,
                        found@[k].values@,
                        a.values@,
                    ) by {
                        assert(s.trail()[base + k].eval(a.values@));
                    }
                    assert forall|k: int| 0 <= k < found@.len() implies found@[k].values@
                        != a.values@ by {
                        lemma_differs_distinct(watched@, found@[k].values@, a.values@);
                    }
                }
                let clause = differs_from(&a, watched);
                let ghost old_found = found@;
                let ghost old_trail = s.trail();
                found.push(a);
                s.assert_expr(clause);
                proof {
                    assert(s.trail().take(base) =~= old_trail.take(base));
                    assert forall|k: int, aa: Seq<Value>| 0 <= k < found@.len() implies (
                    #[trigger] s.trail()[base + k].eval(aa)) == differs_some(
                        watched@,
                        found@[k].values@,
                        aa,
                    ) by {
                        if k < old_found.len() {
                            assert(s.trail()[base + k] == old_trail[base + k]);
                            assert(found@[k] == old_found[k]);
                        } else {
                            assert(s.trail()[base + k] == clause);
                        }
                    }
                }
            },
        }
    }
    Ok(Enumeration { found, end: EnumEnd::LimitReached })
}

} // verus!
