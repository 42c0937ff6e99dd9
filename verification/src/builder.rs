//! Generic constraint blocks shared by the problem translators.
//!
//! Each block is a pure function from variable lists to one constraint, with
//! its meaning pinned down over every assignment: a disjunction asserting
//! coverage, a pairwise mutual-exclusion conjunction, a pair-equivalence, and
//! the blocking clause that excludes exactly one previously found assignment.

use vstd::prelude::*;
use crate::domain::{Assignment, Value};
use crate::expr::{Expr, sat_all, vars_below, wf_all};

verus! {

/// Some constraint of the batch holds under `a`.
pub open spec fn any_holds(ps: Seq<Expr>, a: Seq<Value>) -> bool {
    exists|j: int| 0 <= j < ps.len() && (#[trigger] ps[j]).eval(a)
}

/// Some listed variable is true under `a`.
pub open spec fn some_true(vs: Seq<usize>, a: Seq<Value>) -> bool {
    exists|j: int| 0 <= j < vs.len() && a[(#[trigger] vs[j]) as int].is_true()
}

/// No two distinct listed variables are both true under `a`.
pub open spec fn no_two_true(vs: Seq<usize>, a: Seq<Value>) -> bool {
    forall|p: int, q: int| 0 <= p < q < vs.len()
        ==> !(a[(#[trigger] vs[p]) as int].is_true() && a[(#[trigger] vs[q]) as int].is_true())
}

/// No two distinct listed variables, among the pairs lexicographically
/// before `(i, k)`, are both true under `a`.
spec fn pairs_clear_upto(vs: Seq<usize>, a: Seq<Value>, i: int, k: int) -> bool {
    forall|p: int, q: int| 0 <= p < q < vs.len() && (p < i || (p == i && q < k))
        ==> !(a[(#[trigger] vs[p]) as int].is_true() && a[(#[trigger] vs[q]) as int].is_true())
}

/// Whether a value agrees with a previously extracted value: boolean values
/// by truth, integer values by integer reading.
pub open spec fn matches_value(av: Value, pv: Value) -> bool {
    match pv {
        Value::Bool(b) => av.is_true() == b,
        Value::Int(x) => av.as_int() == x,
    }
}

/// Under `a`, some listed variable takes a value different from the one it
/// has in `prev`.
pub open spec fn differs_some(vs: Seq<usize>, prev: Seq<Value>, a: Seq<Value>) -> bool {
    exists|j: int| 0 <= j < vs.len() && !matches_value(
        a[(#[trigger] vs[j]) as int],
        prev[vs[j] as int],
    )
}

/// Prefix form of [`differs_some`], used while the clause is being built.
spec fn differs_upto(vs: Seq<usize>, prev: Seq<Value>, a: Seq<Value>, m: int) -> bool {
    exists|j: int| 0 <= j < m && !matches_value(
        a[(#[trigger] vs[j]) as int],
        prev[vs[j] as int],
    )
}

/// The conjunction of a batch of constraints.
pub fn and_all(parts: Vec<Expr>) -> (e: Expr)
    ensures
        forall|n: nat| wf_all(parts@, n) ==> e.wf(n),
        forall|a: Seq<Value>| e.eval(a) == sat_all(parts@, a),
{
    let ghost orig = parts@;
    let mut ps = parts;
    let mut acc = Expr::Const(true);
    proof {
        assert(forall|a: Seq<Value>| acc.eval(a) == sat_all(orig.take(0), a));
    }
    while ps.len() > 0
        invariant
            ps@.len() <= orig.len(),
            ps@ == orig.skip(orig.len() - ps@.len()),
            forall|n: nat| wf_all(orig, n) ==> acc.wf(n),
            forall|a: Seq<Value>| acc.eval(a) == sat_all(
                orig.take(orig.len() - ps@.len()),
                a,
            ),
        decreases ps@.len(),
    {
        let ghost m = orig.len() - ps@.len();
        let p = ps.remove(0);
        proof {
            assert(p == orig[m as int]);
            assert(ps@ =~= orig.skip(orig.len() - ps@.len()));
        }
        let acc0 = acc;
        acc = Expr::And(Box::new(acc0), Box::new(p));
        proof {
            assert forall|a: Seq<Value>| acc.eval(a) == sat_all(
                orig.take(m + 1),
                a,
            ) by {
                reveal_with_fuel(Expr::eval, 3);
                assert(acc.eval(a) == (acc0.eval(a) && p.eval(a)));
                assert(acc0.eval(a) == sat_all(orig.take(m as int), a));
                crate::expr::lemma_sat_all_push(orig.take(m as int), p, a);
                assert(orig.take(m + 1) =~= orig.take(m as int).push(p));
            }
        }
    }
    proof {
        assert(orig.take(orig.len() as int) =~= orig);
    }
    acc
}

/// The disjunction of a non-empty batch of constraints.
pub fn or_all(parts: Vec<Expr>) -> (e: Expr)
    requires
        parts@.len() >= 1,
    ensures
        forall|n: nat| wf_all(parts@, n) ==> e.wf(n),
        forall|a: Seq<Value>| e.eval(a) == any_holds(parts@, a),
{
    let ghost orig = parts@;
    let mut ps = parts;
    let mut acc = ps.remove(0);
    proof {
        assert(ps@ =~= orig.skip(1));
        assert forall|a: Seq<Value>| acc.eval(a) == any_holds(orig.take(1), a) by {
            assert(orig.take(1)[0] == orig[0]);
        }
    }
    while ps.len() > 0
        invariant
            1 <= orig.len() - ps@.len() <= orig.len(),
            ps@ == orig.skip(orig.len() - ps@.len()),
            forall|n: nat| wf_all(orig, n) ==> acc.wf(n),
            forall|a: Seq<Value>| acc.eval(a) == any_holds(
                orig.take(orig.len() - ps@.len()),
                a,
            ),
        decreases ps@.len(),
    {
        let ghost m = orig.len() - ps@.len();
        let p = ps.remove(0);
        proof {
            assert(p == orig[m as int]);
            assert(ps@ =~= orig.skip(orig.len() - ps@.len()));
        }
        let acc0 = acc;
        acc = Expr::Or(Box::new(acc0), Box::new(p));
        proof {
            assert forall|a: Seq<Value>| acc.eval(a) == any_holds(
                orig.take(m + 1),
                a,
            ) by {
                reveal_with_fuel(Expr::eval, 3);
                assert(acc.eval(a) == (acc0.eval(a) || p.eval(a)));
                assert(acc0.eval(a) == any_holds(orig.take(m as int), a));
                let t1 = orig.take(m + 1);
                let t0 = orig.take(m as int);
                if acc.eval(a) {
                    if acc0.eval(a) {
                        let j = choose|j: int| 0 <= j < t0.len() && (#[trigger] t0[j]).eval(a);
                        assert(t1[j] == t0[j]);
                        assert(any_holds(t1, a));
                    } else {
                        assert(t1[m as int] == p);
                        assert(any_holds(t1, a));
                    }
                }
                if any_holds(t1, a) {
                    let j = choose|j: int| 0 <= j < t1.len() && (#[trigger] t1[j]).eval(a);
                    if j < m {
                        assert(t0[j] == t1[j]);
                        assert(any_holds(t0, a));
                    } else {
                        assert(t1[j] == p);
                    }
                }
            }
        }
    }
    proof {
        assert(orig.take(orig.len() as int) =~= orig);
    }
    acc
}

/// The disjunction of the listed variables: at least one of them is true.
pub fn any_of(vs: &Vec<usize>) -> (e: Expr)
    requires
        vs@.len() >= 1,
    ensures
        forall|n: nat| vars_below(vs@, n) ==> e.wf(n),
        forall|a: Seq<Value>| e.eval(a) == some_true(vs@, a),
{
    let mut parts: Vec<Expr> = Vec::new();
    let n = vs.len();
    let mut j: usize = 0;
    while j < n
        invariant
            n == vs@.len(),
            j <= n,
            parts@.len() == j,
            forall|jj: int| 0 <= jj < j ==> (#[trigger] parts@[jj]) == Expr::Var(vs@[jj]),
        decreases n - j,
    {
        parts.push(Expr::Var(vs[j]));
        j += 1;
    }
    let e = or_all(parts);
    proof {
        assert forall|m: nat| vars_below(vs@, m) implies e.wf(m) by {
            assert forall|jj: int| 0 <= jj < parts@.len() implies (#[trigger] parts@[jj]).wf(
                m,
            ) by {
                assert(parts@[jj] == Expr::Var(vs@[jj]));
            }
        }
        assert forall|a: Seq<Value>| e.eval(a) == some_true(vs@, a) by {
            if any_holds(parts@, a) {
                let jj = choose|jj: int| 0 <= jj < parts@.len() && (#[trigger] parts@[jj]).eval(
                    a,
                );
                assert(parts@[jj] == Expr::Var(vs@[jj]));
                assert(a[vs@[jj] as int].is_true());
            }
            if some_true(vs@, a) {
                let jj = choose|jj: int| 0 <= jj < vs@.len() && a[(#[trigger] vs@[jj]) as int]
                    .is_true();
                assert(parts@[jj] == Expr::Var(vs@[jj]));
                assert(parts@[jj].eval(a));
            }
        }
    }
    e
}

/// The pairwise mutual exclusion of the listed variables: no two of them
/// are both true.
pub fn at_most_one(vs: &Vec<usize>) -> (e: Expr)
    ensures
        forall|n: nat| vars_below(vs@, n) ==> e.wf(n),
        forall|a: Seq<Value>| e.eval(a) == no_two_true(vs@, a),
{
    let mut parts: Vec<Expr> = Vec::new();
    let n = vs.len();
    let mut i: usize = 0;
    while i < n
        invariant
            n == vs@.len(),
            i <= n,
            forall|m: nat| vars_below(vs@, m) ==> wf_all(parts@, m),
            forall|a: Seq<Value>| sat_all(parts@, a) == pairs_clear_upto(
                vs@,
                a,
                i as int,
                i as int + 1,
            ),
        decreases n - i,
    {
        let mut k: usize = i + 1;
        while k < n
            invariant
                n == vs@.len(),
                i < n,
                i + 1 <= k <= n,
                forall|m: nat| vars_below(vs@, m) ==> wf_all(parts@, m),
                forall|a: Seq<Value>| sat_all(parts@, a) == pairs_clear_upto(
                    vs@,
                    a,
                    i as int,
                    k as int,
                ),
            decreases n - k,
        {
            let p = Expr::Not(
                Box::new(
                    Expr::And(Box::new(Expr::Var(vs[i])), Box::new(Expr::Var(vs[k]))),
                ),
            );
            let ghost old_parts = parts@;
            parts.push(p);
            proof {
                assert forall|m: nat| vars_below(vs@, m) implies wf_all(parts@, m) by {
                    assert forall|jj: int| 0 <= jj < parts@.len() implies (
                    #[trigger] parts@[jj]).wf(m) by {
                        reveal_with_fuel(Expr::wf, 5);
                        if jj < old_parts.len() {
                            assert(parts@[jj] == old_parts[jj]);
                        } else {
                            assert(parts@[jj] == p);
                            assert(vs@[i as int] < m && vs@[k as int] < m);
                        }
                    }
                }
                assert forall|a: Seq<Value>| sat_all(parts@, a) == pairs_clear_upto(
                    vs@,
                    a,
                    i as int,
                    k as int + 1,
                ) by {
                    reveal_with_fuel(Expr::eval, 5);
                    crate::expr::lemma_sat_all_push(old_parts, p, a);
                    assert(p.eval(a) == !(a[vs@[i as int] as int].is_true() && a[vs@[k
                        as int] as int].is_true()));
                    if sat_all(parts@, a) {
                        assert forall|pp: int, qq: int|
                            0 <= pp < qq < vs@.len() && (pp < i as int || (pp == i as int
                                && qq < k as int + 1)) implies !(a[(
                        #[trigger] vs@[pp]) as int].is_true() && a[(#[trigger] vs@[qq])
                            as int].is_true()) by {
                            if pp == i as int && qq == k as int {
                                assert(!p.eval(a) == (a[vs@[pp] as int].is_true() && a[
                                    vs@[qq] as int].is_true()));
                            }
                        }
                    }
                    if pairs_clear_upto(vs@, a, i as int, k as int + 1) {
                        assert(pairs_clear_upto(vs@, a, i as int, k as int));
                        assert(!(a[vs@[i as int] as int].is_true() && a[vs@[k as int]
                            as int].is_true()));
                    }
                }
            }
            k += 1;
        }
        proof {
            assert forall|a: Seq<Value>| pairs_clear_upto(vs@, a, i as int, n as int)
                == pairs_clear_upto(vs@, a, i as int + 1, i as int + 2) by {
                if pairs_clear_upto(vs@, a, i as int, n as int) {
                    assert forall|pp: int, qq: int|
                        0 <= pp < qq < vs@.len() && (pp < i as int + 1 || (pp == i as int
                            + 1 && qq < i as int + 2)) implies !(a[(
                    #[trigger] vs@[pp]) as int].is_true() && a[(#[trigger] vs@[qq])
                        as int].is_true()) by {
                        assert(pp < i as int || (pp == i as int && qq < n as int));
                    }
                }
                if pairs_clear_upto(vs@, a, i as int + 1, i as int + 2) {
                    assert forall|pp: int, qq: int|
                        0 <= pp < qq < vs@.len() && (pp < i as int || (pp == i as int
                            && qq < n as int)) implies !(a[(#[trigger] vs@[pp]) as int]
                        .is_true() && a[(#[trigger] vs@[qq]) as int].is_true()) by {
                        assert(pp < i as int + 1);
                    }
                }
            }
        }
        i += 1;
    }
    let e = and_all(parts);
    proof {
        assert forall|a: Seq<Value>| e.eval(a) == no_two_true(vs@, a) by {
            assert(sat_all(parts@, a) == pairs_clear_upto(vs@, a, n as int, n as int + 1));
            if pairs_clear_upto(vs@, a, n as int, n as int + 1) {
                assert forall|pp: int, qq: int| 0 <= pp < qq < vs@.len() implies !(a[(
                #[trigger] vs@[pp]) as int].is_true() && a[(#[trigger] vs@[qq]) as int]
                    .is_true()) by {
                    assert(pp < n as int);
                }
            }
        }
    }
    e
}

/// The two listed variables are never both true.
pub fn forbid_both(u: usize, v: usize) -> (e: Expr)
    ensures
        forall|n: nat| u < n && v < n ==> e.wf(n),
        forall|a: Seq<Value>| e.eval(a) == !(a[u as int].is_true() && a[v as int].is_true()),
{
    let e = Expr::Not(
        Box::new(Expr::And(Box::new(Expr::Var(u)), Box::new(Expr::Var(v)))),
    );
    proof {
        assert forall|n: nat| u < n && v < n implies e.wf(n) by {
            reveal_with_fuel(Expr::wf, 5);
        }
        assert forall|a: Seq<Value>| e.eval(a) == !(a[u as int].is_true() && a[v as int]
            .is_true()) by {
            reveal_with_fuel(Expr::eval, 5);
        }
    }
    e
}

/// The two listed variables are both true or both false.
pub fn same_occupancy(u: usize, v: usize) -> (e: Expr)
    ensures
        forall|n: nat| u < n && v < n ==> e.wf(n),
        forall|a: Seq<Value>| e.eval(a) == (a[u as int].is_true() == a[v as int].is_true()),
{
    let e = Expr::Iff(Box::new(Expr::Var(u)), Box::new(Expr::Var(v)));
    proof {
        assert forall|n: nat| u < n && v < n implies e.wf(n) by {
            reveal_with_fuel(Expr::wf, 3);
        }
        assert forall|a: Seq<Value>| e.eval(a) == (a[u as int].is_true() == a[v as int]
            .is_true()) by {
            reveal_with_fuel(Expr::eval, 3);
        }
    }
    e
}

/// The blocking clause for one found assignment: satisfied exactly by the
/// assignments in which at least one tracked variable takes a different
/// value than it does in `prev`.
pub fn differs_from(prev: &Assignment, vs: &Vec<usize>) -> (e: Expr)
    requires
        vs@.len() >= 1,
        vars_below(vs@, prev.values@.len()),
    ensures
        forall|n: nat| vars_below(vs@, n) ==> e.wf(n),
        forall|a: Seq<Value>| e.eval(a) == differs_some(vs@, prev.values@, a),
{
    let ghost pv = prev.values@;
    let mut parts: Vec<Expr> = Vec::new();
    let n = vs.len();
    let mut j: usize = 0;
    while j < n
        invariant
            n == vs@.len(),
            vars_below(vs@, pv.len()),
            pv == prev.values@,
            j <= n,
            parts@.len() == j,
            forall|m: nat| vars_below(vs@, m) ==> wf_all(parts@, m),
            forall|a: Seq<Value>, jj: int| 0 <= jj < j ==> (#[trigger] parts@[jj].eval(a))
                == !matches_value(a[vs@[jj] as int], pv[vs@[jj] as int]),
        decreases n - j,
    {
        let v = vs[j];
        let p = match prev.get(v) {
            Value::Bool(true) => Expr::Not(Box::new(Expr::Var(v))),
            Value::Bool(false) => Expr::Var(v),
            Value::Int(x) => Expr::Not(Box::new(Expr::IntEq(v, x))),
        };
        let ghost old_parts = parts@;
        parts.push(p);
        proof {
            assert forall|m: nat| vars_below(vs@, m) implies wf_all(parts@, m) by {
                assert forall|jj: int| 0 <= jj < parts@.len() implies (#[trigger] parts@[jj])
                    .wf(m) by {
                    reveal_with_fuel(Expr::wf, 3);
                    if jj < old_parts.len() {
                        assert(parts@[jj] == old_parts[jj]);
                    } else {
                        assert(parts@[jj] == p);
                        assert(vs@[j as int] < m);
                    }
                }
            }
            assert forall|a: Seq<Value>, jj: int| 0 <= jj < j + 1 implies (
            #[trigger] parts@[jj].eval(a)) == !matches_value(
                a[vs@[jj] as int],
                pv[vs@[jj] as int],
            ) by {
                reveal_with_fuel(Expr::eval, 3);
                if jj < j {
                    assert(parts@[jj] == old_parts[jj]);
                    assert(old_parts[jj].eval(a) == !matches_value(
                        a[vs@[jj] as int],
                        pv[vs@[jj] as int],
                    ));
                } else {
                    assert(parts@[jj] == p);
                }
            }
        }
        j += 1;
    }
    let e = or_all(parts);
    proof {
        assert forall|a: Seq<Value>| e.eval(a) == differs_some(vs@, pv, a) by {
            if any_holds(parts@, a) {
                let jj = choose|jj: int| 0 <= jj < parts@.len() && (#[trigger] parts@[jj])
                    .eval(a);
                assert(parts@[jj].eval(a) == !matches_value(
                    a[vs@[jj] as int],
                    pv[vs@[jj] as int],
                ));
                assert(differs_some(vs@, pv, a));
            }
            if differs_some(vs@, pv, a) {
                let jj = choose|jj: int| 0 <= jj < vs@.len() && !matches_value(
                    a[(#[trigger] vs@[jj]) as int],
                    pv[vs@[jj] as int],
                );
                assert(parts@[jj].eval(a) == !matches_value(
                    a[vs@[jj] as int],
                    pv[vs@[jj] as int],
                ));
                assert(any_holds(parts@, a));
            }
        }
    }
    e
}

/// Law: a blocking clause never accepts the assignment it blocks — every
/// value agrees with itself.
pub proof fn lemma_blocking_excludes(vs: Seq<usize>, prev: Seq<Value>)
    ensures
        !differs_some(vs, prev, prev),
{
    assert forall|j: int| 0 <= j < vs.len() implies matches_value(
        prev[(#[trigger] vs[j]) as int],
        prev[vs[j] as int],
    ) by {
        lemma_matches_self(prev[vs[j] as int]);
    }
}

/// Law: an assignment satisfying a blocking clause differs from the blocked
/// assignment — so no assignment is ever produced twice.
pub proof fn lemma_differs_distinct(vs: Seq<usize>, prev: Seq<Value>, a: Seq<Value>)
    requires
        differs_some(vs, prev, a),
    ensures
        a != prev,
{
    if a == prev {
        lemma_blocking_excludes(vs, prev);
    }
}

/// Every value agrees with itself under [`matches_value`].
proof fn lemma_matches_self(v: Value)
    ensures
        matches_value(v, v),
{
    match v {
        Value::Bool(b) => {},
        Value::Int(x) => {},
    }
}

} // verus!
