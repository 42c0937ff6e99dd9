//! The solver session: variables, the incremental assertion stack, checks
//! and model extraction.
//!
//! A session owns the oracle handle together with a verified mirror of the
//! logical state: the registry of declared variables, the sequence of
//! currently active constraints (`trail`) and the stack of checkpoints
//! (`frames`).  Every mutation goes through methods that update the mirror
//! and the oracle in lock step, so contracts over the mirror describe the
//! logical state of the session exactly.

use vstd::prelude::*;
use crate::Error;
use crate::domain::{Assignment, Domain, Value, value_in_domain};
use crate::expr::{Expr, eval_expr, sat_all, wf_all};
use crate::oracle;
use crate::registry::Registry;

verus! {

/// The three-valued outcome of a satisfiability check.  `Unknown` means the
/// oracle gave up; it is always surfaced, never treated as `Unsat`.
#[derive(Clone, Copy, Debug, PartialEq, Eq, Structural)]
pub enum CheckResult {
    Sat,
    Unsat,
    Unknown,
}

/// The oracle-side constant mirroring one declared variable.
enum OracleVar {
    B(z3::ast::Bool),
    I(z3::ast::Int),
}

/// An incremental solving session.
pub struct Session {
    registry: Registry,
    consts: Vec<OracleVar>,
    solver: z3::Solver,
    trail: Vec<Expr>,
    frames: Vec<usize>,
    model_fresh: bool,
}

impl Session {
    /// The registry of declared variables.
    pub closed spec fn registry(self) -> Registry {
        self.registry
    }

    /// The constraints currently asserted, oldest first.
    pub closed spec fn trail(self) -> Seq<Expr> {
        self.trail@
    }

    /// The open checkpoints: for each, the trail length at its creation.
    pub closed spec fn frames(self) -> Seq<usize> {
        self.frames@
    }

    /// Whether a model may be read: true exactly between a `Sat` check and
    /// the next mutation of the session.
    pub closed spec fn model_ready(self) -> bool {
        self.model_fresh
    }

    /// Number of declared variables.
    pub open spec fn num_vars(self) -> nat {
        self.registry().num_vars()
    }

    /// The session invariant: a well-formed registry, one oracle constant of
    /// the right sort per variable, well-formed active constraints, and
    /// checkpoint marks that descend into the trail in stack order.
    pub closed spec fn inv(self) -> bool {
        &&& self.registry.wf()
        &&& self.consts@.len() == self.registry.num_vars()
        &&& (forall|i: int| 0 <= i < self.consts@.len()
            ==> ((#[trigger] self.consts@[i]) is B <==> self.registry.domains()[i]
                is Boolean))
        &&& wf_all(self.trail@, self.registry.num_vars())
        &&& (forall|k: int| 0 <= k < self.frames@.len()
            ==> (#[trigger] self.frames@[k]) <= self.trail@.len())
        &&& (forall|k1: int, k2: int| 0 <= k1 < k2 < self.frames@.len()
            ==> self.frames@[k1] <= self.frames@[k2])
    }

    /// A fresh session: no variables, no constraints, no checkpoints.
    pub fn new() -> (s: Session)
        ensures
            s.inv(),
            s.num_vars() == 0,
            s.registry().names().len() == 0,
            s.trail() == Seq::<Expr>::empty(),
            s.frames() == Seq::<usize>::empty(),
            !s.model_ready(),
    {
        let s = Session {
            registry: Registry::new(),
            consts: Vec::new(),
            solver: oracle::solver_new(),
            trail: Vec::new(),
            frames: Vec::new(),
            model_fresh: false,
        };
        proof {
            assert(s.trail@ =~= Seq::<Expr>::empty());
            assert(s.frames@ =~= Seq::<usize>::empty());
        }
        s
    }

    /// Declare a named variable with a domain; see `Registry::declare` for
    /// the failure cases.  Success returns the variable's handle and leaves
    /// the constraint stack untouched.
    pub fn declare(&mut self, name: String, d: Domain) -> (r: Result<usize, Error>)
        requires
            old(self).inv(),
        ensures
            final(self).inv(),
            final(self).trail() == old(self).trail(),
            final(self).frames() == old(self).frames(),
            r is Err ==> final(self).registry() == old(self).registry()
                && final(self).model_ready() == old(self).model_ready(),
            !d.wf() ==> r == Err::<usize, Error>(Error::InvalidDomain),
            d.wf() && old(self).registry().has_name(name@) ==> r == Err::<usize, Error>(
                Error::DuplicateName,
            ),
            d.wf() && !old(self).registry().has_name(name@) ==> {
                &&& r matches Ok(id) && id == old(self).num_vars()
                &&& final(self).registry().names() == old(self).registry().names().push(
                    name@,
                )
                &&& final(self).registry().domains() == old(
                    self,
                ).registry().domains().push(d)
                &&& final(self).registry().has_name(name@)
                &&& final(self).registry().index_of(name@) == old(self).num_vars()
                &&& !final(self).model_ready()
            },
    {
        let r0 = self.registry.declare(name, d);
        let id = match r0 {
            Ok(id) => id,
            Err(e) => {
                return Err(e);
            },
        };
        proof {
            assert(d.wf() && !old(self).registry.has_name(name@));
            assert(id == old(self).registry.num_vars());
        }
        let dd = self.registry.domain_of(id);
        let c = match dd {
            Domain::Boolean => OracleVar::B(oracle::mk_bool_const(id)),
            Domain::BoundedInt(_, _) => OracleVar::I(oracle::mk_int_const(id)),
        };
        proof {
            assert(c is B <==> dd is Boolean);
            assert(dd == self.registry.domains()[id as int]);
        }
        self.consts.push(c);
        self.model_fresh = false;
        proof {
            crate::registry::lemma_name_round_trip(old(self).registry, self.registry, name@, d);
            crate::expr::lemma_wf_all_mono(
                self.trail@,
                old(self).registry.num_vars(),
                self.registry.num_vars(),
            );
            assert forall|i: int| 0 <= i < self.consts@.len() implies ((
            #[trigger] self.consts@[i]) is B <==> self.registry.domains()[i]
                is Boolean) by {
                if i < old(self).consts@.len() {
                    assert(self.consts@[i] == old(self).consts@[i]);
                    assert(self.registry.domains()[i] == old(self).registry.domains()[i]);
                    assert(old(self).consts@[i] is B <==> old(self).registry.domains()[i]
                        is Boolean);
                } else {
                    assert(i == id as int);
                    assert(self.consts@[i] == c);
                    assert(self.registry.domains()[i] == dd);
                    assert(c is B <==> dd is Boolean);
                }
            }
        }
        Ok(id)
    }

    /// Declare `count` fresh variables of one domain under generated decimal
    /// names, returning their handles, which are consecutive.  Fails with
    /// `DuplicateName` only when a caller-declared name collides with a
    /// generated one; success is owed whenever none does.
    pub fn declare_block(&mut self, count: usize, d: Domain) -> (r: Result<Vec<usize>, Error>)
        requires
            old(self).inv(),
        ensures
            final(self).inv(),
            final(self).trail() == old(self).trail(),
            final(self).frames() == old(self).frames(),
            final(self).registry().domains().len() >= old(self).registry().domains().len(),
            final(self).registry().domains().take(
                old(self).registry().domains().len() as int,
            ) == old(self).registry().domains(),
            (match r {
                Ok(ids) => {
                    &&& ids@.len() == count
                    &&& (forall|k: int| 0 <= k < count ==> (#[trigger] ids@[k]) == old(
                        self,
                    ).num_vars() + k)
                    &&& final(self).num_vars() == old(self).num_vars() + count
                    &&& (forall|k: int| 0 <= k < count ==> final(self).registry().domains()[(
                    #[trigger] ids@[k]) as int] == d)
                },
                Err(e) => (e == Error::DuplicateName && d.wf()) || (e
                    == Error::InvalidDomain && !d.wf()),
            }),
            !d.wf() && count > 0 ==> r == Err::<Vec<usize>, Error>(Error::InvalidDomain),
            (d.wf() && old(self).num_vars() + count <= usize::MAX && (forall|k: int|
                0 <= k < count ==> !old(self).registry().has_name(
                    #[trigger] crate::oracle::decimal_name(
                        (old(self).num_vars() + k) as usize,
                    ),
                ))) ==> r is Ok,
    {
        let ghost base = old(self).num_vars();
        let mut ids: Vec<usize> = Vec::new();
        let mut k: usize = 0;
        proof {
            assert(self.registry().domains().take(base as int) =~= old(
                self,
            ).registry().domains());
        }
        while k < count
            invariant
                self.inv(),
                self.trail() == old(self).trail(),
                self.frames() == old(self).frames(),
                base == old(self).num_vars(),
                k <= count,
                ids@.len() == k,
                self.num_vars() == base + k,
                forall|kk: int| 0 <= kk < k ==> (#[trigger] ids@[kk]) == base + kk,
                forall|kk: int| 0 <= kk < k ==> self.registry().domains()[(
                #[trigger] ids@[kk]) as int] == d,
                self.registry().domains().take(base as int) == old(self).registry().domains(),
                forall|x: Seq<char>| #[trigger] self.registry().has_name(x) == (old(
                    self,
                ).registry().has_name(x) || (exists|kk: int| 0 <= kk < k && x
                    == crate::oracle::decimal_name(#[trigger] ids@[kk]))),
                k > 0 ==> d.wf(),
            decreases count - k,
        {
            let id = self.var_count();
            let name = crate::oracle::auto_name(id);
            let ghost nm = crate::oracle::decimal_name(id);
            let ghost reg_before = self.registry();
            let ghost ids_before = ids@;
            let dr = self.declare(name, d);
            match dr {
                Ok(got) => {
                    proof {
                        assert(got == base + k);
                        crate::registry::lemma_has_name_after(
                            reg_before,
                            self.registry(),
                            nm,
                        );
                        assert(self.registry().domains().take(base as int) =~= reg_before
                            .domains().take(base as int));
                    }
                    ids.push(got);
                    proof {
                        assert(ids@[k as int] == id);
                        assert forall|x: Seq<char>| #[trigger] self.registry().has_name(x)
                            == (old(self).registry().has_name(x) || (exists|kk: int|
                            0 <= kk < k + 1 && x == crate::oracle::decimal_name(
                                #[trigger] ids@[kk],
                            ))) by {
                            if self.registry().has_name(x) {
                                if reg_before.has_name(x) && !old(
                                    self,
                                ).registry().has_name(x) {
                                    let kk = choose|kk: int| 0 <= kk < k && x
                                        == crate::oracle::decimal_name(
                                        #[trigger] ids_before[kk],
                                    );
                                    assert(ids@[kk] == ids_before[kk]);
                                    assert(x == crate::oracle::decimal_name(ids@[kk]));
                                }
                                if !reg_before.has_name(x) {
                                    assert(x == nm);
                                    assert(x == crate::oracle::decimal_name(
                                        ids@[k as int],
                                    ));
                                }
                            } else {
                                assert(!reg_before.has_name(x) && x != nm);
                                if old(self).registry().has_name(x) {
                                    assert(reg_before.has_name(x));
                                }
                                assert forall|kk: int| 0 <= kk < k + 1 implies x
                                    != crate::oracle::decimal_name(
                                    #[trigger] ids@[kk],
                                ) by {
                                    if kk < k {
                                        assert(ids@[kk] == ids_before[kk]);
                                        if x == crate::oracle::decimal_name(
                                            ids_before[kk],
                                        ) {
                                            assert(reg_before.has_name(x));
                                        }
                                    } else {
                                        assert(ids@[kk] == id);
                                    }
                                }
                            }
                        }
                    }
                },
                Err(e) => {
                    proof {
                        if d.wf() && base + count <= usize::MAX {
                            assert(e == Error::DuplicateName);
                            assert(reg_before.has_name(nm));
                            if !old(self).registry().has_name(nm) {
                                let kk = choose|kk: int| 0 <= kk < k && nm
                                    == crate::oracle::decimal_name(
                                    #[trigger] ids_before[kk],
                                );
                                assert(ids_before[kk] == base + kk);
                                assert(ids_before[kk] != id);
                                assert(crate::oracle::decimal_name(ids_before[kk]) != nm);
                                assert(false);
                            }
                            assert((base + k as int) as usize == id);
                            assert(old(self).registry().has_name(
                                crate::oracle::decimal_name((base + k as int) as usize),
                            ));
                        }
                    }
                    return Err(e);
                },
            }
            k += 1;
        }
        Ok(ids)
    }

    /// The handle of the variable with this name, or `NotFound`.
    pub fn lookup(&self, name: &String) -> (r: Result<usize, Error>)
        requires
            self.inv(),
        ensures
            self.registry().has_name(name@) ==> (r matches Ok(i) && i
                == self.registry().index_of(name@)),
            !self.registry().has_name(name@) ==> r == Err::<usize, Error>(Error::NotFound),
    {
        self.registry.lookup(name)
    }

    /// The domain of a declared variable.
    pub fn domain_of(&self, i: usize) -> (d: Domain)
        requires
            self.inv(),
            i < self.num_vars(),
        ensures
            d == self.registry().domains()[i as int],
    {
        self.registry.domain_of(i)
    }

    /// Number of declared variables.
    pub fn var_count(&self) -> (n: usize)
        requires
            self.inv(),
        ensures
            n == self.num_vars(),
    {
        self.registry.len()
    }

    /// Number of currently active constraints.
    pub fn trail_len(&self) -> (n: usize)
        ensures
            n == self.trail().len(),
    {
        self.trail.len()
    }

    /// Number of open checkpoints.
    pub fn depth(&self) -> (n: usize)
        ensures
            n == self.frames().len(),
    {
        self.frames.len()
    }

    /// Assert a constraint.  A constraint over undeclared variables is a
    /// programming error, excluded by precondition; asserting itself always
    /// succeeds.
    pub fn assert_expr(&mut self, e: Expr)
        requires
            old(self).inv(),
            e.wf(old(self).num_vars()),
        ensures
            final(self).inv(),
            final(self).registry() == old(self).registry(),
            final(self).trail() == old(self).trail().push(e),
            final(self).frames() == old(self).frames(),
            !final(self).model_ready(),
    {
        let f = translate(&self.consts, &e);
        oracle::solver_assert(&self.solver, &f);
        self.trail.push(e);
        self.model_fresh = false;
    }

    /// Open a checkpoint at the current top of the trail.
    pub fn push(&mut self)
        requires
            old(self).inv(),
        ensures
            final(self).inv(),
            final(self).registry() == old(self).registry(),
            final(self).trail() == old(self).trail(),
            final(self).frames() == old(self).frames().push(
                old(self).trail().len() as usize,
            ),
            !final(self).model_ready(),
    {
        oracle::solver_push(&self.solver);
        let mark = self.trail.len();
        self.frames.push(mark);
        self.model_fresh = false;
    }

    /// Discard the top `n` checkpoints and every constraint asserted since
    /// the `n`-th-innermost of them, restoring that earlier state exactly.
    /// Popping more checkpoints than are open is an `UnbalancedStack` error
    /// and changes nothing.
    pub fn pop(&mut self, n: usize) -> (r: Result<(), Error>)
        requires
            old(self).inv(),
        ensures
            final(self).inv(),
            final(self).registry() == old(self).registry(),
            n > old(self).frames().len() ==> {
                &&& r == Err::<(), Error>(Error::UnbalancedStack)
                &&& final(self).trail() == old(self).trail()
                &&& final(self).frames() == old(self).frames()
                &&& final(self).model_ready() == old(self).model_ready()
            },
            n <= old(self).frames().len() ==> {
                &&& r == Ok::<(), Error>(())
                &&& final(self).frames() == old(self).frames().take(
                    old(self).frames().len() - n,
                )
                &&& (n == 0 ==> final(self).trail() == old(self).trail())
                &&& (n > 0 ==> final(self).trail() == old(self).trail().take(
                    old(self).frames()[old(self).frames().len() - n] as int,
                ))
                &&& (n > 0 ==> !final(self).model_ready())
                &&& (n == 0 ==> final(self).model_ready() == old(self).model_ready())
            },
    {
        if n > self.frames.len() {
            return Err(Error::UnbalancedStack);
        }
        if n == 0 {
            proof {
                assert(self.frames@ =~= old(self).frames@.take(
                    old(self).frames@.len() as int,
                ));
            }
            return Ok(());
        }
        let ghost f0 = self.frames@;
        let ghost t0 = self.trail@;
        let mut i: usize = 0;
        while i < n
            invariant
                0 < n <= f0.len(),
                i <= n,
                self.inv(),
                self.registry == old(self).registry,
                self.solver == old(self).solver,
                self.consts == old(self).consts,
                f0 == old(self).frames@,
                t0 == old(self).trail@,
                forall|k1: int, k2: int| 0 <= k1 < k2 < f0.len() ==> f0[k1] <= f0[k2],
                forall|k: int| 0 <= k < f0.len() ==> (#[trigger] f0[k]) <= t0.len(),
                self.frames@ == f0.take(f0.len() - i),
                i == 0 ==> self.trail@ == t0,
                i > 0 ==> self.trail@ == t0.take(f0[f0.len() - i] as int),
            decreases n - i,
        {
            let mark = match self.frames.pop() {
                Some(m) => m,
                None => {
                    proof {
                        assert(false);
                    }
                    return Err(Error::UnbalancedStack);
                },
            };
            proof {
                assert(self.frames@ =~= f0.take(f0.len() - (i + 1)));
                assert(mark == f0[f0.len() - (i + 1)]);
            }
            let ghost t_before = self.trail@;
            self.trail.truncate(mark);
            proof {
                if i > 0 {
                    let prev = f0[f0.len() - i] as int;
                    assert(mark <= prev);
                    assert(t_before == t0.take(prev));
                    assert(self.trail@ =~= t0.take(mark as int));
                } else {
                    assert(self.trail@ =~= t0.take(mark as int));
                }
            }
            oracle::solver_pop_one(&self.solver);
            i += 1;
        }
        self.model_fresh = false;
        Ok(())
    }

    /// Ask the oracle whether the active constraints are satisfiable.  All
    /// three outcomes are possible; the session state is unchanged, and a
    /// model may be read exactly when the answer is `Sat`.
    pub fn check(&mut self) -> (r: CheckResult)
        requires
            old(self).inv(),
        ensures
            final(self).inv(),
            final(self).registry() == old(self).registry(),
            final(self).trail() == old(self).trail(),
            final(self).frames() == old(self).frames(),
            final(self).model_ready() == (r == CheckResult::Sat),
    {
        let r = oracle::solver_check(&self.solver);
        self.model_fresh = matches!(r, CheckResult::Sat);
        r
    }

    /// Read the model of the last `Sat` check into an assignment, one value
    /// per declared variable, each checked against its declared domain.
    /// Calling this without a fresh `Sat` result is a `NoModelAvailable`
    /// error — that kind reports session misuse and nothing else; a variable
    /// the oracle cannot value is `Unbound`; a value outside its declared
    /// domain is an `OutOfDomain` oracle-contract violation, never silently
    /// coerced; an oracle yielding no model at all after `Sat` is an
    /// `OracleViolation`.
    pub fn solution(&self) -> (r: Result<Assignment, Error>)
        requires
            self.inv(),
        ensures
            (match r {
                Ok(a) => self.model_ready() && a.wf(self.registry().domains()),
                Err(e) => {
                    &&& (e == Error::NoModelAvailable <==> !self.model_ready())
                    &&& (e == Error::NoModelAvailable || e == Error::Unbound || e
                        == Error::OutOfDomain || e == Error::OracleViolation)
                },
            }),
    {
        if !self.model_fresh {
            return Err(Error::NoModelAvailable);
        }
        let m = match oracle::solver_get_model(&self.solver) {
            Some(m) => m,
            None => {
                return Err(Error::OracleViolation);
            },
        };
        let n = self.consts.len();
        let mut values: Vec<Value> = Vec::new();
        let mut i: usize = 0;
        while i < n
            invariant
                self.inv(),
                self.model_fresh,
                n == self.consts@.len(),
                i <= n,
                values@.len() == i,
                forall|j: int| 0 <= j < i ==> value_in_domain(
                    #[trigger] values@[j],
                    self.registry().domains()[j],
                ),
            decreases n - i,
        {
            let v = match &self.consts[i] {
                OracleVar::B(c) => {
                    let ev = match oracle::model_eval_bool(&m, c) {
                        Some(ev) => ev,
                        None => {
                            return Err(Error::Unbound);
                        },
                    };
                    match oracle::bool_value(&ev) {
                        Some(b) => Value::Bool(b),
                        None => {
                            return Err(Error::Unbound);
                        },
                    }
                },
                OracleVar::I(c) => {
                    let ev = match oracle::model_eval_int(&m, c) {
                        Some(ev) => ev,
                        None => {
                            return Err(Error::Unbound);
                        },
                    };
                    match oracle::int_value(&ev) {
                        Some(x) => Value::Int(x),
                        None => {
                            return Err(Error::Unbound);
                        },
                    }
                },
            };
            let d = self.registry.domain_of(i);
            if !crate::domain::check_value_in_domain(&v, &d) {
                return Err(Error::OutOfDomain);
            }
            values.push(v);
            i += 1;
        }
        Ok(Assignment { values })
    }

    /// Whether an assignment satisfies every currently active constraint,
    /// judged by the crate's own evaluator.  The drivers use this to hold
    /// each oracle model to the constraints it was asked to satisfy.
    pub fn satisfies_trail(&self, a: &Assignment) -> (r: bool)
        requires
            self.inv(),
            a.values@.len() == self.num_vars(),
        ensures
            r == sat_all(self.trail(), a.values@),
    {
        let n = self.trail.len();
        let mut i: usize = 0;
        while i < n
            invariant
                self.inv(),
                a.values@.len() == self.num_vars(),
                n == self.trail@.len(),
                i <= n,
                forall|j: int| 0 <= j < i ==> (#[trigger] self.trail@[j]).eval(a.values@),
            decreases n - i,
        {
            if !eval_expr(&self.trail[i], &a.values) {
                proof {
                    assert(!self.trail@[i as int].eval(a.values@));
                }
                return false;
            }
            i += 1;
        }
        true
    }
}

/// Build the oracle-side formula for a constraint.  The mapping from the
/// constraint language into the oracle's terms is part of the trusted
/// boundary: each node goes through one trusted constructor.
fn translate(consts: &Vec<OracleVar>, e: &Expr) -> z3::ast::Bool
    requires
        e.wf(consts@.len() as nat),
    decreases *e,
{
    match e {
        Expr::Const(b) => oracle::mk_bool_lit(*b),
        Expr::Var(i) => match &consts[*i] {
            OracleVar::B(c) => oracle::clone_bool(c),
            OracleVar::I(_) => oracle::mk_bool_lit(false),
        },
        Expr::Not(x) => {
            let t = translate(consts, x);
            oracle::mk_not(&t)
        },
        Expr::And(x, y) => {
            let a = translate(consts, x);
            let b = translate(consts, y);
            oracle::mk_and(&a, &b)
        },
        Expr::Or(x, y) => {
            let a = translate(consts, x);
            let b = translate(consts, y);
            oracle::mk_or(&a, &b)
        },
        Expr::Iff(x, y) => {
            let a = translate(consts, x);
            let b = translate(consts, y);
            oracle::mk_iff(&a, &b)
        },
        Expr::IntEq(i, k) => match &consts[*i] {
            OracleVar::I(c) => {
                let kk = oracle::mk_int_lit(*k);
                oracle::mk_int_eq(c, &kk)
            },
            OracleVar::B(_) => oracle::mk_bool_lit(0i64 == *k),
        },
        Expr::SumCmp(vs, op, k) => {
            let mut terms: Vec<z3::ast::Int> = Vec::new();
            let mut j: usize = 0;
            while j < vs.len()
                invariant
                    crate::expr::vars_below(vs@, consts@.len() as nat),
                    j <= vs@.len(),
                    terms@.len() == j,
                decreases vs@.len() - j,
            {
                let t = match &consts[vs[j]] {
                    OracleVar::I(c) => oracle::clone_int(c),
                    OracleVar::B(_) => oracle::mk_int_lit(0),
                };
                terms.push(t);
                j += 1;
            }
            // The empty sum is the literal zero, matching its spec meaning.
            let s = if terms.len() == 0 {
                oracle::mk_int_lit(0)
            } else {
                oracle::mk_sum(&terms)
            };
            let kk = oracle::mk_int_lit(*k);
            match op {
                crate::expr::Cmp::Le => oracle::mk_int_le(&s, &kk),
                crate::expr::Cmp::Lt => oracle::mk_int_lt(&s, &kk),
                crate::expr::Cmp::Ge => oracle::mk_int_ge(&s, &kk),
                crate::expr::Cmp::Eq => oracle::mk_int_eq(&s, &kk),
            }
        },
    }
}

/// Law: the push/pop discipline is exactly reversible.  If a checkpoint is
/// opened at trail length `mark` (as `push` records) and any constraints
/// `es` are asserted after it, discarding that checkpoint (as `pop`
/// promises) yields back exactly the trail and checkpoint stack from before
/// the push — no constraint asserted before the push is ever removed.
pub proof fn lemma_push_pop_reversible(t0: Seq<Expr>, f0: Seq<usize>, es: Seq<Expr>, mark: usize)
    requires
        mark == t0.len(),
    ensures
        (t0 + es).take(f0.push(mark).last() as int) == t0,
        f0.push(mark).take(f0.push(mark).len() - 1) == f0,
{
    assert((t0 + es).take(mark as int) =~= t0);
    assert(f0.push(mark).take(f0.len() as int) =~= f0);
}

} // verus!
