//! The constraint language and its semantics.
//!
//! A [`Expr`] is a boolean-valued formula over decision variables, referred to
//! by their registry index.  Its meaning is fixed by the spec function
//! [`Expr::eval`] over a sequence of concrete values, one per variable; the
//! runtime evaluator [`eval_expr`] is proved to agree with it.  Every
//! guarantee the drivers give rests on this semantics, never on the oracle.

use vstd::prelude::*;
use crate::domain::Value;

verus! {

/// Comparison operators for aggregate (sum) constraints.
#[derive(Clone, Copy, Debug, PartialEq, Eq, Structural)]
pub enum Cmp {
    Le,
    Lt,
    Ge,
    Eq,
}

/// A boolean-valued constraint over decision variables.
///
/// `Var(i)` reads the boolean variable with registry index `i`; `IntEq` and
/// `SumCmp` read integer variables.  `SumCmp(vs, op, k)` compares the sum of
/// the listed variables' values against the constant `k`.
pub enum Expr {
    Const(bool),
    Var(usize),
    Not(Box<Expr>),
    And(Box<Expr>, Box<Expr>),
    Or(Box<Expr>, Box<Expr>),
    Iff(Box<Expr>, Box<Expr>),
    IntEq(usize, i64),
    SumCmp(Vec<usize>, Cmp, i64),
}

/// Every index in `vars` is below `n`.
pub open spec fn vars_below(vars: Seq<usize>, n: nat) -> bool {
    forall|j: int| 0 <= j < vars.len() ==> (#[trigger] vars[j]) < n
}

/// The sum of the integer readings of the listed variables under `a`.
pub open spec fn sum_values(vars: Seq<usize>, a: Seq<Value>) -> int
    decreases vars.len(),
{
    if vars.len() == 0 {
        0
    } else {
        sum_values(vars.drop_last(), a) + a[vars.last() as int].as_int()
    }
}

/// The comparison denoted by a [`Cmp`].
pub open spec fn cmp_holds(op: Cmp, s: int, k: int) -> bool {
    match op {
        Cmp::Le => s <= k,
        Cmp::Lt => s < k,
        Cmp::Ge => s >= k,
        Cmp::Eq => s == k,
    }
}

impl Expr {
    /// The meaning of a constraint under an assignment of values to
    /// variable indices.
    pub open spec fn eval(self, a: Seq<Value>) -> bool
        decreases self,
    {
        match self {
            Expr::Const(b) => b,
            Expr::Var(i) => a[i as int].is_true(),
            Expr::Not(e) => !e.eval(a),
            Expr::And(x, y) => x.eval(a) && y.eval(a),
            Expr::Or(x, y) => x.eval(a) || y.eval(a),
            Expr::Iff(x, y) => x.eval(a) == y.eval(a),
            Expr::IntEq(i, k) => a[i as int].as_int() == k,
            Expr::SumCmp(vs, op, k) => cmp_holds(op, sum_values(vs@, a), k as int),
        }
    }

    /// Well-formedness against a variable count: every index in range, and
    /// aggregate lists short enough that a machine sum cannot overflow.
    pub open spec fn wf(self, n: nat) -> bool
        decreases self,
    {
        match self {
            Expr::Const(_) => true,
            Expr::Var(i) => i < n,
            Expr::Not(e) => e.wf(n),
            Expr::And(x, y) => x.wf(n) && y.wf(n),
            Expr::Or(x, y) => x.wf(n) && y.wf(n),
            Expr::Iff(x, y) => x.wf(n) && y.wf(n),
            Expr::IntEq(i, _) => i < n,
            Expr::SumCmp(vs, _, _) => vars_below(vs@, n) && vs.len() < 0x1_0000_0000,
        }
    }
}

/// All constraints in a sequence hold under `a`.
pub open spec fn sat_all(es: Seq<Expr>, a: Seq<Value>) -> bool {
    forall|i: int| 0 <= i < es.len() ==> (#[trigger] es[i]).eval(a)
}

/// All constraints in a sequence are well formed against `n` variables.
pub open spec fn wf_all(es: Seq<Expr>, n: nat) -> bool {
    forall|i: int| 0 <= i < es.len() ==> (#[trigger] es[i]).wf(n)
}

/// Appending one constraint to a batch conjoins its meaning.
pub proof fn lemma_sat_all_push(es: Seq<Expr>, e: Expr, a: Seq<Value>)
    ensures
        sat_all(es.push(e), a) == (sat_all(es, a) && e.eval(a)),
{
    if sat_all(es, a) && e.eval(a) {
        assert forall|i: int| 0 <= i < es.push(e).len() implies (#[trigger] es.push(e)[i]).eval(
            a,
        ) by {
            if i < es.len() {
                assert(es.push(e)[i] == es[i]);
            } else {
                assert(es.push(e)[i] == e);
            }
        }
    }
    if sat_all(es.push(e), a) {
        assert forall|i: int| 0 <= i < es.len() implies (#[trigger] es[i]).eval(a) by {
            assert(es.push(e)[i] == es[i]);
        }
        assert(es.push(e)[es.len() as int] == e);
    }
}

/// A later segment of the trail is satisfied when the whole trail is.
pub proof fn lemma_sat_all_subrange(es: Seq<Expr>, lo: int, hi: int, a: Seq<Value>)
    requires
        0 <= lo <= hi <= es.len(),
        sat_all(es, a),
    ensures
        sat_all(es.subrange(lo, hi), a),
{
    assert forall|i: int| 0 <= i < es.subrange(lo, hi).len() implies (#[trigger] es.subrange(
        lo,
        hi,
    )[i]).eval(a) by {
        assert(es.subrange(lo, hi)[i] == es[lo + i]);
    }
}

/// Well-formedness is monotone in the variable count: a constraint stays
/// well formed as further variables are declared.
pub proof fn lemma_wf_mono(e: Expr, n1: nat, n2: nat)
    requires
        e.wf(n1),
        n1 <= n2,
    ensures
        e.wf(n2),
    decreases e,
{
    match e {
        Expr::Not(x) => lemma_wf_mono(*x, n1, n2),
        Expr::And(x, y) => {
            lemma_wf_mono(*x, n1, n2);
            lemma_wf_mono(*y, n1, n2);
        },
        Expr::Or(x, y) => {
            lemma_wf_mono(*x, n1, n2);
            lemma_wf_mono(*y, n1, n2);
        },
        Expr::Iff(x, y) => {
            lemma_wf_mono(*x, n1, n2);
            lemma_wf_mono(*y, n1, n2);
        },
        _ => {},
    }
}

/// [`lemma_wf_mono`] lifted to a sequence of constraints.
pub proof fn lemma_wf_all_mono(es: Seq<Expr>, n1: nat, n2: nat)
    requires
        wf_all(es, n1),
        n1 <= n2,
    ensures
        wf_all(es, n2),
{
    assert forall|i: int| 0 <= i < es.len() implies (#[trigger] es[i]).wf(n2) by {
        lemma_wf_mono(es[i], n1, n2);
    }
}

/// Runtime check of [`Expr::wf`].
pub fn check_wf(e: &Expr, n: usize) -> (r: bool)
    ensures
        r == e.wf(n as nat),
    decreases *e,
{
    match e {
        Expr::Const(_) => true,
        Expr::Var(i) => *i < n,
        Expr::Not(x) => check_wf(x, n),
        Expr::And(x, y) => check_wf(x, n) && check_wf(y, n),
        Expr::Or(x, y) => check_wf(x, n) && check_wf(y, n),
        Expr::Iff(x, y) => check_wf(x, n) && check_wf(y, n),
        Expr::IntEq(i, _) => *i < n,
        Expr::SumCmp(vs, _, _) => {
            proof {
                assert(e.wf(n as nat) == (vars_below(vs@, n as nat) && vs@.len()
                    < 0x1_0000_0000));
            }
            if vs.len() as u64 >= 0x1_0000_0000u64 {
                return false;
            }
            let mut j: usize = 0;
            while j < vs.len()
                invariant
                    j <= vs.len(),
                    forall|jj: int| 0 <= jj < j ==> (#[trigger] vs@[jj]) < n,
                    e.wf(n as nat) == (vars_below(vs@, n as nat) && vs@.len()
                        < 0x1_0000_0000),
                    vs@.len() < 0x1_0000_0000,
                decreases vs.len() - j,
            {
                if vs[j] >= n {
                    proof {
                        assert(vs@[j as int] >= n);
                        assert(!vars_below(vs@, n as nat));
                    }
                    return false;
                }
                j += 1;
            }
            true
        },
    }
}

/// Runtime sum of the integer readings of the listed variables.
pub fn sum_over(vs: &Vec<usize>, a: &Vec<Value>) -> (s: i128)
    requires
        vars_below(vs@, a@.len()),
        vs@.len() < 0x1_0000_0000,
    ensures
        s == sum_values(vs@, a@),
{
    let mut s: i128 = 0;
    let mut j: usize = 0;
    while j < vs.len()
        invariant
            j <= vs.len(),
            vars_below(vs@, a@.len()),
            vs@.len() < 0x1_0000_0000,
            s == sum_values(vs@.take(j as int), a@),
            -0x8000_0000_0000_0000i128 * (j as i128) <= s
                <= 0x8000_0000_0000_0000i128 * (j as i128),
        decreases vs.len() - j,
    {
        let v = match a[vs[j]] {
            Value::Bool(_) => 0i64,
            Value::Int(x) => x,
        };
        proof {
            assert(vs@.take(j + 1).drop_last() =~= vs@.take(j as int));
            assert(vs@.take(j + 1).last() == vs@[j as int]);
            assert(sum_values(vs@.take(j as int), a@)
                + a@[vs@[j as int] as int].as_int() == sum_values(vs@.take(j + 1), a@));
        }
        s = s + v as i128;
        j += 1;
    }
    proof {
        assert(vs@.take(vs@.len() as int) =~= vs@);
    }
    s
}

/// A fresh copy of an index list.
pub fn copy_indices(v: &Vec<usize>) -> (r: Vec<usize>)
    ensures
        r@ == v@,
{
    let mut r: Vec<usize> = Vec::new();
    let n = v.len();
    let mut i: usize = 0;
    while i < n
        invariant
            n == v@.len(),
            i <= n,
            r@ == v@.take(i as int),
        decreases n - i,
    {
        r.push(v[i]);
        proof {
            assert(r@ =~= v@.take(i + 1));
        }
        i += 1;
    }
    proof {
        assert(v@.take(n as int) =~= v@);
    }
    r
}

/// Runtime evaluator for constraints, proved to agree with [`Expr::eval`].
pub fn eval_expr(e: &Expr, a: &Vec<Value>) -> (r: bool)
    requires
        e.wf(a@.len()),
    ensures
        r == e.eval(a@),
    decreases *e,
{
    match e {
        Expr::Const(b) => *b,
        Expr::Var(i) => matches!(a[*i], Value::Bool(true)),
        Expr::Not(x) => !eval_expr(x, a),
        Expr::And(x, y) => eval_expr(x, a) && eval_expr(y, a),
        Expr::Or(x, y) => eval_expr(x, a) || eval_expr(y, a),
        Expr::Iff(x, y) => eval_expr(x, a) == eval_expr(y, a),
        Expr::IntEq(i, k) => match a[*i] {
            Value::Bool(_) => 0i64 == *k,
            Value::Int(x) => x == *k,
        },
        Expr::SumCmp(vs, op, k) => {
            let s = sum_over(vs, a);
            let kk = *k as i128;
            match op {
                Cmp::Le => s <= kk,
                Cmp::Lt => s < kk,
                Cmp::Ge => s >= kk,
                Cmp::Eq => s == kk,
            }
        },
    }
}

} // verus!
