//! The trusted boundary to the external decision procedure.
//!
//! Everything in this module is believed, not proved: each wrapper makes one
//! call into the `z3` crate, and its doc comment names the function relied
//! on.  The oracle's formula values are opaque to verification; no contract
//! here claims anything about what the oracle decides.  The verified drivers
//! therefore re-check every model the oracle hands back with the crate's own
//! evaluator before relying on it.

use vstd::prelude::*;
use z3::ast::Ast;
use crate::session::CheckResult;

verus! {

#[verifier::external_type_specification]
#[verifier::external_body]
pub struct ExSolver(z3::Solver);

#[verifier::external_type_specification]
#[verifier::external_body]
pub struct ExModel(z3::Model);

#[verifier::external_type_specification]
#[verifier::external_body]
pub struct ExBool(z3::ast::Bool);

#[verifier::external_type_specification]
#[verifier::external_body]
pub struct ExInt(z3::ast::Int);

/// The decimal name generated for a variable index; a function of the index
/// alone.
pub uninterp spec fn decimal_name(id: usize) -> Seq<char>;

/// Relies on std's formatter: renders a variable index as a short decimal
/// name.  Distinct indices render to distinct names, since the decimal
/// digits of distinct numbers differ.
#[verifier::external_body]
pub(crate) fn auto_name(id: usize) -> (r: String)
    ensures
        r@ == decimal_name(id),
        forall|j: usize| j != id ==> decimal_name(j) != r@,
{
    format!("v{}", id)
}

/// Relies on z3::Solver::new: a fresh solver with an empty assertion stack.
#[verifier::external_body]
pub(crate) fn solver_new() -> z3::Solver {
    z3::Solver::new()
}

/// Relies on z3::Solver::assert: adds one formula to the current scope.
#[verifier::external_body]
pub(crate) fn solver_assert(s: &z3::Solver, c: &z3::ast::Bool) {
    s.assert(c);
}

/// Relies on z3::Solver::push: opens one backtracking scope.
#[verifier::external_body]
pub(crate) fn solver_push(s: &z3::Solver) {
    s.push();
}

/// Relies on z3::Solver::pop: discards the innermost backtracking scope.
/// The session only calls this with at least one scope open, as the
/// underlying procedure requires.
#[verifier::external_body]
pub(crate) fn solver_pop_one(s: &z3::Solver) {
    s.pop(1);
}

/// Relies on z3::Solver::check: asks the oracle whether the asserted
/// formulas are satisfiable.  All three outcomes are possible on any input.
#[verifier::external_body]
pub(crate) fn solver_check(s: &z3::Solver) -> CheckResult {
    match s.check() {
        z3::SatResult::Sat => CheckResult::Sat,
        z3::SatResult::Unsat => CheckResult::Unsat,
        z3::SatResult::Unknown => CheckResult::Unknown,
    }
}

/// Relies on z3::Solver::get_model: the model of the last successful check,
/// if one is available.
#[verifier::external_body]
pub(crate) fn solver_get_model(s: &z3::Solver) -> Option<z3::Model> {
    s.get_model()
}

/// Relies on z3::ast::Bool::new_const: a boolean constant, named after the
/// variable's registry index for diagnostics.
#[verifier::external_body]
pub(crate) fn mk_bool_const(id: usize) -> z3::ast::Bool {
    z3::ast::Bool::new_const(format!("v{}", id))
}

/// Relies on z3::ast::Int::new_const: an integer constant, named after the
/// variable's registry index for diagnostics.
#[verifier::external_body]
pub(crate) fn mk_int_const(id: usize) -> z3::ast::Int {
    z3::ast::Int::new_const(format!("v{}", id))
}

/// Relies on z3::ast::Bool::from_bool: the formula `true` or `false`.
#[verifier::external_body]
pub(crate) fn mk_bool_lit(b: bool) -> z3::ast::Bool {
    z3::ast::Bool::from_bool(b)
}

/// Relies on z3::ast::Bool::not: the negation of a formula.
#[verifier::external_body]
pub(crate) fn mk_not(a: &z3::ast::Bool) -> z3::ast::Bool {
    a.not()
}

/// Relies on z3::ast::Bool::and: the conjunction of two formulas.
#[verifier::external_body]
pub(crate) fn mk_and(a: &z3::ast::Bool, b: &z3::ast::Bool) -> z3::ast::Bool {
    z3::ast::Bool::and(&[a.clone(), b.clone()])
}

/// Relies on z3::ast::Bool::or: the disjunction of two formulas.
#[verifier::external_body]
pub(crate) fn mk_or(a: &z3::ast::Bool, b: &z3::ast::Bool) -> z3::ast::Bool {
    z3::ast::Bool::or(&[a.clone(), b.clone()])
}

/// Relies on z3::ast::Bool::iff: the equivalence of two formulas.
#[verifier::external_body]
pub(crate) fn mk_iff(a: &z3::ast::Bool, b: &z3::ast::Bool) -> z3::ast::Bool {
    a.iff(b)
}

/// Relies on z3::ast::Int::from_i64: an integer literal term.
#[verifier::external_body]
pub(crate) fn mk_int_lit(k: i64) -> z3::ast::Int {
    z3::ast::Int::from_i64(k)
}

/// Relies on z3::ast::Ast::eq: the equation of two integer terms.
#[verifier::external_body]
pub(crate) fn mk_int_eq(a: &z3::ast::Int, b: &z3::ast::Int) -> z3::ast::Bool {
    Ast::eq(a, b)
}

/// Relies on z3::ast::Int::le: the comparison `a <= b`.
#[verifier::external_body]
pub(crate) fn mk_int_le(a: &z3::ast::Int, b: &z3::ast::Int) -> z3::ast::Bool {
    a.le(b)
}

/// Relies on z3::ast::Int::lt: the comparison `a < b`.
#[verifier::external_body]
pub(crate) fn mk_int_lt(a: &z3::ast::Int, b: &z3::ast::Int) -> z3::ast::Bool {
    a.lt(b)
}

/// Relies on z3::ast::Int::ge: the comparison `a >= b`.
#[verifier::external_body]
pub(crate) fn mk_int_ge(a: &z3::ast::Int, b: &z3::ast::Int) -> z3::ast::Bool {
    a.ge(b)
}

/// Relies on z3::ast::Int::add: the sum of a list of integer terms.  The
/// underlying constructor requires at least one argument, so the empty list
/// is excluded here; callers emit a literal zero for an empty sum.
#[verifier::external_body]
pub(crate) fn mk_sum(xs: &Vec<z3::ast::Int>) -> z3::ast::Int
    requires
        xs@.len() >= 1,
{
    z3::ast::Int::add(xs.as_slice())
}

/// Relies on z3::ast::Bool's Clone: another handle to the same formula.
#[verifier::external_body]
pub(crate) fn clone_bool(a: &z3::ast::Bool) -> z3::ast::Bool {
    a.clone()
}

/// Relies on z3::ast::Int's Clone: another handle to the same term.
#[verifier::external_body]
pub(crate) fn clone_int(a: &z3::ast::Int) -> z3::ast::Int {
    a.clone()
}

/// Relies on z3::Model::eval with completion: the model's value for a
/// boolean term, completed to some value where the model leaves it open.
#[verifier::external_body]
pub(crate) fn model_eval_bool(m: &z3::Model, a: &z3::ast::Bool) -> Option<z3::ast::Bool> {
    m.eval(a, true)
}

/// Relies on z3::Model::eval with completion: the model's value for an
/// integer term, completed to some value where the model leaves it open.
#[verifier::external_body]
pub(crate) fn model_eval_int(m: &z3::Model, a: &z3::ast::Int) -> Option<z3::ast::Int> {
    m.eval(a, true)
}

/// Relies on z3::ast::Bool::as_bool: the literal truth value of a formula,
/// if it is one.
#[verifier::external_body]
pub(crate) fn bool_value(a: &z3::ast::Bool) -> Option<bool> {
    a.as_bool()
}

/// Relies on z3::ast::Int::as_i64: the literal value of an integer term, if
/// it is one and fits the machine word.
#[verifier::external_body]
pub(crate) fn int_value(a: &z3::ast::Int) -> Option<i64> {
    a.as_i64()
}

} // verus!
