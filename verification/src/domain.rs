//! Variable domains and concrete values.

use vstd::prelude::*;

verus! {

/// The domain a decision variable ranges over: boolean, or a bounded integer
/// with inclusive lower and upper bound.
#[derive(Clone, Copy, Debug, PartialEq, Eq, Structural)]
pub enum Domain {
    Boolean,
    BoundedInt(i64, i64),
}

impl Domain {
    /// A domain is well formed when an integer domain has `min <= max`.
    pub open spec fn wf(self) -> bool {
        match self {
            Domain::Boolean => true,
            Domain::BoundedInt(lo, hi) => lo <= hi,
        }
    }

    /// Runtime counterpart of [`Domain::wf`].
    pub fn is_wf(&self) -> (r: bool)
        ensures
            r == self.wf(),
    {
        match self {
            Domain::Boolean => true,
            Domain::BoundedInt(lo, hi) => lo <= hi,
        }
    }
}

/// A concrete value a variable can take in a model.
#[derive(Clone, Copy, Debug, PartialEq, Eq, Structural)]
pub enum Value {
    Bool(bool),
    Int(i64),
}

impl Value {
    /// Whether this value is the boolean `true`.  Integer values never count
    /// as true; well-sorted constraints only apply this to boolean values.
    pub open spec fn is_true(self) -> bool {
        self == Value::Bool(true)
    }

    /// The integer reading of a value; boolean values read as zero.
    /// Well-sorted constraints only apply this to integer values.
    pub open spec fn as_int(self) -> int {
        match self {
            Value::Bool(_) => 0,
            Value::Int(v) => v as int,
        }
    }
}

/// Whether a value lies in a domain.
pub open spec fn value_in_domain(v: Value, d: Domain) -> bool {
    match d {
        Domain::Boolean => v is Bool,
        Domain::BoundedInt(lo, hi) => match v {
            Value::Int(x) => lo <= x <= hi,
            Value::Bool(_) => false,
        },
    }
}

/// A concrete assignment of a value to every declared variable, extracted
/// from one satisfying solution.  It is only meaningful for the session
/// state at the moment of the successful check it was extracted from.
pub struct Assignment {
    pub values: Vec<Value>,
}

impl Assignment {
    /// The assignment covers exactly the declared variables, each value
    /// inside its declared domain.
    pub open spec fn wf(self, doms: Seq<Domain>) -> bool {
        &&& self.values@.len() == doms.len()
        &&& forall|i: int| 0 <= i < doms.len()
            ==> value_in_domain(#[trigger] self.values@[i], doms[i])
    }

    /// The value of one variable.
    pub fn get(&self, i: usize) -> (v: Value)
        requires
            i < self.values@.len(),
        ensures
            v == self.values@[i as int],
    {
        self.values[i]
    }

    /// Number of variables covered.
    pub fn len(&self) -> (n: usize)
        ensures
            n == self.values@.len(),
    {
        self.values.len()
    }

    /// Whether two assignments give every variable the same value.
    pub fn same_as(&self, other: &Assignment) -> (r: bool)
        ensures
            r == (self.values@ == other.values@),
    {
        if self.values.len() != other.values.len() {
            proof {
                assert(self.values@ != other.values@);
            }
            return false;
        }
        let n = self.values.len();
        let mut i: usize = 0;
        while i < n
            invariant
                n == self.values@.len(),
                n == other.values@.len(),
                i <= n,
                forall|j: int| 0 <= j < i ==> self.values@[j] == other.values@[j],
            decreases n - i,
        {
            if self.values[i] != other.values[i] {
                proof {
                    assert(self.values@[i as int] != other.values@[i as int]);
                }
                return false;
            }
            i += 1;
        }
        proof {
            assert(self.values@ =~= other.values@);
        }
        true
    }
}

/// Runtime counterpart of [`value_in_domain`].
pub fn check_value_in_domain(v: &Value, d: &Domain) -> (r: bool)
    ensures
        r == value_in_domain(*v, *d),
{
    match d {
        Domain::Boolean => matches!(v, Value::Bool(_)),
        Domain::BoundedInt(lo, hi) => match v {
            Value::Int(x) => *lo <= *x && *x <= *hi,
            Value::Bool(_) => false,
        },
    }
}

} // verus!
