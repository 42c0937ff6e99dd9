//! The variable registry: allocation and lookup of named decision variables.
//!
//! A variable is a dense index into the registry; its name and domain are
//! recorded at declaration.  Identity is by name: the registry never holds
//! two variables with the same name, and it only grows.

use vstd::prelude::*;
use crate::Error;
use crate::domain::Domain;

verus! {

/// Registered decision variables: parallel name and domain tables, indexed
/// by the variable handle.
pub struct Registry {
    names: Vec<String>,
    domains: Vec<Domain>,
}

impl Registry {
    /// The declared domains, by variable index.
    pub closed spec fn domains(self) -> Seq<Domain> {
        self.domains@
    }

    /// The declared names, by variable index.
    pub closed spec fn names(self) -> Seq<Seq<char>> {
        self.names@.map_values(|s: String| s@)
    }

    /// Number of declared variables.
    pub open spec fn num_vars(self) -> nat {
        self.domains().len()
    }

    /// Well-formedness: one name and one wf domain per variable, and names
    /// pairwise distinct.
    pub open spec fn wf(self) -> bool {
        &&& self.names().len() == self.domains().len()
        &&& (forall|i: int| 0 <= i < self.domains().len()
            ==> (#[trigger] self.domains()[i]).wf())
        &&& (forall|i: int, j: int|
            0 <= i < j < self.names().len() ==> self.names()[i] != self.names()[j])
    }

    /// Whether some variable carries this name.
    pub open spec fn has_name(self, name: Seq<char>) -> bool {
        exists|i: int| 0 <= i < self.names().len() && (#[trigger] self.names()[i]) == name
    }

    /// The index of the variable carrying this name (meaningful only when
    /// `has_name` holds; unique by well-formedness).
    pub open spec fn index_of(self, name: Seq<char>) -> int {
        choose|i: int| 0 <= i < self.names().len() && (#[trigger] self.names()[i]) == name
    }

    /// An empty registry.
    pub fn new() -> (r: Registry)
        ensures
            r.wf(),
            r.num_vars() == 0,
            r.names().len() == 0,
    {
        Registry { names: Vec::new(), domains: Vec::new() }
    }

    /// Number of declared variables.
    pub fn len(&self) -> (n: usize)
        requires
            self.wf(),
        ensures
            n == self.num_vars(),
    {
        self.domains.len()
    }

    /// The domain of a declared variable.
    pub fn domain_of(&self, i: usize) -> (d: Domain)
        requires
            self.wf(),
            i < self.num_vars(),
        ensures
            d == self.domains()[i as int],
    {
        self.domains[i]
    }

    /// The index of the variable with this name, or `NotFound`.
    pub fn lookup(&self, name: &String) -> (r: Result<usize, Error>)
        requires
            self.wf(),
        ensures
            self.has_name(name@) ==> (r matches Ok(i) && i == self.index_of(name@)),
            !self.has_name(name@) ==> r == Err::<usize, Error>(Error::NotFound),
    {
        let n = self.names.len();
        let mut i: usize = 0;
        while i < n
            invariant
                n == self.names().len(),
                self.wf(),
                i <= n,
                forall|j: int| 0 <= j < i ==> (#[trigger] self.names()[j]) != name@,
            decreases n - i,
        {
            if self.names[i].eq(name) {
                proof {
                    assert(self.names()[i as int] == name@);
                    assert(forall|j: int|
                        0 <= j < self.names().len() && (#[trigger] self.names()[j]) == name@
                            ==> j == i);
                }
                return Ok(i);
            }
            i += 1;
        }
        Err(Error::NotFound)
    }

    /// Declare a fresh variable with this name and domain, returning its
    /// handle.  Fails with `InvalidDomain` on a malformed domain and with
    /// `DuplicateName` when the name is already taken; the registry is then
    /// unchanged.
    pub fn declare(&mut self, name: String, d: Domain) -> (r: Result<usize, Error>)
        requires
            old(self).wf(),
        ensures
            final(self).wf(),
            !d.wf() ==> r == Err::<usize, Error>(Error::InvalidDomain)
                && *final(self) == *old(self),
            d.wf() && old(self).has_name(name@) ==> r == Err::<usize, Error>(
                Error::DuplicateName,
            ) && *final(self) == *old(self),
            d.wf() && !old(self).has_name(name@) ==> {
                &&& r matches Ok(id) && id == old(self).num_vars()
                &&& final(self).names() == old(self).names().push(name@)
                &&& final(self).domains() == old(self).domains().push(d)
            },
    {
        if !d.is_wf() {
            return Err(Error::InvalidDomain);
        }
        match self.lookup(&name) {
            Ok(_) => Err(Error::DuplicateName),
            Err(_) => {
                let id = self.domains.len();
                self.names.push(name);
                self.domains.push(d);
                proof {
                    assert(self.names() =~= old(self).names().push(name@));
                    assert(self.domains() =~= old(self).domains().push(d));
                    assert forall|i: int, j: int|
                        0 <= i < j < self.names().len() implies self.names()[i]
                        != self.names()[j] by {
                        if j == self.names().len() - 1 {
                            assert(self.names()[i] == old(self).names()[i]);
                        }
                    }
                }
                Ok(id)
            },
        }
    }
}

/// After one declaration, the registry knows exactly the old names plus the
/// new one.
pub proof fn lemma_has_name_after(r0: Registry, r1: Registry, nm: Seq<char>)
    requires
        r1.names() == r0.names().push(nm),
    ensures
        forall|x: Seq<char>| #[trigger] r1.has_name(x) == (r0.has_name(x) || x == nm),
{
    assert forall|x: Seq<char>| #[trigger] r1.has_name(x) == (r0.has_name(x) || x == nm) by {
        if r1.has_name(x) {
            let i = choose|i: int| 0 <= i < r1.names().len() && (#[trigger] r1.names()[i])
                == x;
            if i < r0.names().len() {
                assert(r0.names()[i] == x);
            }
        }
        if r0.has_name(x) {
            let i = choose|i: int| 0 <= i < r0.names().len() && (#[trigger] r0.names()[i])
                == x;
            assert(r1.names()[i] == x);
        }
        if x == nm {
            assert(r1.names()[r0.names().len() as int] == x);
        }
    }
}

/// Law: a name round-trips to the same handle.  After a successful
/// declaration of `name`, the registry maps `name` back to exactly the handle
/// the declaration returned — so a lookup finds it, and a second declaration
/// of the same name fails with `DuplicateName` by the contract of `declare`.
pub proof fn lemma_name_round_trip(r0: Registry, r1: Registry, name: Seq<char>, d: Domain)
    requires
        r0.wf(),
        d.wf(),
        !r0.has_name(name),
        r1.names() == r0.names().push(name),
        r1.domains() == r0.domains().push(d),
    ensures
        r1.has_name(name),
        r1.index_of(name) == r0.num_vars(),
{
    let id = r0.names().len() as int;
    assert(r1.names()[id] == name);
    assert(r1.has_name(name));
    let w = r1.index_of(name);
    assert(0 <= w < r1.names().len() && r1.names()[w] == name);
    if w != id {
        assert(r0.names()[w] == r1.names()[w]);
        assert(r0.has_name(name));
    }
}

} // verus!
