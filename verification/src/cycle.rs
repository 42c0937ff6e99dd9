//! The closed-tour problem on a directed graph: assign every node a position
//! in a cycle of `n + 1` slots, the last slot repeating the first, with
//! consecutive slots joined by an edge of a caller-supplied adjacency
//! matrix.
//!
//! The grid is a flat block of boolean variables, slot `i` (of `n + 1`) and
//! node `j` at index `i * n + j`.  Each function's contract pins the meaning
//! of every asserted constraint over every assignment.

use vstd::prelude::*;
use crate::Error;
use crate::builder::{any_of, at_most_one, forbid_both, no_two_true, same_occupancy, some_true};
use crate::domain::{Domain, Value};
use crate::expr::{Expr, sat_all, vars_below};
use crate::session::Session;

verus! {

/// The variables of slot `i`, one per node.
pub open spec fn slot_vars(board: Seq<usize>, n: nat, i: int) -> Seq<usize> {
    Seq::new(n, |j: int| board[i * n + j])
}

/// The variables of node `j` over the first `n` slots.
pub open spec fn node_head_vars(board: Seq<usize>, n: nat, j: int) -> Seq<usize> {
    Seq::new(n, |i: int| board[i * n + j])
}

/// The variables of node `j` over the last `n` slots.
pub open spec fn node_tail_vars(board: Seq<usize>, n: nat, j: int) -> Seq<usize> {
    Seq::new(n, |i: int| board[(i + 1) * n + j])
}

/// The variables of node `j` over all `n + 1` slots.
pub open spec fn node_vars(board: Seq<usize>, n: nat, j: int) -> Seq<usize> {
    Seq::new(n + 1, |i: int| board[i * n + j])
}

/// The rows of an adjacency matrix, as sequences.
pub open spec fn adj_rows(adj: Vec<Vec<bool>>) -> Seq<Seq<bool>> {
    adj@.map_values(|r: Vec<bool>| r@)
}

/// Consecutive slots only hold edge-joined nodes: whenever node `j` sits in
/// slot `i` and node `k` in slot `i + 1`, the graph has the edge `j -> k`.
pub open spec fn adjacency_ok(board: Seq<usize>, n: nat, adj: Seq<Seq<bool>>, a: Seq<Value>)
    -> bool {
    forall|i: int, j: int, k: int| 0 <= i < n && 0 <= j < n && 0 <= k < n && !adj[j][k]
        ==> !(a[(#[trigger] board[i * n + j]) as int].is_true() && a[(#[trigger] board[(i + 1)
        * n + k]) as int].is_true())
}

/// `(i2, j2, k2)` comes lexicographically before `(i, j, k)`.
spec fn lex3_before(i2: int, j2: int, k2: int, i: int, j: int, k: int) -> bool {
    i2 < i || (i2 == i && (j2 < j || (j2 == j && k2 < k)))
}

/// [`adjacency_ok`] restricted to the triples lexicographically before
/// `(i, j, k)`.
spec fn adj_ok_upto(
    board: Seq<usize>,
    n: nat,
    adj: Seq<Seq<bool>>,
    a: Seq<Value>,
    i: int,
    j: int,
    k: int,
) -> bool {
    forall|i2: int, j2: int, k2: int| 0 <= i2 < n && 0 <= j2 < n && 0 <= k2 < n
        && lex3_before(i2, j2, k2, i, j, k) && !adj[j2][k2] ==> !(a[(#[trigger] board[i2 * n
        + j2]) as int].is_true() && a[(#[trigger] board[(i2 + 1) * n + k2]) as int].is_true())
}

/// The variable of one slot/node cell.
fn pcell(board: &Vec<usize>, n: usize, i: usize, j: usize) -> (v: usize)
    requires
        board@.len() == (n + 1) * n,
        n <= 0xffff,
        i <= n,
        j < n,
    ensures
        v == board@[i * n + j],
{
    proof {
        assert((n + 1) * n <= 0x10000 * 0xffff) by (nonlinear_arith)
            requires n <= 0xffff;
        assert(i * n + j < (n + 1) * n && i * n <= (n + 1) * n) by (nonlinear_arith)
            requires i <= n, j < n;
    }
    board[i * n + j]
}

/// Declare a fresh block of `(n + 1) * n` boolean slot/node variables.
/// Fails with `DuplicateName` only when a caller-declared name collides
/// with a generated decimal name; success is owed whenever none does.
pub fn cycle_board(s: &mut Session, n: usize) -> (r: Result<Vec<usize>, Error>)
    requires
        old(s).inv(),
        n <= 0xffff,
    ensures
        final(s).inv(),
        final(s).trail() == old(s).trail(),
        final(s).frames() == old(s).frames(),
        (match r {
            Ok(board) => {
                &&& board@.len() == (n + 1) * n
                &&& vars_below(board@, final(s).num_vars())
                &&& (forall|k: int| 0 <= k < (n + 1) * n ==> (#[trigger] board@[k]) == old(
                    s,
                ).num_vars() + k)
                &&& final(s).num_vars() == old(s).num_vars() + (n + 1) * n
                &&& (forall|k: int| 0 <= k < (n + 1) * n ==> final(s).registry().domains()[(
                #[trigger] board@[k]) as int] == Domain::Boolean)
            },
            Err(e) => e == Error::DuplicateName,
        }),
        (old(s).num_vars() + (n + 1) * n <= usize::MAX && (forall|k: int| 0 <= k < (n + 1)
            * n ==> !old(s).registry().has_name(
            #[trigger] crate::oracle::decimal_name((old(s).num_vars() + k) as usize),
        ))) ==> r is Ok,
{
    proof {
        assert((n + 1) * n <= 0x10000 * 0xffff) by (nonlinear_arith)
            requires n <= 0xffff;
    }
    let count = (n + 1) * n;
    match s.declare_block(count, Domain::Boolean) {
        Ok(board) => {
            proof {
                assert forall|k: int| 0 <= k < board@.len() implies (#[trigger] board@[k])
                    < s.num_vars() by {
                    assert(board@[k] == old(s).num_vars() + k);
                }
            }
            Ok(board)
        },
        Err(e) => {
            proof {
                assert(Domain::Boolean.wf());
            }
            Err(e)
        },
    }
}

/// The variables of one slot, as a vector.
fn collect_slot(board: &Vec<usize>, n: usize, i: usize) -> (sv: Vec<usize>)
    requires
        board@.len() == (n + 1) * n,
        n <= 0xffff,
        i <= n,
    ensures
        sv@ == slot_vars(board@, n as nat, i as int),
{
    let mut sv: Vec<usize> = Vec::new();
    let mut j: usize = 0;
    while j < n
        invariant
            board@.len() == (n + 1) * n,
            n <= 0xffff,
            i <= n,
            j <= n,
            sv@.len() == j,
            forall|jj: int| 0 <= jj < j ==> (#[trigger] sv@[jj]) == board@[i * n + jj],
        decreases n - j,
    {
        let v = pcell(board, n, i, j);
        sv.push(v);
        j += 1;
    }
    proof {
        assert(sv@ =~= slot_vars(board@, n as nat, i as int));
    }
    sv
}

/// The variables of one node over slots `from .. from + n`, as a vector.
fn collect_node(board: &Vec<usize>, n: usize, j: usize, from: usize, count: usize) -> (nv: Vec<
    usize,
>)
    requires
        board@.len() == (n + 1) * n,
        n <= 0xffff,
        j < n,
        from + count <= n + 1,
    ensures
        nv@.len() == count,
        forall|ii: int| 0 <= ii < count ==> (#[trigger] nv@[ii]) == board@[(from + ii) * n
            + j],
{
    let mut nv: Vec<usize> = Vec::new();
    let mut i: usize = 0;
    while i < count
        invariant
            board@.len() == (n + 1) * n,
            n <= 0xffff,
            j < n,
            from + count <= n + 1,
            i <= count,
            nv@.len() == i,
            forall|ii: int| 0 <= ii < i ==> (#[trigger] nv@[ii]) == board@[(from + ii) * n
                + j],
        decreases count - i,
    {
        let v = pcell(board, n, from + i, j);
        nv.push(v);
        i += 1;
    }
    nv
}

/// Assert, for each node, that it takes some slot in the cycle.
pub fn every_node_placed(s: &mut Session, board: &Vec<usize>, n: usize)
    requires
        old(s).inv(),
        board@.len() == (n + 1) * n,
        n <= 0xffff,
        n >= 1,
        vars_below(board@, old(s).num_vars()),
    ensures
        final(s).inv(),
        final(s).registry() == old(s).registry(),
        final(s).frames() == old(s).frames(),
        final(s).trail().len() == old(s).trail().len() + n,
        final(s).trail().take(old(s).trail().len() as int) == old(s).trail(),
        forall|j: int, a: Seq<Value>| 0 <= j < n ==> ((#[trigger] final(s).trail()[old(
            s,
        ).trail().len() + j].eval(a)) == some_true(node_vars(board@, n as nat, j), a)),
{
    let ghost base = old(s).trail().len() as int;
    proof {
        assert(s.trail().take(base) =~= old(s).trail());
    }
    let mut j: usize = 0;
    while j < n
        invariant
            s.inv(),
            s.registry() == old(s).registry(),
            s.frames() == old(s).frames(),
            board@.len() == (n + 1) * n,
            n <= 0xffff,
            n >= 1,
            vars_below(board@, s.num_vars()),
            j <= n,
            base == old(s).trail().len(),
            s.trail().len() == base + j,
            s.trail().take(base) == old(s).trail(),
            forall|jj: int, a: Seq<Value>| 0 <= jj < j ==> ((#[trigger] s.trail()[base + jj]
                .eval(a)) == some_true(node_vars(board@, n as nat, jj), a)),
        decreases n - j,
    {
        let nv = collect_node(board, n, j, 0, n + 1);
        proof {
            assert(nv@ =~= node_vars(board@, n as nat, j as int));
            assert forall|ii: int| 0 <= ii < nv@.len() implies (#[trigger] nv@[ii])
                < s.num_vars() by {
                assert(nv@[ii] == board@[(0 + ii) * n + j]);
                assert(0 <= (0 + ii) * n + j < (n + 1) * n) by (nonlinear_arith)
                    requires 0 <= ii <= n, 0 <= j < n;
            }
        }
        let e = any_of(&nv);
        let ghost old_trail = s.trail();
        s.assert_expr(e);
        proof {
            assert(s.trail().take(base) =~= old_trail.take(base));
            assert forall|jj: int, a: Seq<Value>| 0 <= jj < j + 1 implies ((
            #[trigger] s.trail()[base + jj].eval(a)) == some_true(
                node_vars(board@, n as nat, jj),
                a,
            )) by {
                if jj < j {
                    assert(s.trail()[base + jj] == old_trail[base + jj]);
                } else {
                    assert(s.trail()[base + jj] == e);
                }
            }
        }
        j += 1;
    }
}

/// Assert, for each node, that it takes at most one slot — among the first
/// `n` slots, and among the last `n` slots.  Together these forbid every
/// repeated placement except the first and last slot holding the same node.
pub fn no_duplicate_nodes(s: &mut Session, board: &Vec<usize>, n: usize)
    requires
        old(s).inv(),
        board@.len() == (n + 1) * n,
        n <= 0xffff,
        n >= 1,
        vars_below(board@, old(s).num_vars()),
    ensures
        final(s).inv(),
        final(s).registry() == old(s).registry(),
        final(s).frames() == old(s).frames(),
        final(s).trail().len() == old(s).trail().len() + 2 * n,
        final(s).trail().take(old(s).trail().len() as int) == old(s).trail(),
        forall|j: int, a: Seq<Value>| 0 <= j < n ==> ((#[trigger] final(s).trail()[old(
            s,
        ).trail().len() + 2 * j].eval(a)) == no_two_true(
            node_head_vars(board@, n as nat, j),
            a,
        )),
        forall|j: int, a: Seq<Value>| 0 <= j < n ==> ((#[trigger] final(s).trail()[old(
            s,
        ).trail().len() + 2 * j + 1].eval(a)) == no_two_true(
            node_tail_vars(board@, n as nat, j),
            a,
        )),
{
    let ghost base = old(s).trail().len() as int;
    proof {
        assert(s.trail().take(base) =~= old(s).trail());
    }
    let mut j: usize = 0;
    while j < n
        invariant
            s.inv(),
            s.registry() == old(s).registry(),
            s.frames() == old(s).frames(),
            board@.len() == (n + 1) * n,
            n <= 0xffff,
            n >= 1,
            vars_below(board@, s.num_vars()),
            j <= n,
            base == old(s).trail().len(),
            s.trail().len() == base + 2 * j,
            s.trail().take(base) == old(s).trail(),
            forall|jj: int, a: Seq<Value>| 0 <= jj < j ==> ((#[trigger] s.trail()[base + 2
                * jj].eval(a)) == no_two_true(node_head_vars(board@, n as nat, jj), a)),
            forall|jj: int, a: Seq<Value>| 0 <= jj < j ==> ((#[trigger] s.trail()[base + 2
                * jj + 1].eval(a)) == no_two_true(node_tail_vars(board@, n as nat, jj), a)),
        decreases n - j,
    {
        let head = collect_node(board, n, j, 0, n);
        let tail = collect_node(board, n, j, 1, n);
        proof {
            assert(head@ =~= node_head_vars(board@, n as nat, j as int));
            assert(tail@ =~= node_tail_vars(board@, n as nat, j as int));
            assert forall|ii: int| 0 <= ii < head@.len() implies (#[trigger] head@[ii])
                < s.num_vars() by {
                assert(head@[ii] == board@[(0 + ii) * n + j]);
                assert(0 <= (0 + ii) * n + j < (n + 1) * n) by (nonlinear_arith)
                    requires 0 <= ii < n, 0 <= j < n;
            }
            assert forall|ii: int| 0 <= ii < tail@.len() implies (#[trigger] tail@[ii])
                < s.num_vars() by {
                assert(tail@[ii] == board@[(1 + ii) * n + j]);
                assert(0 <= (1 + ii) * n + j < (n + 1) * n) by (nonlinear_arith)
                    requires 0 <= ii < n, 0 <= j < n;
            }
        }
        let e1 = at_most_one(&head);
        let e2 = at_most_one(&tail);
        let ghost t1 = s.trail();
        s.assert_expr(e1);
        let ghost t2 = s.trail();
        s.assert_expr(e2);
        proof {
            assert(s.trail().take(base) =~= t1.take(base));
            assert forall|jj: int, a: Seq<Value>| 0 <= jj < j + 1 implies ((
            #[trigger] s.trail()[base + 2 * jj].eval(a)) == no_two_true(
                node_head_vars(board@, n as nat, jj),
                a,
            )) by {
                if jj < j {
                    assert(s.trail()[base + 2 * jj] == t1[base + 2 * jj]);
                } else {
                    assert(s.trail()[base + 2 * jj] == e1);
                }
            }
            assert forall|jj: int, a: Seq<Value>| 0 <= jj < j + 1 implies ((
            #[trigger] s.trail()[base + 2 * jj + 1].eval(a)) == no_two_true(
                node_tail_vars(board@, n as nat, jj),
                a,
            )) by {
                if jj < j {
                    assert(s.trail()[base + 2 * jj + 1] == t1[base + 2 * jj + 1]);
                } else {
                    assert(s.trail()[base + 2 * jj + 1] == e2);
                }
            }
        }
        j += 1;
    }
}

/// Assert, for each slot, that some node occupies it.
pub fn slots_occupied(s: &mut Session, board: &Vec<usize>, n: usize)
    requires
        old(s).inv(),
        board@.len() == (n + 1) * n,
        n <= 0xffff,
        n >= 1,
        vars_below(board@, old(s).num_vars()),
    ensures
        final(s).inv(),
        final(s).registry() == old(s).registry(),
        final(s).frames() == old(s).frames(),
        final(s).trail().len() == old(s).trail().len() + n + 1,
        final(s).trail().take(old(s).trail().len() as int) == old(s).trail(),
        forall|i: int, a: Seq<Value>| 0 <= i < n + 1 ==> ((#[trigger] final(s).trail()[old(
            s,
        ).trail().len() + i].eval(a)) == some_true(slot_vars(board@, n as nat, i), a)),
{
    let ghost base = old(s).trail().len() as int;
    proof {
        assert(s.trail().take(base) =~= old(s).trail());
    }
    let mut i: usize = 0;
    while i < n + 1
        invariant
            s.inv(),
            s.registry() == old(s).registry(),
            s.frames() == old(s).frames(),
            board@.len() == (n + 1) * n,
            n <= 0xffff,
            n >= 1,
            vars_below(board@, s.num_vars()),
            i <= n + 1,
            base == old(s).trail().len(),
            s.trail().len() == base + i,
            s.trail().take(base) == old(s).trail(),
            forall|ii: int, a: Seq<Value>| 0 <= ii < i ==> ((#[trigger] s.trail()[base + ii]
                .eval(a)) == some_true(slot_vars(board@, n as nat, ii), a)),
        decreases n + 1 - i,
    {
        let sv = collect_slot(board, n, i);
        proof {
            assert forall|jj: int| 0 <= jj < sv@.len() implies (#[trigger] sv@[jj])
                < s.num_vars() by {
                assert(sv@[jj] == board@[i * n + jj]);
                assert(0 <= i * n + jj < (n + 1) * n) by (nonlinear_arith)
                    requires 0 <= i <= n, 0 <= jj < n;
            }
        }
        let e = any_of(&sv);
        let ghost old_trail = s.trail();
        s.assert_expr(e);
        proof {
            assert(s.trail().take(base) =~= old_trail.take(base));
            assert forall|ii: int, a: Seq<Value>| 0 <= ii < i + 1 implies ((
            #[trigger] s.trail()[base + ii].eval(a)) == some_true(
                slot_vars(board@, n as nat, ii),
                a,
            )) by {
                if ii < i {
                    assert(s.trail()[base + ii] == old_trail[base + ii]);
                } else {
                    assert(s.trail()[base + ii] == e);
                }
            }
        }
        i += 1;
    }
}

/// Assert, for each slot, that at most one node occupies it.
pub fn one_node_per_slot(s: &mut Session, board: &Vec<usize>, n: usize)
    requires
        old(s).inv(),
        board@.len() == (n + 1) * n,
        n <= 0xffff,
        n >= 1,
        vars_below(board@, old(s).num_vars()),
    ensures
        final(s).inv(),
        final(s).registry() == old(s).registry(),
        final(s).frames() == old(s).frames(),
        final(s).trail().len() == old(s).trail().len() + n + 1,
        final(s).trail().take(old(s).trail().len() as int) == old(s).trail(),
        forall|i: int, a: Seq<Value>| 0 <= i < n + 1 ==> ((#[trigger] final(s).trail()[old(
            s,
        ).trail().len() + i].eval(a)) == no_two_true(slot_vars(board@, n as nat, i), a)),
{
    let ghost base = old(s).trail().len() as int;
    proof {
        assert(s.trail().take(base) =~= old(s).trail());
    }
    let mut i: usize = 0;
    while i < n + 1
        invariant
            s.inv(),
            s.registry() == old(s).registry(),
            s.frames() == old(s).frames(),
            board@.len() == (n + 1) * n,
            n <= 0xffff,
            n >= 1,
            vars_below(board@, s.num_vars()),
            i <= n + 1,
            base == old(s).trail().len(),
            s.trail().len() == base + i,
            s.trail().take(base) == old(s).trail(),
            forall|ii: int, a: Seq<Value>| 0 <= ii < i ==> ((#[trigger] s.trail()[base + ii]
                .eval(a)) == no_two_true(slot_vars(board@, n as nat, ii), a)),
        decreases n + 1 - i,
    {
        let sv = collect_slot(board, n, i);
        proof {
            assert forall|jj: int| 0 <= jj < sv@.len() implies (#[trigger] sv@[jj])
                < s.num_vars() by {
                assert(sv@[jj] == board@[i * n + jj]);
                assert(0 <= i * n + jj < (n + 1) * n) by (nonlinear_arith)
                    requires 0 <= i <= n, 0 <= jj < n;
            }
        }
        let e = at_most_one(&sv);
        let ghost old_trail = s.trail();
        s.assert_expr(e);
        proof {
            assert(s.trail().take(base) =~= old_trail.take(base));
            assert forall|ii: int, a: Seq<Value>| 0 <= ii < i + 1 implies ((
            #[trigger] s.trail()[base + ii].eval(a)) == no_two_true(
                slot_vars(board@, n as nat, ii),
                a,
            )) by {
                if ii < i {
                    assert(s.trail()[base + ii] == old_trail[base + ii]);
                } else {
                    assert(s.trail()[base + ii] == e);
                }
            }
        }
        i += 1;
    }
}

/// Assert that consecutive slots hold only edge-joined nodes: for every
/// slot transition and every non-edge `(j, k)`, forbid node `j` in the slot
/// and node `k` in the next.
pub fn adjacent_nodes(s: &mut Session, board: &Vec<usize>, n: usize, adj: &Vec<Vec<bool>>)
    requires
        old(s).inv(),
        board@.len() == (n + 1) * n,
        n <= 0xffff,
        n >= 1,
        vars_below(board@, old(s).num_vars()),
        adj@.len() == n,
        forall|r: int| 0 <= r < n ==> (#[trigger] adj@[r])@.len() == n,
    ensures
        final(s).inv(),
        final(s).registry() == old(s).registry(),
        final(s).frames() == old(s).frames(),
        final(s).trail().len() >= old(s).trail().len(),
        final(s).trail().take(old(s).trail().len() as int) == old(s).trail(),
        forall|a: Seq<Value>| #[trigger] sat_all(
            final(s).trail().skip(old(s).trail().len() as int),
            a,
        ) == adjacency_ok(board@, n as nat, adj_rows(*adj), a),
{
    let ghost base = old(s).trail().len() as int;
    let ghost av = adj_rows(*adj);
    proof {
        assert(s.trail().take(base) =~= old(s).trail());
        assert(s.trail().skip(base) =~= Seq::<Expr>::empty());
    }
    let mut i: usize = 0;
    while i < n
        invariant
            s.inv(),
            s.registry() == old(s).registry(),
            s.frames() == old(s).frames(),
            board@.len() == (n + 1) * n,
            n <= 0xffff,
            n >= 1,
            vars_below(board@, s.num_vars()),
            adj@.len() == n,
            forall|r: int| 0 <= r < n ==> (#[trigger] adj@[r])@.len() == n,
            av == adj_rows(*adj),
            i <= n,
            base == old(s).trail().len(),
            s.trail().len() >= base,
            s.trail().take(base) == old(s).trail(),
            forall|a: Seq<Value>| #[trigger] sat_all(s.trail().skip(base), a) == adj_ok_upto(
                board@,
                n as nat,
                av,
                a,
                i as int,
                0,
                0,
            ),
        decreases n - i,
    {
        let mut j: usize = 0;
        while j < n
            invariant
                s.inv(),
                s.registry() == old(s).registry(),
                s.frames() == old(s).frames(),
                board@.len() == (n + 1) * n,
                n <= 0xffff,
                n >= 1,
                vars_below(board@, s.num_vars()),
                adj@.len() == n,
                forall|r: int| 0 <= r < n ==> (#[trigger] adj@[r])@.len() == n,
                av == adj_rows(*adj),
                i < n,
                j <= n,
                base == old(s).trail().len(),
                s.trail().len() >= base,
                s.trail().take(base) == old(s).trail(),
                forall|a: Seq<Value>| #[trigger] sat_all(s.trail().skip(base), a)
                    == adj_ok_upto(board@, n as nat, av, a, i as int, j as int, 0),
            decreases n - j,
        {
            let mut k: usize = 0;
            while k < n
                invariant
                    s.inv(),
                    s.registry() == old(s).registry(),
                    s.frames() == old(s).frames(),
                    board@.len() == (n + 1) * n,
                    n <= 0xffff,
                    n >= 1,
                    vars_below(board@, s.num_vars()),
                    adj@.len() == n,
                    forall|r: int| 0 <= r < n ==> (#[trigger] adj@[r])@.len() == n,
                    av == adj_rows(*adj),
                    i < n,
                    j < n,
                    k <= n,
                    base == old(s).trail().len(),
                    s.trail().len() >= base,
                    s.trail().take(base) == old(s).trail(),
                    forall|a: Seq<Value>| #[trigger] sat_all(s.trail().skip(base), a)
                        == adj_ok_upto(board@, n as nat, av, a, i as int, j as int, k
                        as int),
                decreases n - k,
            {
                let edge = adj[j][k];
                proof {
                    assert(edge == av[j as int][k as int]);
                }
                if !edge {
                    let u = pcell(board, n, i, j);
                    let v = pcell(board, n, i + 1, k);
                    let e = forbid_both(u, v);
                    proof {
                        assert(0 <= i * n + j < (n + 1) * n && 0 <= (i + 1) * n + k < (n
                            + 1) * n) by (nonlinear_arith)
                            requires 0 <= i < n, 0 <= j < n, 0 <= k < n;
                        assert(board@[i * n + j] < s.num_vars());
                        assert(board@[(i + 1) * n + k] < s.num_vars());
                        assert(e.wf(s.num_vars()));
                    }
                    let ghost old_trail = s.trail();
                    s.assert_expr(e);
                    proof {
                        assert(s.trail().take(base) =~= old_trail.take(base));
                        assert(s.trail().skip(base) =~= old_trail.skip(base).push(e));
                        assert forall|a: Seq<Value>| #[trigger] sat_all(
                            s.trail().skip(base),
                            a,
                        ) == adj_ok_upto(board@, n as nat, av, a, i as int, j as int, k
                            as int + 1) by {
                            crate::expr::lemma_sat_all_push(old_trail.skip(base), e, a);
                            assert(e.eval(a) == !(a[board@[i * n + j] as int].is_true()
                                && a[board@[(i + 1) * n + k] as int].is_true()));
                            if sat_all(s.trail().skip(base), a) {
                                assert forall|i2: int, j2: int, k2: int|
                                    0 <= i2 < n && 0 <= j2 < n && 0 <= k2 < n
                                        && lex3_before(i2, j2, k2, i as int, j as int, k
                                        as int + 1) && !av[j2][k2] implies !(a[(
                                #[trigger] board@[i2 * n + j2]) as int].is_true() && a[(
                                #[trigger] board@[(i2 + 1) * n + k2]) as int].is_true())
                                    by {
                                    if i2 == i as int && j2 == j as int && k2 == k
                                        as int {
                                        assert(e.eval(a));
                                    } else {
                                        assert(lex3_before(i2, j2, k2, i as int, j
                                            as int, k as int));
                                    }
                                }
                            }
                            if adj_ok_upto(board@, n as nat, av, a, i as int, j as int, k
                                as int + 1) {
                                assert(adj_ok_upto(board@, n as nat, av, a, i as int, j
                                    as int, k as int));
                                assert(lex3_before(i as int, j as int, k as int, i
                                    as int, j as int, k as int + 1));
                                assert(!(a[board@[i * n + j] as int].is_true() && a[
                                    board@[(i + 1) * n + k] as int].is_true()));
                            }
                        }
                    }
                } else {
                    proof {
                        assert forall|a: Seq<Value>| #[trigger] sat_all(
                            s.trail().skip(base),
                            a,
                        ) == adj_ok_upto(board@, n as nat, av, a, i as int, j as int, k
                            as int + 1) by {
                            assert(adj_ok_upto(board@, n as nat, av, a, i as int, j
                                as int, k as int) == adj_ok_upto(board@, n as nat, av, a,
                                i as int, j as int, k as int + 1)) by {
                                if adj_ok_upto(board@, n as nat, av, a, i as int, j
                                    as int, k as int) {
                                    assert forall|i2: int, j2: int, k2: int|
                                        0 <= i2 < n && 0 <= j2 < n && 0 <= k2 < n
                                            && lex3_before(i2, j2, k2, i as int, j
                                            as int, k as int + 1) && !av[j2][k2] implies
                                        !(a[(#[trigger] board@[i2 * n + j2]) as int]
                                        .is_true() && a[(#[trigger] board@[(i2 + 1) * n
                                        + k2]) as int].is_true()) by {
                                        assert(lex3_before(i2, j2, k2, i as int, j
                                            as int, k as int));
                                    }
                                }
                            }
                        }
                    }
                }
                k += 1;
            }
            proof {
                assert forall|a: Seq<Value>| #[trigger] sat_all(s.trail().skip(base), a)
                    == adj_ok_upto(board@, n as nat, av, a, i as int, j as int + 1, 0) by {
                    assert(adj_ok_upto(board@, n as nat, av, a, i as int, j as int, n
                        as int) == adj_ok_upto(board@, n as nat, av, a, i as int, j as int
                        + 1, 0)) by {
                        if adj_ok_upto(board@, n as nat, av, a, i as int, j as int, n
                            as int) {
                            assert forall|i2: int, j2: int, k2: int|
                                0 <= i2 < n && 0 <= j2 < n && 0 <= k2 < n && lex3_before(
                                    i2,
                                    j2,
                                    k2,
                                    i as int,
                                    j as int + 1,
                                    0,
                                ) && !av[j2][k2] implies !(a[(#[trigger] board@[i2 * n
                                + j2]) as int].is_true() && a[(#[trigger] board@[(i2 + 1)
                                * n + k2]) as int].is_true()) by {
                                assert(lex3_before(i2, j2, k2, i as int, j as int, n
                                    as int));
                            }
                        }
                        if adj_ok_upto(board@, n as nat, av, a, i as int, j as int + 1, 0) {
                            assert forall|i2: int, j2: int, k2: int|
                                0 <= i2 < n && 0 <= j2 < n && 0 <= k2 < n && lex3_before(
                                    i2,
                                    j2,
                                    k2,
                                    i as int,
                                    j as int,
                                    n as int,
                                ) && !av[j2][k2] implies !(a[(#[trigger] board@[i2 * n
                                + j2]) as int].is_true() && a[(#[trigger] board@[(i2 + 1)
                                * n + k2]) as int].is_true()) by {
                                assert(lex3_before(i2, j2, k2, i as int, j as int + 1, 0));
                            }
                        }
                    }
                }
            }
            j += 1;
        }
        proof {
            assert forall|a: Seq<Value>| #[trigger] sat_all(s.trail().skip(base), a)
                == adj_ok_upto(board@, n as nat, av, a, i as int + 1, 0, 0) by {
                assert(adj_ok_upto(board@, n as nat, av, a, i as int, n as int, 0)
                    == adj_ok_upto(board@, n as nat, av, a, i as int + 1, 0, 0)) by {
                    if adj_ok_upto(board@, n as nat, av, a, i as int, n as int, 0) {
                        assert forall|i2: int, j2: int, k2: int|
                            0 <= i2 < n && 0 <= j2 < n && 0 <= k2 < n && lex3_before(
                                i2,
                                j2,
                                k2,
                                i as int + 1,
                                0,
                                0,
                            ) && !av[j2][k2] implies !(a[(#[trigger] board@[i2 * n + j2])
                            as int].is_true() && a[(#[trigger] board@[(i2 + 1) * n + k2])
                            as int].is_true()) by {
                            assert(lex3_before(i2, j2, k2, i as int, n as int, 0));
                        }
                    }
                    if adj_ok_upto(board@, n as nat, av, a, i as int + 1, 0, 0) {
                        assert forall|i2: int, j2: int, k2: int|
                            0 <= i2 < n && 0 <= j2 < n && 0 <= k2 < n && lex3_before(
                                i2,
                                j2,
                                k2,
                                i as int,
                                n as int,
                                0,
                            ) && !av[j2][k2] implies !(a[(#[trigger] board@[i2 * n + j2])
                            as int].is_true() && a[(#[trigger] board@[(i2 + 1) * n + k2])
                            as int].is_true()) by {
                            assert(lex3_before(i2, j2, k2, i as int + 1, 0, 0));
                        }
                    }
                }
            }
        }
        i += 1;
    }
    proof {
        assert forall|a: Seq<Value>| #[trigger] sat_all(s.trail().skip(base), a)
            == adjacency_ok(board@, n as nat, av, a) by {
            if adj_ok_upto(board@, n as nat, av, a, n as int, 0, 0) {
                assert forall|i2: int, j2: int, k2: int| 0 <= i2 < n && 0 <= j2 < n && 0
                    <= k2 < n && !av[j2][k2] implies !(a[(#[trigger] board@[i2 * n + j2])
                    as int].is_true() && a[(#[trigger] board@[(i2 + 1) * n + k2]) as int]
                    .is_true()) by {
                    assert(lex3_before(i2, j2, k2, n as int, 0, 0));
                }
            }
            if adjacency_ok(board@, n as nat, av, a) {
                assert forall|i2: int, j2: int, k2: int| 0 <= i2 < n && 0 <= j2 < n && 0
                    <= k2 < n && lex3_before(i2, j2, k2, n as int, 0, 0) && !av[j2][k2]
                    implies !(a[(#[trigger] board@[i2 * n + j2]) as int].is_true() && a[(
                #[trigger] board@[(i2 + 1) * n + k2]) as int].is_true()) by {}
            }
        }
    }
}

/// Assert, for each node, that the first and the last slot agree on it:
/// both hold it, or neither does — closing the tour.
pub fn cycle_closed(s: &mut Session, board: &Vec<usize>, n: usize)
    requires
        old(s).inv(),
        board@.len() == (n + 1) * n,
        n <= 0xffff,
        n >= 1,
        vars_below(board@, old(s).num_vars()),
    ensures
        final(s).inv(),
        final(s).registry() == old(s).registry(),
        final(s).frames() == old(s).frames(),
        final(s).trail().len() == old(s).trail().len() + n,
        final(s).trail().take(old(s).trail().len() as int) == old(s).trail(),
        forall|j: int, a: Seq<Value>| 0 <= j < n ==> ((#[trigger] final(s).trail()[old(
            s,
        ).trail().len() + j].eval(a)) == (a[board@[j] as int].is_true() == a[board@[n as int
            * n + j] as int].is_true())),
{
    let ghost base = old(s).trail().len() as int;
    proof {
        assert(s.trail().take(base) =~= old(s).trail());
    }
    let mut j: usize = 0;
    while j < n
        invariant
            s.inv(),
            s.registry() == old(s).registry(),
            s.frames() == old(s).frames(),
            board@.len() == (n + 1) * n,
            n <= 0xffff,
            n >= 1,
            vars_below(board@, s.num_vars()),
            j <= n,
            base == old(s).trail().len(),
            s.trail().len() == base + j,
            s.trail().take(base) == old(s).trail(),
            forall|jj: int, a: Seq<Value>| 0 <= jj < j ==> ((#[trigger] s.trail()[base + jj]
                .eval(a)) == (a[board@[jj] as int].is_true() == a[board@[n as int * n + jj]
                as int].is_true())),
        decreases n - j,
    {
        let u = pcell(board, n, 0, j);
        let v = pcell(board, n, n, j);
        let e = same_occupancy(u, v);
        proof {
            assert(0 <= n as int * n + j < (n + 1) * n) by (nonlinear_arith)
                requires 0 <= j < n;
            assert(board@[0 * n + j] < s.num_vars());
            assert(board@[n as int * n + j] < s.num_vars());
            assert(e.wf(s.num_vars()));
        }
        let ghost old_trail = s.trail();
        s.assert_expr(e);
        proof {
            assert(s.trail().take(base) =~= old_trail.take(base));
            assert forall|jj: int, a: Seq<Value>| 0 <= jj < j + 1 implies ((
            #[trigger] s.trail()[base + jj].eval(a)) == (a[board@[jj] as int].is_true()
                == a[board@[n as int * n + jj] as int].is_true())) by {
                if jj < j {
                    assert(s.trail()[base + jj] == old_trail[base + jj]);
                } else {
                    assert(s.trail()[base + jj] == e);
                    assert(board@[0 * n + jj] == board@[jj]);
                }
            }
        }
        j += 1;
    }
}

/// A valid closed tour: every node placed, no node repeated (beyond the
/// last slot echoing the first), every slot holding exactly one node,
/// consecutive slots edge-joined, and the tour closed.
pub open spec fn tour_ok(board: Seq<usize>, n: nat, adj: Seq<Seq<bool>>, a: Seq<Value>) -> bool {
    &&& (forall|j: int| 0 <= j < n ==> some_true(node_vars(board, n, j), a))
    &&& (forall|j: int| 0 <= j < n ==> no_two_true(node_head_vars(board, n, j), a))
    &&& (forall|j: int| 0 <= j < n ==> no_two_true(node_tail_vars(board, n, j), a))
    &&& (forall|i: int| 0 <= i < n + 1 ==> some_true(slot_vars(board, n, i), a))
    &&& (forall|i: int| 0 <= i < n + 1 ==> no_two_true(slot_vars(board, n, i), a))
    &&& (forall|j: int| 0 <= j < n ==> (a[(#[trigger] board[j]) as int].is_true() == a[
        board[n * n + j] as int].is_true()))
    &&& adjacency_ok(board, n, adj, a)
}

/// Assert the whole closed-tour problem.  The asserted batch taken together
/// is satisfied by exactly the valid tours: an assignment satisfies every
/// constraint added here if and only if it is a [`tour_ok`] tour.
pub fn cycle_constraints(s: &mut Session, board: &Vec<usize>, n: usize, adj: &Vec<Vec<bool>>)
    requires
        old(s).inv(),
        board@.len() == (n + 1) * n,
        n <= 0xffff,
        n >= 1,
        vars_below(board@, old(s).num_vars()),
        adj@.len() == n,
        forall|r: int| 0 <= r < n ==> (#[trigger] adj@[r])@.len() == n,
    ensures
        final(s).inv(),
        final(s).registry() == old(s).registry(),
        final(s).frames() == old(s).frames(),
        final(s).trail().len() >= old(s).trail().len(),
        final(s).trail().take(old(s).trail().len() as int) == old(s).trail(),
        forall|a: Seq<Value>| #[trigger] sat_all(
            final(s).trail().skip(old(s).trail().len() as int),
            a,
        ) == tour_ok(board@, n as nat, adj_rows(*adj), a),
{
    let ghost base = old(s).trail().len() as int;
    let ghost av = adj_rows(*adj);
    every_node_placed(s, board, n);
    let ghost t1 = s.trail();
    no_duplicate_nodes(s, board, n);
    let ghost t2 = s.trail();
    slots_occupied(s, board, n);
    let ghost t3 = s.trail();
    one_node_per_slot(s, board, n);
    let ghost t4 = s.trail();
    cycle_closed(s, board, n);
    let ghost t5 = s.trail();
    adjacent_nodes(s, board, n, adj);
    proof {
        let nn = n as int;
        let fixed = 6 * nn + 2;
        let tf = s.trail();
        assert(tf.take(t5.len() as int) == t5);
        assert(t5.take(t4.len() as int) == t4);
        assert(t4.take(t3.len() as int) == t3);
        assert(t3.take(t2.len() as int) == t2);
        assert(t2.take(t1.len() as int) == t1);
        assert(t1.take(base) == old(s).trail());
        assert forall|k: int| 0 <= k < t5.len() implies tf[k] == t5[k] by {
            assert(tf.take(t5.len() as int)[k] == tf[k]);
        }
        assert forall|k: int| 0 <= k < t4.len() implies t5[k] == t4[k] by {
            assert(t5.take(t4.len() as int)[k] == t5[k]);
        }
        assert forall|k: int| 0 <= k < t3.len() implies t4[k] == t3[k] by {
            assert(t4.take(t3.len() as int)[k] == t4[k]);
        }
        assert forall|k: int| 0 <= k < t2.len() implies t3[k] == t2[k] by {
            assert(t3.take(t2.len() as int)[k] == t3[k]);
        }
        assert forall|k: int| 0 <= k < t1.len() implies t2[k] == t1[k] by {
            assert(t2.take(t1.len() as int)[k] == t2[k]);
        }
        assert(tf.take(base) =~= old(s).trail());
        assert(t5.len() == base + fixed);
        assert forall|a: Seq<Value>| #[trigger] sat_all(tf.skip(base), a) == tour_ok(
            board@,
            n as nat,
            av,
            a,
        ) by {
            let suf = tf.skip(base);
            let tail = tf.skip(t5.len() as int);
            assert(sat_all(tail, a) == adjacency_ok(board@, n as nat, av, a));
            assert forall|k: int| 0 <= k < suf.len() implies suf[k] == tf[base + k] by {}
            assert forall|k: int| 0 <= k < tail.len() implies tail[k] == tf[t5.len() + k]
                by {}
            if sat_all(suf, a) {
                assert forall|j: int| 0 <= j < nn implies some_true(
                    node_vars(board@, n as nat, j),
                    a,
                ) by {
                    assert(suf[j].eval(a));
                    assert(tf[base + j] == t1[base + j]);
                }
                assert forall|j: int| 0 <= j < nn implies no_two_true(
                    node_head_vars(board@, n as nat, j),
                    a,
                ) by {
                    assert(suf[nn + 2 * j].eval(a));
                    assert(tf[t1.len() + 2 * j] == t2[t1.len() + 2 * j]);
                }
                assert forall|j: int| 0 <= j < nn implies no_two_true(
                    node_tail_vars(board@, n as nat, j),
                    a,
                ) by {
                    assert(suf[nn + 2 * j + 1].eval(a));
                    assert(tf[t1.len() + 2 * j + 1] == t2[t1.len() + 2 * j + 1]);
                }
                assert forall|i: int| 0 <= i < nn + 1 implies some_true(
                    slot_vars(board@, n as nat, i),
                    a,
                ) by {
                    assert(suf[3 * nn + i].eval(a));
                    assert(tf[t2.len() + i] == t3[t2.len() + i]);
                }
                assert forall|i: int| 0 <= i < nn + 1 implies no_two_true(
                    slot_vars(board@, n as nat, i),
                    a,
                ) by {
                    assert(suf[4 * nn + 1 + i].eval(a));
                    assert(tf[t3.len() + i] == t4[t3.len() + i]);
                }
                assert forall|j: int| 0 <= j < nn implies (a[(#[trigger] board@[j]) as int]
                    .is_true() == a[board@[nn * nn + j] as int].is_true()) by {
                    assert(suf[5 * nn + 2 + j].eval(a));
                    assert(tf[t4.len() + j] == t5[t4.len() + j]);
                }
                assert(sat_all(tail, a)) by {
                    assert forall|k: int| 0 <= k < tail.len() implies (#[trigger] tail[k])
                        .eval(a) by {
                        assert(tail[k] == suf[fixed + k]);
                    }
                }
            }
            if tour_ok(board@, n as nat, av, a) {
                assert forall|k: int| 0 <= k < suf.len() implies (#[trigger] suf[k]).eval(
                    a,
                ) by {
                    if k < nn {
                        assert(tf[base + k] == t1[base + k]);
                        assert(t1[base + k].eval(a) == some_true(
                            node_vars(board@, n as nat, k),
                            a,
                        ));
                    } else if k < 3 * nn {
                        assert(tf[base + k] == t2[base + k]);
                        let j = (k - nn) / 2;
                        assert(0 <= j < nn);
                        if (k - nn) % 2 == 0 {
                            assert(k == nn + 2 * j);
                            assert(t2[t1.len() + 2 * j].eval(a) == no_two_true(
                                node_head_vars(board@, n as nat, j),
                                a,
                            ));
                        } else {
                            assert(k == nn + 2 * j + 1);
                            assert(t2[t1.len() + 2 * j + 1].eval(a) == no_two_true(
                                node_tail_vars(board@, n as nat, j),
                                a,
                            ));
                        }
                    } else if k < 4 * nn + 1 {
                        assert(tf[base + k] == t3[base + k]);
                        assert(t3[t2.len() + (k - 3 * nn)].eval(a) == some_true(
                            slot_vars(board@, n as nat, k - 3 * nn),
                            a,
                        ));
                    } else if k < 5 * nn + 2 {
                        assert(tf[base + k] == t4[base + k]);
                        assert(t4[t3.len() + (k - (4 * nn + 1))].eval(a) == no_two_true(
                            slot_vars(board@, n as nat, k - (4 * nn + 1)),
                            a,
                        ));
                    } else if k < fixed {
                        assert(tf[base + k] == t5[base + k]);
                        assert(t5[t4.len() + (k - (5 * nn + 2))].eval(a) == (a[board@[k - (
                        5 * nn + 2)] as int].is_true() == a[board@[nn * nn + (k - (5 * nn
                            + 2))] as int].is_true()));
                    } else {
                        assert(suf[k] == tail[k - fixed]);
                        assert(tail[k - fixed].eval(a));
                    }
                }
            }
        }
    }
}

} // verus!
