//! The positional placement problem on a square board: one piece per row and
//! per column, and no two pieces sharing a diagonal of either family.
//!
//! The board is a flat block of boolean variables, cell `(r, c)` at index
//! `r * n + c`.  Each function asserts one constraint per line (row, column
//! or diagonal), and its contract pins the meaning of each asserted
//! constraint over every assignment.

use vstd::prelude::*;
use crate::Error;
use crate::builder::{any_of, at_most_one, no_two_true, some_true};
use crate::domain::{Domain, Value};
use crate::expr::{sat_all, vars_below};
use crate::session::Session;

verus! {

/// The variables of row `r`, left to right.
pub open spec fn row_vars(board: Seq<usize>, n: nat, r: int) -> Seq<usize> {
    Seq::new(n, |j: int| board[r * n + j])
}

/// The variables of column `c`, top to bottom.
pub open spec fn col_vars(board: Seq<usize>, n: nat, c: int) -> Seq<usize> {
    Seq::new(n, |i: int| board[i * n + c])
}

/// The first row of the anti-diagonal with cell sum `t`.
pub open spec fn slash_start(n: nat, t: int) -> int {
    if t < n {
        0
    } else {
        t - n + 1
    }
}

/// The number of cells on the anti-diagonal with cell sum `t`.
pub open spec fn slash_len(n: nat, t: int) -> int {
    if t < n {
        t + 1
    } else {
        2 * n - 1 - t
    }
}

/// The variables of the anti-diagonal with cell sum `t` (cells `(r, t - r)`).
pub open spec fn slash_vars(board: Seq<usize>, n: nat, t: int) -> Seq<usize> {
    Seq::new(
        slash_len(n, t) as nat,
        |j: int| board[(slash_start(n, t) + j) * n + (t - (slash_start(n, t) + j))],
    )
}

/// The first row of the diagonal with cell difference `d = t - (n - 1)`.
pub open spec fn back_start(n: nat, t: int) -> int {
    if t >= n - 1 {
        t - (n - 1)
    } else {
        0
    }
}

/// The number of cells on the diagonal indexed `t`.
pub open spec fn back_len(n: nat, t: int) -> int {
    if t >= n - 1 {
        2 * n - 1 - t
    } else {
        t + 1
    }
}

/// The variables of the diagonal with cell difference `d = t - (n - 1)`
/// (cells `(r, r - d)`), indexed by `t` in `0 .. 2n - 1`.
pub open spec fn back_vars(board: Seq<usize>, n: nat, t: int) -> Seq<usize> {
    Seq::new(
        back_len(n, t) as nat,
        |j: int| board[(back_start(n, t) + j) * n + (back_start(n, t) + j - (t - (n - 1)))],
    )
}

/// The variable of one cell.
fn cell(board: &Vec<usize>, n: usize, r: usize, c: usize) -> (v: usize)
    requires
        board@.len() == n * n,
        n <= 0xffff,
        r < n,
        c < n,
    ensures
        v == board@[r * n + c],
{
    proof {
        assert(n * n <= 0xffff * 0xffff) by (nonlinear_arith)
            requires n <= 0xffff;
        assert(r * n + c < n * n && r * n <= n * n) by (nonlinear_arith)
            requires r < n, c < n;
    }
    board[r * n + c]
}

/// Declare a fresh `n` by `n` board of boolean variables.  Fails with
/// `DuplicateName` only when a caller-declared name collides with a
/// generated decimal name; success is owed whenever none does.
pub fn queens_board(s: &mut Session, n: usize) -> (r: Result<Vec<usize>, Error>)
    requires
        old(s).inv(),
        n <= 0xffff,
    ensures
        final(s).inv(),
        final(s).trail() == old(s).trail(),
        final(s).frames() == old(s).frames(),
        (match r {
            Ok(board) => {
                &&& board@.len() == n * n
                &&& vars_below(board@, final(s).num_vars())
                &&& (forall|k: int| 0 <= k < n * n ==> (#[trigger] board@[k]) == old(
                    s,
                ).num_vars() + k)
                &&& final(s).num_vars() == old(s).num_vars() + n * n
                &&& (forall|k: int| 0 <= k < n * n ==> final(s).registry().domains()[(
                #[trigger] board@[k]) as int] == Domain::Boolean)
            },
            Err(e) => e == Error::DuplicateName,
        }),
        (old(s).num_vars() + n * n <= usize::MAX && (forall|k: int| 0 <= k < n * n
            ==> !old(s).registry().has_name(
            #[trigger] crate::oracle::decimal_name((old(s).num_vars() + k) as usize),
        ))) ==> r is Ok,
{
    proof {
        assert(n * n <= 0xffff * 0xffff) by (nonlinear_arith)
            requires n <= 0xffff;
    }
    let count = n * n;
    match s.declare_block(count, Domain::Boolean) {
        Ok(board) => {
            proof {
                assert forall|k: int| 0 <= k < board@.len() implies (#[trigger] board@[k])
                    < s.num_vars() by {
                    assert(board@[k] == old(s).num_vars() + k);
                }
            }
            Ok(board)
        },
        Err(e) => {
            proof {
                assert(Domain::Boolean.wf());
            }
            Err(e)
        },
    }
}

/// The variables of one row, as a vector.
fn collect_row(board: &Vec<usize>, n: usize, r: usize) -> (rv: Vec<usize>)
    requires
        board@.len() == n * n,
        n <= 0xffff,
        r < n,
    ensures
        rv@ == row_vars(board@, n as nat, r as int),
{
    let mut rv: Vec<usize> = Vec::new();
    let mut j: usize = 0;
    while j < n
        invariant
            board@.len() == n * n,
            n <= 0xffff,
            r < n,
            j <= n,
            rv@.len() == j,
            forall|jj: int| 0 <= jj < j ==> (#[trigger] rv@[jj]) == board@[r * n + jj],
        decreases n - j,
    {
        let v = cell(board, n, r, j);
        rv.push(v);
        j += 1;
    }
    proof {
        assert(rv@ =~= row_vars(board@, n as nat, r as int));
    }
    rv
}

/// The variables of one column, as a vector.
fn collect_col(board: &Vec<usize>, n: usize, c: usize) -> (cv: Vec<usize>)
    requires
        board@.len() == n * n,
        n <= 0xffff,
        c < n,
    ensures
        cv@ == col_vars(board@, n as nat, c as int),
{
    let mut cv: Vec<usize> = Vec::new();
    let mut i: usize = 0;
    while i < n
        invariant
            board@.len() == n * n,
            n <= 0xffff,
            c < n,
            i <= n,
            cv@.len() == i,
            forall|ii: int| 0 <= ii < i ==> (#[trigger] cv@[ii]) == board@[ii * n + c],
        decreases n - i,
    {
        let v = cell(board, n, i, c);
        cv.push(v);
        i += 1;
    }
    proof {
        assert(cv@ =~= col_vars(board@, n as nat, c as int));
    }
    cv
}

/// The variables of one anti-diagonal, as a vector.
fn collect_slash(board: &Vec<usize>, n: usize, t: usize) -> (dv: Vec<usize>)
    requires
        board@.len() == n * n,
        n <= 0xffff,
        n >= 1,
        t < 2 * n - 1,
    ensures
        dv@ == slash_vars(board@, n as nat, t as int),
{
    let r0: usize = if t < n {
        0
    } else {
        t - n + 1
    };
    let len: usize = if t < n {
        t + 1
    } else {
        2 * n - 1 - t
    };
    let mut dv: Vec<usize> = Vec::new();
    let mut j: usize = 0;
    while j < len
        invariant
            board@.len() == n * n,
            n <= 0xffff,
            n >= 1,
            t < 2 * n - 1,
            r0 == slash_start(n as nat, t as int),
            len == slash_len(n as nat, t as int),
            r0 + len <= n,
            r0 <= t,
            t < r0 + n,
            j <= len,
            dv@.len() == j,
            forall|jj: int| 0 <= jj < j ==> (#[trigger] dv@[jj]) == board@[(r0 + jj) * n + (t
                - (r0 + jj))],
        decreases len - j,
    {
        let v = cell(board, n, r0 + j, t - (r0 + j));
        dv.push(v);
        j += 1;
    }
    proof {
        assert(dv@ =~= slash_vars(board@, n as nat, t as int));
    }
    dv
}

/// The variables of one diagonal, as a vector.
fn collect_backslash(board: &Vec<usize>, n: usize, t: usize) -> (dv: Vec<usize>)
    requires
        board@.len() == n * n,
        n <= 0xffff,
        n >= 1,
        t < 2 * n - 1,
    ensures
        dv@ == back_vars(board@, n as nat, t as int),
{
    let r0: usize = if t >= n - 1 {
        t - (n - 1)
    } else {
        0
    };
    let len: usize = if t >= n - 1 {
        2 * n - 1 - t
    } else {
        t + 1
    };
    let mut dv: Vec<usize> = Vec::new();
    let mut j: usize = 0;
    while j < len
        invariant
            board@.len() == n * n,
            n <= 0xffff,
            n >= 1,
            t < 2 * n - 1,
            r0 == back_start(n as nat, t as int),
            len == back_len(n as nat, t as int),
            r0 + len <= n,
            j <= len,
            dv@.len() == j,
            forall|jj: int| 0 <= jj < j ==> (#[trigger] dv@[jj]) == board@[(r0 + jj) * n + (r0
                + jj - (t - (n - 1)))],
        decreases len - j,
    {
        let r = r0 + j;
        let c = if t >= n - 1 {
            r - (t - (n - 1))
        } else {
            r + ((n - 1) - t)
        };
        proof {
            assert(c == r0 + j - (t as int - (n as int - 1)));
        }
        let v = cell(board, n, r, c);
        dv.push(v);
        j += 1;
    }
    proof {
        assert(dv@ =~= back_vars(board@, n as nat, t as int));
    }
    dv
}

/// Assert, for each row, that some cell of the row is occupied.
pub fn rows_covered(s: &mut Session, board: &Vec<usize>, n: usize)
    requires
        old(s).inv(),
        board@.len() == n * n,
        n <= 0xffff,
        n >= 1,
        vars_below(board@, old(s).num_vars()),
    ensures
        final(s).inv(),
        final(s).registry() == old(s).registry(),
        final(s).frames() == old(s).frames(),
        final(s).trail().len() == old(s).trail().len() + n,
        final(s).trail().take(old(s).trail().len() as int) == old(s).trail(),
        forall|r: int, a: Seq<Value>| 0 <= r < n ==> ((#[trigger] final(s).trail()[old(
            s,
        ).trail().len() + r].eval(a)) == some_true(row_vars(board@, n as nat, r), a)),
{
    let ghost base = old(s).trail().len() as int;
    proof {
        assert(s.trail().take(base) =~= old(s).trail());
    }
    let mut r: usize = 0;
    while r < n
        invariant
            s.inv(),
            s.registry() == old(s).registry(),
            s.frames() == old(s).frames(),
            board@.len() == n * n,
            n <= 0xffff,
            n >= 1,
            vars_below(board@, s.num_vars()),
            r <= n,
            base == old(s).trail().len(),
            s.trail().len() == base + r,
            s.trail().take(base) == old(s).trail(),
            forall|rr: int, a: Seq<Value>| 0 <= rr < r ==> ((#[trigger] s.trail()[base + rr]
                .eval(a)) == some_true(row_vars(board@, n as nat, rr), a)),
        decreases n - r,
    {
        let rv = collect_row(board, n, r);
        proof {
            assert forall|jj: int| 0 <= jj < rv@.len() implies (#[trigger] rv@[jj])
                < s.num_vars() by {
                assert(rv@[jj] == board@[r * n + jj]);
                assert(r * n + jj < n * n) by (nonlinear_arith)
                    requires 0 <= jj < n, r < n;
            }
        }
        let e = any_of(&rv);
        let ghost old_trail = s.trail();
        s.assert_expr(e);
        proof {
            assert(s.trail().take(base) =~= old_trail.take(base));
            assert forall|rr: int, a: Seq<Value>| 0 <= rr < r + 1 implies ((
            #[trigger] s.trail()[base + rr].eval(a)) == some_true(
                row_vars(board@, n as nat, rr),
                a,
            )) by {
                if rr < r {
                    assert(s.trail()[base + rr] == old_trail[base + rr]);
                } else {
                    assert(s.trail()[base + rr] == e);
                }
            }
        }
        r += 1;
    }
}

/// Assert, for each row, that at most one cell of the row is occupied.
pub fn rows_exclusive(s: &mut Session, board: &Vec<usize>, n: usize)
    requires
        old(s).inv(),
        board@.len() == n * n,
        n <= 0xffff,
        n >= 1,
        vars_below(board@, old(s).num_vars()),
    ensures
        final(s).inv(),
        final(s).registry() == old(s).registry(),
        final(s).frames() == old(s).frames(),
        final(s).trail().len() == old(s).trail().len() + n,
        final(s).trail().take(old(s).trail().len() as int) == old(s).trail(),
        forall|r: int, a: Seq<Value>| 0 <= r < n ==> ((#[trigger] final(s).trail()[old(
            s,
        ).trail().len() + r].eval(a)) == no_two_true(row_vars(board@, n as nat, r), a)),
{
    let ghost base = old(s).trail().len() as int;
    proof {
        assert(s.trail().take(base) =~= old(s).trail());
    }
    let mut r: usize = 0;
    while r < n
        invariant
            s.inv(),
            s.registry() == old(s).registry(),
            s.frames() == old(s).frames(),
            board@.len() == n * n,
            n <= 0xffff,
            n >= 1,
            vars_below(board@, s.num_vars()),
            r <= n,
            base == old(s).trail().len(),
            s.trail().len() == base + r,
            s.trail().take(base) == old(s).trail(),
            forall|rr: int, a: Seq<Value>| 0 <= rr < r ==> ((#[trigger] s.trail()[base + rr]
                .eval(a)) == no_two_true(row_vars(board@, n as nat, rr), a)),
        decreases n - r,
    {
        let rv = collect_row(board, n, r);
        proof {
            assert forall|jj: int| 0 <= jj < rv@.len() implies (#[trigger] rv@[jj])
                < s.num_vars() by {
                assert(rv@[jj] == board@[r * n + jj]);
                assert(r * n + jj < n * n) by (nonlinear_arith)
                    requires 0 <= jj < n, r < n;
            }
        }
        let e = at_most_one(&rv);
        let ghost old_trail = s.trail();
        s.assert_expr(e);
        proof {
            assert(s.trail().take(base) =~= old_trail.take(base));
            assert forall|rr: int, a: Seq<Value>| 0 <= rr < r + 1 implies ((
            #[trigger] s.trail()[base + rr].eval(a)) == no_two_true(
                row_vars(board@, n as nat, rr),
                a,
            )) by {
                if rr < r {
                    assert(s.trail()[base + rr] == old_trail[base + rr]);
                } else {
                    assert(s.trail()[base + rr] == e);
                }
            }
        }
        r += 1;
    }
}

/// Assert, for each column, that some cell of the column is occupied.
pub fn cols_covered(s: &mut Session, board: &Vec<usize>, n: usize)
    requires
        old(s).inv(),
        board@.len() == n * n,
        n <= 0xffff,
        n >= 1,
        vars_below(board@, old(s).num_vars()),
    ensures
        final(s).inv(),
        final(s).registry() == old(s).registry(),
        final(s).frames() == old(s).frames(),
        final(s).trail().len() == old(s).trail().len() + n,
        final(s).trail().take(old(s).trail().len() as int) == old(s).trail(),
        forall|c: int, a: Seq<Value>| 0 <= c < n ==> ((#[trigger] final(s).trail()[old(
            s,
        ).trail().len() + c].eval(a)) == some_true(col_vars(board@, n as nat, c), a)),
{
    let ghost base = old(s).trail().len() as int;
    proof {
        assert(s.trail().take(base) =~= old(s).trail());
    }
    let mut c: usize = 0;
    while c < n
        invariant
            s.inv(),
            s.registry() == old(s).registry(),
            s.frames() == old(s).frames(),
            board@.len() == n * n,
            n <= 0xffff,
            n >= 1,
            vars_below(board@, s.num_vars()),
            c <= n,
            base == old(s).trail().len(),
            s.trail().len() == base + c,
            s.trail().take(base) == old(s).trail(),
            forall|cc: int, a: Seq<Value>| 0 <= cc < c ==> ((#[trigger] s.trail()[base + cc]
                .eval(a)) == some_true(col_vars(board@, n as nat, cc), a)),
        decreases n - c,
    {
        let cv = collect_col(board, n, c);
        proof {
            assert forall|ii: int| 0 <= ii < cv@.len() implies (#[trigger] cv@[ii])
                < s.num_vars() by {
                assert(cv@[ii] == board@[ii * n + c]);
                assert(ii * n + c < n * n) by (nonlinear_arith)
                    requires 0 <= ii < n, c < n;
            }
        }
        let e = any_of(&cv);
        let ghost old_trail = s.trail();
        s.assert_expr(e);
        proof {
            assert(s.trail().take(base) =~= old_trail.take(base));
            assert forall|cc: int, a: Seq<Value>| 0 <= cc < c + 1 implies ((
            #[trigger] s.trail()[base + cc].eval(a)) == some_true(
                col_vars(board@, n as nat, cc),
                a,
            )) by {
                if cc < c {
                    assert(s.trail()[base + cc] == old_trail[base + cc]);
                } else {
                    assert(s.trail()[base + cc] == e);
                }
            }
        }
        c += 1;
    }
}

/// Assert, for each column, that at most one cell of the column is occupied.
pub fn cols_exclusive(s: &mut Session, board: &Vec<usize>, n: usize)
    requires
        old(s).inv(),
        board@.len() == n * n,
        n <= 0xffff,
        n >= 1,
        vars_below(board@, old(s).num_vars()),
    ensures
        final(s).inv(),
        final(s).registry() == old(s).registry(),
        final(s).frames() == old(s).frames(),
        final(s).trail().len() == old(s).trail().len() + n,
        final(s).trail().take(old(s).trail().len() as int) == old(s).trail(),
        forall|c: int, a: Seq<Value>| 0 <= c < n ==> ((#[trigger] final(s).trail()[old(
            s,
        ).trail().len() + c].eval(a)) == no_two_true(col_vars(board@, n as nat, c), a)),
{
    let ghost base = old(s).trail().len() as int;
    proof {
        assert(s.trail().take(base) =~= old(s).trail());
    }
    let mut c: usize = 0;
    while c < n
        invariant
            s.inv(),
            s.registry() == old(s).registry(),
            s.frames() == old(s).frames(),
            board@.len() == n * n,
            n <= 0xffff,
            n >= 1,
            vars_below(board@, s.num_vars()),
            c <= n,
            base == old(s).trail().len(),
            s.trail().len() == base + c,
            s.trail().take(base) == old(s).trail(),
            forall|cc: int, a: Seq<Value>| 0 <= cc < c ==> ((#[trigger] s.trail()[base + cc]
                .eval(a)) == no_two_true(col_vars(board@, n as nat, cc), a)),
        decreases n - c,
    {
        let cv = collect_col(board, n, c);
        proof {
            assert forall|ii: int| 0 <= ii < cv@.len() implies (#[trigger] cv@[ii])
                < s.num_vars() by {
                assert(cv@[ii] == board@[ii * n + c]);
                assert(ii * n + c < n * n) by (nonlinear_arith)
                    requires 0 <= ii < n, c < n;
            }
        }
        let e = at_most_one(&cv);
        let ghost old_trail = s.trail();
        s.assert_expr(e);
        proof {
            assert(s.trail().take(base) =~= old_trail.take(base));
            assert forall|cc: int, a: Seq<Value>| 0 <= cc < c + 1 implies ((
            #[trigger] s.trail()[base + cc].eval(a)) == no_two_true(
                col_vars(board@, n as nat, cc),
                a,
            )) by {
                if cc < c {
                    assert(s.trail()[base + cc] == old_trail[base + cc]);
                } else {
                    assert(s.trail()[base + cc] == e);
                }
            }
        }
        c += 1;
    }
}

/// Assert, for each anti-diagonal, that at most one of its cells is
/// occupied.
pub fn slashes_exclusive(s: &mut Session, board: &Vec<usize>, n: usize)
    requires
        old(s).inv(),
        board@.len() == n * n,
        n <= 0xffff,
        n >= 1,
        vars_below(board@, old(s).num_vars()),
    ensures
        final(s).inv(),
        final(s).registry() == old(s).registry(),
        final(s).frames() == old(s).frames(),
        final(s).trail().len() == old(s).trail().len() + (2 * n - 1),
        final(s).trail().take(old(s).trail().len() as int) == old(s).trail(),
        forall|t: int, a: Seq<Value>| 0 <= t < 2 * n - 1 ==> ((#[trigger] final(s).trail()[
            old(s).trail().len() + t].eval(a)) == no_two_true(
            slash_vars(board@, n as nat, t),
            a,
        )),
{
    let ghost base = old(s).trail().len() as int;
    proof {
        assert(s.trail().take(base) =~= old(s).trail());
    }
    let count = 2 * n - 1;
    let mut t: usize = 0;
    while t < count
        invariant
            s.inv(),
            s.registry() == old(s).registry(),
            s.frames() == old(s).frames(),
            board@.len() == n * n,
            n <= 0xffff,
            n >= 1,
            count == 2 * n - 1,
            vars_below(board@, s.num_vars()),
            t <= count,
            base == old(s).trail().len(),
            s.trail().len() == base + t,
            s.trail().take(base) == old(s).trail(),
            forall|tt: int, a: Seq<Value>| 0 <= tt < t ==> ((#[trigger] s.trail()[base + tt]
                .eval(a)) == no_two_true(slash_vars(board@, n as nat, tt), a)),
        decreases count - t,
    {
        let dv = collect_slash(board, n, t);
        proof {
            assert forall|jj: int| 0 <= jj < dv@.len() implies (#[trigger] dv@[jj])
                < s.num_vars() by {
                let r = slash_start(n as nat, t as int) + jj;
                assert(dv@[jj] == board@[r * n + (t - r)]);
                assert(r * n + (t - r) < n * n) by (nonlinear_arith)
                    requires 0 <= r < n, 0 <= t - r < n;
            }
        }
        let e = at_most_one(&dv);
        let ghost old_trail = s.trail();
        s.assert_expr(e);
        proof {
            assert(s.trail().take(base) =~= old_trail.take(base));
            assert forall|tt: int, a: Seq<Value>| 0 <= tt < t + 1 implies ((
            #[trigger] s.trail()[base + tt].eval(a)) == no_two_true(
                slash_vars(board@, n as nat, tt),
                a,
            )) by {
                if tt < t {
                    assert(s.trail()[base + tt] == old_trail[base + tt]);
                } else {
                    assert(s.trail()[base + tt] == e);
                }
            }
        }
        t += 1;
    }
}

/// Assert, for each diagonal, that at most one of its cells is occupied.
pub fn backslashes_exclusive(s: &mut Session, board: &Vec<usize>, n: usize)
    requires
        old(s).inv(),
        board@.len() == n * n,
        n <= 0xffff,
        n >= 1,
        vars_below(board@, old(s).num_vars()),
    ensures
        final(s).inv(),
        final(s).registry() == old(s).registry(),
        final(s).frames() == old(s).frames(),
        final(s).trail().len() == old(s).trail().len() + (2 * n - 1),
        final(s).trail().take(old(s).trail().len() as int) == old(s).trail(),
        forall|t: int, a: Seq<Value>| 0 <= t < 2 * n - 1 ==> ((#[trigger] final(s).trail()[
            old(s).trail().len() + t].eval(a)) == no_two_true(
            back_vars(board@, n as nat, t),
            a,
        )),
{
    let ghost base = old(s).trail().len() as int;
    proof {
        assert(s.trail().take(base) =~= old(s).trail());
    }
    let count = 2 * n - 1;
    let mut t: usize = 0;
    while t < count
        invariant
            s.inv(),
            s.registry() == old(s).registry(),
            s.frames() == old(s).frames(),
            board@.len() == n * n,
            n <= 0xffff,
            n >= 1,
            count == 2 * n - 1,
            vars_below(board@, s.num_vars()),
            t <= count,
            base == old(s).trail().len(),
            s.trail().len() == base + t,
            s.trail().take(base) == old(s).trail(),
            forall|tt: int, a: Seq<Value>| 0 <= tt < t ==> ((#[trigger] s.trail()[base + tt]
                .eval(a)) == no_two_true(back_vars(board@, n as nat, tt), a)),
        decreases count - t,
    {
        let dv = collect_backslash(board, n, t);
        proof {
            assert forall|jj: int| 0 <= jj < dv@.len() implies (#[trigger] dv@[jj])
                < s.num_vars() by {
                let r = back_start(n as nat, t as int) + jj;
                let c = r - (t as int - (n as int - 1));
                assert(dv@[jj] == board@[r * n + c]);
                assert(r * n + c < n * n) by (nonlinear_arith)
                    requires 0 <= r < n, 0 <= c < n;
            }
        }
        let e = at_most_one(&dv);
        let ghost old_trail = s.trail();
        s.assert_expr(e);
        proof {
            assert(s.trail().take(base) =~= old_trail.take(base));
            assert forall|tt: int, a: Seq<Value>| 0 <= tt < t + 1 implies ((
            #[trigger] s.trail()[base + tt].eval(a)) == no_two_true(
                back_vars(board@, n as nat, tt),
                a,
            )) by {
                if tt < t {
                    assert(s.trail()[base + tt] == old_trail[base + tt]);
                } else {
                    assert(s.trail()[base + tt] == e);
                }
            }
        }
        t += 1;
    }
}

/// A valid placement: every row and column holds exactly one piece, and no
/// two pieces share a diagonal of either family.
pub open spec fn queens_ok(board: Seq<usize>, n: nat, a: Seq<Value>) -> bool {
    &&& (forall|r: int| 0 <= r < n ==> some_true(row_vars(board, n, r), a))
    &&& (forall|r: int| 0 <= r < n ==> no_two_true(row_vars(board, n, r), a))
    &&& (forall|c: int| 0 <= c < n ==> some_true(col_vars(board, n, c), a))
    &&& (forall|c: int| 0 <= c < n ==> no_two_true(col_vars(board, n, c), a))
    &&& (forall|t: int| 0 <= t < 2 * n - 1 ==> no_two_true(slash_vars(board, n, t), a))
    &&& (forall|t: int| 0 <= t < 2 * n - 1 ==> no_two_true(back_vars(board, n, t), a))
}

/// Assert the whole placement problem.  The asserted batch taken together is
/// satisfied by exactly the valid placements: an assignment satisfies every
/// constraint added here if and only if it is a [`queens_ok`] placement.
pub fn queens_constraints(s: &mut Session, board: &Vec<usize>, n: usize)
    requires
        old(s).inv(),
        board@.len() == n * n,
        n <= 0xffff,
        n >= 1,
        vars_below(board@, old(s).num_vars()),
    ensures
        final(s).inv(),
        final(s).registry() == old(s).registry(),
        final(s).frames() == old(s).frames(),
        final(s).trail().len() == old(s).trail().len() + 4 * n + 2 * (2 * n - 1),
        final(s).trail().take(old(s).trail().len() as int) == old(s).trail(),
        forall|a: Seq<Value>| #[trigger] sat_all(
            final(s).trail().skip(old(s).trail().len() as int),
            a,
        ) == queens_ok(board@, n as nat, a),
{
    let ghost base = old(s).trail().len() as int;
    rows_covered(s, board, n);
    let ghost t1 = s.trail();
    rows_exclusive(s, board, n);
    let ghost t2 = s.trail();
    cols_covered(s, board, n);
    let ghost t3 = s.trail();
    cols_exclusive(s, board, n);
    let ghost t4 = s.trail();
    slashes_exclusive(s, board, n);
    let ghost t5 = s.trail();
    backslashes_exclusive(s, board, n);
    proof {
        let nn = n as int;
        let d = 2 * nn - 1;
        let tf = s.trail();
        assert(tf.take(t5.len() as int) == t5);
        assert(t5.take(t4.len() as int) == t4);
        assert(t4.take(t3.len() as int) == t3);
        assert(t3.take(t2.len() as int) == t2);
        assert(t2.take(t1.len() as int) == t1);
        assert(t1.take(base) == old(s).trail());
        assert forall|k: int| 0 <= k < t5.len() implies tf[k] == t5[k] by {
            assert(tf.take(t5.len() as int)[k] == tf[k]);
        }
        assert forall|k: int| 0 <= k < t4.len() implies t5[k] == t4[k] by {
            assert(t5.take(t4.len() as int)[k] == t5[k]);
        }
        assert forall|k: int| 0 <= k < t3.len() implies t4[k] == t3[k] by {
            assert(t4.take(t3.len() as int)[k] == t4[k]);
        }
        assert forall|k: int| 0 <= k < t2.len() implies t3[k] == t2[k] by {
            assert(t3.take(t2.len() as int)[k] == t3[k]);
        }
        assert forall|k: int| 0 <= k < t1.len() implies t2[k] == t1[k] by {
            assert(t2.take(t1.len() as int)[k] == t2[k]);
        }
        assert(tf.take(base) =~= old(s).trail());
        assert forall|a: Seq<Value>| #[trigger] sat_all(tf.skip(base), a) == queens_ok(
            board@,
            n as nat,
            a,
        ) by {
            let suf = tf.skip(base);
            assert(suf.len() == 4 * nn + 2 * d);
            assert forall|k: int| 0 <= k < suf.len() implies suf[k] == tf[base + k] by {}
            if sat_all(suf, a) {
                assert forall|r: int| 0 <= r < nn implies some_true(
                    row_vars(board@, n as nat, r),
                    a,
                ) by {
                    assert(suf[r].eval(a));
                    assert(tf[base + r] == t1[base + r]);
                }
                assert forall|r: int| 0 <= r < nn implies no_two_true(
                    row_vars(board@, n as nat, r),
                    a,
                ) by {
                    assert(suf[nn + r].eval(a));
                    assert(tf[t1.len() + r] == t2[t1.len() + r]);
                }
                assert forall|c: int| 0 <= c < nn implies some_true(
                    col_vars(board@, n as nat, c),
                    a,
                ) by {
                    assert(suf[2 * nn + c].eval(a));
                    assert(tf[t2.len() + c] == t3[t2.len() + c]);
                }
                assert forall|c: int| 0 <= c < nn implies no_two_true(
                    col_vars(board@, n as nat, c),
                    a,
                ) by {
                    assert(suf[3 * nn + c].eval(a));
                    assert(tf[t3.len() + c] == t4[t3.len() + c]);
                }
                assert forall|t: int| 0 <= t < d implies no_two_true(
                    slash_vars(board@, n as nat, t),
                    a,
                ) by {
                    assert(suf[4 * nn + t].eval(a));
                    assert(tf[t4.len() + t] == t5[t4.len() + t]);
                }
                assert forall|t: int| 0 <= t < d implies no_two_true(
                    back_vars(board@, n as nat, t),
                    a,
                ) by {
                    assert(suf[4 * nn + d + t].eval(a));
                    assert(suf[4 * nn + d + t] == tf[t5.len() + t]);
                    assert(tf[t5.len() + t].eval(a) == no_two_true(
                        back_vars(board@, n as nat, t),
                        a,
                    ));
                }
            }
            if queens_ok(board@, n as nat, a) {
                assert forall|k: int| 0 <= k < suf.len() implies (#[trigger] suf[k]).eval(
                    a,
                ) by {
                    if k < nn {
                        assert(tf[base + k] == t1[base + k]);
                        assert(t1[base + k].eval(a) == some_true(
                            row_vars(board@, n as nat, k),
                            a,
                        ));
                    } else if k < 2 * nn {
                        assert(tf[base + k] == t2[base + k]);
                        assert(t2[t1.len() + (k - nn)].eval(a) == no_two_true(
                            row_vars(board@, n as nat, k - nn),
                            a,
                        ));
                    } else if k < 3 * nn {
                        assert(tf[base + k] == t3[base + k]);
                        assert(t3[t2.len() + (k - 2 * nn)].eval(a) == some_true(
                            col_vars(board@, n as nat, k - 2 * nn),
                            a,
                        ));
                    } else if k < 4 * nn {
                        assert(tf[base + k] == t4[base + k]);
                        assert(t4[t3.len() + (k - 3 * nn)].eval(a) == no_two_true(
                            col_vars(board@, n as nat, k - 3 * nn),
                            a,
                        ));
                    } else if k < 4 * nn + d {
                        assert(tf[base + k] == t5[base + k]);
                        assert(t5[t4.len() + (k - 4 * nn)].eval(a) == no_two_true(
                            slash_vars(board@, n as nat, k - 4 * nn),
                            a,
                        ));
                    } else {
                        assert(tf[t5.len() + (k - (4 * nn + d))].eval(a) == no_two_true(
                            back_vars(board@, n as nat, k - (4 * nn + d)),
                            a,
                        ));
                    }
                }
            }
        }
    }
}

} // verus!
