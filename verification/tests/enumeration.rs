use satkit::domain::Value;
use satkit::enumerate::{enumerate_solutions, EnumEnd};
use satkit::expr::Expr;
use satkit::session::Session;

/// A permutation-matrix session: every row and column of an `n` by `n`
/// boolean grid holds exactly one true cell.
fn permutation_session(n: usize) -> (Session, Vec<usize>) {
    let mut s = Session::new();
    let board = satkit::queens::queens_board(&mut s, n).unwrap();
    satkit::queens::rows_covered(&mut s, &board, n);
    satkit::queens::rows_exclusive(&mut s, &board, n);
    satkit::queens::cols_covered(&mut s, &board, n);
    satkit::queens::cols_exclusive(&mut s, &board, n);
    (s, board)
}

#[test]
fn three_by_three_permutations_are_exactly_six() {
    let n: usize = 3;
    let (mut s, board) = permutation_session(n);
    let en = enumerate_solutions(&mut s, &board, 100).unwrap();
    assert_eq!(en.end, EnumEnd::Exhausted);
    assert_eq!(en.found.len(), 6);
    for (i, a) in en.found.iter().enumerate() {
        for b in en.found.iter().skip(i + 1) {
            assert!(!a.same_as(b), "two equal assignments returned");
        }
    }
}

#[test]
fn pinned_permutation_has_exactly_two_solutions() {
    // An 8-variable positional instance: a 4x4 permutation matrix with two
    // cells pinned leaves exactly the two permutations of the last rows.
    let n: usize = 4;
    let (mut s, board) = permutation_session(n);
    s.assert_expr(Expr::Var(board[0 * n + 0]));
    s.assert_expr(Expr::Var(board[1 * n + 1]));
    let watched: Vec<usize> = vec![
        board[2 * n + 2],
        board[2 * n + 3],
        board[3 * n + 2],
        board[3 * n + 3],
    ];
    let en = enumerate_solutions(&mut s, &watched, 100).unwrap();
    assert_eq!(en.end, EnumEnd::Exhausted);
    assert_eq!(en.found.len(), 2);
    let a = &en.found[0];
    let b = &en.found[1];
    assert!(!a.same_as(b));
    // Each solution fixes the pinned cells and permutes the rest.
    for m in &en.found {
        assert_eq!(m.get(board[0]), Value::Bool(true));
        assert_eq!(m.get(board[n + 1]), Value::Bool(true));
    }
    // The two differ in at least one watched variable.
    assert!(watched.iter().any(|&v| a.get(v) != b.get(v)));
}

#[test]
fn queens_on_a_small_board() {
    // On a 4x4 board with both diagonal families excluded there are exactly
    // two placements.
    let n: usize = 4;
    let mut s = Session::new();
    let board = satkit::queens::queens_board(&mut s, n).unwrap();
    satkit::queens::queens_constraints(&mut s, &board, n);
    let en = enumerate_solutions(&mut s, &board, 100).unwrap();
    assert_eq!(en.end, EnumEnd::Exhausted);
    assert_eq!(en.found.len(), 2);
    for m in &en.found {
        // Decode and re-check the placement shape: one piece per row.
        for r in 0..n {
            let count = (0..n)
                .filter(|&c| m.get(board[r * n + c]) == Value::Bool(true))
                .count();
            assert_eq!(count, 1);
        }
    }
}

#[test]
fn enumeration_respects_the_limit() {
    let n: usize = 3;
    let (mut s, board) = permutation_session(n);
    let en = enumerate_solutions(&mut s, &board, 2).unwrap();
    assert_eq!(en.end, EnumEnd::LimitReached);
    assert_eq!(en.found.len(), 2);
    assert!(!en.found[0].same_as(&en.found[1]));
}
