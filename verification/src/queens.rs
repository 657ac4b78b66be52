//! N-Queens: place `n` queens on an `n` by `n` board so that no two share a
//! column or a diagonal (one per row by construction).
//!
//! The solver returns a placement exactly when one exists: the backtracking
//! search is proved complete, not just sound.

use vstd::prelude::*;

verus! {

/// The mathematical view of a board.
pub open spec fn bview(board: &Vec<Vec<bool>>) -> Seq<Seq<bool>> {
    board@.map_values(|r: Vec<bool>| r@)
}

/// Every row has exactly as many cells as there are rows.
pub open spec fn is_square(bd: Seq<Seq<bool>>) -> bool {
    forall|r: int| 0 <= r < bd.len() ==> (#[trigger] bd[r]).len() == bd.len()
}

/// No queen anywhere in rows `from..n`.
pub open spec fn rows_empty_from(bd: Seq<Seq<bool>>, from: int) -> bool {
    forall|r: int, c: int|
        from <= r < bd.len() && 0 <= c < bd.len() ==> !(#[trigger] bd[r][c])
}

/// Queens in distinct rows `r1` and `r2`, at columns `c1` and `c2`, attack
/// each other: same column or same diagonal.
pub open spec fn attacks(r1: int, c1: int, r2: int, c2: int) -> bool {
    c1 == c2 || c1 - c2 == r1 - r2 || c1 - c2 == r2 - r1
}

/// Row `r` holds a queen at column `c` and nowhere else.
pub open spec fn row_queen_at(bd: Seq<Seq<bool>>, r: int, c: int) -> bool {
    &&& 0 <= c < bd.len()
    &&& bd[r][c]
    &&& forall|c2: int| 0 <= c2 < bd.len() && c2 != c ==> !(#[trigger] bd[r][c2])
}

/// The column of row `r`'s queen (meaningful when the row holds exactly one).
pub open spec fn queen_col(bd: Seq<Seq<bool>>, r: int) -> int {
    choose|c: int| row_queen_at(bd, r, c)
}

/// A queen may stand at `(row, col)`: no queen in an earlier row attacks it.
pub open spec fn place_ok(bd: Seq<Seq<bool>>, row: int, col: int) -> bool {
    forall|i: int, c: int|
        0 <= i < row && 0 <= c < bd.len() && #[trigger] bd[i][c] ==> !attacks(i, c, row, col)
}

/// Rows `0..row` each hold exactly one queen, each standing safely.
pub open spec fn prefix_ok(bd: Seq<Seq<bool>>, row: int) -> bool {
    forall|r: int|
        0 <= r < row ==> (row_queen_at(bd, r, #[trigger] queen_col(bd, r)) && place_ok(
            bd,
            r,
            queen_col(bd, r),
        ))
}

/// A full assignment of one column per row with no pair attacking.
pub open spec fn valid_solution(n: int, s: Seq<int>) -> bool {
    &&& s.len() == n
    &&& forall|r: int| 0 <= r < n ==> 0 <= #[trigger] s[r] < n
    &&& forall|r1: int, r2: int|
        0 <= r1 < r2 < n ==> !attacks(r1, #[trigger] s[r1], r2, #[trigger] s[r2])
}

/// `s` agrees with the queens already standing in rows `0..row`.
pub open spec fn extends_board(bd: Seq<Seq<bool>>, row: int, s: Seq<int>) -> bool {
    forall|r: int| 0 <= r < row ==> #[trigger] s[r] == queen_col(bd, r)
}

/// The columns of all queens, row by row.
pub open spec fn cols_of(bd: Seq<Seq<bool>>) -> Seq<int> {
    Seq::new(bd.len(), |r: int| queen_col(bd, r))
}

/// A row left untouched keeps its queen column.
proof fn lemma_queen_col_stable(bd1: Seq<Seq<bool>>, bd2: Seq<Seq<bool>>, r: int)
    requires
        bd1.len() == bd2.len(),
        0 <= r < bd1.len(),
        bd1[r] == bd2[r],
        row_queen_at(bd1, r, queen_col(bd1, r)),
    ensures
        queen_col(bd2, r) == queen_col(bd1, r),
        row_queen_at(bd2, r, queen_col(bd2, r)),
{
    let c = queen_col(bd1, r);
    assert(row_queen_at(bd2, r, c));
    let c2 = queen_col(bd2, r);
    assert(row_queen_at(bd2, r, c2));
    assert(bd1[r][c2] ==> c2 == c);
}

/// A board whose every row stands safely yields a valid solution.
pub proof fn lemma_prefix_ok_valid(bd: Seq<Seq<bool>>)
    requires
        is_square(bd),
        prefix_ok(bd, bd.len() as int),
    ensures
        valid_solution(bd.len() as int, cols_of(bd)),
{
    let n = bd.len() as int;
    let s = cols_of(bd);
    assert forall|r1: int, r2: int| 0 <= r1 < r2 < n implies !attacks(
        r1,
        #[trigger] s[r1],
        r2,
        #[trigger] s[r2],
    ) by {
        assert(row_queen_at(bd, r1, queen_col(bd, r1)));
        assert(place_ok(bd, r2, queen_col(bd, r2)));
        assert(bd[r1][queen_col(bd, r1)]);
    }
}

/// Decides whether a queen at `(row, col)` is attacked by any queen already
/// standing in rows `0..row`.
pub fn can_place(board: &Vec<Vec<bool>>, row: usize, col: usize) -> (r: bool)
    requires
        is_square(bview(board)),
        row < board@.len(),
        col < board@.len(),
    ensures
        r == place_ok(bview(board), row as int, col as int),
{
    let n = board.len();
    let ghost bd = bview(board);
    let mut i: usize = 0;
    while i < row
        invariant
            bd == bview(board),
            is_square(bd),
            i <= row < n,
            col < n,
            n == board@.len(),
            forall|i2: int, c: int|
                0 <= i2 < i as int && 0 <= c < bd.len() && #[trigger] bd[i2][c] ==> !attacks(
                    i2,
                    c,
                    row as int,
                    col as int,
                ),
        decreases row - i,
    {
        proof {
            assert(bd[i as int] == board@[i as int]@);
        }
        if board[i][col] {
            return false;
        }
        let offset = row - i;
        if col >= offset && board[i][col - offset] {
            return false;
        }
        if offset < n - col && board[i][col + offset] {
            return false;
        }
        proof {
            assert forall|c: int|
                0 <= c < bd.len() && #[trigger] bd[i as int][c] implies !attacks(
                i as int,
                c,
                row as int,
                col as int,
            ) by {
                if c == col as int {
                    assert(!bd[i as int][c]);
                } else if c == col - (row - i) {
                    assert(!bd[i as int][c]);
                } else if c == col + (row - i) {
                    assert(!bd[i as int][c]);
                }
            }
        }
        i = i + 1;
    }
    true
}

/// Backtracking search from `row` down. Returns `true` exactly when the
/// queens already standing can be completed to a full valid placement; on
/// success the board holds one, on failure it is left as it was found.
pub fn solve_nqueens(board: &mut Vec<Vec<bool>>, row: usize) -> (found: bool)
    requires
        is_square(bview(old(board))),
        row <= old(board)@.len(),
        rows_empty_from(bview(old(board)), row as int),
        prefix_ok(bview(old(board)), row as int),
    ensures
        final(board)@.len() == old(board)@.len(),
        is_square(bview(final(board))),
        forall|r: int| 0 <= r < row as int ==> bview(final(board))[r] == bview(old(board))[r],
        found ==> prefix_ok(bview(final(board)), old(board)@.len() as int),
        !found ==> bview(final(board)) == bview(old(board)),
        !found ==> forall|s: Seq<int>|
            #[trigger] valid_solution(old(board)@.len() as int, s) && extends_board(
                bview(old(board)),
                row as int,
                s,
            ) ==> false,
    decreases old(board)@.len() - row,
{
    let n = board.len();
    if row == n {
        return true;
    }
    let ghost bd0 = bview(old(board));
    let mut col: usize = 0;
    while col < n
        invariant
            n == board@.len(),
            n == old(board)@.len(),
            row < n,
            col <= n,
            bd0 == bview(old(board)),
            bd0 == bview(board),
            is_square(bd0),
            rows_empty_from(bd0, row as int),
            prefix_ok(bd0, row as int),
            forall|s: Seq<int>|
                #[trigger] valid_solution(n as int, s) && extends_board(bd0, row as int, s)
                    && s[row as int] < col as int ==> false,
        decreases n - col,
    {
        if can_place(board, row, col) {
            let ghost pre = bview(board);
            proof {
                assert(pre[row as int] == board@[row as int]@);
                assert(board@[row as int]@.len() == n as int);
            }
            board[row][col] = true;
            let ghost bd1 = bview(board);
            proof {
                assert(board@[row as int]@ == pre[row as int].update(col as int, true));
                assert(bd1 =~~= pre.update(
                    row as int,
                    pre[row as int].update(col as int, true),
                ));
                assert(is_square(bd1));
                assert(rows_empty_from(bd1, row as int + 1)) by {
                    assert forall|r: int, c: int|
                        row as int + 1 <= r < bd1.len() && 0 <= c < bd1.len() implies !(
                        #[trigger] bd1[r][c]) by {
                        assert(bd1[r][c] == bd0[r][c]);
                    }
                }
                assert(row_queen_at(bd1, row as int, col as int)) by {
                    assert forall|c2: int|
                        0 <= c2 < bd1.len() && c2 != col as int implies !(#[trigger] bd1[row as int][c2]) by {
                        assert(bd1[row as int][c2] == bd0[row as int][c2]);
                    }
                }
                assert(queen_col(bd1, row as int) == col as int) by {
                    assert(row_queen_at(bd1, row as int, col as int));
                    let c2 = queen_col(bd1, row as int);
                    assert(row_queen_at(bd1, row as int, c2));
                }
                assert(prefix_ok(bd1, row as int + 1)) by {
                    assert forall|r: int| 0 <= r < row as int + 1 implies (row_queen_at(
                        bd1,
                        r,
                        #[trigger] queen_col(bd1, r),
                    ) && place_ok(bd1, r, queen_col(bd1, r))) by {
                        if r < row as int {
                            assert(bd1[r] == bd0[r]);
                            lemma_queen_col_stable(bd0, bd1, r);
                            assert(place_ok(bd1, r, queen_col(bd1, r))) by {
                                assert forall|i: int, c: int|
                                    0 <= i < r && 0 <= c < bd1.len()
                                        && #[trigger] bd1[i][c] implies !attacks(
                                    i,
                                    c,
                                    r,
                                    queen_col(bd1, r),
                                ) by {
                                    assert(bd1[i][c] == bd0[i][c]);
                                }
                            }
                        } else {
                            assert(place_ok(bd1, row as int, col as int)) by {
                                assert forall|i: int, c: int|
                                    0 <= i < row as int && 0 <= c < bd1.len()
                                        && #[trigger] bd1[i][c] implies !attacks(
                                    i,
                                    c,
                                    row as int,
                                    col as int,
                                ) by {
                                    assert(bd1[i][c] == bd0[i][c]);
                                }
                            }
                        }
                    }
                }
            }
            if solve_nqueens(board, row + 1) {
                proof {
                    assert forall|r: int| 0 <= r < row as int implies bview(board)[r] == bd0[r] by {
                        assert(bview(board)[r] == bd1[r]);
                        assert(bd1[r] == pre[r]);
                    }
                }
                return true;
            }
            let ghost vecs2 = board@;
            proof {
                assert(bview(board) == bd1);
                assert(bd1[row as int] == board@[row as int]@);
                assert(board@[row as int]@.len() == n as int);
            }
            board[row][col] = false;
            proof {
                assert(board@[row as int]@ == bd1[row as int].update(col as int, false));
                assert(!bd0[row as int][col as int]);
                assert(board@[row as int]@ =~= bd0[row as int]);
                assert forall|r: int| 0 <= r < n as int implies bview(board)[r] == bd0[r] by {
                    assert(bview(board)[r] == board@[r]@);
                    if r != row as int {
                        assert(board@[r] == vecs2[r]);
                        assert(bd1[r] == vecs2[r]@);
                        assert(bd1[r] == bd0[r]);
                    }
                }
                assert(bview(board) =~~= bd0);
                assert forall|s: Seq<int>|
                    #[trigger] valid_solution(n as int, s) && extends_board(bd0, row as int, s)
                        && s[row as int] < col as int + 1 implies false by {
                    if s[row as int] == col as int {
                        assert(extends_board(bd1, row as int + 1, s)) by {
                            assert forall|r: int| 0 <= r < row as int + 1 implies #[trigger] s[r]
                                == queen_col(bd1, r) by {
                                if r < row as int {
                                    lemma_queen_col_stable(bd0, bd1, r);
                                } else {
                                    assert(queen_col(bd1, row as int) == col as int);
                                }
                            }
                        }
                    }
                }
            }
        } else {
            proof {
                assert forall|s: Seq<int>|
                    #[trigger] valid_solution(n as int, s) && extends_board(bd0, row as int, s)
                        && s[row as int] < col as int + 1 implies false by {
                    if s[row as int] == col as int {
                        assert(!place_ok(bd0, row as int, col as int));
                        let (i, c) = choose|i: int, c: int|
                            0 <= i < row as int && 0 <= c < bd0.len() && #[trigger] bd0[i][c]
                                && attacks(i, c, row as int, col as int);
                        assert(row_queen_at(bd0, i, queen_col(bd0, i)));
                        assert(c == queen_col(bd0, i));
                        assert(s[i] == c);
                        assert(attacks(i, s[i], row as int, s[row as int]));
                    }
                }
            }
        }
        col = col + 1;
    }
    false
}

/// Solves N-Queens on an `n` by `n` board: the column of each row's queen,
/// or `None` exactly when no valid placement exists.
pub fn n_queens(n: usize) -> (r: Option<Vec<usize>>)
    ensures
        match r {
            Some(p) => p@.len() == n && valid_solution(
                n as int,
                p@.map_values(|c: usize| c as int),
            ),
            None => forall|s: Seq<int>| !valid_solution(n as int, s),
        },
{
    let mut board: Vec<Vec<bool>> = Vec::new();
    let mut r: usize = 0;
    while r < n
        invariant
            board@.len() == r as int,
            r <= n,
            forall|r2: int| 0 <= r2 < r as int ==> (#[trigger] board@[r2])@.len() == n as int,
            forall|r2: int, c: int|
                0 <= r2 < r as int && 0 <= c < n as int ==> !(#[trigger] board@[r2]@[c]),
        decreases n - r,
    {
        let mut rowv: Vec<bool> = Vec::new();
        let mut c: usize = 0;
        while c < n
            invariant
                rowv@.len() == c as int,
                c <= n,
                forall|c2: int| 0 <= c2 < c as int ==> !(#[trigger] rowv@[c2]),
            decreases n - c,
        {
            rowv.push(false);
            c = c + 1;
        }
        board.push(rowv);
        r = r + 1;
    }
    proof {
        assert forall|r2: int| 0 <= r2 < n as int implies (#[trigger] bview(&board)[r2]).len()
            == n as int by {
            assert(bview(&board)[r2] == board@[r2]@);
        }
        assert forall|r2: int, c: int|
            0 <= r2 < n as int && 0 <= c < n as int implies !(#[trigger] bview(&board)[r2][c]) by {
            assert(bview(&board)[r2] == board@[r2]@);
        }
        assert(is_square(bview(&board)));
        assert(rows_empty_from(bview(&board), 0));
    }
    let found = solve_nqueens(&mut board, 0);
    if found {
        let mut positions: Vec<usize> = Vec::new();
        let mut rr: usize = 0;
        while rr < n
            invariant
                n == board@.len(),
                is_square(bview(&board)),
                prefix_ok(bview(&board), n as int),
                positions@.len() == rr as int,
                rr <= n,
                forall|r2: int|
                    0 <= r2 < rr as int ==> #[trigger] positions@[r2] as int == queen_col(
                        bview(&board),
                        r2,
                    ),
            decreases n - rr,
        {
            let mut sel: usize = 0;
            let mut seen = false;
            let mut c: usize = 0;
            proof {
                assert(bview(&board)[rr as int] == board@[rr as int]@);
            }
            while c < n
                invariant
                    n == board@.len(),
                    rr < n,
                    c <= n,
                    is_square(bview(&board)),
                    prefix_ok(bview(&board), n as int),
                    bview(&board)[rr as int] == board@[rr as int]@,
                    board@[rr as int]@.len() == n as int,
                    seen ==> (sel < n && bview(&board)[rr as int][sel as int]),
                    !seen ==> forall|c2: int|
                        0 <= c2 < c as int ==> !(#[trigger] bview(&board)[rr as int][c2]),
                decreases n - c,
            {
                if !seen && board[rr][c] {
                    sel = c;
                    seen = true;
                }
                c = c + 1;
            }
            proof {
                assert(row_queen_at(bview(&board), rr as int, queen_col(bview(&board), rr as int)));
                if !seen {
                    assert(bview(&board)[rr as int][queen_col(bview(&board), rr as int)]);
                }
                assert(seen);
                assert(sel as int == queen_col(bview(&board), rr as int));
            }
            positions.push(sel);
            rr = rr + 1;
        }
        proof {
            lemma_prefix_ok_valid(bview(&board));
            assert(positions@.map_values(|c: usize| c as int) =~= cols_of(bview(&board)));
        }
        Some(positions)
    } else {
        proof {
            assert forall|s: Seq<int>| !valid_solution(n as int, s) by {
                if valid_solution(n as int, s) {
                    assert(extends_board(bview(&board), 0, s));
                }
            }
        }
        None
    }
}

} // verus!
