//! Bingo boards: marking draws, detecting a win, and scoring each board by
//! the turn it wins on.

use crate::parse::{chars_of, is_number, number_value, parse_number, split_on, split_spec};
use vstd::pervasive::VecAdditionalExecFns;
use vstd::prelude::*;

verus! {

/// One cell of a board: a value and whether it has been drawn.
#[derive(Clone, Copy, Debug, PartialEq, Eq, Structural)]
pub struct BingoEntry {
    pub value: u32,
    pub matched: bool,
}

/// A square board, its score and the turn it won on (both 0 until computed).
#[derive(Debug)]
pub struct BingoBoard {
    pub board: Vec<BingoEntry>,
    pub score: u32,
    pub winturn: u32,
}

/// The board after marking every cell that holds `draw`.
pub open spec fn mark_spec(e: Seq<BingoEntry>, draw: u32) -> Seq<BingoEntry> {
    e.map_values(
        |x: BingoEntry| if x.value == draw {
            BingoEntry { value: x.value, matched: true }
        } else {
            x
        },
    )
}

/// No cell holding `draw` is already marked.
pub open spec fn no_rematch(e: Seq<BingoEntry>, draw: u32) -> bool {
    forall|i: int| 0 <= i < e.len() && (#[trigger] e[i]).value == draw ==> !e[i].matched
}

/// Marks every cell that holds the drawn number.
pub fn mark_draw(draw: &u32, board: &mut BingoBoard)
    requires
        no_rematch(old(board).board@, *draw),
    ensures
        final(board).board@ == mark_spec(old(board).board@, *draw),
        final(board).score == old(board).score,
        final(board).winturn == old(board).winturn,
{
    let ghost orig = board.board@;
    let mut i: usize = 0;
    while i < board.board.len()
        invariant
            0 <= i <= orig.len(),
            board.board@.len() == orig.len(),
            board.score == old(board).score,
            board.winturn == old(board).winturn,
            forall|j: int| 0 <= j < i ==> #[trigger] board.board@[j] == mark_spec(orig, *draw)[j],
            forall|j: int| i <= j < orig.len() ==> #[trigger] board.board@[j] == orig[j],
        decreases orig.len() - i,
    {
        let e = board.board[i];
        if e.value == *draw {
            board.board.set(i, BingoEntry { value: e.value, matched: true });
        }
        i = i + 1;
    }
    proof {
        assert(board.board@ =~= mark_spec(orig, *draw));
    }
}

/// The integer square root: the largest `r` with `r * r <= n`.
pub open spec fn isqrt(n: nat) -> nat
    decreases n,
{
    if n == 0 {
        0
    } else {
        let r = isqrt((n - 1) as nat);
        if (r + 1) * (r + 1) <= n {
            r + 1
        } else {
            r
        }
    }
}

proof fn lemma_isqrt_bounds(n: nat)
    ensures
        isqrt(n) * isqrt(n) <= n,
        n < (isqrt(n) + 1) * (isqrt(n) + 1),
    decreases n,
{
    if n == 0 {
        assert(isqrt(0) == 0);
        assert(n < (isqrt(n) + 1) * (isqrt(n) + 1)) by (nonlinear_arith)
            requires n == 0, isqrt(n) == 0;
    } else {
        lemma_isqrt_bounds((n - 1) as nat);
        let r = isqrt((n - 1) as nat);
        assert(r * r <= n - 1);
        assert((n - 1) < (r + 1) * (r + 1));
        if (r + 1) * (r + 1) <= n {
            assert(isqrt(n) == r + 1);
            assert(isqrt(n) * isqrt(n) <= n);
            assert(n < ((r + 1) + 1) * ((r + 1) + 1)) by (nonlinear_arith)
                requires n <= (r + 1) * (r + 1);
            assert(n < (isqrt(n) + 1) * (isqrt(n) + 1));
        } else {
            assert(isqrt(n) == r);
            assert(isqrt(n) * isqrt(n) <= n);
            assert(n < (isqrt(n) + 1) * (isqrt(n) + 1));
        }
    }
}

/// Row `r` of a `dim`-sided board is fully marked.
pub open spec fn row_won(e: Seq<BingoEntry>, dim: int, r: int) -> bool {
    forall|c: int| 0 <= c < dim ==> (#[trigger] e[r * dim + c]).matched
}

/// Column `c` of a `dim`-sided board is fully marked.
pub open spec fn col_won(e: Seq<BingoEntry>, dim: int, c: int) -> bool {
    forall|r: int| 0 <= r < dim ==> (#[trigger] e[r * dim + c]).matched
}

/// Some row or column is fully marked.
pub open spec fn board_wins(e: Seq<BingoEntry>, dim: int) -> bool {
    exists|i: int| 0 <= i < dim && (row_won(e, dim, i) || col_won(e, dim, i))
}

/// The board is square and small enough to check.
pub open spec fn square_board(e: Seq<BingoEntry>) -> bool {
    e.len() <= 0xffff && isqrt(e.len()) * isqrt(e.len()) == e.len()
}

/// The side length of the board.
fn board_dim(len: usize) -> (dim: usize)
    requires
        len <= 0xffff,
    ensures
        dim == isqrt(len as nat),
{
    let mut d: usize = 0;
    let mut sq: usize = 1;
    while sq <= len
        invariant
            len <= 0xffff,
            d <= 255,
            sq == (d + 1) * (d + 1),
            d * d <= len,
        decreases 256 - d,
    {
        d = d + 1;
        proof {
            assert(d <= 255) by (nonlinear_arith)
                requires d * d <= 0xffff;
            assert((d + 1) * (d + 1) == d * d + 2 * d + 1) by (nonlinear_arith);
        }
        sq = sq + 2 * d + 1;
    }
    proof {
        lemma_isqrt_unique(len as nat, d as nat);
    }
    d
}

proof fn lemma_isqrt_unique(n: nat, d: nat)
    requires
        d * d <= n,
        n < (d + 1) * (d + 1),
    ensures
        isqrt(n) == d,
{
    lemma_isqrt_bounds(n);
    let r = isqrt(n);
    if r < d {
        assert((r + 1) * (r + 1) <= d * d) by (nonlinear_arith)
            requires r + 1 <= d;
    }
    if r > d {
        assert((d + 1) * (d + 1) <= r * r) by (nonlinear_arith)
            requires d + 1 <= r;
    }
}

/// Whether the board has a fully marked row or column. Leaves the board
/// unchanged.
pub fn check_win(board: &mut BingoBoard) -> (r: bool)
    requires
        square_board(old(board).board@),
    ensures
        *final(board) == *old(board),
        r == board_wins(old(board).board@, isqrt(old(board).board@.len() as nat) as int),
{
    let ghost e = board.board@;
    let dim = board_dim(board.board.len());
    proof {
        lemma_isqrt_bounds(e.len() as nat);
    }
    let mut i: usize = 0;
    while i < dim
        invariant
            0 <= i <= dim,
            e == board.board@,
            *board == *old(board),
            dim == isqrt(e.len() as nat),
            dim * dim == e.len(),
            e.len() <= 0xffff,
            forall|k: int| 0 <= k < i ==> !row_won(e, dim as int, k) && !col_won(e, dim as int, k),
        decreases dim - i,
    {
        let mut row_ok = true;
        let mut c: usize = 0;
        while c < dim
            invariant
                0 <= c <= dim,
                0 <= i < dim,
                e == board.board@,
                dim * dim == e.len(),
                e.len() <= 0xffff,
                row_ok ==> forall|k: int| 0 <= k < c ==> (#[trigger] e[i * dim + k]).matched,
                !row_ok ==> !row_won(e, dim as int, i as int),
            decreases dim - c,
        {
            proof {
                assert(i * dim + c < dim * dim) by (nonlinear_arith)
                    requires i < dim, c < dim;
            }
            if !board.board[i * dim + c].matched {
                row_ok = false;
            }
            c = c + 1;
        }
        if row_ok {
            proof {
                assert(row_won(e, dim as int, i as int));
            }
            return true;
        }
        let mut col_ok = true;
        let mut r: usize = 0;
        while r < dim
            invariant
                0 <= r <= dim,
                0 <= i < dim,
                e == board.board@,
                dim * dim == e.len(),
                e.len() <= 0xffff,
                col_ok ==> forall|k: int| 0 <= k < r ==> (#[trigger] e[k * dim + i]).matched,
                !col_ok ==> !col_won(e, dim as int, i as int),
            decreases dim - r,
        {
            proof {
                assert(r * dim + i < dim * dim) by (nonlinear_arith)
                    requires r < dim, i < dim;
            }
            if !board.board[r * dim + i].matched {
                col_ok = false;
            }
            r = r + 1;
        }
        if col_ok {
            proof {
                assert(col_won(e, dim as int, i as int));
            }
            return true;
        }
        i = i + 1;
    }
    false
}

/// The board after the first `k` draws have been marked.
pub open spec fn mark_seq(e: Seq<BingoEntry>, draws: Seq<u32>, k: int) -> Seq<BingoEntry>
    decreases k,
{
    if k <= 0 {
        e
    } else {
        mark_spec(mark_seq(e, draws, k - 1), draws[k - 1])
    }
}

/// Whether the board wins right after draw `k` (1-based).
pub open spec fn wins_at(e: Seq<BingoEntry>, draws: Seq<u32>, k: int) -> bool {
    board_wins(mark_seq(e, draws, k), isqrt(e.len() as nat) as int)
}

/// The first turn (1-based, at least `k`) after which the board wins.
pub open spec fn first_win_from(e: Seq<BingoEntry>, draws: Seq<u32>, k: int) -> Option<int>
    decreases draws.len() - k + 1,
{
    if k < 1 || k > draws.len() {
        None
    } else if wins_at(e, draws, k) {
        Some(k)
    } else {
        first_win_from(e, draws, k + 1)
    }
}

/// The sum of the values of the unmarked cells.
pub open spec fn unmatched_sum(e: Seq<BingoEntry>) -> int
    decreases e.len(),
{
    if e.len() == 0 {
        0
    } else {
        unmatched_sum(e.drop_last()) + if e.last().matched {
            0
        } else {
            e.last().value as int
        }
    }
}

proof fn lemma_unmatched_sum_nonneg(e: Seq<BingoEntry>)
    ensures
        unmatched_sum(e) >= 0,
    decreases e.len(),
{
    if e.len() > 0 {
        lemma_unmatched_sum_nonneg(e.drop_last());
    }
}

proof fn lemma_unmatched_sum_prefix(e: Seq<BingoEntry>, n: int)
    requires
        0 <= n <= e.len(),
    ensures
        0 <= unmatched_sum(e.take(n)) <= unmatched_sum(e),
    decreases e.len() - n,
{
    lemma_unmatched_sum_nonneg(e.take(n));
    if n < e.len() {
        lemma_unmatched_sum_prefix(e, n + 1);
        assert(e.take(n + 1).drop_last() =~= e.take(n));
        assert(e.take(n + 1).last() == e[n]);
    } else {
        assert(e.take(n) =~= e);
    }
}

proof fn lemma_first_win_at(e: Seq<BingoEntry>, draws: Seq<u32>, m: int, k: int)
    requires
        1 <= m <= k <= draws.len(),
        wins_at(e, draws, k),
        forall|j: int| m <= j < k ==> !wins_at(e, draws, j),
    ensures
        first_win_from(e, draws, m) == Some(k),
    decreases k - m,
{
    if m < k {
        lemma_first_win_at(e, draws, m + 1, k);
    }
}

proof fn lemma_no_win(e: Seq<BingoEntry>, draws: Seq<u32>, m: int)
    requires
        forall|j: int| 1 <= j <= draws.len() ==> !wins_at(e, draws, j),
    ensures
        first_win_from(e, draws, m) == None::<int>,
    decreases draws.len() - m + 1,
{
    if 1 <= m <= draws.len() {
        lemma_no_win(e, draws, m + 1);
    }
}

/// What `calculate_board_score` needs of a board and the draw order.
pub open spec fn calc_ready(e: Seq<BingoEntry>, draws: Seq<u32>) -> bool {
    &&& draws.len() < u32::MAX
    &&& square_board(e)
    &&& forall|k: int| 0 <= k < draws.len() ==> no_rematch(#[trigger] mark_seq(e, draws, k), draws[k])
    &&& (first_win_from(e, draws, 1) matches Some(wt) ==> unmatched_sum(mark_seq(e, draws, wt))
        <= u32::MAX && unmatched_sum(mark_seq(e, draws, wt)) * draws[wt - 1] <= u32::MAX)
}

/// Marks the draws in order until the board wins; the winning turn and the
/// board's score (unmarked sum times the winning draw) are recorded on the
/// board and returned. A board that never wins is an error and keeps its
/// score and turn.
pub fn calculate_board_score(draws: &Vec<u32>, board: &mut BingoBoard) -> (r: Result<
    (u32, u32),
    &'static str,
>)
    requires
        calc_ready(old(board).board@, draws@),
    ensures
        ({
            let e = old(board).board@;
            match first_win_from(e, draws@, 1) {
                Some(wt) => {
                    &&& r matches Ok(p) && p.0 == wt && p.1 == unmatched_sum(
                        mark_seq(e, draws@, wt),
                    ) * draws@[wt - 1]
                    &&& final(board).board@ == mark_seq(e, draws@, wt)
                    &&& final(board).winturn == wt
                    &&& final(board).score == unmatched_sum(mark_seq(e, draws@, wt)) * draws@[wt
                        - 1]
                },
                None => {
                    &&& r is Err
                    &&& final(board).board@ == mark_seq(e, draws@, draws@.len() as int)
                    &&& final(board).winturn == old(board).winturn
                    &&& final(board).score == old(board).score
                },
            }
        }),
{
    let ghost e = old(board).board@;
    let mut i: usize = 0;
    proof {
        assert(mark_seq(e, draws@, 0) == e);
    }
    while i < draws.len()
        invariant
            0 <= i <= draws@.len(),
            calc_ready(e, draws@),
            e == old(board).board@,
            board.board@ == mark_seq(e, draws@, i as int),
            board.score == old(board).score,
            board.winturn == old(board).winturn,
            forall|j: int| 1 <= j <= i ==> !wins_at(e, draws@, j),
        decreases draws@.len() - i,
    {
        let draw = draws[i];
        mark_draw(&draw, board);
        proof {
            assert(board.board@ == mark_seq(e, draws@, i + 1));
            assert(mark_seq(e, draws@, i + 1).len() == e.len()) by {
                lemma_mark_seq_len(e, draws@, i + 1);
            }
            lemma_isqrt_bounds(e.len() as nat);
        }
        if check_win(board) {
            proof {
                lemma_mark_seq_len(e, draws@, i + 1);
                assert(wins_at(e, draws@, i + 1));
                lemma_first_win_at(e, draws@, 1, i + 1);
                lemma_unmatched_sum_prefix(board.board@, board.board@.len() as int);
            }
            let mut sum: u32 = 0;
            let mut j: usize = 0;
            proof {
                assert(board.board@.take(0int) =~= Seq::<BingoEntry>::empty());
            }
            while j < board.board.len()
                invariant
                    0 <= j <= board.board@.len(),
                    board.board@ == mark_seq(e, draws@, i + 1),
                    0 <= unmatched_sum(board.board@) <= u32::MAX,
                    sum == unmatched_sum(board.board@.take(j as int)),
                decreases board.board@.len() - j,
            {
                proof {
                    lemma_unmatched_sum_prefix(board.board@, j + 1);
                    lemma_unmatched_sum_prefix(board.board@.take(j + 1), j as int);
                    assert(board.board@.take(j + 1).take(j as int) =~= board.board@.take(j as int));
                    assert(board.board@.take(j + 1).drop_last() =~= board.board@.take(j as int));
                    assert(board.board@.take(j + 1).last() == board.board@[j as int]);
                }
                let entry = board.board[j];
                if !entry.matched {
                    sum = sum + entry.value;
                }
                j = j + 1;
            }
            proof {
                assert(board.board@.take(board.board@.len() as int) =~= board.board@);
                assert(first_win_from(e, draws@, 1) == Some(i + 1));
            }
            let score = sum * draw;
            board.score = score;
            board.winturn = (i as u32) + 1;
            return Ok((board.winturn, board.score));
        }
        i = i + 1;
    }
    proof {
        lemma_no_win(e, draws@, 1);
    }
    Err("Board did not win!")
}

proof fn lemma_mark_seq_len(e: Seq<BingoEntry>, draws: Seq<u32>, k: int)
    ensures
        mark_seq(e, draws, k).len() == e.len(),
    decreases k,
{
    if k > 0 {
        lemma_mark_seq_len(e, draws, k - 1);
    }
}

/// The winning turn `calculate_board_score` leaves on a board.
pub open spec fn calc_winturn(e: Seq<BingoEntry>, wt0: u32, draws: Seq<u32>) -> int {
    match first_win_from(e, draws, 1) {
        Some(k) => k,
        None => wt0 as int,
    }
}

/// The score `calculate_board_score` leaves on a board.
pub open spec fn calc_score(e: Seq<BingoEntry>, sc0: u32, draws: Seq<u32>) -> int {
    match first_win_from(e, draws, 1) {
        Some(k) => unmatched_sum(mark_seq(e, draws, k)) * draws[k - 1],
        None => sc0 as int,
    }
}

/// Folds the boards left to right, keeping the board with the strictly
/// earliest winning turn.
pub open spec fn fold_best(boards: Seq<BingoBoard>, draws: Seq<u32>, acc_wt: int, acc_sc: int) -> (
    int,
    int,
)
    decreases boards.len(),
{
    if boards.len() == 0 {
        (acc_wt, acc_sc)
    } else {
        let b = boards.first();
        let wt = calc_winturn(b.board@, b.winturn, draws);
        let sc = calc_score(b.board@, b.score, draws);
        if wt < acc_wt {
            fold_best(boards.drop_first(), draws, wt, sc)
        } else {
            fold_best(boards.drop_first(), draws, acc_wt, acc_sc)
        }
    }
}

/// Folds the boards left to right, keeping the board with the strictly
/// latest winning turn.
pub open spec fn fold_last(boards: Seq<BingoBoard>, draws: Seq<u32>, acc_wt: int, acc_sc: int) -> (
    int,
    int,
)
    decreases boards.len(),
{
    if boards.len() == 0 {
        (acc_wt, acc_sc)
    } else {
        let b = boards.first();
        let wt = calc_winturn(b.board@, b.winturn, draws);
        let sc = calc_score(b.board@, b.score, draws);
        if wt > acc_wt {
            fold_last(boards.drop_first(), draws, wt, sc)
        } else {
            fold_last(boards.drop_first(), draws, acc_wt, acc_sc)
        }
    }
}

proof fn lemma_fold_best_push(boards: Seq<BingoBoard>, b: BingoBoard, draws: Seq<u32>, aw: int, ac: int)
    ensures
        fold_best(boards.push(b), draws, aw, ac) == ({
            let acc = fold_best(boards, draws, aw, ac);
            let wt = calc_winturn(b.board@, b.winturn, draws);
            let sc = calc_score(b.board@, b.score, draws);
            if wt < acc.0 {
                (wt, sc)
            } else {
                acc
            }
        }),
    decreases boards.len(),
{
    reveal_with_fuel(fold_best, 3);
    let wt = calc_winturn(b.board@, b.winturn, draws);
    let sc = calc_score(b.board@, b.score, draws);
    if boards.len() == 0 {
        assert(boards.push(b).drop_first() =~= Seq::<BingoBoard>::empty());
        assert(boards.push(b).first() == b);
        assert(fold_best(Seq::<BingoBoard>::empty(), draws, wt, sc) == (wt, sc));
        assert(fold_best(boards, draws, aw, ac) == (aw, ac));
    } else {
        assert(boards.push(b).first() == boards.first());
        assert(boards.push(b).drop_first() =~= boards.drop_first().push(b));
        lemma_fold_best_push(boards.drop_first(), b, draws, aw, ac);
        let w0 = calc_winturn(boards.first().board@, boards.first().winturn, draws);
        let s0 = calc_score(boards.first().board@, boards.first().score, draws);
        if w0 < aw {
            lemma_fold_best_push(boards.drop_first(), b, draws, w0, s0);
            assert(fold_best(boards.push(b), draws, aw, ac) == fold_best(
                boards.drop_first().push(b),
                draws,
                w0,
                s0,
            ));
            assert(fold_best(boards, draws, aw, ac) == fold_best(boards.drop_first(), draws, w0, s0));
        } else {
            assert(fold_best(boards.push(b), draws, aw, ac) == fold_best(
                boards.drop_first().push(b),
                draws,
                aw,
                ac,
            ));
            assert(fold_best(boards, draws, aw, ac) == fold_best(boards.drop_first(), draws, aw, ac));
        }
    }
}

proof fn lemma_fold_last_push(boards: Seq<BingoBoard>, b: BingoBoard, draws: Seq<u32>, aw: int, ac: int)
    ensures
        fold_last(boards.push(b), draws, aw, ac) == ({
            let acc = fold_last(boards, draws, aw, ac);
            let wt = calc_winturn(b.board@, b.winturn, draws);
            let sc = calc_score(b.board@, b.score, draws);
            if wt > acc.0 {
                (wt, sc)
            } else {
                acc
            }
        }),
    decreases boards.len(),
{
    reveal_with_fuel(fold_last, 3);
    let wt = calc_winturn(b.board@, b.winturn, draws);
    let sc = calc_score(b.board@, b.score, draws);
    if boards.len() == 0 {
        assert(boards.push(b).drop_first() =~= Seq::<BingoBoard>::empty());
        assert(boards.push(b).first() == b);
        assert(fold_last(Seq::<BingoBoard>::empty(), draws, wt, sc) == (wt, sc));
        assert(fold_last(boards, draws, aw, ac) == (aw, ac));
    } else {
        assert(boards.push(b).first() == boards.first());
        assert(boards.push(b).drop_first() =~= boards.drop_first().push(b));
        lemma_fold_last_push(boards.drop_first(), b, draws, aw, ac);
        let w0 = calc_winturn(boards.first().board@, boards.first().winturn, draws);
        let s0 = calc_score(boards.first().board@, boards.first().score, draws);
        if w0 > aw {
            lemma_fold_last_push(boards.drop_first(), b, draws, w0, s0);
            assert(fold_last(boards.push(b), draws, aw, ac) == fold_last(
                boards.drop_first().push(b),
                draws,
                w0,
                s0,
            ));
            assert(fold_last(boards, draws, aw, ac) == fold_last(boards.drop_first(), draws, w0, s0));
        } else {
            assert(fold_last(boards.push(b), draws, aw, ac) == fold_last(
                boards.drop_first().push(b),
                draws,
                aw,
                ac,
            ));
            assert(fold_last(boards, draws, aw, ac) == fold_last(boards.drop_first(), draws, aw, ac));
        }
    }
}

/// Every board can be scored and eventually wins.
pub open spec fn all_boards_win(boards: Seq<BingoBoard>, draws: Seq<u32>) -> bool {
    forall|i: int| 0 <= i < boards.len() ==> calc_ready((#[trigger] boards[i]).board@, draws)
        && first_win_from(boards[i].board@, draws, 1) is Some
}

/// Scores every board and returns the score of the board that wins
/// strictly earliest; the first such board wins ties.
pub fn best_board_score(draws: &Vec<u32>, boards: Vec<BingoBoard>) -> (r: u32)
    requires
        draws@.len() < u32::MAX,
        all_boards_win(boards@, draws@),
    ensures
        r == fold_best(boards@, draws@, draws@.len() as int, 0).1,
{
    let ghost orig = boards@;
    let mut rest = boards;
    let mut acc_wt: u32 = draws.len() as u32;
    let mut acc_sc: u32 = 0;
    proof {
        assert(orig.take(0int) =~= Seq::<BingoBoard>::empty());
        assert(orig.skip(0int) =~= orig);
    }
    while rest.len() > 0
        invariant
            rest@.len() <= orig.len(),
            rest@ == orig.skip(orig.len() - rest@.len()),
            draws@.len() < u32::MAX,
            all_boards_win(orig, draws@),
            (acc_wt as int, acc_sc as int) == fold_best(
                orig.take(orig.len() - rest@.len()),
                draws@,
                draws@.len() as int,
                0,
            ),
        decreases rest@.len(),
    {
        let ghost k = orig.len() - rest@.len();
        proof {
            assert(rest@.first() == orig[k]);
            assert(orig.skip(k).drop_first() =~= orig.skip(k + 1));
            assert(orig.take(k + 1) =~= orig.take(k).push(orig[k]));
        }
        let mut b = rest.remove(0);
        proof {
            assert(b == orig[k]);
        }
        let res = calculate_board_score(draws, &mut b);
        proof {
            if res is Err {
                assert(false);
            }
            lemma_fold_best_push(orig.take(k), orig[k], draws@, draws@.len() as int, 0);
        }
        if b.winturn < acc_wt {
            acc_wt = b.winturn;
            acc_sc = b.score;
        }
    }
    proof {
        assert(orig.take(orig.len() as int) =~= orig);
    }
    acc_sc
}

/// Scores every board and returns the score of the board that wins
/// strictly latest; the first such board wins ties.
pub fn last_board_score(draws: &Vec<u32>, boards: Vec<BingoBoard>) -> (r: u32)
    requires
        draws@.len() < u32::MAX,
        all_boards_win(boards@, draws@),
    ensures
        r == fold_last(boards@, draws@, 0, 0).1,
{
    let ghost orig = boards@;
    let mut rest = boards;
    let mut acc_wt: u32 = 0;
    let mut acc_sc: u32 = 0;
    proof {
        assert(orig.take(0int) =~= Seq::<BingoBoard>::empty());
        assert(orig.skip(0int) =~= orig);
    }
    while rest.len() > 0
        invariant
            rest@.len() <= orig.len(),
            rest@ == orig.skip(orig.len() - rest@.len()),
            draws@.len() < u32::MAX,
            all_boards_win(orig, draws@),
            (acc_wt as int, acc_sc as int) == fold_last(
                orig.take(orig.len() - rest@.len()),
                draws@,
                0,
                0,
            ),
        decreases rest@.len(),
    {
        let ghost k = orig.len() - rest@.len();
        proof {
            assert(rest@.first() == orig[k]);
            assert(orig.skip(k).drop_first() =~= orig.skip(k + 1));
            assert(orig.take(k + 1) =~= orig.take(k).push(orig[k]));
        }
        let mut b = rest.remove(0);
        proof {
            assert(b == orig[k]);
        }
        let res = calculate_board_score(draws, &mut b);
        proof {
            if res is Err {
                assert(false);
            }
            lemma_fold_last_push(orig.take(k), orig[k], draws@, 0, 0);
        }
        if b.winturn > acc_wt {
            acc_wt = b.winturn;
            acc_sc = b.score;
        }
    }
    proof {
        assert(orig.take(orig.len() as int) =~= orig);
    }
    acc_sc
}

/// The entries one board row holds: each non-empty space-separated group
/// is an unmarked cell.
pub open spec fn row_entries(line: Seq<char>) -> Seq<BingoEntry> {
    split_spec(line, ' ').filter(|g: Seq<char>| g.len() > 0).map_values(
        |g: Seq<char>| BingoEntry { value: number_value(g) as u32, matched: false },
    )
}

/// The boards the lines describe: rows accumulate into `acc`, an empty line
/// closes the gathered board, and an unterminated remainder is dropped.
pub open spec fn boards_spec(lines: Seq<Seq<char>>, acc: Seq<BingoEntry>) -> Seq<Seq<BingoEntry>>
    decreases lines.len(),
{
    if lines.len() == 0 {
        Seq::empty()
    } else if lines.first().len() == 0 {
        seq![acc] + boards_spec(lines.drop_first(), Seq::empty())
    } else {
        boards_spec(lines.drop_first(), acc + row_entries(lines.first()))
    }
}

/// Every non-empty space-separated group of the line is a number that fits
/// a cell.
pub open spec fn good_board_line(line: Seq<char>) -> bool {
    forall|j: int| 0 <= j < split_spec(line, ' ').len() ==> ((#[trigger] split_spec(line, ' ')[j]).len()
        > 0 ==> is_number(split_spec(line, ' ')[j]) && number_value(split_spec(line, ' ')[j])
        <= u32::MAX)
}

/// The char sequences of the lines.
pub open spec fn char_lines(lines: Seq<String>) -> Seq<Seq<char>> {
    lines.map_values(|s: String| s@)
}

/// Parses one board row into cells.
fn parse_board_row(line: &str) -> (r: Vec<BingoEntry>)
    requires
        good_board_line(line@),
    ensures
        r@ == row_entries(line@),
{
    let cs = chars_of(line);
    let groups = split_on(&cs, ' ');
    let kept = crate::parse::drop_empty_groups(groups);
    let ghost kept_views = split_spec(line@, ' ').filter(|g: Seq<char>| g.len() > 0);
    proof {
        assert(kept@.map_values(|g: Vec<char>| g@) == kept_views);
        assert forall|j: int| 0 <= j < kept_views.len() implies is_number(#[trigger] kept_views[j])
            && number_value(kept_views[j]) <= u32::MAX by {
            broadcast use vstd::seq_lib::group_filter_ensures;

            let all = split_spec(line@, ' ');
            lemma_filter_member(all, j);
            let wi = choose|wi: int| 0 <= wi < all.len() && all[wi] == kept_views[j];
            assert(kept_views[j].len() > 0);
        }
    }
    let mut out: Vec<BingoEntry> = Vec::new();
    let mut i: usize = 0;
    while i < kept.len()
        invariant
            0 <= i <= kept@.len(),
            kept@.map_values(|g: Vec<char>| g@) == kept_views,
            forall|j: int| 0 <= j < kept_views.len() ==> is_number(#[trigger] kept_views[j])
                && number_value(kept_views[j]) <= u32::MAX,
            out@.len() == i,
            forall|j: int| 0 <= j < i ==> #[trigger] out@[j] == (BingoEntry {
                value: number_value(kept_views[j]) as u32,
                matched: false,
            }),
        decreases kept@.len() - i,
    {
        proof {
            assert(kept@.map_values(|g: Vec<char>| g@)[i as int] == kept@[i as int]@);
        }
        let n = parse_number(&kept[i]);
        out.push(BingoEntry { value: n as u32, matched: false });
        i = i + 1;
    }
    proof {
        assert(out@ =~= row_entries(line@));
    }
    out
}

proof fn lemma_filter_member(s: Seq<Seq<char>>, j: int)
    requires
        0 <= j < s.filter(|g: Seq<char>| g.len() > 0).len(),
    ensures
        s.contains(s.filter(|g: Seq<char>| g.len() > 0)[j]),
    decreases s.len(),
{
    reveal(Seq::filter);
    let pred = |g: Seq<char>| g.len() > 0;
    if s.len() > 0 {
        let f = s.filter(pred);
        let fd = s.drop_last().filter(pred);
        if pred(s.last()) && j == f.len() - 1 {
            assert(f[j] == s.last());
            assert(s[s.len() - 1] == s.last());
        } else {
            lemma_filter_member(s.drop_last(), j);
            let wi = choose|wi: int| 0 <= wi < s.drop_last().len() && s.drop_last()[wi] == fd[j];
            assert(s[wi] == fd[j]);
        }
    }
}

/// Parses the draw line and the boards: the first line lists the draws, an
/// empty line follows, and each further block of rows up to an empty line is
/// one board, scores and winning turns all zero.
pub fn get_bingo_boards(lines: &Vec<String>) -> (r: (Vec<u32>, Vec<BingoBoard>))
    requires
        lines@.len() >= 1,
        forall|i: int| 0 <= i < split_spec(lines@[0]@, ',').len() ==> is_number(
            #[trigger] split_spec(lines@[0]@, ',')[i],
        ) && number_value(split_spec(lines@[0]@, ',')[i]) <= u32::MAX,
        forall|i: int| 2 <= i < lines@.len() ==> good_board_line(#[trigger] lines@[i]@),
    ensures
        r.0@.len() == split_spec(lines@[0]@, ',').len(),
        forall|i: int| 0 <= i < r.0@.len() ==> #[trigger] r.0@[i] == number_value(
            split_spec(lines@[0]@, ',')[i],
        ),
        r.1@.map_values(|b: BingoBoard| b.board@) == (if lines@.len() >= 2 {
            boards_spec(char_lines(lines@).skip(2), Seq::<BingoEntry>::empty())
        } else {
            Seq::<Seq<BingoEntry>>::empty()
        }),
        forall|i: int| 0 <= i < r.1@.len() ==> (#[trigger] r.1@[i]).score == 0 && r.1@[i].winturn
            == 0,
{
    let ghost draw_groups = split_spec(lines@[0]@, ',');
    let first = &lines[0];
    let cs = chars_of(first.as_str());
    let parts = split_on(&cs, ',');
    let mut draws: Vec<u32> = Vec::new();
    let mut i: usize = 0;
    while i < parts.len()
        invariant
            0 <= i <= parts@.len(),
            draw_groups == split_spec(lines@[0]@, ','),
            parts@.map_values(|g: Vec<char>| g@) == draw_groups,
            forall|j: int| 0 <= j < draw_groups.len() ==> is_number(#[trigger] draw_groups[j])
                && number_value(draw_groups[j]) <= u32::MAX,
            draws@.len() == i,
            forall|j: int| 0 <= j < i ==> #[trigger] draws@[j] == number_value(draw_groups[j]),
        decreases parts@.len() - i,
    {
        proof {
            assert(parts@.map_values(|g: Vec<char>| g@)[i as int] == parts@[i as int]@);
        }
        let n = parse_number(&parts[i]);
        draws.push(n as u32);
        i = i + 1;
    }
    let ghost all_lines = char_lines(lines@);
    let mut boards: Vec<BingoBoard> = Vec::new();
    let mut board_acc: Vec<BingoEntry> = Vec::new();
    if lines.len() < 2 {
        return (draws, boards);
    }
    let mut li: usize = 2;
    proof {
        assert(all_lines.skip(2) =~= all_lines.skip(2));
    }
    while li < lines.len()
        invariant
            2 <= li <= lines@.len(),
            lines@.len() >= 2,
            all_lines == char_lines(lines@),
            forall|i2: int| 2 <= i2 < lines@.len() ==> good_board_line(#[trigger] lines@[i2]@),
            boards_spec(all_lines.skip(2), Seq::<BingoEntry>::empty()) == boards@.map_values(
                |b: BingoBoard| b.board@,
            ) + boards_spec(all_lines.skip(li as int), board_acc@),
            forall|i2: int| 0 <= i2 < boards@.len() ==> (#[trigger] boards@[i2]).score == 0
                && boards@[i2].winturn == 0,
            draws@.len() == draw_groups.len(),
            forall|j: int| 0 <= j < draws@.len() ==> #[trigger] draws@[j] == number_value(
                draw_groups[j],
            ),
        decreases lines@.len() - li,
    {
        proof {
            assert(all_lines.skip(li as int).first() == all_lines[li as int]);
            assert(all_lines[li as int] == lines@[li as int]@);
            assert(all_lines.skip(li as int).drop_first() =~= all_lines.skip(li + 1));
        }
        let line = &lines[li];
        if line.as_str().unicode_len() == 0 {
            proof {
                assert(lines@[li as int]@.len() == 0);
            }
            let done = board_acc;
            board_acc = Vec::new();
            let nb = BingoBoard { board: done, score: 0, winturn: 0 };
            boards.push(nb);
            proof {
                assert(boards@.map_values(|b: BingoBoard| b.board@) =~= boards@.drop_last()
                    .map_values(|b: BingoBoard| b.board@).push(nb.board@));
                assert(seq![nb.board@] + boards_spec(all_lines.skip(li + 1), Seq::<
                    BingoEntry,
                >::empty()) =~= boards_spec(all_lines.skip(li as int), nb.board@).subrange(
                    0,
                    (seq![nb.board@] + boards_spec(all_lines.skip(li + 1), Seq::<
                        BingoEntry,
                    >::empty())).len() as int,
                ));
                assert(boards@.drop_last().map_values(|b: BingoBoard| b.board@).push(nb.board@)
                    + boards_spec(all_lines.skip(li + 1), Seq::<BingoEntry>::empty())
                    =~= boards@.drop_last().map_values(|b: BingoBoard| b.board@) + (seq![nb.board@]
                    + boards_spec(all_lines.skip(li + 1), Seq::<BingoEntry>::empty())));
            }
        } else {
            let row = parse_board_row(line.as_str());
            let mut tail = row;
            proof {
                assert(board_acc@ + tail@ =~= board_acc@ + row_entries(lines@[li as int]@));
            }
            board_acc.append(&mut tail);
        }
        li = li + 1;
    }
    proof {
        assert(all_lines.skip(lines@.len() as int) =~= Seq::<Seq<char>>::empty());
        assert(boards_spec(Seq::<Seq<char>>::empty(), board_acc@) =~= Seq::<Seq<BingoEntry>>::empty());
        assert(boards@.map_values(|b: BingoBoard| b.board@) + Seq::<Seq<BingoEntry>>::empty()
            =~= boards@.map_values(|b: BingoBoard| b.board@));
    }
    (draws, boards)
}

} // verus!
