//! The mathematical model of a board: its windows, who has won, and what a
//! position is worth to the bot.

use vstd::prelude::*;
use vstd::arithmetic::div_mod::{lemma_fundamental_div_mod, lemma_fundamental_div_mod_converse};
use crate::cells::{count_mark, lemma_sum_bound, marks_within, sum_marks};

verus! {

/// Mark of player 1 inside a game.
pub const P1_MARK: i8 = -1;

/// Mark of the bot inside a game.
pub const BOT_MARK: i8 = 1;

/// Mark of a free cell inside a game.
pub const EMPTY_MARK: i8 = 0;

/// Worth of a window that one player has filled.
pub const WINNER_VALUE: i32 = 10000;

/// Worth, per mark, of a window that lacks one mark.
pub const ONE_TO_WIN_VALUE: i32 = 500;

/// Worth, per mark, of a window that only one player can still fill and that
/// is at least half filled.
pub const TWO_TO_WIN_VALUE: i32 = 100;

/// Factor by which a threat of the opponent outweighs the same threat of the
/// bot.
pub const OPPONENT_PENALTY_MULTIPLIER: i32 = 3;

/// Boards with a side up to this one offer every free cell to the search.
pub const FULL_SEARCH_SIDE: usize = 4;

/// The four directions in which a window can lie.
pub enum Line {
    /// Left to right.
    Row,
    /// Top to bottom.
    Col,
    /// Down and to the right.
    Diag,
    /// Down and to the left.
    AntiDiag,
}

/// An enumeration of window starts: `outer` groups of `inner` starts each,
/// taken group by group. The start at place `p` is
/// `base + (p / inner) * outer_step + (p % inner) * inner_step`.
pub struct Scan {
    pub base: int,
    pub outer: int,
    pub inner: int,
    pub outer_step: int,
    pub inner_step: int,
}

impl Scan {
    /// Number of starts.
    pub open spec fn len(self) -> int {
        self.outer * self.inner
    }

    /// The start at place `p`.
    pub open spec fn start_at(self, p: int) -> int {
        self.base + (p / self.inner) * self.outer_step + (p % self.inner) * self.inner_step
    }

    /// The starts in the order of the scan.
    pub open spec fn starts(self) -> Seq<int> {
        Seq::new(self.len() as nat, |p: int| self.start_at(p))
    }
}

/// A board as a value: row-major cells, the side, and the run length that
/// wins.
pub struct Grid {
    pub cells: Seq<i8>,
    pub side: int,
    pub run: int,
}

/// What a window with the given sum of marks and number of free cells is
/// worth. `window` is the window's length.
///
/// A window filled by one player is worth `WINNER_VALUE`, signed by the
/// player. A window that lacks one mark of the bot is worth
/// `ONE_TO_WIN_VALUE` per mark; one that lacks one mark of the opponent is
/// worth that, negative, times `OPPONENT_PENALTY_MULTIPLIER`. A window at
/// least half filled by one player and otherwise free is worth
/// `TWO_TO_WIN_VALUE` per mark, with the same factor for the opponent. Every
/// other window is worth nothing.
pub open spec fn window_score(sum: int, empties: int, window: int) -> int {
    let abs = if sum < 0 {
        -sum
    } else {
        sum
    };
    if abs == window && sum > 0 {
        WINNER_VALUE as int
    } else if abs == window && sum < 0 {
        -(WINNER_VALUE as int)
    } else if abs == window - 1 && sum > 0 {
        sum * ONE_TO_WIN_VALUE
    } else if abs == window - 1 && sum < 0 {
        sum * ONE_TO_WIN_VALUE * OPPONENT_PENALTY_MULTIPLIER
    } else if abs >= window / 2 && abs + empties == window {
        if sum > 0 {
            sum * TWO_TO_WIN_VALUE
        } else {
            sum * TWO_TO_WIN_VALUE * OPPONENT_PENALTY_MULTIPLIER
        }
    } else {
        0
    }
}

/// Every position of `s` holds `mark`.
pub open spec fn filled_with(s: Seq<i8>, mark: i8) -> bool {
    forall|j: int| 0 <= j < s.len() ==> #[trigger] s[j] == mark
}

impl Grid {
    /// The board is one of the supported squares, the run length fits, and
    /// every cell holds one of the three marks of a game.
    pub open spec fn wf(self) -> bool {
        &&& 3 <= self.side <= 15
        &&& 3 <= self.run <= self.side
        &&& self.cells.len() == self.side * self.side
        &&& marks_within(self.cells, -1, 1)
    }

    /// The board after `mark` was written to cell `i`.
    pub open spec fn place(self, i: int, mark: i8) -> Grid {
        Grid { cells: self.cells.update(i, mark), side: self.side, run: self.run }
    }

    /// Number of free cells.
    pub open spec fn empty_count(self) -> nat {
        count_mark(self.cells, EMPTY_MARK)
    }

    /// Number of window starts along a side.
    pub open spec fn span(self) -> int {
        self.side - self.run + 1
    }

    /// Distance between neighbouring cells of a window.
    pub open spec fn stride(self, line: Line) -> int {
        match line {
            Line::Row => 1,
            Line::Col => self.side,
            Line::Diag => self.side + 1,
            Line::AntiDiag => self.side - 1,
        }
    }

    /// The window starts of one direction in the order in which they are
    /// examined: rows column by column, the other three row by row.
    pub open spec fn scan(self, line: Line) -> Scan {
        match line {
            Line::Row => Scan {
                base: 0,
                outer: self.span(),
                inner: self.side,
                outer_step: 1,
                inner_step: self.side,
            },
            Line::Col => Scan {
                base: 0,
                outer: self.span(),
                inner: self.side,
                outer_step: self.side,
                inner_step: 1,
            },
            Line::Diag => Scan {
                base: 0,
                outer: self.span(),
                inner: self.span(),
                outer_step: self.side,
                inner_step: 1,
            },
            Line::AntiDiag => Scan {
                base: self.run - 1,
                outer: self.span(),
                inner: self.span(),
                outer_step: self.side,
                inner_step: 1,
            },
        }
    }

    /// The window that starts at cell `start` and steps by `stride`.
    pub open spec fn window(self, start: int, stride: int) -> Seq<i8> {
        Seq::new(self.run as nat, |j: int| self.cells[start + j * stride])
    }

    /// The window lies on the board.
    pub open spec fn window_on_board(self, start: int, stride: int) -> bool {
        0 <= start && 0 <= stride && start + (self.run - 1) * stride < self.cells.len()
    }

    /// One player has filled the window.
    pub open spec fn window_won(self, start: int, stride: int) -> bool {
        self.cells[start] != EMPTY_MARK && filled_with(
            self.window(start, stride),
            self.cells[start],
        )
    }

    /// The mark that has filled the window, or the empty mark.
    pub open spec fn window_mark(self, start: int, stride: int) -> i8 {
        if self.window_won(start, stride) {
            self.cells[start]
        } else {
            EMPTY_MARK
        }
    }

    /// What the window is worth.
    pub open spec fn window_value(self, start: int, stride: int) -> int {
        let w = self.window(start, stride);
        window_score(sum_marks(w), count_mark(w, EMPTY_MARK) as int, self.run)
    }

    /// The mark of the first filled window among the first `upto` of
    /// `starts`, or the empty mark where none of them is filled.
    pub open spec fn scan_winner(self, starts: Seq<int>, stride: int, upto: int) -> i8
        decreases upto,
    {
        if upto <= 0 {
            EMPTY_MARK
        } else {
            let before = self.scan_winner(starts, stride, upto - 1);
            if before != EMPTY_MARK {
                before
            } else {
                self.window_mark(starts[upto - 1], stride)
            }
        }
    }

    /// What the first `upto` windows of `starts` are worth together.
    pub open spec fn scan_value(self, starts: Seq<int>, stride: int, upto: int) -> int
        decreases upto,
    {
        if upto <= 0 {
            0
        } else {
            self.scan_value(starts, stride, upto - 1) + self.window_value(
                starts[upto - 1],
                stride,
            )
        }
    }

    /// The winner found among the windows of one direction.
    pub open spec fn winner_in(self, line: Line) -> i8 {
        self.scan_winner(self.scan(line).starts(), self.stride(line), self.scan(line).len())
    }

    /// The winner: the first one found among rows, columns, diagonals and
    /// antidiagonals, in this order, or the empty mark.
    pub open spec fn winner(self) -> i8 {
        if self.winner_in(Line::Row) != EMPTY_MARK {
            self.winner_in(Line::Row)
        } else if self.winner_in(Line::Col) != EMPTY_MARK {
            self.winner_in(Line::Col)
        } else if self.winner_in(Line::Diag) != EMPTY_MARK {
            self.winner_in(Line::Diag)
        } else {
            self.winner_in(Line::AntiDiag)
        }
    }

    /// What the windows of one direction are worth together.
    pub open spec fn value_in(self, line: Line) -> int {
        self.scan_value(self.scan(line).starts(), self.stride(line), self.scan(line).len())
    }

    /// What the position is worth to the bot: the sum over the windows of
    /// all four directions.
    pub open spec fn value_in_total(self) -> int {
        self.value_in(Line::Row) + self.value_in(Line::Col) + self.value_in(Line::Diag)
            + self.value_in(Line::AntiDiag)
    }

    /// What the search makes of a position at which it stops: the winner's
    /// sign times `WINNER_VALUE` where the game is won, else the worth of the
    /// position; either one times the remaining depth plus one, so that an
    /// earlier win counts more.
    pub open spec fn heuristic_value(self, winner: i8, depth: int) -> int {
        if winner != EMPTY_MARK {
            winner * WINNER_VALUE * (depth + 1)
        } else {
            self.value_in_total() * (depth + 1)
        }
    }

    /// Cell `i` has an occupied cell among the up to eight cells around it.
    pub open spec fn occupied_near(self, i: int) -> bool {
        let k = self.side;
        let up = i >= k;
        let down = i + k < self.cells.len();
        let left = i % k != 0;
        let right = i % k != k - 1;
        ||| up && left && self.cells[i - k - 1] != EMPTY_MARK
        ||| up && self.cells[i - k] != EMPTY_MARK
        ||| up && right && self.cells[i - k + 1] != EMPTY_MARK
        ||| left && self.cells[i - 1] != EMPTY_MARK
        ||| right && self.cells[i + 1] != EMPTY_MARK
        ||| down && left && self.cells[i + k - 1] != EMPTY_MARK
        ||| down && self.cells[i + k] != EMPTY_MARK
        ||| down && right && self.cells[i + k + 1] != EMPTY_MARK
    }

    /// The search leaves out the free cells that have no occupied cell
    /// around them.
    pub open spec fn prunes(self) -> bool {
        self.side > FULL_SEARCH_SIDE
    }

    /// Cell `i` is one that the search may take: a free cell, and on a
    /// board that prunes, one with an occupied cell around it.
    pub open spec fn is_candidate(self, i: int) -> bool {
        &&& 0 <= i < self.cells.len()
        &&& self.cells[i] == EMPTY_MARK
        &&& self.prunes() ==> self.occupied_near(i)
    }

    /// What the position is worth once the bot has taken cell `i`.
    pub open spec fn value_after(self, i: int) -> int {
        self.place(i, BOT_MARK).value_in_total()
    }
}

impl Grid {
    /// A window of the given direction that starts in row `r`, column `c`
    /// lies on the board.
    pub open spec fn fits(self, line: Line, r: int, c: int) -> bool {
        match line {
            Line::Row => 0 <= r < self.side && 0 <= c <= self.side - self.run,
            Line::Col => 0 <= r <= self.side - self.run && 0 <= c < self.side,
            Line::Diag => 0 <= r <= self.side - self.run && 0 <= c <= self.side - self.run,
            Line::AntiDiag => 0 <= r <= self.side - self.run && self.run - 1 <= c < self.side,
        }
    }

    /// `mark` fills the window of the given direction that starts in row
    /// `r`, column `c`.
    pub open spec fn run_at(self, mark: i8, line: Line, r: int, c: int) -> bool {
        self.fits(line, r, c) && filled_with(
            self.window(r * self.side + c, self.stride(line)),
            mark,
        )
    }

    /// `mark` fills some window of the board.
    pub open spec fn has_run(self, mark: i8) -> bool {
        exists|line: Line, r: int, c: int| #[trigger] self.run_at(mark, line, r, c)
    }

    /// Row of the window start at place `p` of a direction's scan.
    pub open spec fn scan_row(self, line: Line, p: int) -> int {
        match line {
            Line::Row => p % self.side,
            Line::Col => p / self.side,
            Line::Diag => p / self.span(),
            Line::AntiDiag => p / self.span(),
        }
    }

    /// Column of the window start at place `p` of a direction's scan.
    pub open spec fn scan_col(self, line: Line, p: int) -> int {
        match line {
            Line::Row => p / self.side,
            Line::Col => p % self.side,
            Line::Diag => p % self.span(),
            Line::AntiDiag => self.run - 1 + p % self.span(),
        }
    }

    /// The place in a direction's scan of the window that starts in row `r`,
    /// column `c`.
    pub open spec fn scan_place(self, line: Line, r: int, c: int) -> int {
        match line {
            Line::Row => c * self.side + r,
            Line::Col => r * self.side + c,
            Line::Diag => r * self.span() + c,
            Line::AntiDiag => r * self.span() + (c - (self.run - 1)),
        }
    }

    /// Every cell of a window on the board is a cell of the board.
    pub proof fn lemma_window_index(self, start: int, stride: int, j: int)
        requires
            self.window_on_board(start, stride),
            0 <= j < self.run,
        ensures
            0 <= j * stride,
            0 <= start + j * stride < self.cells.len(),
    {
        assert(0 <= j * stride <= (self.run - 1) * stride) by (nonlinear_arith)
            requires
                0 <= j <= self.run - 1,
                0 <= stride,
        ;
    }

    /// A window that fits lies on the board.
    pub proof fn lemma_fits_on_board(self, line: Line, r: int, c: int)
        requires
            self.wf(),
            self.fits(line, r, c),
        ensures
            self.window_on_board(r * self.side + c, self.stride(line)),
            0 <= r * self.side + c < self.cells.len(),
    {
        let k = self.side;
        let w = self.run;
        assert(0 <= r * k <= k * k - k) by (nonlinear_arith)
            requires
                0 <= r <= k - 1,
        ;
        match line {
            Line::Row => {},
            Line::Col => {
                assert(r * k + (w - 1) * k <= k * k - k) by (nonlinear_arith)
                    requires
                        0 <= r,
                        1 <= w,
                        1 <= k,
                        r + w - 1 <= k - 1,
                ;
            },
            Line::Diag => {
                assert(r * k + (w - 1) * (k + 1) <= k * k - k + (w - 1)) by (nonlinear_arith)
                    requires
                        0 <= r,
                        1 <= w,
                        1 <= k,
                        r + w - 1 <= k - 1,
                ;
            },
            Line::AntiDiag => {
                assert(r * k + (w - 1) * (k - 1) <= k * k - k - (w - 1)) by (nonlinear_arith)
                    requires
                        0 <= r,
                        1 <= w,
                        1 <= k,
                        r + w - 1 <= k - 1,
                ;
                assert((w - 1) * (k - 1) >= 0) by (nonlinear_arith)
                    requires
                        w >= 1,
                        k >= 1,
                ;
            },
        }
    }
}

/// A place below `n * d` splits into a group below `n` and a rest below `d`.
pub proof fn lemma_split(p: int, d: int, n: int)
    requires
        0 <= p < n * d,
        0 < d,
    ensures
        0 <= p / d < n,
        0 <= p % d < d,
        p == (p / d) * d + p % d,
{
    lemma_fundamental_div_mod(p, d);
    let q = p / d;
    assert(d * q == q * d) by (nonlinear_arith);
    if q >= n {
        assert(q * d >= n * d) by (nonlinear_arith)
            requires
                q >= n,
                d > 0,
        ;
    }
    if q < 0 {
        assert(q * d <= -d) by (nonlinear_arith)
            requires
                q <= -1,
                d > 0,
        ;
    }
}

/// Group `a` below `n` and rest `b` below `d` join into the place
/// `a * d + b` below `n * d`, which splits into them again.
pub proof fn lemma_join(a: int, b: int, d: int, n: int)
    requires
        0 <= a < n,
        0 <= b < d,
    ensures
        0 <= a * d + b < n * d,
        (a * d + b) / d == a,
        (a * d + b) % d == b,
{
    lemma_fundamental_div_mod_converse(a * d + b, d, a, b);
    assert(0 <= a * d && a * d + d <= n * d) by (nonlinear_arith)
        requires
            0 <= a,
            a + 1 <= n,
            0 < d,
    ;
}

impl Grid {
    /// The window start at each place of a scan fits the board, and is the
    /// cell in the row and column that the place stands for.
    pub proof fn lemma_scan_place(self, line: Line, p: int)
        requires
            self.wf(),
            0 <= p < self.scan(line).len(),
        ensures
            self.fits(line, self.scan_row(line, p), self.scan_col(line, p)),
            self.scan(line).start_at(p) == self.scan_row(line, p) * self.side + self.scan_col(
                line,
                p,
            ),
            self.scan_place(line, self.scan_row(line, p), self.scan_col(line, p)) == p,
            self.window_on_board(self.scan(line).start_at(p), self.stride(line)),
            0 <= self.scan(line).start_at(p) < self.cells.len(),
    {
        let sc = self.scan(line);
        lemma_split(p, sc.inner, sc.outer);
        let a = p / sc.inner;
        let b = p % sc.inner;
        assert(a * 1 == a && b * 1 == b);
        assert(sc.start_at(p) == sc.base + a * sc.outer_step + b * sc.inner_step);
        lemma_join(a, b, sc.inner, sc.outer);
        self.lemma_fits_on_board(line, self.scan_row(line, p), self.scan_col(line, p));
    }

    /// Every window that fits the board has its place in the scan of its
    /// direction.
    pub proof fn lemma_scan_find(self, line: Line, r: int, c: int)
        requires
            self.wf(),
            self.fits(line, r, c),
        ensures
            0 <= self.scan_place(line, r, c) < self.scan(line).len(),
            self.scan(line).start_at(self.scan_place(line, r, c)) == r * self.side + c,
    {
        let sc = self.scan(line);
        let p = self.scan_place(line, r, c);
        match line {
            Line::Row => lemma_join(c, r, sc.inner, sc.outer),
            Line::Col => lemma_join(r, c, sc.inner, sc.outer),
            Line::Diag => lemma_join(r, c, sc.inner, sc.outer),
            Line::AntiDiag => lemma_join(r, c - (self.run - 1), sc.inner, sc.outer),
        }
        let a = p / sc.inner;
        let b = p % sc.inner;
        assert(a * 1 == a && b * 1 == b);
        assert(sc.start_at(p) == sc.base + a * sc.outer_step + b * sc.inner_step);
    }

    /// Once a scan has found a filled window, examining more windows does
    /// not change what it found.
    pub proof fn lemma_scan_winner_stays(self, starts: Seq<int>, stride: int, found: int, upto: int)
        requires
            0 <= found <= upto,
            self.scan_winner(starts, stride, found) != EMPTY_MARK,
        ensures
            self.scan_winner(starts, stride, upto) == self.scan_winner(starts, stride, found),
        decreases upto - found,
    {
        if found < upto {
            self.lemma_scan_winner_stays(starts, stride, found, upto - 1);
        }
    }

    /// A scan that found a mark found it in a filled window: the first one
    /// in its order.
    pub proof fn lemma_scan_winner_first(self, starts: Seq<int>, stride: int, upto: int) -> (p: int)
        requires
            self.scan_winner(starts, stride, upto) != EMPTY_MARK,
        ensures
            0 <= p < upto,
            self.window_won(starts[p], stride),
            self.cells[starts[p]] == self.scan_winner(starts, stride, upto),
            forall|q: int| 0 <= q < p ==> !self.window_won(#[trigger] starts[q], stride),
        decreases upto,
    {
        if self.scan_winner(starts, stride, upto - 1) != EMPTY_MARK {
            self.lemma_scan_winner_first(starts, stride, upto - 1)
        } else {
            self.lemma_scan_winner_none(starts, stride, upto - 1);
            upto - 1
        }
    }

    /// A scan that found no mark has seen no filled window.
    pub proof fn lemma_scan_winner_none(self, starts: Seq<int>, stride: int, upto: int)
        requires
            self.scan_winner(starts, stride, upto) == EMPTY_MARK,
        ensures
            forall|q: int| 0 <= q < upto ==> !self.window_won(#[trigger] starts[q], stride),
        decreases upto,
    {
        if upto > 0 {
            self.lemma_scan_winner_none(starts, stride, upto - 1);
        }
    }
}

impl Grid {
    /// No window is worth more than this, to either side.
    pub open spec fn window_limit() -> int {
        21000
    }

    /// The worth of a window of marks between -1 and 1 is bounded.
    pub proof fn lemma_window_score_bound(sum: int, empties: int, window: int)
        requires
            1 <= window <= 15,
            -window <= sum <= window,
        ensures
            -Self::window_limit() <= window_score(sum, empties, window) <= Self::window_limit(),
            window <= 7 ==> -(WINNER_VALUE as int) <= window_score(sum, empties, window)
                <= WINNER_VALUE,
    {
    }
}

impl Grid {
    /// A board has between 9 and 225 cells.
    pub proof fn lemma_cell_count(self)
        requires
            self.wf(),
        ensures
            9 <= self.cells.len() <= 225,
            self.side <= self.cells.len(),
    {
        assert(9 <= self.side * self.side <= 225 && self.side <= self.side * self.side)
            by (nonlinear_arith)
            requires
                3 <= self.side <= 15,
        ;
    }
}

impl Grid {
    /// No window of this board is worth more than this, to either side.
    pub open spec fn run_limit(self) -> int {
        if self.run <= 7 {
            WINNER_VALUE as int
        } else {
            Self::window_limit()
        }
    }

    /// No position is worth more than this, to either side.
    pub open spec fn value_limit() -> int {
        7_728_000
    }

    /// The cells of a window on the board hold marks of a game.
    pub proof fn lemma_window_marks(self, start: int, stride: int)
        requires
            self.wf(),
            self.window_on_board(start, stride),
        ensures
            marks_within(self.window(start, stride), -1, 1),
            self.window(start, stride).len() == self.run,
    {
        let w = self.window(start, stride);
        assert forall|j: int| 0 <= j < w.len() implies -1 <= #[trigger] w[j] <= 1 by {
            self.lemma_window_index(start, stride, j);
        }
    }

    /// The worth of a window on the board is bounded.
    pub proof fn lemma_window_value_bound(self, start: int, stride: int)
        requires
            self.wf(),
            self.window_on_board(start, stride),
        ensures
            -self.run_limit() <= self.window_value(start, stride) <= self.run_limit(),
    {
        let w = self.window(start, stride);
        self.lemma_window_marks(start, stride);
        lemma_sum_bound(w);
        Self::lemma_window_score_bound(sum_marks(w), count_mark(w, EMPTY_MARK) as int, self.run);
    }

    /// The worth of the windows of a scan is bounded by their number.
    pub proof fn lemma_scan_value_bound(self, line: Line, upto: int)
        requires
            self.wf(),
            0 <= upto <= self.scan(line).len(),
        ensures
            -upto * self.run_limit() <= self.scan_value(
                self.scan(line).starts(),
                self.stride(line),
                upto,
            ) <= upto * self.run_limit(),
        decreases upto,
    {
        if upto > 0 {
            self.lemma_scan_value_bound(line, upto - 1);
            self.lemma_scan_place(line, upto - 1);
            self.lemma_window_value_bound(
                self.scan(line).start_at(upto - 1),
                self.stride(line),
            );
            assert((upto - 1) * self.run_limit() + self.run_limit() == upto * self.run_limit())
                by (nonlinear_arith);
            assert(-(upto - 1) * self.run_limit() - self.run_limit() == -upto * self.run_limit())
                by (nonlinear_arith);
        }
    }

    /// The worth of a position is bounded.
    pub proof fn lemma_value_bound(self)
        requires
            self.wf(),
        ensures
            -Self::value_limit() <= self.value_in_total() <= Self::value_limit(),
    {
        let n = self.span();
        let k = self.side;
        let b = self.run_limit();
        self.lemma_scan_value_bound(Line::Row, self.scan(Line::Row).len());
        self.lemma_scan_value_bound(Line::Col, self.scan(Line::Col).len());
        self.lemma_scan_value_bound(Line::Diag, self.scan(Line::Diag).len());
        self.lemma_scan_value_bound(Line::AntiDiag, self.scan(Line::AntiDiag).len());
        let rows = n * k;
        let diags = n * n;
        assert(self.scan(Line::Row).len() == rows);
        assert(self.scan(Line::Col).len() == rows);
        assert(self.scan(Line::Diag).len() == diags);
        assert(self.scan(Line::AntiDiag).len() == diags);
        if self.run <= 7 {
            assert(0 <= rows <= 195 && 0 <= diags <= 169) by (nonlinear_arith)
                requires
                    rows == n * k,
                    diags == n * n,
                    1 <= n <= 13,
                    3 <= k <= 15,
            ;
            assert(rows * 10000 <= 1_950_000 && diags * 10000 <= 1_690_000);
        } else {
            assert(0 <= rows <= 120 && 0 <= diags <= 64) by (nonlinear_arith)
                requires
                    rows == n * k,
                    diags == n * n,
                    1 <= n <= 8,
                    3 <= k <= 15,
            ;
            assert(rows * 21000 <= 2_520_000 && diags * 21000 <= 1_344_000);
        }
        assert(-rows * b == -(rows * b) && -diags * b == -(diags * b)) by (nonlinear_arith);
    }
}

impl Grid {
    /// The cells around a cell of the board that its row and column allow
    /// are cells of the board.
    pub proof fn lemma_neighbours(self, i: int)
        requires
            self.wf(),
            0 <= i < self.cells.len(),
        ensures
            i >= self.side && i % self.side != 0 ==> i - self.side - 1 >= 0,
            i % self.side != 0 ==> i - 1 >= 0,
            i % self.side != self.side - 1 ==> i + 1 < self.cells.len(),
            i + self.side < self.cells.len() && i % self.side != self.side - 1 ==> i + self.side
                + 1 < self.cells.len(),
    {
        let k = self.side;
        lemma_split(i, k, k);
        let r = i / k;
        let c = i % k;
        if i >= k && c != 0 {
            if r == 0 {
                assert(r * k == 0) by (nonlinear_arith)
                    requires
                        r == 0,
                ;
            }
            assert(r * k >= k) by (nonlinear_arith)
                requires
                    r >= 1,
                    k >= 1,
            ;
        }
        if c != 0 && i == 0 {
            assert(r * k >= 0) by (nonlinear_arith)
                requires
                    r >= 0,
                    k >= 1,
            ;
        }
        if c != k - 1 {
            assert(r * k + k <= k * k) by (nonlinear_arith)
                requires
                    r + 1 <= k,
                    k >= 1,
            ;
            if i + k < self.cells.len() {
                if r + 2 > k {
                    assert(r * k == (k - 1) * k) by (nonlinear_arith)
                        requires
                            r == k - 1,
                    ;
                    assert((k - 1) * k + k == k * k) by (nonlinear_arith);
                }
                assert(r * k + 2 * k <= k * k) by (nonlinear_arith)
                    requires
                        r + 2 <= k,
                        k >= 1,
                ;
            }
        }
    }
}

impl Grid {
    /// A board stays well formed when a mark of a game is written to one of
    /// its cells.
    pub proof fn lemma_place_wf(self, i: int, mark: i8)
        requires
            self.wf(),
            0 <= i < self.cells.len(),
            -1 <= mark <= 1,
        ensures
            self.place(i, mark).wf(),
    {
        let after = self.place(i, mark);
        assert forall|j: int| 0 <= j < after.cells.len() implies -1 <= #[trigger] after.cells[j]
            <= 1 by {
            if j != i {
                assert(after.cells[j] == self.cells[j]);
            }
        }
    }
}

impl Grid {
    /// What a scan finds is a mark of the board.
    pub proof fn lemma_scan_winner_mark(self, line: Line)
        requires
            self.wf(),
        ensures
            self.winner_in(line) == P1_MARK || self.winner_in(line) == BOT_MARK || self.winner_in(
                line,
            ) == EMPTY_MARK,
    {
        let sc = self.scan(line);
        if self.winner_in(line) != EMPTY_MARK {
            let p = self.lemma_scan_winner_first(sc.starts(), self.stride(line), sc.len());
            self.lemma_scan_place(line, p);
        }
    }

    /// The mark that a direction's scan finds fills a window of that
    /// direction.
    pub proof fn lemma_winner_in_has_run(self, line: Line)
        requires
            self.wf(),
            self.winner_in(line) != EMPTY_MARK,
        ensures
            self.has_run(self.winner_in(line)),
    {
        let sc = self.scan(line);
        let p = self.lemma_scan_winner_first(sc.starts(), self.stride(line), sc.len());
        self.lemma_scan_place(line, p);
        assert(self.run_at(
            self.winner_in(line),
            line,
            self.scan_row(line, p),
            self.scan_col(line, p),
        ));
    }

    /// Where a mark fills a window, the scan of the window's direction
    /// finds a mark.
    pub proof fn lemma_run_found(self, mark: i8, line: Line, r: int, c: int)
        requires
            self.wf(),
            mark != EMPTY_MARK,
            self.run_at(mark, line, r, c),
        ensures
            self.winner_in(line) != EMPTY_MARK,
    {
        let sc = self.scan(line);
        let p = self.scan_place(line, r, c);
        self.lemma_scan_find(line, r, c);
        let start = r * self.side + c;
        let w = self.window(start, self.stride(line));
        assert(w[0] == mark);
        assert(0 * self.stride(line) == 0);
        assert(self.cells[start] == mark);
        assert(self.window_won(start, self.stride(line)));
        if self.winner_in(line) == EMPTY_MARK {
            self.lemma_scan_winner_none(sc.starts(), self.stride(line), sc.len());
            assert(sc.starts()[p] == start);
        }
    }

    /// The winner is a mark that fills a window, and there is a winner
    /// wherever a player's mark fills a window: whichever window the scans
    /// reach first, a mark is named exactly when a run exists, and where
    /// only one player has a run, that player is named.
    pub proof fn lemma_winner_is_run(self)
        requires
            self.wf(),
        ensures
            self.winner() == P1_MARK || self.winner() == BOT_MARK || self.winner() == EMPTY_MARK,
            self.winner() != EMPTY_MARK ==> self.has_run(self.winner()),
            self.winner() == EMPTY_MARK <==> !self.has_run(P1_MARK) && !self.has_run(BOT_MARK),
            self.has_run(BOT_MARK) && !self.has_run(P1_MARK) ==> self.winner() == BOT_MARK,
            self.has_run(P1_MARK) && !self.has_run(BOT_MARK) ==> self.winner() == P1_MARK,
    {
        self.lemma_scan_winner_mark(Line::Row);
        self.lemma_scan_winner_mark(Line::Col);
        self.lemma_scan_winner_mark(Line::Diag);
        self.lemma_scan_winner_mark(Line::AntiDiag);
        if self.winner_in(Line::Row) != EMPTY_MARK {
            self.lemma_winner_in_has_run(Line::Row);
        } else if self.winner_in(Line::Col) != EMPTY_MARK {
            self.lemma_winner_in_has_run(Line::Col);
        } else if self.winner_in(Line::Diag) != EMPTY_MARK {
            self.lemma_winner_in_has_run(Line::Diag);
        } else if self.winner_in(Line::AntiDiag) != EMPTY_MARK {
            self.lemma_winner_in_has_run(Line::AntiDiag);
        }
        if self.has_run(P1_MARK) {
            let (line, r, c) = choose|line: Line, r: int, c: int|
                #[trigger] self.run_at(P1_MARK, line, r, c);
            self.lemma_run_found(P1_MARK, line, r, c);
        }
        if self.has_run(BOT_MARK) {
            let (line, r, c) = choose|line: Line, r: int, c: int|
                #[trigger] self.run_at(BOT_MARK, line, r, c);
            self.lemma_run_found(BOT_MARK, line, r, c);
        }
    }
}

} // verus!
