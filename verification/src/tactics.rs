//! What the search does about wins that are one move away: a best cell
//! takes the bot's win, and blocks player 1's.

use vstd::prelude::*;
use crate::cells::{lemma_count_zero, lemma_sum_bound, lemma_sum_full, sum_marks};
use crate::grid::{
    lemma_join,
    Grid,
    Line,
    BOT_MARK,
    EMPTY_MARK,
    ONE_TO_WIN_VALUE,
    P1_MARK,
    WINNER_VALUE,
};
use crate::search::opponent;

verus! {

impl Grid {
    /// `player` wins at once by taking the free cell `i`.
    pub open spec fn wins_at(self, i: int, player: i8) -> bool {
        &&& 0 <= i < self.cells.len()
        &&& self.cells[i] == EMPTY_MARK
        &&& self.place(i, player).winner() == player
    }

    /// Row of cell `j` of the window of the given direction that starts in
    /// row `r`.
    pub open spec fn window_row(self, line: Line, r: int, j: int) -> int {
        match line {
            Line::Row => r,
            _ => r + j,
        }
    }

    /// Column of cell `j` of the window of the given direction that starts
    /// in column `c`.
    pub open spec fn window_col(self, line: Line, c: int, j: int) -> int {
        match line {
            Line::Row => c + j,
            Line::Col => c,
            Line::Diag => c + j,
            Line::AntiDiag => c - j,
        }
    }

    /// Cell `j` of a window that fits the board lies in the row and column
    /// that the window's direction gives it.
    pub proof fn lemma_window_cell(self, line: Line, r: int, c: int, j: int)
        requires
            self.wf(),
            self.fits(line, r, c),
            0 <= j < self.run,
        ensures
            r * self.side + c + j * self.stride(line) == self.window_row(line, r, j) * self.side
                + self.window_col(line, c, j),
            0 <= self.window_row(line, r, j) < self.side,
            0 <= self.window_col(line, c, j) < self.side,
            0 <= r * self.side + c + j * self.stride(line) < self.cells.len(),
            (r * self.side + c + j * self.stride(line)) % self.side == self.window_col(line, c, j),
            (r * self.side + c + j * self.stride(line)) / self.side == self.window_row(line, r, j),
    {
        let k = self.side;
        match line {
            Line::Row => {
                assert(j * 1 == j);
            },
            Line::Col => {
                assert(r * k + j * k == (r + j) * k) by (nonlinear_arith);
            },
            Line::Diag => {
                assert(r * k + j * (k + 1) == (r + j) * k + j) by (nonlinear_arith);
            },
            Line::AntiDiag => {
                assert(r * k + j * (k - 1) == (r + j) * k - j) by (nonlinear_arith);
            },
        }
        lemma_join(self.window_row(line, r, j), self.window_col(line, c, j), k, k);
    }

    /// Two cells that follow one another in a window are neighbours: where
    /// one is occupied, the other has an occupied cell around it.
    pub proof fn lemma_window_step(self, line: Line, r: int, c: int, j: int)
        requires
            self.wf(),
            self.fits(line, r, c),
            0 <= j < self.run - 1,
        ensures
            ({
                let a = r * self.side + c + j * self.stride(line);
                let b = r * self.side + c + (j + 1) * self.stride(line);
                &&& 0 <= a < self.cells.len()
                &&& 0 <= b < self.cells.len()
                &&& a != b
                &&& self.cells[b] != EMPTY_MARK ==> self.occupied_near(a)
                &&& self.cells[a] != EMPTY_MARK ==> self.occupied_near(b)
            }),
    {
        let k = self.side;
        let a = r * k + c + j * self.stride(line);
        let b = r * k + c + (j + 1) * self.stride(line);
        self.lemma_window_cell(line, r, c, j);
        self.lemma_window_cell(line, r, c, j + 1);
        let row_a = self.window_row(line, r, j);
        let row_b = self.window_row(line, r, j + 1);
        assert((j + 1) * self.stride(line) == j * self.stride(line) + self.stride(line))
            by (nonlinear_arith);
        assert(b == a + self.stride(line));
        assert(row_b * k >= k * (row_b - row_a)) by (nonlinear_arith)
            requires
                0 <= row_a <= row_b,
                k >= 1,
        ;
        assert((row_b - row_a) * k == row_b * k - row_a * k) by (nonlinear_arith);
        assert(row_b * k + k <= k * k) by (nonlinear_arith)
            requires
                row_b + 1 <= k,
                k >= 1,
        ;
    }

    /// A mark written to a free cell gives no run to the other mark.
    pub proof fn lemma_no_run_for_other(self, t: int, written: i8, mark: i8)
        requires
            self.wf(),
            0 <= t < self.cells.len(),
            written != mark,
            self.place(t, written).has_run(mark),
        ensures
            self.has_run(mark),
    {
        let after = self.place(t, written);
        let (line, r, c) = choose|line: Line, r: int, c: int|
            #[trigger] after.run_at(mark, line, r, c);
        let start = r * self.side + c;
        let stride = self.stride(line);
        let w0 = self.window(start, stride);
        let w1 = after.window(start, stride);
        assert(self.fits(line, r, c));
        assert forall|j: int| 0 <= j < w0.len() implies #[trigger] w0[j] == mark by {
            assert(w1[j] == mark);
            self.lemma_window_cell(line, r, c, j);
        }
        assert(self.run_at(mark, line, r, c));
    }

    /// A free cell whose taking completes a run that was not there before
    /// has an occupied cell around it.
    pub proof fn lemma_completing_cell(self, t: int, mark: i8)
        requires
            self.wf(),
            0 <= t < self.cells.len(),
            self.cells[t] == EMPTY_MARK,
            mark != EMPTY_MARK,
            !self.has_run(mark),
            self.place(t, mark).has_run(mark),
        ensures
            self.occupied_near(t),
    {
        let after = self.place(t, mark);
        let (line, r, c) = choose|line: Line, r: int, c: int|
            #[trigger] after.run_at(mark, line, r, c);
        let start = r * self.side + c;
        let stride = self.stride(line);
        let w0 = self.window(start, stride);
        let w1 = after.window(start, stride);
        assert(self.fits(line, r, c));
        assert(!self.run_at(mark, line, r, c));
        let j = choose|j: int| 0 <= j < w0.len() && w0[j] != mark;
        assert(w1[j] == mark);
        self.lemma_window_cell(line, r, c, j);
        assert(start + j * stride == t);
        if j + 1 < self.run {
            self.lemma_window_step(line, r, c, j);
            let b = start + (j + 1) * stride;
            assert(w1[j + 1] == mark);
            assert(self.cells[b] == mark);
        } else {
            self.lemma_window_step(line, r, c, j - 1);
            let a = start + (j - 1) * stride;
            assert(w1[j - 1] == mark);
            assert(self.cells[a] == mark);
        }
    }

    /// A cell at which a player wins at once is one that the search may
    /// take, as long as nobody has won.
    pub proof fn lemma_winning_cell_offered(self, t: int, player: i8)
        requires
            self.wf(),
            self.winner() == EMPTY_MARK,
            player == P1_MARK || player == BOT_MARK,
            self.wins_at(t, player),
        ensures
            self.is_candidate(t),
    {
        self.lemma_winner_is_run();
        self.lemma_place_wf(t, player);
        self.place(t, player).lemma_winner_is_run();
        self.lemma_completing_cell(t, player);
    }

    /// The search values a cell at which the player to move wins at once at
    /// `WINNER_VALUE` times the depth, signed by the player.
    pub proof fn lemma_winning_cell_value(self, t: int, player: i8, depth: int, maximize: bool)
        requires
            self.wf(),
            depth > 0,
            player == P1_MARK || player == BOT_MARK,
            self.wins_at(t, player),
        ensures
            self.child_value(t, player, depth, maximize) == player * WINNER_VALUE * depth,
    {
        let after = self.place(t, player);
        assert(after.is_leaf(depth - 1));
        assert(after.search_value(opponent(player), depth - 1, !maximize) == after.leaf_value(
            depth - 1,
        ));
    }

    /// Where the bot can win at once, a best cell is a cell at which it
    /// wins at once, provided that the search values no other cell as high
    /// as a win.
    pub proof fn lemma_best_cell_wins(self, depth: int, win: int, best: int)
        requires
            self.wf(),
            !self.is_leaf(depth),
            self.wins_at(win, BOT_MARK),
            self.is_candidate(best),
            self.child_value(best, BOT_MARK, depth, true) == self.search_value(
                BOT_MARK,
                depth,
                true,
            ),
            forall|i: int|
                self.is_candidate(i) && !self.wins_at(i, BOT_MARK) ==> #[trigger] self.child_value(
                    i,
                    BOT_MARK,
                    depth,
                    true,
                ) < WINNER_VALUE * depth,
        ensures
            self.wins_at(best, BOT_MARK),
    {
        self.lemma_winning_cell_offered(win, BOT_MARK);
        self.lemma_winning_cell_value(win, BOT_MARK, depth, true);
        self.lemma_best_covers(BOT_MARK, depth, true, self.cells.len() as int, win);
        assert(1 * WINNER_VALUE * depth == WINNER_VALUE * depth) by (nonlinear_arith);
    }

    /// A best cell leaves player 1 no cell at which to win at once, where
    /// the bot cannot win at once itself, the search looks two plies ahead,
    /// and it values the position above a loss at player 1's next move.
    pub proof fn lemma_best_cell_blocks(self, depth: int, best: int, threat: int)
        requires
            self.wf(),
            !self.is_leaf(depth),
            2 <= depth,
            forall|i: int| !self.wins_at(i, BOT_MARK),
            self.is_candidate(best),
            self.child_value(best, BOT_MARK, depth, true) == self.search_value(
                BOT_MARK,
                depth,
                true,
            ),
            self.search_value(BOT_MARK, depth, true) > -WINNER_VALUE * (depth - 1),
        ensures
            !self.place(best, BOT_MARK).wins_at(threat, P1_MARK),
    {
        let after = self.place(best, BOT_MARK);
        if after.wins_at(threat, P1_MARK) {
            self.lemma_winner_is_run();
            self.lemma_place_wf(best, BOT_MARK);
            after.lemma_winner_is_run();
            assert(!self.wins_at(best, BOT_MARK));
            if after.has_run(P1_MARK) {
                self.lemma_no_run_for_other(best, BOT_MARK, P1_MARK);
            }
            assert(after.winner() == EMPTY_MARK);
            lemma_count_zero(after.cells, EMPTY_MARK);
            assert(!after.is_leaf(depth - 1));
            after.lemma_winning_cell_offered(threat, P1_MARK);
            after.lemma_winning_cell_value(threat, P1_MARK, depth - 1, false);
            after.lemma_best_covers(P1_MARK, depth - 1, false, after.cells.len() as int, threat);
            assert(-1 * WINNER_VALUE * (depth - 1) == -WINNER_VALUE * (depth - 1))
                by (nonlinear_arith);
        }
    }
}

impl Grid {
    /// No window that the bot has not filled is worth more than this.
    pub open spec fn unwon_limit(self) -> int {
        ONE_TO_WIN_VALUE * (self.run - 1)
    }

    /// A window on the board that nobody has filled is worth at most what a
    /// window is worth that lacks one mark of the bot.
    pub proof fn lemma_unwon_window_value(self, start: int, stride: int)
        requires
            self.wf(),
            self.window_on_board(start, stride),
            !self.window_won(start, stride),
        ensures
            self.window_value(start, stride) <= self.unwon_limit(),
    {
        let w = self.window(start, stride);
        self.lemma_window_marks(start, stride);
        lemma_sum_bound(w);
        if sum_marks(w) == self.run {
            lemma_sum_full(w);
            self.lemma_window_index(start, stride, 0);
            assert(0 * stride == 0);
            assert(w[0] == self.cells[start]);
        }
    }

    /// The windows of a direction in which nobody has won are worth at most
    /// their number times `unwon_limit`.
    pub proof fn lemma_unwon_scan_value(self, line: Line, upto: int)
        requires
            self.wf(),
            0 <= upto <= self.scan(line).len(),
            self.winner_in(line) == EMPTY_MARK,
        ensures
            self.scan_value(self.scan(line).starts(), self.stride(line), upto) <= upto
                * self.unwon_limit(),
        decreases upto,
    {
        if upto > 0 {
            let sc = self.scan(line);
            self.lemma_unwon_scan_value(line, upto - 1);
            self.lemma_scan_place(line, upto - 1);
            self.lemma_scan_winner_none(sc.starts(), self.stride(line), sc.len());
            assert(!self.window_won(sc.starts()[upto - 1], self.stride(line)));
            self.lemma_unwon_window_value(sc.start_at(upto - 1), self.stride(line));
            let limit = self.unwon_limit();
            assert((upto - 1) * limit + limit == upto * limit) by (nonlinear_arith);
        }
    }

    /// On the 3x3 board a position that nobody has won is worth less than a
    /// win.
    pub proof fn lemma_small_board_worth(self)
        requires
            self.wf(),
            self.side == 3,
            self.winner() == EMPTY_MARK,
        ensures
            self.value_in_total() < WINNER_VALUE,
    {
        let limit = self.unwon_limit();
        assert(limit == 1000);
        let rows = self.scan(Line::Row).len();
        let cols = self.scan(Line::Col).len();
        let diags = self.scan(Line::Diag).len();
        let antidiags = self.scan(Line::AntiDiag).len();
        assert(rows == 3 && cols == 3 && diags == 1 && antidiags == 1) by (nonlinear_arith)
            requires
                rows == 1 * 3,
                cols == 1 * 3,
                diags == 1 * 1,
                antidiags == 1 * 1,
        ;
        self.lemma_unwon_scan_value(Line::Row, rows);
        self.lemma_unwon_scan_value(Line::Col, cols);
        self.lemma_unwon_scan_value(Line::Diag, diags);
        self.lemma_unwon_scan_value(Line::AntiDiag, antidiags);
        assert(rows * limit == 3000 && cols * limit == 3000 && diags * limit == 1000 && antidiags
            * limit == 1000) by (nonlinear_arith)
            requires
                rows == 3,
                cols == 3,
                diags == 1,
                antidiags == 1,
                limit == 1000,
        ;
    }

    /// On the 3x3 board no position is valued higher than a win at the same
    /// depth.
    pub proof fn lemma_small_board_value(self, player: i8, depth: int, maximize: bool)
        requires
            self.wf(),
            self.side == 3,
            self.empty_count() < self.cells.len(),
            0 <= depth <= 255,
            player == P1_MARK || player == BOT_MARK,
        ensures
            self.search_value(player, depth, maximize) <= WINNER_VALUE * (depth + 1),
        decreases depth,
    {
        let factor = depth + 1;
        if self.is_leaf(depth) {
            self.lemma_winner_is_run();
            if self.winner() == EMPTY_MARK {
                self.lemma_small_board_worth();
                let total = self.value_in_total();
                assert(total * factor <= WINNER_VALUE * factor) by (nonlinear_arith)
                    requires
                        total < WINNER_VALUE,
                        factor >= 1,
                ;
            } else {
                let won = self.winner() * WINNER_VALUE;
                assert(won * factor <= WINNER_VALUE * factor) by (nonlinear_arith)
                    requires
                        won <= WINNER_VALUE,
                        factor >= 1,
                ;
            }
        } else {
            let len = self.cells.len() as int;
            let bound = WINNER_VALUE * depth;
            assert forall|i: int|
                0 <= i < len && self.is_candidate(i) implies #[trigger] self.child_value(
                i,
                player,
                depth,
                maximize,
            ) <= bound by {
                self.lemma_place_marks(i, player);
                self.place(i, player).lemma_small_board_value(
                    opponent(player),
                    depth - 1,
                    !maximize,
                );
            }
            if maximize {
                self.lemma_best_within(player, depth, maximize, len, bound);
            } else {
                let i = self.lemma_candidate_exists();
                self.lemma_best_covers(player, depth, maximize, len, i);
            }
        }
    }

    /// On the 3x3 board the search values a cell at which the bot does not
    /// win at once below a win.
    pub proof fn lemma_small_board_other_cell(self, i: int, depth: int)
        requires
            self.wf(),
            self.side == 3,
            !self.is_leaf(depth),
            depth <= 255,
            self.is_candidate(i),
            !self.wins_at(i, BOT_MARK),
        ensures
            self.child_value(i, BOT_MARK, depth, true) < WINNER_VALUE * depth,
    {
        let after = self.place(i, BOT_MARK);
        self.lemma_place_marks(i, BOT_MARK);
        self.lemma_winner_is_run();
        after.lemma_winner_is_run();
        if after.has_run(P1_MARK) {
            self.lemma_no_run_for_other(i, BOT_MARK, P1_MARK);
        }
        assert(after.winner() == EMPTY_MARK);
        if after.is_leaf(depth - 1) {
            after.lemma_small_board_worth();
            let total = after.value_in_total();
            assert(total * depth < WINNER_VALUE * depth) by (nonlinear_arith)
                requires
                    total < WINNER_VALUE,
                    depth >= 1,
            ;
        } else {
            let j = after.lemma_candidate_exists();
            after.lemma_best_covers(P1_MARK, depth - 1, false, after.cells.len() as int, j);
            after.lemma_place_marks(j, P1_MARK);
            after.place(j, P1_MARK).lemma_small_board_value(BOT_MARK, depth - 2, true);
        }
    }

    /// On the 3x3 board, where the bot can win at once, every best cell is a
    /// cell at which it wins at once.
    pub proof fn lemma_small_board_win(self, depth: int, win: int, best: int)
        requires
            self.wf(),
            self.side == 3,
            !self.is_leaf(depth),
            depth <= 255,
            self.wins_at(win, BOT_MARK),
            self.is_candidate(best),
            self.child_value(best, BOT_MARK, depth, true) == self.search_value(
                BOT_MARK,
                depth,
                true,
            ),
        ensures
            self.wins_at(best, BOT_MARK),
    {
        assert forall|i: int|
            self.is_candidate(i) && !self.wins_at(i, BOT_MARK) implies #[trigger] self.child_value(
            i,
            BOT_MARK,
            depth,
            true,
        ) < WINNER_VALUE * depth by {
            self.lemma_small_board_other_cell(i, depth);
        }
        self.lemma_best_cell_wins(depth, win, best);
    }
}

} // verus!
