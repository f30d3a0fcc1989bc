//! The state of one game: the normalised board, the caller's marks, and the
//! limits that the board's size sets.

use vstd::prelude::*;
use crate::cells::{
    count_mark,
    lemma_count_renamed,
    lemma_count_step,
    lemma_sum_step,
    sum_marks,
};
use crate::conf::{BoardParams, BoardSize, GameInitError, MAX_BOARD_SIZE};
use crate::grid::{
    lemma_join,
    window_score,
    Grid,
    Line,
    Scan,
    BOT_MARK,
    EMPTY_MARK,
    ONE_TO_WIN_VALUE,
    OPPONENT_PENALTY_MULTIPLIER,
    P1_MARK,
    TWO_TO_WIN_VALUE,
    WINNER_VALUE,
};
use crate::models::{Board, Level};
use crate::random::{lemma_same_elements, shuffle};

verus! {

/// One game in progress.
///
/// `cells` holds the board in the three marks of a game, whatever marks the
/// caller uses; the caller's own marks are kept beside it to name the winner
/// in the end.
pub struct Game {
    pub cells: Vec<i8>,
    pub p1_mark: i8,
    pub bot_mark: i8,
    pub empty_mark: i8,
    pub orig_p1_mark: i8,
    pub orig_bot_mark: i8,
    pub orig_empty_mark: i8,
    pub level: Level,
    pub board_size: BoardSize,
    pub max_depth: usize,
    pub cells_to_win: usize,
    pub cells_offset: usize,
}

impl View for Game {
    type V = Grid;

    open spec fn view(&self) -> Grid {
        Grid {
            cells: self.cells@,
            side: self.cells_offset as int,
            run: self.cells_to_win as int,
        }
    }
}

impl Game {
    /// The board is a supported square of cells in the marks of a game, and
    /// the empty mark is that of a game.
    pub open spec fn wf_board(&self) -> bool {
        &&& self@.wf()
        &&& self.cells_offset == self.board_size.spec_side()
        &&& self.empty_mark == EMPTY_MARK
    }

    /// The board is well formed and the players' marks are those of a game.
    pub open spec fn wf(&self) -> bool {
        &&& self.wf_board()
        &&& self.p1_mark == P1_MARK
        &&& self.bot_mark == BOT_MARK
    }

    /// A remaining search depth by which a position's worth can be scaled
    /// within 32 bits: no further from zero than a board can have cells.
    pub open spec fn depth_in_range(depth: int) -> bool {
        -(MAX_BOARD_SIZE as int) <= depth <= MAX_BOARD_SIZE
    }

    /// The cells of a board in the marks of a game: player 1's mark and the
    /// bot's mark become those of a game, everything else is free.
    pub open spec fn spec_normalized(cells: Seq<i8>, p1_mark: i8, bot_mark: i8) -> Seq<i8> {
        Seq::new(
            cells.len(),
            |i: int|
                if cells[i] == p1_mark {
                    P1_MARK
                } else if cells[i] == bot_mark {
                    BOT_MARK
                } else {
                    EMPTY_MARK
                },
        )
    }

    /// Validates the board and sets up the game in the marks of a game.
    ///
    /// Fails exactly where the board's classification fails, with the same
    /// error.
    pub fn new(board: Board, level: Level) -> (r: Result<Game, GameInitError>)
        ensures
            match BoardParams::spec_new(&board, level) {
                Err(e) => r == Err::<Game, GameInitError>(e),
                Ok(params) => r matches Ok(game) && {
                    &&& game.wf()
                    &&& game.cells@ == Self::spec_normalized(
                        board.cells@,
                        board.p1_mark,
                        board.bot_mark,
                    )
                    &&& game.orig_p1_mark == board.p1_mark
                    &&& game.orig_bot_mark == board.bot_mark
                    &&& game.orig_empty_mark == board.empty_mark
                    &&& game.level == level
                    &&& game.board_size == params.size
                    &&& game.max_depth == params.max_depth
                    &&& game.cells_to_win == params.to_win
                    &&& game.cells_offset == params.offset
                },
            },
    {
        let mut board = board;
        let board_params = match BoardParams::new(&board, level) {
            Ok(params) => params,
            Err(e) => {
                return Err(e);
            },
        };
        proof {
            BoardSize::lemma_from_cell_count(board.cells@.len());
        }
        Self::normalize_cell_values(&mut board);
        Ok(
            Game {
                cells: board.cells,
                p1_mark: P1_MARK,
                bot_mark: BOT_MARK,
                empty_mark: EMPTY_MARK,
                orig_p1_mark: board.p1_mark,
                orig_bot_mark: board.bot_mark,
                orig_empty_mark: board.empty_mark,
                level,
                board_size: board_params.size,
                max_depth: board_params.max_depth,
                cells_to_win: board_params.to_win,
                cells_offset: board_params.offset,
            },
        )
    }

    /// Number of free cells.
    pub fn empty_cell_count(&self) -> (count: usize)
        ensures
            count == count_mark(self.cells@, self.empty_mark),
            count <= self.cells@.len(),
    {
        Self::empty_cells(self.cells.as_slice(), self.empty_mark)
    }

    /// Number of cells of `slice` that hold `empty_mark`.
    pub fn empty_cells(slice: &[i8], empty_mark: i8) -> (count: usize)
        ensures
            count == count_mark(slice@, empty_mark),
            count <= slice@.len(),
    {
        let n: usize = slice.len();
        let mut count: usize = 0;
        let mut i: usize = 0;
        while i < n
            invariant
                n == slice@.len(),
                0 <= i <= n,
                count == count_mark(slice@.take(i as int), empty_mark),
                count <= i,
            decreases n - i,
        {
            proof {
                lemma_count_step(slice@, empty_mark, i as int);
            }
            if slice[i] == empty_mark {
                count = count + 1;
            }
            i = i + 1;
        }
        proof {
            assert(slice@.take(n as int) =~= slice@);
        }
        count
    }

    /// Rewrites the cells of the board in the marks of a game.
    pub fn normalize_cell_values(board: &mut Board)
        ensures
            final(board).cells@ == Self::spec_normalized(
                old(board).cells@,
                old(board).p1_mark,
                old(board).bot_mark,
            ),
            final(board).cells_to_win == old(board).cells_to_win,
            final(board).p1_mark == old(board).p1_mark,
            final(board).bot_mark == old(board).bot_mark,
            final(board).empty_mark == old(board).empty_mark,
    {
        let n: usize = board.cells.len();
        let mut i: usize = 0;
        while i < n
            invariant
                0 <= i <= n,
                n == board.cells@.len(),
                n == old(board).cells@.len(),
                board.cells_to_win == old(board).cells_to_win,
                board.p1_mark == old(board).p1_mark,
                board.bot_mark == old(board).bot_mark,
                board.empty_mark == old(board).empty_mark,
                forall|j: int|
                    0 <= j < i ==> board.cells@[j] == Self::spec_normalized(
                        old(board).cells@,
                        old(board).p1_mark,
                        old(board).bot_mark,
                    )[j],
                forall|j: int| i <= j < n ==> board.cells@[j] == old(board).cells@[j],
            decreases n - i,
        {
            let cell: i8 = board.cells[i];
            if cell == board.p1_mark {
                board.cells[i] = P1_MARK;
            } else if cell == board.bot_mark {
                board.cells[i] = BOT_MARK;
            } else {
                board.cells[i] = EMPTY_MARK;
            }
            i = i + 1;
        }
        assert(board.cells@ =~= Self::spec_normalized(
            old(board).cells@,
            old(board).p1_mark,
            old(board).bot_mark,
        ));
    }

    /// What a window with the given sum of marks and number of free cells is
    /// worth, `window` being the window's length.
    pub fn compute_value_from_window_sum(
        window_sum: i8,
        window_empty_cells: usize,
        window: usize,
    ) -> (value: i32)
        requires
            window >= 1,
        ensures
            value == window_score(window_sum as int, window_empty_cells as int, window as int),
    {
        let sum: i32 = window_sum as i32;
        let sum_abs: usize = if sum < 0 {
            (-sum) as usize
        } else {
            sum as usize
        };
        let window_thres: usize = window / 2;

        if sum_abs == window && sum > 0 {
            WINNER_VALUE
        } else if sum_abs == window && sum < 0 {
            -WINNER_VALUE
        } else if sum_abs == window - 1 && sum > 0 {
            sum * ONE_TO_WIN_VALUE
        } else if sum_abs == window - 1 && sum < 0 {
            sum * ONE_TO_WIN_VALUE * OPPONENT_PENALTY_MULTIPLIER
        } else if sum_abs >= window_thres && sum_abs <= window && window_empty_cells == window
            - sum_abs {
            if sum > 0 {
                sum * TWO_TO_WIN_VALUE
            } else {
                sum * TWO_TO_WIN_VALUE * OPPONENT_PENALTY_MULTIPLIER
            }
        } else {
            0
        }
    }
}

/// The window starts of a list as positions on the board.
pub open spec fn starts_of(list: Seq<usize>) -> Seq<int> {
    Seq::new(list.len(), |p: int| list[p] as int)
}

impl Game {
    /// The mark that has filled the window at `start`, or the empty mark.
    fn window_winner(&self, start: usize, stride: usize) -> (mark: i8)
        requires
            self.wf_board(),
            self@.window_on_board(start as int, stride as int),
        ensures
            mark == self@.window_mark(start as int, stride as int),
    {
        let w: usize = self.cells_to_win;
        let ghost win = self@.window(start as int, stride as int);
        proof {
            self@.lemma_window_index(start as int, stride as int, 0);
        }
        assert(0 * stride == 0);
        let first: i8 = self.cells[start];
        if first == self.empty_mark {
            return self.empty_mark;
        }
        let mut j: usize = 1;
        while j < w
            invariant
                self.wf_board(),
                self@.window_on_board(start as int, stride as int),
                w == self.cells_to_win,
                win == self@.window(start as int, stride as int),
                first == self.cells@[start as int],
                1 <= j <= w,
                forall|i: int| 0 <= i < j ==> #[trigger] win[i] == first,
            decreases w - j,
        {
            proof {
                self@.lemma_cell_count();
                self@.lemma_window_index(start as int, stride as int, j as int);
            }
            if self.cells[start + j * stride] != first {
                assert(win[j as int] != first);
                return self.empty_mark;
            }
            j = j + 1;
        }
        first
    }

    /// Sum of the marks and number of free cells of the window at `start`.
    fn window_stats(&self, start: usize, stride: usize) -> (r: (i8, usize))
        requires
            self.wf_board(),
            self@.window_on_board(start as int, stride as int),
        ensures
            r.0 == sum_marks(self@.window(start as int, stride as int)),
            r.1 == count_mark(self@.window(start as int, stride as int), EMPTY_MARK),
            -self.cells_to_win <= r.0 <= self.cells_to_win,
            r.1 <= self.cells_to_win,
    {
        let w: usize = self.cells_to_win;
        let ghost win = self@.window(start as int, stride as int);
        let mut sum: i8 = 0;
        let mut empties: usize = 0;
        let mut j: usize = 0;
        while j < w
            invariant
                self.wf_board(),
                self@.window_on_board(start as int, stride as int),
                w == self.cells_to_win,
                win == self@.window(start as int, stride as int),
                0 <= j <= w,
                sum == sum_marks(win.take(j as int)),
                empties == count_mark(win.take(j as int), EMPTY_MARK),
                -j <= sum <= j,
                empties <= j,
            decreases w - j,
        {
            proof {
                self@.lemma_cell_count();
                self@.lemma_window_index(start as int, stride as int, j as int);
                lemma_sum_step(win, j as int);
                lemma_count_step(win, EMPTY_MARK, j as int);
            }
            let cell: i8 = self.cells[start + j * stride];
            assert(cell == win[j as int]);
            sum = sum + cell;
            if cell == self.empty_mark {
                empties = empties + 1;
            }
            j = j + 1;
        }
        proof {
            assert(win.take(w as int) =~= win);
        }
        (sum, empties)
    }

    /// What the window at `start` is worth.
    fn window_worth(&self, start: usize, stride: usize) -> (value: i32)
        requires
            self.wf_board(),
            self@.window_on_board(start as int, stride as int),
        ensures
            value == self@.window_value(start as int, stride as int),
            -Grid::window_limit() <= value <= Grid::window_limit(),
    {
        let (sum, empties) = self.window_stats(start, stride);
        proof {
            Grid::lemma_window_score_bound(sum as int, empties as int, self.cells_to_win as int);
        }
        Self::compute_value_from_window_sum(sum, empties, self.cells_to_win)
    }

    /// The winner among the windows of one direction, which are examined
    /// group by group.
    fn winner_in_line(
        &self,
        Ghost(line): Ghost<Line>,
        base: usize,
        outer: usize,
        inner: usize,
        outer_step: usize,
        inner_step: usize,
        stride: usize,
    ) -> (mark: i8)
        requires
            self.wf_board(),
            self@.scan(line) == (Scan {
                base: base as int,
                outer: outer as int,
                inner: inner as int,
                outer_step: outer_step as int,
                inner_step: inner_step as int,
            }),
            self@.stride(line) == stride,
        ensures
            mark == self@.winner_in(line),
    {
        let ghost sc = self@.scan(line);
        let ghost starts = sc.starts();
        let mut a: usize = 0;
        while a < outer
            invariant
                self.wf_board(),
                sc == self@.scan(line),
                sc == (Scan {
                    base: base as int,
                    outer: outer as int,
                    inner: inner as int,
                    outer_step: outer_step as int,
                    inner_step: inner_step as int,
                }),
                starts == sc.starts(),
                self@.stride(line) == stride,
                0 <= a <= outer,
                self@.scan_winner(starts, stride as int, a * inner) == EMPTY_MARK,
            decreases outer - a,
        {
            let mut b: usize = 0;
            while b < inner
                invariant
                    self.wf_board(),
                    sc == self@.scan(line),
                    sc == (Scan {
                        base: base as int,
                        outer: outer as int,
                        inner: inner as int,
                        outer_step: outer_step as int,
                        inner_step: inner_step as int,
                    }),
                    starts == sc.starts(),
                    self@.stride(line) == stride,
                    0 <= a < outer,
                    0 <= b <= inner,
                    self@.scan_winner(starts, stride as int, a * inner + b) == EMPTY_MARK,
                decreases inner - b,
            {
                let ghost p: int = a * inner + b;
                proof {
                    lemma_join(a as int, b as int, inner as int, outer as int);
                    self@.lemma_scan_place(line, p);
                    assert(0 <= a * outer_step && 0 <= b * inner_step) by (nonlinear_arith);
                    assert(starts[p] == sc.start_at(p));
                }
                let start: usize = base + a * outer_step + b * inner_step;
                let mark: i8 = self.window_winner(start, stride);
                if mark != self.empty_mark {
                    proof {
                        assert(self@.scan_winner(starts, stride as int, p + 1) == mark);
                        self@.lemma_scan_winner_stays(starts, stride as int, p + 1, sc.len());
                    }
                    return mark;
                }
                b = b + 1;
            }
            proof {
                assert(a * inner + inner == (a + 1) * inner) by (nonlinear_arith);
            }
            a = a + 1;
        }
        self.empty_mark
    }

    /// The winner among the rows.
    pub fn winner_in_row(&self) -> (mark: i8)
        requires
            self.wf_board(),
        ensures
            mark == self@.winner_in(Line::Row),
    {
        let max_start_col: usize = self.cells_offset - self.cells_to_win + 1;
        self.winner_in_line(
            Ghost(Line::Row),
            0,
            max_start_col,
            self.cells_offset,
            1,
            self.cells_offset,
            1,
        )
    }

    /// The winner among the columns.
    pub fn winner_in_col(&self) -> (mark: i8)
        requires
            self.wf_board(),
        ensures
            mark == self@.winner_in(Line::Col),
    {
        let max_start_row: usize = self.cells_offset - self.cells_to_win + 1;
        self.winner_in_line(
            Ghost(Line::Col),
            0,
            max_start_row,
            self.cells_offset,
            self.cells_offset,
            1,
            self.cells_offset,
        )
    }

    /// The cells at which the windows of the diagonals, or of the
    /// antidiagonals, start, in rising order.
    pub fn diag_start_search_indices(&self, antidiag: bool) -> (list: Vec<usize>)
        requires
            self.wf_board(),
        ensures
            starts_of(list@) == self@.scan(
                if antidiag {
                    Line::AntiDiag
                } else {
                    Line::Diag
                },
            ).starts(),
    {
        let ghost line = if antidiag {
            Line::AntiDiag
        } else {
            Line::Diag
        };
        let ghost sc = self@.scan(line);
        let offset: usize = self.cells_offset;
        let max_row: usize = offset - self.cells_to_win + 1;
        let max_col: usize = max_row;
        let anti_offset: usize = if antidiag {
            self.cells_to_win - 1
        } else {
            0
        };
        let mut list: Vec<usize> = Vec::new();
        let mut row: usize = 0;
        while row < max_row
            invariant
                self.wf_board(),
                sc == self@.scan(line),
                sc.base == anti_offset,
                sc.outer == max_row,
                sc.inner == max_col,
                sc.outer_step == offset,
                sc.inner_step == 1,
                offset == self.cells_offset,
                0 <= row <= max_row,
                list@.len() == row * max_col,
                forall|p: int| 0 <= p < list@.len() ==> #[trigger] list@[p] == sc.start_at(p),
            decreases max_row - row,
        {
            let mut col: usize = 0;
            while col < max_col
                invariant
                    self.wf_board(),
                    sc == self@.scan(line),
                    sc.base == anti_offset,
                    sc.outer == max_row,
                    sc.inner == max_col,
                    sc.outer_step == offset,
                    sc.inner_step == 1,
                    offset == self.cells_offset,
                    0 <= row < max_row,
                    0 <= col <= max_col,
                    list@.len() == row * max_col + col,
                    forall|p: int| 0 <= p < list@.len() ==> #[trigger] list@[p] == sc.start_at(p),
                decreases max_col - col,
            {
                let ghost p: int = row * max_col + col;
                proof {
                    lemma_join(row as int, col as int, max_col as int, max_row as int);
                    self@.lemma_scan_place(line, p);
                    assert(0 <= row * offset) by (nonlinear_arith);
                    assert(col * 1 == col);
                }
                list.push(row * offset + anti_offset + col);
                col = col + 1;
            }
            proof {
                assert(row * max_col + max_col == (row + 1) * max_col) by (nonlinear_arith);
            }
            row = row + 1;
        }
        proof {
            assert(starts_of(list@) =~= sc.starts());
        }
        list
    }

    /// The winner among the diagonals.
    pub fn winner_in_diag(&self) -> (mark: i8)
        requires
            self.wf_board(),
        ensures
            mark == self@.winner_in(Line::Diag),
    {
        let start_search_indices = self.diag_start_search_indices(false);
        proof {
            self.lemma_starts_on_board(Line::Diag, start_search_indices@);
        }
        self.winner_general_diag(self.cells_offset + 1, &start_search_indices)
    }

    /// The winner among the antidiagonals.
    pub fn winner_in_antidiag(&self) -> (mark: i8)
        requires
            self.wf_board(),
        ensures
            mark == self@.winner_in(Line::AntiDiag),
    {
        let start_search_indices = self.diag_start_search_indices(true);
        proof {
            self.lemma_starts_on_board(Line::AntiDiag, start_search_indices@);
        }
        self.winner_general_diag(self.cells_offset - 1, &start_search_indices)
    }

    /// The listed starts of a direction's scan are starts of windows on the
    /// board.
    proof fn lemma_starts_on_board(&self, line: Line, list: Seq<usize>)
        requires
            self.wf_board(),
            starts_of(list) == self@.scan(line).starts(),
        ensures
            list.len() == self@.scan(line).len(),
            forall|p: int|
                0 <= p < list.len() ==> self@.window_on_board(
                    #[trigger] list[p] as int,
                    self@.stride(line),
                ),
    {
        let sc = self@.scan(line);
        assert(starts_of(list).len() == list.len());
        assert(sc.outer * sc.inner >= 0) by (nonlinear_arith)
            requires
                sc.outer >= 0,
                sc.inner >= 0,
        ;
        assert forall|p: int| 0 <= p < list.len() implies self@.window_on_board(
            #[trigger] list[p] as int,
            self@.stride(line),
        ) by {
            self@.lemma_scan_place(line, p);
            assert(starts_of(list)[p] == list[p] as int);
            assert(sc.starts()[p] == sc.start_at(p));
        }
    }

    /// The mark of the first filled window among those that start at the
    /// listed cells and step by `diag_offset`, or the empty mark.
    pub fn winner_general_diag(
        &self,
        diag_offset: usize,
        start_search_indices: &Vec<usize>,
    ) -> (mark: i8)
        requires
            self.wf_board(),
            forall|p: int|
                0 <= p < start_search_indices@.len() ==> self@.window_on_board(
                    #[trigger] start_search_indices@[p] as int,
                    diag_offset as int,
                ),
        ensures
            mark == self@.scan_winner(
                starts_of(start_search_indices@),
                diag_offset as int,
                start_search_indices@.len() as int,
            ),
    {
        let ghost starts = starts_of(start_search_indices@);
        let n: usize = start_search_indices.len();
        let mut p: usize = 0;
        while p < n
            invariant
                self.wf_board(),
                n == start_search_indices@.len(),
                starts == starts_of(start_search_indices@),
                forall|q: int|
                    0 <= q < start_search_indices@.len() ==> self@.window_on_board(
                        #[trigger] start_search_indices@[q] as int,
                        diag_offset as int,
                    ),
                0 <= p <= n,
                self@.scan_winner(starts, diag_offset as int, p as int) == EMPTY_MARK,
            decreases n - p,
        {
            let start: usize = start_search_indices[p];
            assert(starts[p as int] == start);
            let mark: i8 = self.window_winner(start, diag_offset);
            if mark != self.empty_mark {
                proof {
                    assert(self@.scan_winner(starts, diag_offset as int, p + 1) == mark);
                    self@.lemma_scan_winner_stays(starts, diag_offset as int, p + 1, n as int);
                }
                return mark;
            }
            p = p + 1;
        }
        self.empty_mark
    }

    /// The winner of the game as it stands: the mark that has filled a
    /// window, or the empty mark.
    pub fn winner(&self) -> (mark: i8)
        requires
            self.wf_board(),
        ensures
            mark == self@.winner(),
    {
        let winner_in_row: i8 = self.winner_in_row();
        if winner_in_row != self.empty_mark {
            return winner_in_row;
        }
        let winner_in_col: i8 = self.winner_in_col();
        if winner_in_col != self.empty_mark {
            return winner_in_col;
        }
        let winner_in_diag: i8 = self.winner_in_diag();
        if winner_in_diag != self.empty_mark {
            return winner_in_diag;
        }
        let winner_in_antidiag: i8 = self.winner_in_antidiag();
        if winner_in_antidiag != self.empty_mark {
            return winner_in_antidiag;
        }
        self.empty_mark
    }
}

impl Game {
    /// What the windows of one direction, taken group by group, are worth
    /// together.
    fn value_in_line(
        &self,
        Ghost(line): Ghost<Line>,
        base: usize,
        outer: usize,
        inner: usize,
        outer_step: usize,
        inner_step: usize,
        stride: usize,
    ) -> (value: i32)
        requires
            self.wf_board(),
            self@.scan(line) == (Scan {
                base: base as int,
                outer: outer as int,
                inner: inner as int,
                outer_step: outer_step as int,
                inner_step: inner_step as int,
            }),
            self@.stride(line) == stride,
        ensures
            value == self@.value_in(line),
            -225 * Grid::window_limit() <= value <= 225 * Grid::window_limit(),
    {
        let ghost sc = self@.scan(line);
        let ghost starts = sc.starts();
        let mut value: i32 = 0;
        let mut a: usize = 0;
        proof {
            assert(outer <= 13 && inner <= 15);
            assert(outer * inner <= 225) by (nonlinear_arith)
                requires
                    0 <= outer <= 13,
                    0 <= inner <= 15,
            ;
        }
        while a < outer
            invariant
                self.wf_board(),
                sc == self@.scan(line),
                sc == (Scan {
                    base: base as int,
                    outer: outer as int,
                    inner: inner as int,
                    outer_step: outer_step as int,
                    inner_step: inner_step as int,
                }),
                starts == sc.starts(),
                self@.stride(line) == stride,
                outer * inner <= 225,
                0 <= a <= outer,
                0 <= a * inner <= outer * inner,
                value == self@.scan_value(starts, stride as int, a * inner),
                -(a * inner) * Grid::window_limit() <= value <= (a * inner) * Grid::window_limit(),
            decreases outer - a,
        {
            let mut b: usize = 0;
            while b < inner
                invariant
                    self.wf_board(),
                    sc == self@.scan(line),
                    sc == (Scan {
                        base: base as int,
                        outer: outer as int,
                        inner: inner as int,
                        outer_step: outer_step as int,
                        inner_step: inner_step as int,
                    }),
                    starts == sc.starts(),
                    self@.stride(line) == stride,
                    outer * inner <= 225,
                    0 <= a < outer,
                    0 <= b <= inner,
                    0 <= a * inner + b <= outer * inner,
                    value == self@.scan_value(starts, stride as int, a * inner + b),
                    -(a * inner + b) * Grid::window_limit() <= value <= (a * inner + b)
                        * Grid::window_limit(),
                decreases inner - b,
            {
                let ghost p: int = a * inner + b;
                proof {
                    lemma_join(a as int, b as int, inner as int, outer as int);
                    self@.lemma_scan_place(line, p);
                    assert(0 <= a * outer_step && 0 <= b * inner_step) by (nonlinear_arith);
                    assert(starts[p] == sc.start_at(p));
                }
                let start: usize = base + a * outer_step + b * inner_step;
                let worth: i32 = self.window_worth(start, stride);
                value = value + worth;
                b = b + 1;
            }
            proof {
                assert(a * inner + inner == (a + 1) * inner) by (nonlinear_arith);
            }
            a = a + 1;
        }
        value
    }

    /// What the windows in the rows are worth together.
    pub fn value_in_rows(&self) -> (value: i32)
        requires
            self.wf_board(),
        ensures
            value == self@.value_in(Line::Row),
            -225 * Grid::window_limit() <= value <= 225 * Grid::window_limit(),
    {
        let max_start_col: usize = self.cells_offset - self.cells_to_win + 1;
        self.value_in_line(
            Ghost(Line::Row),
            0,
            max_start_col,
            self.cells_offset,
            1,
            self.cells_offset,
            1,
        )
    }

    /// What the windows in the columns are worth together.
    pub fn value_in_cols(&self) -> (value: i32)
        requires
            self.wf_board(),
        ensures
            value == self@.value_in(Line::Col),
            -225 * Grid::window_limit() <= value <= 225 * Grid::window_limit(),
    {
        let max_start_row: usize = self.cells_offset - self.cells_to_win + 1;
        self.value_in_line(
            Ghost(Line::Col),
            0,
            max_start_row,
            self.cells_offset,
            self.cells_offset,
            1,
            self.cells_offset,
        )
    }

    /// What the windows in the diagonals, or in the antidiagonals, are worth
    /// together.
    pub fn value_in_diags(&self, antidiag: bool) -> (value: i32)
        requires
            self.wf_board(),
        ensures
            value == self@.value_in(
                if antidiag {
                    Line::AntiDiag
                } else {
                    Line::Diag
                },
            ),
            -225 * Grid::window_limit() <= value <= 225 * Grid::window_limit(),
    {
        let max_row: usize = self.cells_offset - self.cells_to_win + 1;
        if antidiag {
            self.value_in_line(
                Ghost(Line::AntiDiag),
                self.cells_to_win - 1,
                max_row,
                max_row,
                self.cells_offset,
                1,
                self.cells_offset - 1,
            )
        } else {
            self.value_in_line(
                Ghost(Line::Diag),
                0,
                max_row,
                max_row,
                self.cells_offset,
                1,
                self.cells_offset + 1,
            )
        }
    }

    /// What the position is worth to the bot.
    pub fn value_in_total(&self) -> (value: i32)
        requires
            self.wf_board(),
        ensures
            value == self@.value_in_total(),
            -Grid::value_limit() <= value <= Grid::value_limit(),
    {
        let mut value: i32 = 0;
        value = value + self.value_in_rows();
        value = value + self.value_in_cols();
        value = value + self.value_in_diags(false);
        value = value + self.value_in_diags(true);
        proof {
            self@.lemma_value_bound();
        }
        value
    }

    /// What the search makes of the position where it stops with `depth`
    /// plies left: the worth of the win where `winner` has won, else the
    /// worth of the position, times `depth + 1`.
    pub fn heuristic_game_value(&self, winner: i8, depth: i32) -> (value: i32)
        requires
            self.wf_board(),
            Self::depth_in_range(depth as int),
        ensures
            value == self@.heuristic_value(winner, depth as int),
    {
        let depth_unzero: i32 = depth + 1;

        if winner != self.empty_mark {
            let won: i32 = winner as i32 * WINNER_VALUE;
            assert(-1_300_000 * 256 <= won * depth_unzero <= 1_300_000 * 256) by (nonlinear_arith)
                requires
                    -1_300_000 <= won <= 1_300_000,
                    -256 <= depth_unzero <= 256,
            ;
            return won * depth_unzero;
        }
        let total: i32 = self.value_in_total();
        assert(-7_728_000 * 256 <= total * depth_unzero <= 7_728_000 * 256) by (nonlinear_arith)
            requires
                -7_728_000 <= total <= 7_728_000,
                -256 <= depth_unzero <= 256,
        ;
        total * depth_unzero
    }
}

impl Game {
    /// All but the cells of `self` is as in `other`.
    pub open spec fn same_setup(&self, other: &Game) -> bool {
        &&& self.p1_mark == other.p1_mark
        &&& self.bot_mark == other.bot_mark
        &&& self.empty_mark == other.empty_mark
        &&& self.orig_p1_mark == other.orig_p1_mark
        &&& self.orig_bot_mark == other.orig_bot_mark
        &&& self.orig_empty_mark == other.orig_empty_mark
        &&& self.level == other.level
        &&& self.board_size == other.board_size
        &&& self.max_depth == other.max_depth
        &&& self.cells_to_win == other.cells_to_win
        &&& self.cells_offset == other.cells_offset
    }

    /// `self` is as `other` is, cell by cell and in all else.
    pub open spec fn same_as(&self, other: &Game) -> bool {
        self.same_setup(other) && self.cells@ == other.cells@
    }

    /// Whether one of the up to eight cells around cell `index` is occupied.
    pub fn adjacent_cell_occupied(&self, index: usize) -> (occupied: bool)
        requires
            self.wf_board(),
            index < self.cells@.len(),
        ensures
            occupied == self@.occupied_near(index as int),
    {
        let offset: usize = self.cells_offset;
        let cells_count: usize = self.cells.len();
        proof {
            self@.lemma_cell_count();
            self@.lemma_neighbours(index as int);
        }
        let up: bool = index >= offset;
        let down: bool = index + offset < cells_count;
        let left: bool = index % offset != 0;
        let right: bool = index % offset != offset - 1;

        (up && left && self.cells[index - offset - 1] != self.empty_mark)
            || (up && self.cells[index - offset] != self.empty_mark)
            || (up && right && self.cells[index - offset + 1] != self.empty_mark)
            || (left && self.cells[index - 1] != self.empty_mark)
            || (right && self.cells[index + 1] != self.empty_mark)
            || (down && left && self.cells[index + offset - 1] != self.empty_mark)
            || (down && self.cells[index + offset] != self.empty_mark)
            || (down && right && self.cells[index + offset + 1] != self.empty_mark)
    }

    /// The free cells in rising order.
    fn free_cell_indices(&self) -> (list: Vec<usize>)
        requires
            self.wf_board(),
        ensures
            list@.no_duplicates(),
            forall|i: usize|
                list@.contains(i) <==> i < self.cells@.len() && self.cells@[i as int]
                    == EMPTY_MARK,
    {
        let n: usize = self.cells.len();
        let mut list: Vec<usize> = Vec::new();
        let mut c_idx: usize = 0;
        while c_idx < n
            invariant
                self.wf_board(),
                n == self.cells@.len(),
                0 <= c_idx <= n,
                list@.no_duplicates(),
                forall|p: int| 0 <= p < list@.len() ==> #[trigger] list@[p] < c_idx,
                forall|i: usize|
                    list@.contains(i) <==> i < c_idx && self.cells@[i as int] == EMPTY_MARK,
            decreases n - c_idx,
        {
            if self.cells[c_idx] == self.empty_mark {
                let ghost before = list@;
                list.push(c_idx);
                proof {
                    assert forall|i: usize|
                        list@.contains(i) <==> i < c_idx + 1 && self.cells@[i as int]
                            == EMPTY_MARK by {
                        if list@.contains(i) {
                            let p = choose|p: int| 0 <= p < list@.len() && list@[p] == i;
                            if p < before.len() {
                                assert(before[p] == i);
                                assert(before.contains(i));
                            }
                        }
                        if i < c_idx + 1 && self.cells@[i as int] == EMPTY_MARK {
                            if i == c_idx {
                                assert(list@[before.len() as int] == i);
                            } else {
                                assert(before.contains(i));
                                let p = choose|p: int| 0 <= p < before.len() && before[p] == i;
                                assert(list@[p] == i);
                            }
                        }
                    }
                }
            }
            c_idx = c_idx + 1;
        }
        list
    }
}

/// The place of `x` in `list`.
pub open spec fn place_of(list: Seq<usize>, x: usize) -> int {
    choose|q: int| 0 <= q < list.len() && list[q] == x
}

/// In a list that repeats nothing, the place of an element is where it
/// stands.
pub proof fn lemma_place_of(list: Seq<usize>, q: int)
    requires
        list.no_duplicates(),
        0 <= q < list.len(),
    ensures
        place_of(list, list[q]) == q,
{
}

impl Game {
    /// The cells that the search may take, in the order in which it is to
    /// try them.
    ///
    /// These are the free cells, in a random order. On a board with a side
    /// above `FULL_SEARCH_SIDE` only the free cells with an occupied cell
    /// around them are offered, and those that leave the bot the better
    /// position come first.
    pub fn empty_cell_indices(&mut self) -> (list: Vec<usize>)
        requires
            old(self).wf(),
        ensures
            final(self).same_as(old(self)),
            list@.no_duplicates(),
            forall|i: usize| list@.contains(i) <==> old(self)@.is_candidate(i as int),
            old(self)@.prunes() ==> forall|a: int, b: int|
                0 <= a < b < list@.len() ==> old(self)@.value_after(list@[a] as int) >= old(
                    self,
                )@.value_after(list@[b] as int),
    {
        let mut free_indices: Vec<usize> = self.free_cell_indices();
        let ghost rising = free_indices@;
        shuffle(&mut free_indices);
        proof {
            lemma_same_elements(rising, free_indices@);
            assert forall|p: int| 0 <= p < free_indices@.len() implies {
                &&& #[trigger] free_indices@[p] < self.cells@.len()
                &&& self.cells@[free_indices@[p] as int] == EMPTY_MARK
            } by {
                assert(free_indices@.contains(free_indices@[p]));
            }
        }
        match self.board_size {
            BoardSize::X33 | BoardSize::X44 => free_indices,
            _ => {
                let ghost shuffled = free_indices@;
                let list = self.reorder_empty_cell_indices_by_value(free_indices);
                proof {
                    assert forall|a: int, b: int| 0 <= a < b < list@.len() implies old(
                        self,
                    )@.value_after(list@[a] as int) >= old(self)@.value_after(list@[b] as int) by {
                        assert(Self::comes_before(old(self)@, shuffled, list@[a], list@[b]));
                    }
                }
                list
            },
        }
    }

    /// `x` comes before `y` where the listed cells are ordered by what the
    /// position is worth once the bot has taken the cell: `x` leaves the
    /// better position, or an equal one and stands before `y` in the list.
    pub open spec fn comes_before(grid: Grid, list: Seq<usize>, x: usize, y: usize) -> bool {
        let worth_x = grid.value_after(x as int);
        let worth_y = grid.value_after(y as int);
        worth_x > worth_y || (worth_x == worth_y && place_of(list, x) < place_of(list, y))
    }

    /// Of the listed free cells, those with an occupied cell around them,
    /// ordered by what the position is worth once the bot has taken the
    /// cell, best first. Among cells of equal worth the listed order stays.
    pub fn reorder_empty_cell_indices_by_value(&mut self, free_indices: Vec<usize>) -> (list: Vec<
        usize,
    >)
        requires
            old(self).wf(),
            free_indices@.no_duplicates(),
            forall|p: int|
                0 <= p < free_indices@.len() ==> {
                    &&& #[trigger] free_indices@[p] < old(self).cells@.len()
                    &&& old(self).cells@[free_indices@[p] as int] == EMPTY_MARK
                },
        ensures
            final(self).same_as(old(self)),
            list@.no_duplicates(),
            forall|i: usize|
                list@.contains(i) <==> free_indices@.contains(i) && old(self)@.occupied_near(
                    i as int,
                ),
            forall|a: int, b: int|
                0 <= a < b < list@.len() ==> Self::comes_before(
                    old(self)@,
                    free_indices@,
                    list@[a],
                    list@[b],
                ),
    {
        let ghost free = free_indices@;
        let ghost grid = self@;
        let n: usize = free_indices.len();
        let mut order: Vec<usize> = Vec::new();
        let mut values: Vec<i32> = Vec::new();
        let ghost mut places: Seq<int> = Seq::empty();
        let mut j: usize = 0;
        while j < n
            invariant
                self.wf(),
                self.same_as(old(self)),
                grid == old(self)@,
                free == free_indices@,
                n == free.len(),
                free.no_duplicates(),
                forall|p: int|
                    0 <= p < free.len() ==> {
                        &&& #[trigger] free[p] < grid.cells.len()
                        &&& grid.cells[free[p] as int] == EMPTY_MARK
                    },
                0 <= j <= n,
                order@.len() == values@.len(),
                order@.len() == places.len(),
                forall|p: int|
                    0 <= p < order@.len() ==> {
                        &&& 0 <= #[trigger] places[p] < j
                        &&& free[places[p]] == order@[p]
                        &&& grid.occupied_near(order@[p] as int)
                        &&& values@[p] == grid.value_after(order@[p] as int)
                    },
                forall|q: int|
                    0 <= q < j && grid.occupied_near(free[q] as int) ==> order@.contains(
                        #[trigger] free[q],
                    ),
                forall|a: int, b: int|
                    0 <= a < b < values@.len() ==> values@[a] > values@[b] || (values@[a]
                        == values@[b] && places[a] < places[b]),
            decreases n - j,
        {
            let idx: usize = free_indices[j];
            let ghost order_before = order@;
            let ghost values_before = values@;
            let ghost places_before = places;
            if self.adjacent_cell_occupied(idx) {
                self.cells[idx] = self.bot_mark;
                assert(self@ == grid.place(idx as int, BOT_MARK));
                let value: i32 = self.value_in_total();
                self.cells[idx] = self.empty_mark;
                assert(self.cells@ =~= old(self).cells@);

                let len: usize = values.len();
                let mut pos: usize = 0;
                while pos < len && values[pos] >= value
                    invariant
                        len == values@.len(),
                        0 <= pos <= len,
                        forall|a: int| 0 <= a < pos ==> values@[a] >= value,
                    decreases len - pos,
                {
                    pos = pos + 1;
                }
                order.insert(pos, idx);
                values.insert(pos, value);
                proof {
                    places = places.insert(pos as int, j as int);
                    assert forall|q: int|
                        0 <= q < j + 1 && grid.occupied_near(
                            free[q] as int,
                        ) implies order@.contains(#[trigger] free[q]) by {
                        if q < j {
                            assert(order_before.contains(free[q]));
                            let p = choose|p: int|
                                0 <= p < order_before.len() && order_before[p] == free[q];
                            if p < pos {
                                assert(order@[p] == free[q]);
                            } else {
                                assert(order@[p + 1] == free[q]);
                            }
                        } else {
                            assert(order@[pos as int] == free[q]);
                        }
                    }
                    assert forall|a: int, b: int| 0 <= a < b < values@.len() implies values@[a]
                        > values@[b] || (values@[a] == values@[b] && places[a] < places[b]) by {
                        let ia = if a < pos {
                            a
                        } else {
                            a - 1
                        };
                        let ib = if b < pos {
                            b
                        } else {
                            b - 1
                        };
                        if a == pos {
                            assert(values_before[pos as int] < value);
                            assert(values@[b] == values_before[ib]);
                            if pos < ib {
                                assert(values_before[pos as int] > values_before[ib] || (
                                values_before[pos as int] == values_before[ib]));
                            }
                        } else if b == pos {
                            assert(values@[a] == values_before[ia]);
                            assert(places[a] == places_before[ia]);
                        } else {
                            assert(values@[a] == values_before[ia]);
                            assert(values@[b] == values_before[ib]);
                            assert(places[a] == places_before[ia]);
                            assert(places[b] == places_before[ib]);
                        }
                    }
                }
            }
            j = j + 1;
        }
        proof {
            assert forall|a: int, b: int| 0 <= a < b < order@.len() implies order@[a]
                != order@[b] by {
                assert(places[a] != places[b]);
            }
            assert forall|i: usize|
                order@.contains(i) <==> free.contains(i) && grid.occupied_near(i as int) by {
                if order@.contains(i) {
                    let p = choose|p: int| 0 <= p < order@.len() && order@[p] == i;
                    assert(free[places[p]] == i);
                }
                if free.contains(i) && grid.occupied_near(i as int) {
                    let q = choose|q: int| 0 <= q < free.len() && free[q] == i;
                    assert(order@.contains(free[q]));
                }
            }
            assert forall|a: int, b: int| 0 <= a < b < order@.len() implies Self::comes_before(
                grid,
                free,
                order@[a],
                order@[b],
            ) by {
                lemma_place_of(free, places[a]);
                lemma_place_of(free, places[b]);
            }
        }
        order
    }
}

impl Game {
    /// Validation is idempotent: a board whose marks are in order, once
    /// rewritten in the marks of a game, is classified as it was before,
    /// with the same parameters or the same error.
    pub proof fn lemma_revalidation(board: &Board, normalized: &Board, level: Level)
        requires
            BoardParams::spec_new(board, level) != Err::<BoardParams, GameInitError>(
                GameInitError::Marks,
            ),
            normalized.cells@ == Self::spec_normalized(
                board.cells@,
                board.p1_mark,
                board.bot_mark,
            ),
            normalized.cells_to_win == board.cells_to_win,
            normalized.p1_mark == P1_MARK,
            normalized.bot_mark == BOT_MARK,
            normalized.empty_mark == EMPTY_MARK,
        ensures
            BoardParams::spec_new(normalized, level) == BoardParams::spec_new(board, level),
    {
        let before = board.cells@;
        let after = normalized.cells@;
        assert(BoardParams::marks_distinct(board));
        assert(BoardParams::cells_marked(board));
        assert(BoardParams::cells_marked(normalized));
        assert forall|i: int| 0 <= i < before.len() implies (before[i] == board.p1_mark
            <==> after[i] == P1_MARK) by {}
        assert forall|i: int| 0 <= i < before.len() implies (before[i] == board.bot_mark
            <==> after[i] == BOT_MARK) by {}
        lemma_count_renamed(before, after, board.p1_mark, P1_MARK);
        lemma_count_renamed(before, after, board.bot_mark, BOT_MARK);
    }
}

} // verus!
