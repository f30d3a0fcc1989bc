//! Supported board sizes, their limits, and the validation of a board.

use vstd::prelude::*;
use crate::cells::{count_mark, lemma_count_step};
use crate::models::{Board, Level};

verus! {

/// The supported boards, from 3x3 to 15x15.
#[derive(Clone, Copy, Debug, PartialEq, Eq, Structural)]
pub enum BoardSize {
    X33,
    X44,
    X55,
    X66,
    X77,
    X88,
    X99,
    X1010,
    X1111,
    X1212,
    X1313,
    X1414,
    X1515,
}

/// No board has more cells than this.
pub const MAX_BOARD_SIZE: u8 = 255;

pub const X33_CELLS_TO_WIN_MIN: u8 = 3;
pub const X44_CELLS_TO_WIN_MIN: u8 = 4;
pub const X55_CELLS_TO_WIN_MIN: u8 = 4;
pub const X66_CELLS_TO_WIN_MIN: u8 = 4;
pub const X77_CELLS_TO_WIN_MIN: u8 = 4;
pub const X88_CELLS_TO_WIN_MIN: u8 = 4;
pub const X99_CELLS_TO_WIN_MIN: u8 = 4;
pub const X1010_CELLS_TO_WIN_MIN: u8 = 5;
pub const X1111_CELLS_TO_WIN_MIN: u8 = 5;
pub const X1212_CELLS_TO_WIN_MIN: u8 = 5;
pub const X1313_CELLS_TO_WIN_MIN: u8 = 5;
pub const X1414_CELLS_TO_WIN_MIN: u8 = 5;
pub const X1515_CELLS_TO_WIN_MIN: u8 = 5;

// A maximum never exceeds the side of its board.
pub const X33_CELLS_TO_WIN_MAX: u8 = 3;
pub const X44_CELLS_TO_WIN_MAX: u8 = 4;
pub const X55_CELLS_TO_WIN_MAX: u8 = 5;
pub const X66_CELLS_TO_WIN_MAX: u8 = 6;
pub const X77_CELLS_TO_WIN_MAX: u8 = 7;
pub const X88_CELLS_TO_WIN_MAX: u8 = 8;
pub const X99_CELLS_TO_WIN_MAX: u8 = 9;
pub const X1010_CELLS_TO_WIN_MAX: u8 = 10;
pub const X1111_CELLS_TO_WIN_MAX: u8 = 10;
pub const X1212_CELLS_TO_WIN_MAX: u8 = 10;
pub const X1313_CELLS_TO_WIN_MAX: u8 = 10;
pub const X1414_CELLS_TO_WIN_MAX: u8 = 10;
pub const X1515_CELLS_TO_WIN_MAX: u8 = 10;

pub const X33_MAX_DEPTH: u8 = 9;
pub const X44_MAX_DEPTH: u8 = 7;
pub const X55_MAX_DEPTH: u8 = 6;
pub const X66_MAX_DEPTH: u8 = 5;
pub const X77_MAX_DEPTH: u8 = 4;
pub const X88_MAX_DEPTH: u8 = 4;
pub const X99_MAX_DEPTH: u8 = 4;
pub const X1010_MAX_DEPTH: u8 = 3;
pub const X1111_MAX_DEPTH: u8 = 3;
pub const X1212_MAX_DEPTH: u8 = 3;
pub const X1313_MAX_DEPTH: u8 = 3;
pub const X1414_MAX_DEPTH: u8 = 3;
pub const X1515_MAX_DEPTH: u8 = 3;

pub const X33_EASY_MAX_DEPTH: u8 = 1;
pub const X44_EASY_MAX_DEPTH: u8 = 2;
pub const X55_EASY_MAX_DEPTH: u8 = 3;
pub const X66_EASY_MAX_DEPTH: u8 = 3;
pub const X77_EASY_MAX_DEPTH: u8 = 3;
pub const X88_EASY_MAX_DEPTH: u8 = 3;
pub const X99_EASY_MAX_DEPTH: u8 = 3;
pub const X1010_EASY_MAX_DEPTH: u8 = 2;
pub const X1111_EASY_MAX_DEPTH: u8 = 2;
pub const X1212_EASY_MAX_DEPTH: u8 = 2;
pub const X1313_EASY_MAX_DEPTH: u8 = 2;
pub const X1414_EASY_MAX_DEPTH: u8 = 2;
pub const X1515_EASY_MAX_DEPTH: u8 = 2;

impl BoardSize {
    /// Side k of the k x k board.
    pub open spec fn spec_side(self) -> usize {
        match self {
            BoardSize::X33 => 3,
            BoardSize::X44 => 4,
            BoardSize::X55 => 5,
            BoardSize::X66 => 6,
            BoardSize::X77 => 7,
            BoardSize::X88 => 8,
            BoardSize::X99 => 9,
            BoardSize::X1010 => 10,
            BoardSize::X1111 => 11,
            BoardSize::X1212 => 12,
            BoardSize::X1313 => 13,
            BoardSize::X1414 => 14,
            BoardSize::X1515 => 15,
        }
    }

    /// Side k of the k x k board.
    #[verifier::when_used_as_spec(spec_side)]
    pub fn side(self) -> (k: usize)
        ensures
            k == self.spec_side(),
            3 <= k <= 15,
    {
        match self {
            BoardSize::X33 => 3,
            BoardSize::X44 => 4,
            BoardSize::X55 => 5,
            BoardSize::X66 => 6,
            BoardSize::X77 => 7,
            BoardSize::X88 => 8,
            BoardSize::X99 => 9,
            BoardSize::X1010 => 10,
            BoardSize::X1111 => 11,
            BoardSize::X1212 => 12,
            BoardSize::X1313 => 13,
            BoardSize::X1414 => 14,
            BoardSize::X1515 => 15,
        }
    }

    /// The board that has `count` cells, if one of the supported boards has.
    pub open spec fn spec_from_cell_count(count: nat) -> Option<BoardSize> {
        if count == 9 {
            Some(BoardSize::X33)
        } else if count == 16 {
            Some(BoardSize::X44)
        } else if count == 25 {
            Some(BoardSize::X55)
        } else if count == 36 {
            Some(BoardSize::X66)
        } else if count == 49 {
            Some(BoardSize::X77)
        } else if count == 64 {
            Some(BoardSize::X88)
        } else if count == 81 {
            Some(BoardSize::X99)
        } else if count == 100 {
            Some(BoardSize::X1010)
        } else if count == 121 {
            Some(BoardSize::X1111)
        } else if count == 144 {
            Some(BoardSize::X1212)
        } else if count == 169 {
            Some(BoardSize::X1313)
        } else if count == 196 {
            Some(BoardSize::X1414)
        } else if count == 225 {
            Some(BoardSize::X1515)
        } else {
            None
        }
    }

    /// The board that has `count` cells, if one of the supported boards has.
    pub fn from_cell_count(count: usize) -> (r: Option<BoardSize>)
        ensures
            r == Self::spec_from_cell_count(count as nat),
    {
        if count == 9 {
            Some(BoardSize::X33)
        } else if count == 16 {
            Some(BoardSize::X44)
        } else if count == 25 {
            Some(BoardSize::X55)
        } else if count == 36 {
            Some(BoardSize::X66)
        } else if count == 49 {
            Some(BoardSize::X77)
        } else if count == 64 {
            Some(BoardSize::X88)
        } else if count == 81 {
            Some(BoardSize::X99)
        } else if count == 100 {
            Some(BoardSize::X1010)
        } else if count == 121 {
            Some(BoardSize::X1111)
        } else if count == 144 {
            Some(BoardSize::X1212)
        } else if count == 169 {
            Some(BoardSize::X1313)
        } else if count == 196 {
            Some(BoardSize::X1414)
        } else if count == 225 {
            Some(BoardSize::X1515)
        } else {
            None
        }
    }

    /// Number of cells of this board.
    pub open spec fn spec_cell_count(self) -> nat {
        (self.spec_side() * self.spec_side()) as nat
    }

    /// The board found for a number of cells is the one that has so many
    /// cells, and none is found only where no supported board has.
    pub proof fn lemma_from_cell_count(count: nat)
        ensures
            Self::spec_from_cell_count(count) matches Some(size) ==> size.spec_cell_count()
                == count,
            Self::spec_from_cell_count(count) is None ==> forall|size: BoardSize|
                #[trigger] size.spec_cell_count() != count,
    {
        if Self::spec_from_cell_count(count) is None {
            assert forall|size: BoardSize| #[trigger] size.spec_cell_count() != count by {
                Self::lemma_cell_counts(size);
            }
        } else {
            Self::lemma_cell_counts(Self::spec_from_cell_count(count).unwrap());
        }
    }

    /// The number of cells of each board, and the board found for it.
    pub proof fn lemma_cell_counts(size: BoardSize)
        ensures
            Self::spec_from_cell_count(size.spec_cell_count()) == Some(size),
            9 <= size.spec_cell_count() <= 225,
    {
        let k = size.spec_side() as int;
        assert(k * k == size.spec_cell_count());
        match size {
            BoardSize::X33 => {
                assert(k * k == 9) by (nonlinear_arith)
                    requires
                        k == 3,
                ;
            },
            BoardSize::X44 => {
                assert(k * k == 16) by (nonlinear_arith)
                    requires
                        k == 4,
                ;
            },
            BoardSize::X55 => {
                assert(k * k == 25) by (nonlinear_arith)
                    requires
                        k == 5,
                ;
            },
            BoardSize::X66 => {
                assert(k * k == 36) by (nonlinear_arith)
                    requires
                        k == 6,
                ;
            },
            BoardSize::X77 => {
                assert(k * k == 49) by (nonlinear_arith)
                    requires
                        k == 7,
                ;
            },
            BoardSize::X88 => {
                assert(k * k == 64) by (nonlinear_arith)
                    requires
                        k == 8,
                ;
            },
            BoardSize::X99 => {
                assert(k * k == 81) by (nonlinear_arith)
                    requires
                        k == 9,
                ;
            },
            BoardSize::X1010 => {
                assert(k * k == 100) by (nonlinear_arith)
                    requires
                        k == 10,
                ;
            },
            BoardSize::X1111 => {
                assert(k * k == 121) by (nonlinear_arith)
                    requires
                        k == 11,
                ;
            },
            BoardSize::X1212 => {
                assert(k * k == 144) by (nonlinear_arith)
                    requires
                        k == 12,
                ;
            },
            BoardSize::X1313 => {
                assert(k * k == 169) by (nonlinear_arith)
                    requires
                        k == 13,
                ;
            },
            BoardSize::X1414 => {
                assert(k * k == 196) by (nonlinear_arith)
                    requires
                        k == 14,
                ;
            },
            BoardSize::X1515 => {
                assert(k * k == 225) by (nonlinear_arith)
                    requires
                        k == 15,
                ;
            },
        }
    }

    /// Smallest run length that may be asked for on this board.
    pub open spec fn spec_to_win_min(self) -> u8 {
        match self {
            BoardSize::X33 => X33_CELLS_TO_WIN_MIN,
            BoardSize::X44 => X44_CELLS_TO_WIN_MIN,
            BoardSize::X55 => X55_CELLS_TO_WIN_MIN,
            BoardSize::X66 => X66_CELLS_TO_WIN_MIN,
            BoardSize::X77 => X77_CELLS_TO_WIN_MIN,
            BoardSize::X88 => X88_CELLS_TO_WIN_MIN,
            BoardSize::X99 => X99_CELLS_TO_WIN_MIN,
            BoardSize::X1010 => X1010_CELLS_TO_WIN_MIN,
            BoardSize::X1111 => X1111_CELLS_TO_WIN_MIN,
            BoardSize::X1212 => X1212_CELLS_TO_WIN_MIN,
            BoardSize::X1313 => X1313_CELLS_TO_WIN_MIN,
            BoardSize::X1414 => X1414_CELLS_TO_WIN_MIN,
            BoardSize::X1515 => X1515_CELLS_TO_WIN_MIN,
        }
    }

    /// Smallest run length that may be asked for on this board.
    #[verifier::when_used_as_spec(spec_to_win_min)]
    pub fn to_win_min(self) -> (r: u8)
        ensures
            r == self.spec_to_win_min(),
            3 <= r <= self.spec_side(),
    {
        match self {
            BoardSize::X33 => X33_CELLS_TO_WIN_MIN,
            BoardSize::X44 => X44_CELLS_TO_WIN_MIN,
            BoardSize::X55 => X55_CELLS_TO_WIN_MIN,
            BoardSize::X66 => X66_CELLS_TO_WIN_MIN,
            BoardSize::X77 => X77_CELLS_TO_WIN_MIN,
            BoardSize::X88 => X88_CELLS_TO_WIN_MIN,
            BoardSize::X99 => X99_CELLS_TO_WIN_MIN,
            BoardSize::X1010 => X1010_CELLS_TO_WIN_MIN,
            BoardSize::X1111 => X1111_CELLS_TO_WIN_MIN,
            BoardSize::X1212 => X1212_CELLS_TO_WIN_MIN,
            BoardSize::X1313 => X1313_CELLS_TO_WIN_MIN,
            BoardSize::X1414 => X1414_CELLS_TO_WIN_MIN,
            BoardSize::X1515 => X1515_CELLS_TO_WIN_MIN,
        }
    }

    /// Largest run length that may be asked for on this board.
    pub open spec fn spec_to_win_max(self) -> u8 {
        match self {
            BoardSize::X33 => X33_CELLS_TO_WIN_MAX,
            BoardSize::X44 => X44_CELLS_TO_WIN_MAX,
            BoardSize::X55 => X55_CELLS_TO_WIN_MAX,
            BoardSize::X66 => X66_CELLS_TO_WIN_MAX,
            BoardSize::X77 => X77_CELLS_TO_WIN_MAX,
            BoardSize::X88 => X88_CELLS_TO_WIN_MAX,
            BoardSize::X99 => X99_CELLS_TO_WIN_MAX,
            BoardSize::X1010 => X1010_CELLS_TO_WIN_MAX,
            BoardSize::X1111 => X1111_CELLS_TO_WIN_MAX,
            BoardSize::X1212 => X1212_CELLS_TO_WIN_MAX,
            BoardSize::X1313 => X1313_CELLS_TO_WIN_MAX,
            BoardSize::X1414 => X1414_CELLS_TO_WIN_MAX,
            BoardSize::X1515 => X1515_CELLS_TO_WIN_MAX,
        }
    }

    /// Largest run length that may be asked for on this board.
    #[verifier::when_used_as_spec(spec_to_win_max)]
    pub fn to_win_max(self) -> (r: u8)
        ensures
            r == self.spec_to_win_max(),
            self.spec_to_win_min() <= r <= self.spec_side(),
    {
        match self {
            BoardSize::X33 => X33_CELLS_TO_WIN_MAX,
            BoardSize::X44 => X44_CELLS_TO_WIN_MAX,
            BoardSize::X55 => X55_CELLS_TO_WIN_MAX,
            BoardSize::X66 => X66_CELLS_TO_WIN_MAX,
            BoardSize::X77 => X77_CELLS_TO_WIN_MAX,
            BoardSize::X88 => X88_CELLS_TO_WIN_MAX,
            BoardSize::X99 => X99_CELLS_TO_WIN_MAX,
            BoardSize::X1010 => X1010_CELLS_TO_WIN_MAX,
            BoardSize::X1111 => X1111_CELLS_TO_WIN_MAX,
            BoardSize::X1212 => X1212_CELLS_TO_WIN_MAX,
            BoardSize::X1313 => X1313_CELLS_TO_WIN_MAX,
            BoardSize::X1414 => X1414_CELLS_TO_WIN_MAX,
            BoardSize::X1515 => X1515_CELLS_TO_WIN_MAX,
        }
    }

    /// Search depth bound of this board on the given level.
    pub open spec fn spec_max_depth(self, level: Level) -> u8 {
        match level {
            Level::Easy => match self {
                BoardSize::X33 => X33_EASY_MAX_DEPTH,
                BoardSize::X44 => X44_EASY_MAX_DEPTH,
                BoardSize::X55 => X55_EASY_MAX_DEPTH,
                BoardSize::X66 => X66_EASY_MAX_DEPTH,
                BoardSize::X77 => X77_EASY_MAX_DEPTH,
                BoardSize::X88 => X88_EASY_MAX_DEPTH,
                BoardSize::X99 => X99_EASY_MAX_DEPTH,
                BoardSize::X1010 => X1010_EASY_MAX_DEPTH,
                BoardSize::X1111 => X1111_EASY_MAX_DEPTH,
                BoardSize::X1212 => X1212_EASY_MAX_DEPTH,
                BoardSize::X1313 => X1313_EASY_MAX_DEPTH,
                BoardSize::X1414 => X1414_EASY_MAX_DEPTH,
                BoardSize::X1515 => X1515_EASY_MAX_DEPTH,
            },
            Level::Normal => match self {
                BoardSize::X33 => X33_MAX_DEPTH,
                BoardSize::X44 => X44_MAX_DEPTH,
                BoardSize::X55 => X55_MAX_DEPTH,
                BoardSize::X66 => X66_MAX_DEPTH,
                BoardSize::X77 => X77_MAX_DEPTH,
                BoardSize::X88 => X88_MAX_DEPTH,
                BoardSize::X99 => X99_MAX_DEPTH,
                BoardSize::X1010 => X1010_MAX_DEPTH,
                BoardSize::X1111 => X1111_MAX_DEPTH,
                BoardSize::X1212 => X1212_MAX_DEPTH,
                BoardSize::X1313 => X1313_MAX_DEPTH,
                BoardSize::X1414 => X1414_MAX_DEPTH,
                BoardSize::X1515 => X1515_MAX_DEPTH,
            },
        }
    }

    /// Search depth bound of this board on the given level.
    pub fn max_depth(self, level: Level) -> (r: u8)
        ensures
            r == self.spec_max_depth(level),
            1 <= r <= 9,
    {
        match level {
            Level::Easy => match self {
                BoardSize::X33 => X33_EASY_MAX_DEPTH,
                BoardSize::X44 => X44_EASY_MAX_DEPTH,
                BoardSize::X55 => X55_EASY_MAX_DEPTH,
                BoardSize::X66 => X66_EASY_MAX_DEPTH,
                BoardSize::X77 => X77_EASY_MAX_DEPTH,
                BoardSize::X88 => X88_EASY_MAX_DEPTH,
                BoardSize::X99 => X99_EASY_MAX_DEPTH,
                BoardSize::X1010 => X1010_EASY_MAX_DEPTH,
                BoardSize::X1111 => X1111_EASY_MAX_DEPTH,
                BoardSize::X1212 => X1212_EASY_MAX_DEPTH,
                BoardSize::X1313 => X1313_EASY_MAX_DEPTH,
                BoardSize::X1414 => X1414_EASY_MAX_DEPTH,
                BoardSize::X1515 => X1515_EASY_MAX_DEPTH,
            },
            Level::Normal => match self {
                BoardSize::X33 => X33_MAX_DEPTH,
                BoardSize::X44 => X44_MAX_DEPTH,
                BoardSize::X55 => X55_MAX_DEPTH,
                BoardSize::X66 => X66_MAX_DEPTH,
                BoardSize::X77 => X77_MAX_DEPTH,
                BoardSize::X88 => X88_MAX_DEPTH,
                BoardSize::X99 => X99_MAX_DEPTH,
                BoardSize::X1010 => X1010_MAX_DEPTH,
                BoardSize::X1111 => X1111_MAX_DEPTH,
                BoardSize::X1212 => X1212_MAX_DEPTH,
                BoardSize::X1313 => X1313_MAX_DEPTH,
                BoardSize::X1414 => X1414_MAX_DEPTH,
                BoardSize::X1515 => X1515_MAX_DEPTH,
            },
        }
    }
}

/// What a valid board fixes for the whole game.
pub struct BoardParams {
    /// The board's size class.
    pub size: BoardSize,
    /// Side of the board: the distance between a cell and the one below it.
    pub offset: usize,
    /// Run length that wins.
    pub to_win: usize,
    /// Search depth bound.
    pub max_depth: usize,
}

/// Why a board was rejected.
#[derive(Clone, Copy, Debug, PartialEq, Eq, Structural)]
pub enum GameInitError {
    /// The number of cells is not that of a supported board.
    Size,
    /// Two marks are equal, or a cell holds none of the three marks.
    Marks,
    /// The counts of the players' marks do not fit a game in which player 1
    /// opened and the bot is to move.
    Inconsistent,
    /// The run length is outside the bounds of the board's size.
    CellsToWin,
}

impl BoardParams {
    /// The three marks differ pairwise.
    pub open spec fn marks_distinct(board: &Board) -> bool {
        board.p1_mark != board.bot_mark && board.p1_mark != board.empty_mark && board.bot_mark
            != board.empty_mark
    }

    /// Every cell holds one of the three marks.
    pub open spec fn cells_marked(board: &Board) -> bool {
        forall|i: int|
            0 <= i < board.cells@.len() ==> {
                let cell = #[trigger] board.cells@[i];
                cell == board.p1_mark || cell == board.bot_mark || cell == board.empty_mark
            }
    }

    /// Player 1 has placed as many marks as the bot, or one more.
    pub open spec fn turn_consistent(board: &Board) -> bool {
        let p1 = count_mark(board.cells@, board.p1_mark);
        let bot = count_mark(board.cells@, board.bot_mark);
        bot <= p1 <= bot + 1
    }

    /// What the marks and their counts allow: nothing to object to, or the
    /// first of the three checks that fails.
    pub open spec fn spec_board_inconsistent(board: &Board) -> Result<(), GameInitError> {
        if !Self::marks_distinct(board) {
            Err(GameInitError::Marks)
        } else if !Self::cells_marked(board) {
            Err(GameInitError::Marks)
        } else if !Self::turn_consistent(board) {
            Err(GameInitError::Inconsistent)
        } else {
            Ok(())
        }
    }

    /// The parameters of a board of the given size, or `CellsToWin` where the
    /// run length is outside the size's bounds.
    pub open spec fn spec_init(board_size: BoardSize, level: Level, cells_to_win: u8) -> Result<
        BoardParams,
        GameInitError,
    > {
        if board_size.spec_to_win_min() <= cells_to_win <= board_size.spec_to_win_max() {
            Ok(
                BoardParams {
                    size: board_size,
                    offset: board_size.spec_side(),
                    to_win: cells_to_win as usize,
                    max_depth: board_size.spec_max_depth(level) as usize,
                },
            )
        } else {
            Err(GameInitError::CellsToWin)
        }
    }

    /// The classification of a board: its parameters, or the first check
    /// that fails, in the order marks, cells, counts, size, run length.
    pub open spec fn spec_new(board: &Board, level: Level) -> Result<BoardParams, GameInitError> {
        match Self::spec_board_inconsistent(board) {
            Err(e) => Err(e),
            Ok(_) => match BoardSize::spec_from_cell_count(board.cells@.len()) {
                None => Err(GameInitError::Size),
                Some(size) => Self::spec_init(size, level, board.cells_to_win),
            },
        }
    }

    /// Validates a board and classifies it by size.
    pub fn new(board: &Board, level: Level) -> (r: Result<BoardParams, GameInitError>)
        ensures
            r == Self::spec_new(board, level),
    {
        match Self::board_inconsistent(board) {
            Err(e) => {
                return Err(e);
            },
            Ok(_) => {},
        }
        match BoardSize::from_cell_count(board.cells.len()) {
            None => Err(GameInitError::Size),
            Some(size) => Self::init(size, level, board.cells_to_win),
        }
    }

    /// Looks up the parameters of a board of the given size.
    pub fn init(board_size: BoardSize, level: Level, cells_to_win: u8) -> (r: Result<
        BoardParams,
        GameInitError,
    >)
        ensures
            r == Self::spec_init(board_size, level, cells_to_win),
    {
        if board_size.to_win_min() <= cells_to_win && cells_to_win <= board_size.to_win_max() {
            Ok(
                BoardParams {
                    size: board_size,
                    offset: board_size.side(),
                    to_win: cells_to_win as usize,
                    max_depth: board_size.max_depth(level) as usize,
                },
            )
        } else {
            Err(GameInitError::CellsToWin)
        }
    }

    /// Checks the marks, the cells and the counts of the players' marks.
    pub fn board_inconsistent(board: &Board) -> (r: Result<(), GameInitError>)
        ensures
            r == Self::spec_board_inconsistent(board),
    {
        if board.p1_mark == board.bot_mark || board.p1_mark == board.empty_mark || board.bot_mark
            == board.empty_mark {
            return Err(GameInitError::Marks);
        }
        let n: usize = board.cells.len();
        let mut p1_marks: usize = 0;
        let mut bot_marks: usize = 0;
        let mut unmarked: bool = false;
        let mut i: usize = 0;
        while i < n
            invariant
                n == board.cells@.len(),
                0 <= i <= n,
                Self::marks_distinct(board),
                p1_marks == count_mark(board.cells@.take(i as int), board.p1_mark),
                bot_marks == count_mark(board.cells@.take(i as int), board.bot_mark),
                p1_marks <= i,
                bot_marks <= i,
                unmarked <==> exists|j: int|
                    0 <= j < i && {
                        let cell = #[trigger] board.cells@[j];
                        cell != board.p1_mark && cell != board.bot_mark && cell
                            != board.empty_mark
                    },
            decreases n - i,
        {
            let cell: i8 = board.cells[i];
            proof {
                lemma_count_step(board.cells@, board.p1_mark, i as int);
                lemma_count_step(board.cells@, board.bot_mark, i as int);
            }
            if cell == board.p1_mark {
                p1_marks = p1_marks + 1;
            } else if cell == board.bot_mark {
                bot_marks = bot_marks + 1;
            } else if cell != board.empty_mark {
                unmarked = true;
            }
            i = i + 1;
        }
        proof {
            assert(board.cells@.take(n as int) =~= board.cells@);
        }
        if unmarked {
            return Err(GameInitError::Marks);
        }
        if bot_marks > p1_marks || p1_marks - bot_marks > 1 {
            return Err(GameInitError::Inconsistent);
        }
        Ok(())
    }
}

} // verus!
