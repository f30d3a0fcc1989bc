//! Plain data exchanged with the caller.

use vstd::prelude::*;

verus! {

/// Snapshot of a k x k game as the caller sees it.
///
/// `cells` is row-major: the first k values are the first row, the next k the
/// second row, and so on. `cells_to_win` is the number of consecutive cells
/// of one player's mark that wins the game. The three marks must differ
/// pairwise, every cell must hold one of them, and `cells` must hold as many
/// `p1_mark` as `bot_mark` values, or one more: player 1 opens and the bot
/// is to move.
#[derive(Clone, Debug)]
pub struct Board {
    pub cells: Vec<i8>,
    pub cells_to_win: u8,
    pub p1_mark: i8,
    pub bot_mark: i8,
    pub empty_mark: i8,
}

/// Difficulty of a game.
///
/// On `Normal` the bot always searches to the full depth configured for the
/// board. On `Easy` it searches less deep and now and then plays a random
/// cell, so that player 1 can win.
#[derive(Clone, Copy, Debug, PartialEq, Eq, Structural)]
pub enum Level {
    Easy,
    Normal,
}

/// Carrier of the difficulty as a caller passes it beside the board.
#[derive(Clone, Debug)]
pub struct LevelQuery {
    pub level: Level,
}

/// The bot's next move and the status of the game after that move.
///
/// If `next_is_valid` holds, `next` is the row-major index of the cell that
/// the bot takes. If it does not, `next` is `u8::MAX` and `game_over` holds.
/// If `game_over` holds, `winner` is the mark of the winner in the caller's
/// own marks, or the caller's empty mark after a draw. If both flags hold,
/// the move `next` ends the game.
#[derive(Clone, Debug)]
pub struct BotMove {
    pub next: u8,
    pub next_is_valid: bool,
    pub game_over: bool,
    pub winner: i8,
}

} // verus!
