//! The computer player: opening moves, the search for the best cell, and
//! the verdict on the game after the bot's move.

use vstd::prelude::*;
use crate::cells::{first_at, lemma_count_bound, lemma_count_zero};
use crate::conf::BoardSize;
use crate::first_move::FirstMove;
use crate::game::Game;
use crate::grid::{Grid, BOT_MARK, EMPTY_MARK, P1_MARK, WINNER_VALUE};
use crate::models::{BotMove, Level};
use crate::random::{below, lemma_same_elements, shuffle};
use crate::search::{bounded_by, no_move_value};

verus! {

/// On the easy level the bot draws a number below this one before it
/// searches.
pub const EASY_LEVEL_ROLL_BOUND: u8 = 100;

/// On the easy level the bot plays a random cell, without any search,
/// whenever the number drawn reaches this one: in a third of the rounds.
pub const EASY_LEVEL_RANDOM_MOVE_THRESHOLD: u8 = 67;

/// The computer player. `Bot::next_move` plays one round of a game.
pub struct Bot;

impl Bot {
    /// A winner's mark in the caller's own marks.
    pub open spec fn spec_renormalize_winner_marker(game: &Game, winner: i8) -> i8 {
        if winner == game.empty_mark {
            game.orig_empty_mark
        } else if winner == game.p1_mark {
            game.orig_p1_mark
        } else {
            game.orig_bot_mark
        }
    }

    /// The game is over: it is won, or no cell is free.
    pub open spec fn spec_game_over(grid: Grid) -> bool {
        grid.winner() != EMPTY_MARK || grid.empty_count() == 0
    }

    /// What the bot answers once it has settled on a cell, or on none.
    ///
    /// With a cell, the bot's mark goes there, and the answer says whether
    /// that move ended the game and who has won. With none, the game was
    /// over before the move, and the answer names the winner.
    pub open spec fn spec_complete_bot_move(game: &Game, best_next_move: Option<usize>) -> BotMove {
        match best_next_move {
            Some(best_move) => {
                let after = game@.place(best_move as int, game.bot_mark);
                BotMove {
                    next: best_move as u8,
                    next_is_valid: true,
                    game_over: Self::spec_game_over(after),
                    winner: Self::spec_renormalize_winner_marker(game, after.winner()),
                }
            },
            None => BotMove {
                next: u8::MAX,
                next_is_valid: false,
                game_over: true,
                winner: Self::spec_renormalize_winner_marker(game, game@.winner()),
            },
        }
    }

    /// What a search of the position with the bounds `alpha` and `beta`
    /// may return as value and as best cell.
    ///
    /// Where the search stops at once, the value is the worth of the
    /// position and there is no cell. Otherwise a cell, if there is one, is
    /// one that may be taken; there is none exactly where the value is still
    /// the one from which the player started; the value tells of the
    /// minimax value what the bounds allow; and a value strictly between the
    /// bounds is the minimax value of the position after the returned cell.
    pub open spec fn search_outcome(
        grid: Grid,
        player: i8,
        depth: int,
        alpha: int,
        beta: int,
        maximize: bool,
        value: int,
        best: Option<usize>,
    ) -> bool {
        if grid.is_leaf(depth) {
            value == grid.leaf_value(depth) && best is None
        } else {
            &&& best matches Some(cell) ==> grid.is_candidate(cell as int)
            &&& best is None <==> value == no_move_value(maximize)
            &&& alpha < beta ==> bounded_by(
                grid.search_value(player, depth, maximize),
                alpha,
                beta,
                value,
            )
            &&& alpha < value < beta ==> best is Some && grid.child_value(
                best.unwrap() as int,
                player,
                depth,
                maximize,
            ) == value
        }
    }

    /// A winner's mark in the caller's own marks.
    pub fn renormalize_winner_marker(game: &Game, winner: i8) -> (mark: i8)
        ensures
            mark == Self::spec_renormalize_winner_marker(game, winner),
    {
        if winner == game.empty_mark {
            game.orig_empty_mark
        } else if winner == game.p1_mark {
            game.orig_p1_mark
        } else {
            game.orig_bot_mark
        }
    }

    /// Places the bot's mark at the chosen cell, if there is one, and says
    /// how the game stands then.
    pub fn complete_bot_move(game: Game, best_next_move: Option<usize>) -> (bot_move: BotMove)
        requires
            game.wf(),
            best_next_move matches Some(best_move) ==> best_move < game.cells@.len(),
        ensures
            bot_move == Self::spec_complete_bot_move(&game, best_next_move),
    {
        let mut game = game;
        match best_next_move {
            Some(best_move) => {
                proof {
                    game@.lemma_cell_count();
                }
                game.cells[best_move] = game.bot_mark;

                let winner: i8 = game.winner();
                let game_over: bool = winner != game.empty_mark || game.empty_cell_count() == 0;
                let winner_orig: i8 = Self::renormalize_winner_marker(&game, winner);

                BotMove {
                    next: best_move as u8,
                    next_is_valid: true,
                    game_over,
                    winner: winner_orig,
                }
            },
            None => {
                let winner: i8 = game.winner();
                BotMove {
                    next: u8::MAX,
                    next_is_valid: false,
                    game_over: true,
                    winner: Self::renormalize_winner_marker(&game, winner),
                }
            },
        }
    }

    /// Searches the position for the best cell for `player`, `depth` plies
    /// deep, between the bounds `alpha` and `beta`. Returns the value found
    /// and the cell that gave it. The board is left as it was.
    pub fn minimax(
        game: &mut Game,
        player: i8,
        depth: i32,
        alpha: i32,
        beta: i32,
        maximize: bool,
    ) -> (found: (i32, Option<usize>))
        requires
            old(game).wf(),
            player == P1_MARK || player == BOT_MARK,
            Game::depth_in_range(depth as int),
        ensures
            final(game).same_as(old(game)),
            Self::search_outcome(
                old(game)@,
                player,
                depth as int,
                alpha as int,
                beta as int,
                maximize,
                found.0 as int,
                found.1,
            ),
        decreases depth, 1int,
    {
        let winner: i8 = game.winner();

        if winner != game.empty_mark || depth <= 0 || game.empty_cell_count() == 0 {
            return (game.heuristic_game_value(winner, depth), None);
        }
        let empty_cells: Vec<usize> = game.empty_cell_indices();

        Self::search_cells(game, &empty_cells, player, depth, alpha, beta, maximize)
    }

    /// The returned cell is the first of the listed cells after which the
    /// position has the value found: every cell listed before it leaves a
    /// position of a worse value.
    pub open spec fn first_best(
        grid: Grid,
        cells: Seq<usize>,
        player: i8,
        depth: int,
        maximize: bool,
        value: int,
        best: Option<usize>,
    ) -> bool {
        exists|j: int|
            {
                &&& 0 <= j < cells.len()
                &&& best == Some(#[trigger] cells[j])
                &&& grid.child_value(cells[j] as int, player, depth, maximize) == value
                &&& forall|q: int|
                    0 <= q < j ==> if maximize {
                        grid.child_value(#[trigger] cells[q] as int, player, depth, maximize)
                            < value
                    } else {
                        grid.child_value(cells[q] as int, player, depth, maximize) > value
                    }
            }
    }

    /// Tries the listed cells for `player` one after the other, each with a
    /// search of the position after it, and returns the best value found
    /// and the first cell that gave it. It stops as soon as the bounds meet.
    /// The board is left as it was.
    ///
    /// `cells` lists the cells that the search may take. Their order
    /// decides between cells of equal value: a value strictly between the
    /// bounds belongs to the first listed cell that reaches it.
    pub fn search_cells(
        game: &mut Game,
        cells: &Vec<usize>,
        player: i8,
        depth: i32,
        alpha: i32,
        beta: i32,
        maximize: bool,
    ) -> (found: (i32, Option<usize>))
        requires
            old(game).wf(),
            player == P1_MARK || player == BOT_MARK,
            Game::depth_in_range(depth as int),
            !old(game)@.is_leaf(depth as int),
            forall|c: usize| cells@.contains(c) <==> old(game)@.is_candidate(c as int),
        ensures
            final(game).same_as(old(game)),
            Self::search_outcome(
                old(game)@,
                player,
                depth as int,
                alpha as int,
                beta as int,
                maximize,
                found.0 as int,
                found.1,
            ),
            alpha < found.0 < beta ==> Self::first_best(
                old(game)@,
                cells@,
                player,
                depth as int,
                maximize,
                found.0 as int,
                found.1,
            ),
        decreases depth, 0int,
    {
        let ghost grid = game@;
        let mut best_entry: Option<usize> = None;
        let ghost mut best_at: int = 0;
        let mut best_value: i32 = if maximize {
            i32::MIN
        } else {
            i32::MAX
        };
        let mut lo: i32 = alpha;
        let mut hi: i32 = beta;

        let n: usize = cells.len();
        let mut i: usize = 0;
        let mut cut: bool = false;

        while i < n && !cut
            invariant
                game.wf(),
                game.same_as(old(game)),
                grid == old(game)@,
                !grid.is_leaf(depth as int),
                player == P1_MARK || player == BOT_MARK,
                Game::depth_in_range(depth as int),
                n == cells@.len(),
                0 <= i <= n,
                forall|c: usize| cells@.contains(c) <==> grid.is_candidate(c as int),
                best_entry matches Some(cell) ==> grid.is_candidate(cell as int) && 0 <= best_at
                    < i && cells@[best_at] == cell,
                best_entry is None <==> best_value == no_move_value(maximize),
                maximize ==> hi == beta && lo == if best_value > alpha {
                    best_value
                } else {
                    alpha
                },
                !maximize ==> lo == alpha && hi == if best_value < beta {
                    best_value
                } else {
                    beta
                },
                alpha < beta && !cut ==> lo < hi,
                alpha < beta && !cut && maximize ==> forall|j: int|
                    0 <= j < i ==> grid.child_value(
                        #[trigger] cells@[j] as int,
                        player,
                        depth as int,
                        maximize,
                    ) <= best_value,
                alpha < beta && !cut && !maximize ==> forall|j: int|
                    0 <= j < i ==> grid.child_value(
                        #[trigger] cells@[j] as int,
                        player,
                        depth as int,
                        maximize,
                    ) >= best_value,
                alpha < beta && !cut && alpha < best_value < beta ==> best_entry is Some
                    && grid.child_value(
                    best_entry.unwrap() as int,
                    player,
                    depth as int,
                    maximize,
                ) == best_value,
                alpha < beta && !cut && alpha < best_value < beta && maximize ==> forall|q: int|
                    0 <= q < best_at ==> grid.child_value(
                        #[trigger] cells@[q] as int,
                        player,
                        depth as int,
                        maximize,
                    ) < best_value,
                alpha < beta && !cut && alpha < best_value < beta && !maximize ==> forall|q: int|
                    0 <= q < best_at ==> grid.child_value(
                        #[trigger] cells@[q] as int,
                        player,
                        depth as int,
                        maximize,
                    ) > best_value,
                alpha < beta && cut && maximize ==> best_value >= beta && best_entry is Some
                    && grid.child_value(
                    best_entry.unwrap() as int,
                    player,
                    depth as int,
                    maximize,
                ) >= best_value,
                alpha < beta && cut && !maximize ==> best_value <= alpha && best_entry is Some
                    && grid.child_value(
                    best_entry.unwrap() as int,
                    player,
                    depth as int,
                    maximize,
                ) <= best_value,
            decreases n - i, if cut { 0int } else { 1int },
        {
            let empty_cell: usize = cells[i];
            proof {
                assert(cells@[i as int] == empty_cell);
                assert(cells@.contains(empty_cell));
                assert(grid.is_candidate(empty_cell as int));
                grid.lemma_place_wf(empty_cell as int, player);
            }
            game.cells[empty_cell] = player;

            let next_player: i8 = if player == game.bot_mark {
                game.p1_mark
            } else {
                game.bot_mark
            };
            let ghost child = grid.place(empty_cell as int, player);
            let ghost exact = grid.child_value(empty_cell as int, player, depth as int, maximize);
            proof {
                assert(game@ == child);
                assert(exact == child.search_value(next_player, depth - 1, !maximize));
            }

            if maximize {
                let (value, _) = Self::minimax(game, next_player, depth - 1, lo, hi, false);
                proof {
                    assert(lo < hi ==> bounded_by(exact, lo as int, hi as int, value as int));
                }
                if value > best_value {
                    best_value = value;
                    best_entry = Some(empty_cell);
                    proof {
                        best_at = i as int;
                    }
                }
                game.cells[empty_cell] = game.empty_mark;

                lo = if lo > best_value {
                    lo
                } else {
                    best_value
                };
                if hi <= lo {
                    cut = true;
                }
            } else {
                let (value, _) = Self::minimax(game, next_player, depth - 1, lo, hi, true);
                proof {
                    assert(lo < hi ==> bounded_by(exact, lo as int, hi as int, value as int));
                }
                if value < best_value {
                    best_value = value;
                    best_entry = Some(empty_cell);
                    proof {
                        best_at = i as int;
                    }
                }
                game.cells[empty_cell] = game.empty_mark;

                hi = if hi < best_value {
                    hi
                } else {
                    best_value
                };
                if hi <= lo {
                    cut = true;
                }
            }
            proof {
                assert(game.cells@ =~= old(game).cells@);
            }
            i = i + 1;
        }
        proof {
            Self::lemma_search_found(
                grid,
                player,
                depth as int,
                alpha as int,
                beta as int,
                maximize,
                cells@,
                cut,
                best_value as int,
                best_entry,
            );
            if alpha < best_value && best_value < beta {
                assert(!cut);
                assert(best_entry == Some(cells@[best_at]));
            }
        }
        (best_value, best_entry)
    }

    /// What the search has gathered once it has tried every cell, or has
    /// stopped because the bounds met, is an outcome of the search.
    proof fn lemma_search_found(
        grid: Grid,
        player: i8,
        depth: int,
        alpha: int,
        beta: int,
        maximize: bool,
        cells: Seq<usize>,
        cut: bool,
        value: int,
        best: Option<usize>,
    )
        requires
            grid.wf(),
            !grid.is_leaf(depth),
            i32::MIN <= value <= i32::MAX,
            forall|c: usize| cells.contains(c) <==> grid.is_candidate(c as int),
            best matches Some(cell) ==> grid.is_candidate(cell as int),
            best is None <==> value == no_move_value(maximize),
            alpha < beta && !cut && maximize ==> value < beta && forall|j: int|
                0 <= j < cells.len() ==> grid.child_value(
                    #[trigger] cells[j] as int,
                    player,
                    depth,
                    maximize,
                ) <= value,
            alpha < beta && !cut && !maximize ==> value > alpha && forall|j: int|
                0 <= j < cells.len() ==> grid.child_value(
                    #[trigger] cells[j] as int,
                    player,
                    depth,
                    maximize,
                ) >= value,
            alpha < beta && !cut && alpha < value < beta ==> best is Some && grid.child_value(
                best.unwrap() as int,
                player,
                depth,
                maximize,
            ) == value,
            alpha < beta && cut && maximize ==> value >= beta && best is Some && grid.child_value(
                best.unwrap() as int,
                player,
                depth,
                maximize,
            ) >= value,
            alpha < beta && cut && !maximize ==> value <= alpha && best is Some
                && grid.child_value(best.unwrap() as int, player, depth, maximize) <= value,
        ensures
            Self::search_outcome(grid, player, depth, alpha, beta, maximize, value, best),
    {
        let len = grid.cells.len() as int;
        let exact = grid.search_value(player, depth, maximize);
        grid.lemma_cell_count();
        assert(exact == grid.best_among(player, depth, maximize, len));
        if best is Some {
            let cell = best.unwrap() as int;
            grid.lemma_best_covers(player, depth, maximize, len, cell);
        }
        if alpha < beta && !cut {
            if maximize {
                assert forall|c: int|
                    0 <= c < len && grid.is_candidate(c) implies #[trigger] grid.child_value(
                    c,
                    player,
                    depth,
                    maximize,
                ) <= value by {
                    assert(cells.contains(c as usize));
                    let j = choose|j: int| 0 <= j < cells.len() && cells[j] == c as usize;
                    assert(grid.child_value(cells[j] as int, player, depth, maximize) <= value);
                }
            } else {
                assert forall|c: int|
                    0 <= c < len && grid.is_candidate(c) implies #[trigger] grid.child_value(
                    c,
                    player,
                    depth,
                    maximize,
                ) >= value by {
                    assert(cells.contains(c as usize));
                    let j = choose|j: int| 0 <= j < cells.len() && cells[j] == c as usize;
                    assert(grid.child_value(cells[j] as int, player, depth, maximize) >= value);
                }
            }
            grid.lemma_best_within(player, depth, maximize, len, value);
        }
    }
}

impl Bot {
    /// The cell that an answer names, if it names one.
    pub open spec fn taken(bot_move: BotMove) -> Option<usize> {
        if bot_move.next_is_valid {
            Some(bot_move.next as usize)
        } else {
            None
        }
    }

    /// The answer opens or continues the game at the cell `next`: the move
    /// is valid, the game goes on, and nobody has won.
    pub open spec fn is_opening(game: &Game, bot_move: BotMove) -> bool {
        &&& bot_move.next_is_valid
        &&& !bot_move.game_over
        &&& bot_move.winner == game.orig_empty_mark
    }

    /// Whether the number drawn on the easy level makes the bot play a
    /// random cell.
    pub fn skips_search(roll: u8) -> (skips: bool)
        ensures
            skips == (roll >= EASY_LEVEL_RANDOM_MOVE_THRESHOLD),
    {
        roll >= EASY_LEVEL_RANDOM_MOVE_THRESHOLD
    }

    /// The first move of a game: any cell of the board, each as likely as
    /// the others.
    fn play_game_first_move(game: Game, cells_count: usize) -> (bot_move: BotMove)
        requires
            0 < cells_count <= u8::MAX,
        ensures
            Self::is_opening(&game, bot_move),
            bot_move.next < cells_count,
    {
        BotMove {
            next: below(cells_count as u8),
            next_is_valid: true,
            game_over: false,
            winner: game.orig_empty_mark,
        }
    }

    /// The bot's reply from the opening book to player 1's first mark, on
    /// the board that has a book; nothing on other boards, or where player 1
    /// has no mark.
    pub fn play_bot_first_move_if_defined(game: &Game) -> (reply: Option<BotMove>)
        ensures
            reply is Some <==> game.board_size == BoardSize::X55 && exists|i: int|
                first_at(game.cells@, game.p1_mark, i),
            reply matches Some(bot_move) ==> Self::is_opening(game, bot_move) && exists|i: int|
                first_at(game.cells@, game.p1_mark, i) && FirstMove::spec_replies_5x5(
                    i as usize,
                ).contains(bot_move.next as usize),
    {
        let n: usize = game.cells.len();
        let mut p1_mark_pos: Option<usize> = None;
        let mut i: usize = 0;
        while i < n && p1_mark_pos.is_none()
            invariant
                n == game.cells@.len(),
                0 <= i <= n,
                p1_mark_pos is None ==> forall|j: int|
                    0 <= j < i ==> game.cells@[j] != game.p1_mark,
                p1_mark_pos matches Some(pos) ==> first_at(game.cells@, game.p1_mark, pos as int),
            decreases n - i, if p1_mark_pos is None { 1int } else { 0int },
        {
            if game.cells[i] == game.p1_mark {
                p1_mark_pos = Some(i);
            }
            i = i + 1;
        }
        let bot_next_pos: u8 = match (p1_mark_pos, game.board_size) {
            (Some(p1_idx), BoardSize::X55) => FirstMove::find_bot_first_move_5x5(p1_idx),
            _ => {
                proof {
                    if p1_mark_pos is None {
                        assert forall|i: int| !first_at(game.cells@, game.p1_mark, i) by {}
                    }
                }
                return None;
            },
        };
        Some(
            BotMove {
                next: bot_next_pos,
                next_is_valid: true,
                game_over: false,
                winner: game.orig_empty_mark,
            },
        )
    }

    /// A move without search: any of the cells that the search could take,
    /// each as likely as the others, or the verdict where the game is over.
    fn play_bot_random_move(game: Game) -> (bot_move: BotMove)
        requires
            game.wf(),
        ensures
            bot_move == Self::spec_complete_bot_move(&game, Self::taken(bot_move)),
            Self::taken(bot_move) matches Some(cell) ==> game@.is_candidate(cell as int),
            Self::taken(bot_move) is None <==> Self::spec_game_over(game@) || forall|i: int|
                !game@.is_candidate(i),
    {
        let mut game = game;
        let ghost grid = game@;
        let winner: i8 = game.winner();
        proof {
            game@.lemma_cell_count();
        }

        if winner != game.empty_mark || game.empty_cell_count() == 0 {
            return Self::complete_bot_move(game, None);
        }
        let mut empty_cells: Vec<usize> = game.empty_cell_indices();
        let ghost offered = empty_cells@;
        shuffle(&mut empty_cells);
        proof {
            lemma_same_elements(offered, empty_cells@);
        }
        if empty_cells.len() > 0 {
            let cell_idx: usize = empty_cells[0];
            proof {
                assert(empty_cells@.contains(cell_idx));
                assert(grid.is_candidate(cell_idx as int));
            }
            Self::complete_bot_move(game, Some(cell_idx))
        } else {
            proof {
                assert forall|i: int| !grid.is_candidate(i) by {
                    if grid.is_candidate(i) {
                        assert(offered.contains(i as usize));
                        assert(empty_cells@.contains(i as usize));
                    }
                }
            }
            Self::complete_bot_move(game, None)
        }
    }
}

impl Bot {
    /// The depth to which the bot searches a position: the depth bound of
    /// the game, but no deeper than there are free cells.
    pub open spec fn search_depth(game: &Game) -> int {
        if game@.empty_count() <= game.max_depth {
            game@.empty_count() as int
        } else {
            game.max_depth as int
        }
    }

    /// The bot opens the game, or answers player 1's first mark from the
    /// opening book.
    pub open spec fn plays_opening(game: &Game) -> bool {
        ||| game@.empty_count() == game.cells@.len()
        ||| game@.empty_count() == game.cells@.len() - 1 && game.board_size == BoardSize::X55
            && exists|i: int| first_at(game.cells@, game.p1_mark, i)
    }

    /// The cell is one that a full search of the game's position settles
    /// on: none where the search stops at once, else a cell after which the
    /// position has the minimax value of the position itself.
    pub open spec fn is_best_cell(game: &Game, cell: Option<usize>) -> bool {
        let depth = Self::search_depth(game);
        if game@.is_leaf(depth) {
            cell is None
        } else {
            cell is Some && game@.child_value(cell.unwrap() as int, BOT_MARK, depth, true)
                == game@.search_value(BOT_MARK, depth, true)
        }
    }

    /// Plays one round of the game: the bot's next move, or the verdict
    /// where the game is over.
    ///
    /// On a board without marks the bot takes any cell. On the board that
    /// has an opening book it answers player 1's first mark from the book.
    /// In every other position the answer is what follows from taking one of
    /// the cells that the search may take, or from taking none. It takes
    /// none where the game is over, and nowhere else, unless the game's
    /// depth bound is zero. On the normal level the cell is a best one: the
    /// position after it has the minimax value of the position before it.
    pub fn next_move(game: Game) -> (bot_move: BotMove)
        requires
            game.wf(),
        ensures
            game@.empty_count() == game.cells@.len() ==> Self::is_opening(&game, bot_move)
                && bot_move.next < game.cells@.len(),
            game@.empty_count() == game.cells@.len() - 1 && game.board_size == BoardSize::X55
                ==> forall|i: int|
                first_at(game.cells@, game.p1_mark, i) ==> Self::is_opening(&game, bot_move)
                    && FirstMove::spec_replies_5x5(i as usize).contains(bot_move.next as usize),
            !Self::plays_opening(&game) ==> {
                &&& bot_move == Self::spec_complete_bot_move(&game, Self::taken(bot_move))
                &&& Self::taken(bot_move) matches Some(cell) ==> game@.is_candidate(cell as int)
                &&& Self::spec_game_over(game@) ==> Self::taken(bot_move) is None
                &&& Self::taken(bot_move) is None ==> Self::spec_game_over(game@) || game.max_depth
                    == 0
                &&& game.level == Level::Normal ==> Self::is_searched_answer(&game, bot_move)
            },
    {
        let mut game = game;
        let ghost start = game;
        proof {
            game@.lemma_cell_count();
        }
        let cells_count: usize = game.cells.len();
        let empty_cells: usize = game.empty_cell_count();

        if empty_cells == cells_count {
            return Self::play_game_first_move(game, cells_count);
        }
        if empty_cells == cells_count - 1 {
            match Self::play_bot_first_move_if_defined(&game) {
                Some(bot_move) => {
                    proof {
                        let found = choose|i: int|
                            first_at(game.cells@, game.p1_mark, i) && FirstMove::spec_replies_5x5(
                                i as usize,
                            ).contains(bot_move.next as usize);
                        assert forall|i: int| first_at(game.cells@, game.p1_mark, i) implies i
                            == found by {
                            if i < found {
                            } else if found < i {
                            }
                        }
                    }
                    return bot_move;
                },
                None => {},
            }
        }
        proof {
            lemma_count_bound(game.cells@, EMPTY_MARK);
            if empty_cells > 0 {
                let offered = game@.lemma_candidate_exists();
            }
        }
        match game.level {
            Level::Easy => {
                if Self::skips_search(below(EASY_LEVEL_ROLL_BOUND)) {
                    return Self::play_bot_random_move(game);
                }
            },
            Level::Normal => {},
        }
        let init_depth: usize = if empty_cells < game.max_depth {
            empty_cells
        } else {
            game.max_depth
        };
        let first_player: i8 = game.bot_mark;

        let (value, best_move) = Self::minimax(
            &mut game,
            first_player,
            init_depth as i32,
            i32::MIN,
            i32::MAX,
            true,
        );
        proof {
            assert(game@ == start@);
            let depth = Self::search_depth(&start);
            assert(Self::search_outcome(
                start@,
                BOT_MARK,
                depth,
                i32::MIN as int,
                i32::MAX as int,
                true,
                value as int,
                best_move,
            ));
            if !start@.is_leaf(depth) {
                start@.lemma_search_value_bound(BOT_MARK, depth, true);
            }
            assert(Self::is_best_cell(&start, best_move));
        }
        let bot_move = Self::complete_bot_move(game, best_move);
        proof {
            assert(Self::taken(bot_move) == best_move);
            assert(bot_move == Self::spec_complete_bot_move(&start, best_move));
        }
        bot_move
    }
}

impl Bot {
    /// What `next_move` promises on the normal level of a position that it
    /// searches: the answer follows from taking a best cell, one that the
    /// search may take.
    pub open spec fn is_searched_answer(game: &Game, bot_move: BotMove) -> bool {
        &&& bot_move == Self::spec_complete_bot_move(game, Self::taken(bot_move))
        &&& Self::taken(bot_move) matches Some(cell) ==> game@.is_candidate(cell as int)
        &&& Self::is_best_cell(game, Self::taken(bot_move))
    }

    /// On the 3x3 board the bot never misses a win: where it can win at
    /// once, the searched answer takes a winning cell, ends the game and
    /// names the bot as the winner.
    pub proof fn lemma_takes_the_win(game: &Game, bot_move: BotMove, win: int)
        requires
            game.wf(),
            game.cells_offset == 3,
            game.max_depth >= 1,
            game@.winner() == EMPTY_MARK,
            game@.wins_at(win, BOT_MARK),
            Self::is_searched_answer(game, bot_move),
        ensures
            bot_move.next_is_valid,
            game@.wins_at(bot_move.next as int, BOT_MARK),
            bot_move.game_over,
            bot_move.winner == game.orig_bot_mark,
    {
        let depth = Self::search_depth(game);
        lemma_count_bound(game.cells@, EMPTY_MARK);
        lemma_count_zero(game.cells@, EMPTY_MARK);
        game@.lemma_cell_count();
        assert(!game@.is_leaf(depth));
        let best = Self::taken(bot_move).unwrap() as int;
        game@.lemma_small_board_win(depth, win, best);
    }

    /// Where player 1 threatens to win at once and the bot cannot, the
    /// searched answer leaves player 1 no cell at which to win at once,
    /// provided that the search looks two plies ahead and values the
    /// position above a loss at player 1's next move.
    pub proof fn lemma_blocks_the_threat(game: &Game, bot_move: BotMove, threat: int)
        requires
            game.wf(),
            game@.winner() == EMPTY_MARK,
            Self::search_depth(game) >= 2,
            forall|i: int| !game@.wins_at(i, BOT_MARK),
            game@.search_value(BOT_MARK, Self::search_depth(game), true) > -WINNER_VALUE * (
            Self::search_depth(game) - 1),
            Self::is_searched_answer(game, bot_move),
        ensures
            bot_move.next_is_valid,
            !game@.place(bot_move.next as int, BOT_MARK).wins_at(threat, P1_MARK),
    {
        let depth = Self::search_depth(game);
        game@.lemma_cell_count();
        assert(!game@.is_leaf(depth));
        let best = Self::taken(bot_move).unwrap() as int;
        game@.lemma_best_cell_blocks(depth, best, threat);
    }
}

} // verus!
