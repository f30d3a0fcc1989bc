use be::conf::{X1515_CELLS_TO_WIN_MAX, X55_CELLS_TO_WIN_MAX};
use be::grid::{ONE_TO_WIN_VALUE as ONE, TWO_TO_WIN_VALUE as TWO, WINNER_VALUE};
use be::{
    Board, BoardParams, BoardSize, Bot, BotMove, FirstMove, Game, GameInitError, Level,
    RefererGuard,
};

fn board_of(cells: Vec<i8>, cells_to_win: u8, p1_mark: i8, bot_mark: i8, empty_mark: i8) -> Board {
    Board {
        cells,
        cells_to_win,
        p1_mark,
        bot_mark,
        empty_mark,
    }
}

fn game_of(cells: &[i8], cells_to_win: u8, level: Level) -> Game {
    match Game::new(board_of(cells.to_vec(), cells_to_win, -1, 1, 0), level) {
        Ok(game) => game,
        Err(error_kind) => panic!("Game::new(): {:?}", error_kind),
    }
}

fn error_of(board: Board) -> GameInitError {
    match Game::new(board, Level::Normal) {
        Ok(_) => panic!("Game::new() returned Ok."),
        Err(error_kind) => error_kind,
    }
}

const SIDES: [usize; 13] = [3, 4, 5, 6, 7, 8, 9, 10, 11, 12, 13, 14, 15];

fn designed_run(side: usize) -> u8 {
    if side == 3 {
        3
    } else if side < 10 {
        4
    } else {
        5
    }
}

#[test]
fn cells_to_win_error() {
    assert_eq!(error_of(board_of(vec![0; 25], 3, -1, 1, 0)), GameInitError::CellsToWin);
    assert_eq!(
        error_of(board_of(vec![0; 25], X55_CELLS_TO_WIN_MAX + 1, -1, 1, 0)),
        GameInitError::CellsToWin
    );
    assert_eq!(
        error_of(board_of(vec![0; 225], X1515_CELLS_TO_WIN_MAX + 1, -1, 1, 0)),
        GameInitError::CellsToWin
    );
    assert_eq!(error_of(board_of(vec![0; 9], 0, -1, 1, 0)), GameInitError::CellsToWin);
}

#[test]
fn equal_marks_error() {
    assert_eq!(error_of(board_of(vec![0; 9], 3, 1, 1, 0)), GameInitError::Marks);
    assert_eq!(error_of(board_of(vec![0; 9], 3, 0, 1, 0)), GameInitError::Marks);
    assert_eq!(error_of(board_of(vec![0; 9], 3, -1, 0, 0)), GameInitError::Marks);
}

#[test]
fn first_failing_check_is_reported() {
    // Unknown mark, wrong counts, wrong size and wrong run length at once.
    assert_eq!(error_of(board_of(vec![1, 1, 7, 0], 9, -1, 1, 0)), GameInitError::Marks);
    // Wrong counts, wrong size and wrong run length.
    assert_eq!(error_of(board_of(vec![1, 1, 0, 0], 9, -1, 1, 0)), GameInitError::Inconsistent);
    // Wrong size and wrong run length.
    assert_eq!(error_of(board_of(vec![0; 4], 9, -1, 1, 0)), GameInitError::Size);
    assert_eq!(error_of(board_of(vec![0; 256], 5, -1, 1, 0)), GameInitError::Size);
    assert_eq!(error_of(board_of(Vec::new(), 3, -1, 1, 0)), GameInitError::Size);
}

#[test]
fn board_params_by_size_and_level() {
    let expected: [(usize, u8, u8, usize, usize); 13] = [
        (3, 3, 3, 9, 1),
        (4, 4, 4, 7, 2),
        (5, 4, 5, 6, 3),
        (6, 4, 6, 5, 3),
        (7, 4, 7, 4, 3),
        (8, 4, 8, 4, 3),
        (9, 4, 9, 4, 3),
        (10, 5, 10, 3, 2),
        (11, 5, 10, 3, 2),
        (12, 5, 10, 3, 2),
        (13, 5, 10, 3, 2),
        (14, 5, 10, 3, 2),
        (15, 5, 10, 3, 2),
    ];
    for &(side, min, max, depth, easy_depth) in expected.iter() {
        for to_win in 0..=16u8 {
            for &(level, level_depth) in [(Level::Normal, depth), (Level::Easy, easy_depth)].iter()
            {
                let board = board_of(vec![0; side * side], to_win, -1, 1, 0);
                match BoardParams::new(&board, level) {
                    Ok(params) => {
                        assert!(min <= to_win && to_win <= max, "side {side} run {to_win}");
                        assert_eq!(params.size.side(), side);
                        assert_eq!(params.offset, side);
                        assert_eq!(params.to_win, to_win as usize);
                        assert_eq!(params.max_depth, level_depth);
                    }
                    Err(error_kind) => {
                        assert!(to_win < min || to_win > max, "side {side} run {to_win}");
                        assert_eq!(error_kind, GameInitError::CellsToWin);
                    }
                }
            }
        }
    }
}

#[test]
fn board_size_from_cell_count() {
    for count in 0..300usize {
        let found = BoardSize::from_cell_count(count);
        match SIDES.iter().find(|&&side| side * side == count) {
            Some(&side) => assert_eq!(found.map(|size| size.side()), Some(side)),
            None => assert!(found.is_none()),
        }
    }
}

#[test]
fn revalidating_a_normalized_board_classifies_alike() {
    let boards = [
        board_of(vec![8, 8, 11, 11, 8, 8, 2, 8, 2], 3, 2, 11, 8),
        board_of(vec![5, 5, -3, 2, -3, 2, 2, 2, 2], 3, 5, -3, 2),
        board_of(vec![7; 25], 4, 1, 2, 7),
        board_of(vec![7; 25], 3, 1, 2, 7),
        board_of(vec![7; 24], 4, 1, 2, 7),
        board_of(vec![1, 1, 7, 7, 7, 7, 7, 7, 7], 3, 1, 2, 7),
    ];
    for board in boards.iter() {
        for &level in [Level::Easy, Level::Normal].iter() {
            let mut normalized = board.clone();
            Game::normalize_cell_values(&mut normalized);
            normalized.p1_mark = -1;
            normalized.bot_mark = 1;
            normalized.empty_mark = 0;
            match (BoardParams::new(board, level), BoardParams::new(&normalized, level)) {
                (Ok(first), Ok(second)) => {
                    assert_eq!(first.size, second.size);
                    assert_eq!(first.offset, second.offset);
                    assert_eq!(first.to_win, second.to_win);
                    assert_eq!(first.max_depth, second.max_depth);
                }
                (Err(first), Err(second)) => assert_eq!(first, second),
                _ => panic!("the classifications differ"),
            }
        }
    }
}

#[test]
fn normalization_maps_every_cell() {
    let mut board = board_of(vec![5, 9, 5, -3, 2, 0], 3, 5, -3, 2);
    Game::normalize_cell_values(&mut board);
    assert_eq!(board.cells, vec![-1, 0, -1, 1, 0, 0]);
    assert_eq!((board.p1_mark, board.bot_mark, board.empty_mark), (5, -3, 2));
    assert_eq!(board.cells_to_win, 3);
}

#[test]
fn winner_is_the_mark_of_the_run_in_every_direction() {
    // One run of four on a 6x6 board, for each direction and both players.
    let starts_and_steps: [(usize, usize); 8] =
        [(0, 1), (32, 1), (0, 6), (17, 6), (0, 7), (14, 7), (3, 5), (17, 5)];
    for &(start, step) in starts_and_steps.iter() {
        for &mark in [-1i8, 1].iter() {
            let mut cells = vec![0i8; 36];
            for j in 0..4 {
                cells[start + j * step] = mark;
            }
            // The other player's marks, which fill no window.
            let mut placed = 0;
            for i in [1usize, 4, 11, 24, 27].iter() {
                if cells[*i] == 0 && placed < 4 {
                    cells[*i] = -mark;
                    placed += 1;
                }
            }
            assert_eq!(placed, 4);
            let game = Game {
                cells,
                p1_mark: -1,
                bot_mark: 1,
                empty_mark: 0,
                orig_p1_mark: -1,
                orig_bot_mark: 1,
                orig_empty_mark: 0,
                level: Level::Normal,
                board_size: BoardSize::X66,
                max_depth: 5,
                cells_to_win: 4,
                cells_offset: 6,
            };
            assert_eq!(game.winner(), mark, "start {start} step {step}");
        }
    }
}

#[test]
fn no_winner_without_a_run() {
    // Three in a row where four are asked for, and a row that wraps round.
    let game = game_of(
        &[
            1, 1, 1, 0, 0, 0, -1, -1, 0, 0, -1, -1, 0, 0, 0, 0, 0, 0, 0, 0, 0, 0, 0, 0, 0,
        ],
        4,
        Level::Normal,
    );
    assert_eq!(game.winner(), 0);
    let game = game_of(
        &[
            0, 0, 0, 1, 1, 1, 1, 0, 0, 0, -1, -1, 0, 0, 0, -1, -1, 0, 0, 0, 0, 0, 0, 0, 0,
        ],
        4,
        Level::Normal,
    );
    assert_eq!(game.winner(), 0);
    assert_eq!(game.winner_in_row(), 0);
    assert_eq!(game.winner_in_col(), 0);
    assert_eq!(game.winner_in_diag(), 0);
    assert_eq!(game.winner_in_antidiag(), 0);
}

#[test]
fn diag_start_search_indices_in_rising_order() {
    let game = game_of(&[0; 25], 4, Level::Normal);
    assert_eq!(game.diag_start_search_indices(false), vec![0, 1, 5, 6]);
    assert_eq!(game.diag_start_search_indices(true), vec![3, 4, 8, 9]);
    let game = game_of(&[0; 9], 3, Level::Normal);
    assert_eq!(game.diag_start_search_indices(false), vec![0]);
    assert_eq!(game.diag_start_search_indices(true), vec![2]);
}

#[test]
fn window_values() {
    let value = Game::compute_value_from_window_sum;
    assert_eq!(value(3, 0, 3), WINNER_VALUE);
    assert_eq!(value(-3, 0, 3), -WINNER_VALUE);
    assert_eq!(value(2, 1, 3), 2 * ONE);
    assert_eq!(value(-2, 1, 3), -2 * ONE * 3);
    assert_eq!(value(1, 2, 3), TWO);
    assert_eq!(value(-1, 2, 3), -TWO * 3);
    assert_eq!(value(0, 3, 3), 0);
    assert_eq!(value(0, 1, 3), 0);
    assert_eq!(value(1, 0, 3), 0);
    assert_eq!(value(1, 1, 3), 0);
    assert_eq!(value(5, 0, 5), WINNER_VALUE);
    assert_eq!(value(4, 1, 5), 4 * ONE);
    assert_eq!(value(-4, 1, 5), -4 * ONE * 3);
    assert_eq!(value(4, 0, 5), 4 * ONE);
    assert_eq!(value(3, 2, 5), 3 * TWO);
    assert_eq!(value(2, 3, 5), 2 * TWO);
    assert_eq!(value(-2, 3, 5), -2 * TWO * 3);
    assert_eq!(value(1, 4, 5), 0);
    assert_eq!(value(3, 1, 5), 0);
    assert_eq!(value(1, 0, 1), WINNER_VALUE);
    assert_eq!(value(0, 1, 1), 0);
    assert_eq!(value(1, usize::MAX, 2), ONE);
    assert_eq!(value(0, usize::MAX, 2), 0);
}

#[test]
fn heuristic_game_value_scales_with_depth() {
    let game = game_of(&[-1, 0, 0, 0, 1, 0, 0, 0, 0], 3, Level::Normal);
    // Three windows hold the bot's mark alone, two hold player 1's mark
    // alone, and the diagonal holds both.
    let total = 3 * TWO - 2 * TWO * 3;
    assert_eq!(game.value_in_total(), total);
    assert_eq!(
        game.value_in_rows() + game.value_in_cols() + game.value_in_diags(false)
            + game.value_in_diags(true),
        total
    );
    assert_eq!(game.heuristic_game_value(0, 0), total);
    assert_eq!(game.heuristic_game_value(0, 4), total * 5);
    assert_eq!(game.heuristic_game_value(0, -1), 0);
    assert_eq!(game.heuristic_game_value(1, 0), WINNER_VALUE);
    assert_eq!(game.heuristic_game_value(1, 2), 3 * WINNER_VALUE);
    assert_eq!(game.heuristic_game_value(-1, 8), -9 * WINNER_VALUE);
}

#[test]
fn empty_cell_count_counts_free_cells() {
    assert_eq!(game_of(&[0; 9], 3, Level::Normal).empty_cell_count(), 9);
    assert_eq!(game_of(&[-1, 1, -1, 0, 1, 0, 1, 0, -1], 3, Level::Normal).empty_cell_count(), 3);
    assert_eq!(
        game_of(&[-1, 1, -1, -1, 1, 1, 1, -1, -1], 3, Level::Normal).empty_cell_count(),
        0
    );
    assert_eq!(Game::empty_cells(&[7, 0, 7, 7], 7), 3);
    assert_eq!(Game::empty_cells(&[], 7), 0);
}

#[test]
fn empty_cell_indices_lists_each_candidate_once() {
    let cells: [i8; 25] = [
        -1, 1, -1, 0, 0, 0, 0, 0, 0, 0, 0, 1, 0, 0, 0, 0, 0, 0, 1, 1, 0, -1, 0, -1, -1,
    ];
    let mut game = game_of(&cells, 4, Level::Normal);
    for _ in 0..20 {
        let mut indices = game.empty_cell_indices();
        assert_eq!(game.cells, cells.to_vec());
        for &idx in indices.iter() {
            assert_eq!(cells[idx], 0);
            assert!(game.adjacent_cell_occupied(idx));
        }
        indices.sort();
        indices.dedup();
        assert_eq!(indices.len(), 14);
    }
}

#[test]
fn empty_cell_indices_best_first_on_large_boards() {
    let cells: [i8; 25] = [
        0, 0, 0, 0, 0, 0, 1, 1, 0, 0, 0, -1, -1, 0, 0, 0, 0, 0, 0, 0, 0, 0, 0, 0, 0,
    ];
    let mut game = game_of(&cells, 4, Level::Normal);
    for _ in 0..20 {
        let indices = game.empty_cell_indices();
        let mut values = Vec::new();
        for &idx in indices.iter() {
            game.cells[idx] = 1;
            values.push(game.value_in_total());
            game.cells[idx] = 0;
        }
        for pair in values.windows(2) {
            assert!(pair[0] >= pair[1]);
        }
    }
}

#[test]
fn empty_cell_indices_come_in_changing_order() {
    let mut game = game_of(&[0; 9], 3, Level::Normal);
    let rising: Vec<usize> = (0..9).collect();
    let mut changed = false;
    for _ in 0..50 {
        let mut indices = game.empty_cell_indices();
        if indices != rising {
            changed = true;
        }
        indices.sort();
        assert_eq!(indices, rising);
    }
    assert!(changed);
}

#[test]
fn reorder_keeps_the_cells_next_to_marks() {
    let cells: [i8; 25] = [
        1, 0, 0, 0, 0, 0, 0, 0, 0, -1, 1, 0, 0, 0, 0, 0, 0, 0, 0, 0, 0, 0, 0, -1, -1,
    ];
    let mut game = game_of(&cells, 4, Level::Normal);
    let free: Vec<usize> = (0..25).filter(|&i| cells[i] == 0).collect();
    let mut kept = game.reorder_empty_cell_indices_by_value(free);
    kept.sort();
    assert_eq!(kept, vec![1, 3, 4, 5, 6, 8, 11, 13, 14, 15, 16, 17, 18, 19, 22]);
    assert_eq!(game.cells, cells.to_vec());
}

#[test]
fn minimax_leaves_the_board_as_it_was() {
    let cells: [i8; 9] = [1, 0, -1, -1, 1, 0, 1, 0, -1];
    let mut game = game_of(&cells, 3, Level::Normal);
    let (value, best) = Bot::minimax(&mut game, 1, 3, i32::MIN, i32::MAX, true);
    assert_eq!(game.cells, cells.to_vec());
    assert_eq!(best, Some(5));
    // Cell 5 stops player 1; player 1 stops the bot at 7; the bot takes the
    // last cell and the board is full, with nothing left to count.
    assert_eq!(value, 0);
}

#[test]
fn minimax_values_an_earlier_win_higher() {
    let mut game = game_of(&[1, 1, 0, -1, -1, 0, 0, 0, 0], 3, Level::Normal);
    assert_eq!(Bot::minimax(&mut game, 1, 1, i32::MIN, i32::MAX, true), (WINNER_VALUE, Some(2)));
    assert_eq!(
        Bot::minimax(&mut game, 1, 4, i32::MIN, i32::MAX, true),
        (4 * WINNER_VALUE, Some(2))
    );
    // Player 1 to move takes its own win.
    assert_eq!(
        Bot::minimax(&mut game, -1, 2, i32::MIN, i32::MAX, false),
        (-2 * WINNER_VALUE, Some(5))
    );
}

#[test]
fn minimax_stops_at_once() {
    // No depth left.
    let mut game = game_of(&[-1, 0, 0, 0, 1, 0, 0, 0, 0], 3, Level::Normal);
    let total = game.value_in_total();
    assert_eq!(Bot::minimax(&mut game, -1, 0, i32::MIN, i32::MAX, false), (total, None));
    // Won already.
    let mut game = game_of(&[1, 1, 1, -1, -1, 0, -1, 0, 0], 3, Level::Normal);
    assert_eq!(
        Bot::minimax(&mut game, -1, 2, i32::MIN, i32::MAX, false),
        (3 * WINNER_VALUE, None)
    );
    // No free cell.
    let mut game = game_of(&[-1, 1, -1, -1, 1, 1, 1, -1, -1], 3, Level::Normal);
    assert_eq!(Bot::minimax(&mut game, 1, 5, i32::MIN, i32::MAX, true), (0, None));
    // A large board without marks offers no cell.
    let mut game = game_of(&[0; 25], 4, Level::Normal);
    assert_eq!(Bot::minimax(&mut game, 1, 2, i32::MIN, i32::MAX, true), (i32::MIN, None));
    assert_eq!(Bot::minimax(&mut game, -1, 2, i32::MIN, i32::MAX, false), (i32::MAX, None));
}

#[test]
fn winning_move_scenario() {
    let game = game_of(&[-1, 1, -1, 0, 1, 0, 1, 0, -1], 3, Level::Normal);
    let bot_move = Bot::next_move(game);
    assert_eq!(bot_move.next, 7);
    assert!(bot_move.next_is_valid);
    assert!(bot_move.game_over);
    assert_eq!(bot_move.winner, 1);
}

#[test]
fn forced_block_scenario() {
    let game = game_of(&[1, -1, -1, -1, -1, 1, 1, 0, 0], 3, Level::Normal);
    let bot_move = Bot::next_move(game);
    assert_eq!(bot_move.next, 7);
    assert!(bot_move.next_is_valid);
    assert!(!bot_move.game_over);
    assert_eq!(bot_move.winner, 0);
}

#[test]
fn winning_takes_priority_over_blocking() {
    // Both players lack one mark: the bot at cell 2, player 1 at cell 5.
    let game = game_of(&[1, 1, 0, -1, -1, 0, 0, 0, 0], 3, Level::Normal);
    let bot_move = Bot::next_move(game);
    assert_eq!(bot_move.next, 2);
    assert!(bot_move.game_over);
    assert_eq!(bot_move.winner, 1);
}

#[test]
fn empty_board_scenario() {
    for &side in SIDES.iter() {
        for &level in [Level::Easy, Level::Normal].iter() {
            for _ in 0..20 {
                let game = match Game::new(
                    board_of(vec![4; side * side], designed_run(side), 2, 3, 4),
                    level,
                ) {
                    Ok(game) => game,
                    Err(error_kind) => panic!("Game::new(): {:?}", error_kind),
                };
                let bot_move = Bot::next_move(game);
                assert!((bot_move.next as usize) < side * side);
                assert!(bot_move.next_is_valid);
                assert!(!bot_move.game_over);
                assert_eq!(bot_move.winner, 4);
            }
        }
    }
}

#[test]
fn full_board_without_run_scenario() {
    let boards: [(Vec<i8>, u8); 2] = [
        (vec![5, 7, 5, 5, 7, 7, 7, 5, 5], 3),
        (vec![5, 7, 5, 7, 5, 7, 5, 7, 7, 5, 7, 5, 7, 5, 7, 5], 4),
    ];
    for (cells, to_win) in boards.iter() {
        for &level in [Level::Easy, Level::Normal].iter() {
            let game = match Game::new(board_of(cells.clone(), *to_win, 5, 7, 9), level) {
                Ok(game) => game,
                Err(error_kind) => panic!("Game::new(): {:?}", error_kind),
            };
            let bot_move = Bot::next_move(game);
            assert!(bot_move.game_over);
            assert!(!bot_move.next_is_valid);
            assert_eq!(bot_move.next, u8::MAX);
            assert_eq!(bot_move.winner, 9);
        }
    }
}

#[test]
fn easy_level_plays_a_free_cell() {
    let cells: [i8; 9] = [-1, 0, 0, 0, 1, 0, 0, 0, -1];
    for _ in 0..40 {
        let bot_move = Bot::next_move(game_of(&cells, 3, Level::Easy));
        assert!(bot_move.next_is_valid);
        assert_eq!(cells[bot_move.next as usize], 0);
        assert!(!bot_move.game_over);
        assert_eq!(bot_move.winner, 0);
    }
    let cells: [i8; 25] = [
        0, 0, 0, 0, 0, 0, 1, 0, -1, 0, 0, -1, -1, 1, 0, 0, 1, -1, 0, 0, 0, 0, 0, 0, 0,
    ];
    for _ in 0..10 {
        let bot_move = Bot::next_move(game_of(&cells, 4, Level::Easy));
        assert!(bot_move.next_is_valid);
        assert_eq!(cells[bot_move.next as usize], 0);
        assert!(game_of(&cells, 4, Level::Easy).adjacent_cell_occupied(bot_move.next as usize));
    }
}

#[test]
fn complete_bot_move_reports_the_game() {
    let same = |a: BotMove, b: (u8, bool, bool, i8)| {
        assert_eq!((a.next, a.next_is_valid, a.game_over, a.winner), b)
    };
    let game_with = |cells: &[i8]| match Game::new(
        board_of(cells.iter().map(|&c| c + 5).collect(), 3, 4, 6, 5),
        Level::Normal,
    ) {
        Ok(game) => game,
        Err(error_kind) => panic!("Game::new(): {:?}", error_kind),
    };
    same(
        Bot::complete_bot_move(game_with(&[1, 1, 0, -1, -1, 0, 0, 0, 0]), Some(2)),
        (2, true, true, 6),
    );
    same(
        Bot::complete_bot_move(game_with(&[1, 1, 0, -1, -1, 0, 0, 0, 0]), Some(5)),
        (5, true, false, 5),
    );
    same(
        Bot::complete_bot_move(game_with(&[-1, 1, -1, -1, 1, 1, 1, -1, 0]), Some(8)),
        (8, true, true, 5),
    );
    same(
        Bot::complete_bot_move(game_with(&[-1, -1, -1, 1, 1, 0, 0, 0, 0]), None),
        (u8::MAX, false, true, 4),
    );
    same(
        Bot::complete_bot_move(game_with(&[-1, 0, 0, 0, 0, 0, 0, 0, 0]), None),
        (u8::MAX, false, true, 5),
    );
}

#[test]
fn renormalize_winner_marker_names_the_callers_marks() {
    let game = match Game::new(board_of(vec![2; 9], 3, 5, -3, 2), Level::Normal) {
        Ok(game) => game,
        Err(error_kind) => panic!("Game::new(): {:?}", error_kind),
    };
    assert_eq!(Bot::renormalize_winner_marker(&game, 0), 2);
    assert_eq!(Bot::renormalize_winner_marker(&game, -1), 5);
    assert_eq!(Bot::renormalize_winner_marker(&game, 1), -3);
}

fn replies_5x5(p1_mark_idx: usize) -> Vec<u8> {
    match p1_mark_idx {
        0 | 4 | 6 | 8 | 16 | 18 | 20 | 24 => vec![12],
        5 => vec![15],
        9 => vec![19],
        15 => vec![5],
        19 => vec![9],
        1 => vec![3],
        21 => vec![23],
        3 => vec![1],
        23 => vec![21],
        2 => vec![1, 3],
        22 => vec![21, 23],
        10 => vec![5, 15],
        14 => vec![9, 19],
        7 => vec![6, 8, 12, 17],
        17 => vec![16, 18, 12, 7],
        11 => vec![6, 12, 16],
        13 => vec![8, 12, 18],
        _ => vec![6, 8, 16, 18],
    }
}

#[test]
fn first_move_replies_from_the_book() {
    for p1_mark_idx in 0..30usize {
        let replies = replies_5x5(p1_mark_idx);
        let mut seen = Vec::new();
        for _ in 0..200 {
            let reply = FirstMove::find_bot_first_move_5x5(p1_mark_idx);
            assert!(replies.contains(&reply), "opening move {p1_mark_idx}");
            assert_ne!(reply as usize, p1_mark_idx);
            if !seen.contains(&reply) {
                seen.push(reply);
            }
        }
        assert_eq!(seen.len(), replies.len(), "opening move {p1_mark_idx}");
    }
}

#[test]
fn reply_of_a_choice() {
    assert_eq!(FirstMove::reply_of(Some(17), 3), 17);
    assert_eq!(FirstMove::reply_of(None, 3), 3);
    assert_eq!(FirstMove::reply_of(Some(256 + 7), 3), 7);
    assert_eq!(FirstMove::reply_of(None, 511), 255);
}

#[test]
fn second_move_on_5x5_comes_from_the_book() {
    for p1_mark_idx in 0..25usize {
        let mut cells = vec![0i8; 25];
        cells[p1_mark_idx] = -1;
        for &level in [Level::Easy, Level::Normal].iter() {
            let game = game_of(&cells, 4, level);
            let in_book = Bot::play_bot_first_move_if_defined(&game);
            assert!(in_book.is_some());
            let bot_move = Bot::next_move(game);
            assert!(replies_5x5(p1_mark_idx).contains(&bot_move.next));
            assert!(bot_move.next_is_valid);
            assert!(!bot_move.game_over);
            assert_eq!(bot_move.winner, 0);
        }
    }
}

#[test]
fn no_book_for_other_boards() {
    let mut cells = vec![0i8; 36];
    cells[14] = -1;
    assert!(Bot::play_bot_first_move_if_defined(&game_of(&cells, 4, Level::Normal)).is_none());
    assert!(Bot::play_bot_first_move_if_defined(&game_of(&[0; 25], 4, Level::Normal)).is_none());
    let bot_move = Bot::next_move(game_of(&cells, 4, Level::Normal));
    assert!(bot_move.next_is_valid);
    assert!(game_of(&cells, 4, Level::Normal).adjacent_cell_occupied(bot_move.next as usize));
}

#[test]
fn referer_guard_accepts_listed_referers() {
    let guard = RefererGuard::new(vec![
        String::from("http://localhost:5173"),
        String::from("https://example.org/app"),
    ]);
    assert!(guard.allows("http://localhost:5173"));
    assert!(guard.allows("http://localhost:5173/"));
    assert!(guard.allows("http://localhost:5173///"));
    assert!(guard.allows("https://example.org/app/"));
    assert!(!guard.allows("https://example.org"));
    assert!(!guard.allows("https://example.org/app/x"));
    assert!(!guard.allows("http://localhost:5174"));
    assert!(!guard.allows(""));
    assert!(!guard.allows("/"));
    assert!(!RefererGuard::new(Vec::new()).allows("http://localhost:5173"));
    assert!(RefererGuard::new(vec![String::new()]).allows("//"));
}

#[test]
fn search_cells_takes_the_first_of_equal_cells() {
    // The bot wins at cell 2 and at cell 6.
    let cells: [i8; 9] = [1, 1, 0, 1, -1, -1, 0, -1, -1];
    let mut game = game_of(&cells, 3, Level::Normal);
    assert_eq!(
        Bot::search_cells(&mut game, &vec![6, 2], 1, 2, i32::MIN, i32::MAX, true),
        (2 * WINNER_VALUE, Some(6))
    );
    assert_eq!(
        Bot::search_cells(&mut game, &vec![2, 6], 1, 2, i32::MIN, i32::MAX, true),
        (2 * WINNER_VALUE, Some(2))
    );
    assert_eq!(game.cells, cells.to_vec());
    for _ in 0..20 {
        let best = Bot::minimax(&mut game, 1, 2, i32::MIN, i32::MAX, true);
        assert!(best == (2 * WINNER_VALUE, Some(2)) || best == (2 * WINNER_VALUE, Some(6)));
    }
}

#[test]
fn search_cells_stops_when_the_bounds_meet() {
    let cells: [i8; 9] = [1, 1, 0, 1, -1, -1, 0, -1, -1];
    let mut game = game_of(&cells, 3, Level::Normal);
    // The first cell already reaches the upper bound.
    assert_eq!(
        Bot::search_cells(&mut game, &vec![6, 2], 1, 2, 0, 100, true),
        (2 * WINNER_VALUE, Some(6))
    );
    assert_eq!(game.cells, cells.to_vec());
}

#[test]
fn easy_level_skips_search_from_the_threshold_on() {
    assert!(!Bot::skips_search(0));
    assert!(!Bot::skips_search(66));
    assert!(Bot::skips_search(67));
    assert!(Bot::skips_search(99));
}

#[test]
fn reorder_keeps_the_listed_order_among_equal_cells() {
    let cells: [i8; 25] = [
        0, 0, 0, 0, 0, 0, 1, 1, 0, 0, 0, -1, -1, 0, 0, 0, 0, 0, 0, 0, 0, 0, 0, 0, 0,
    ];
    let mut game = game_of(&cells, 4, Level::Normal);
    let rising: Vec<usize> = (0..25).filter(|&i| cells[i] == 0).collect();
    let falling: Vec<usize> = rising.iter().rev().cloned().collect();
    for listed in [rising, falling].iter() {
        let mut expected: Vec<(usize, i32)> = Vec::new();
        for &idx in listed.iter() {
            if game.adjacent_cell_occupied(idx) {
                game.cells[idx] = 1;
                expected.push((idx, game.value_in_total()));
                game.cells[idx] = 0;
            }
        }
        // A stable sort, best first.
        expected.sort_by_key(|&(_, value)| -value);
        let expected: Vec<usize> = expected.iter().map(|&(idx, _)| idx).collect();
        assert_eq!(game.reorder_empty_cell_indices_by_value(listed.clone()), expected);
    }
}
