use be::conf::{X33_CELLS_TO_WIN_MIN, X55_CELLS_TO_WIN_MIN};
use be::{Board, Bot, Game, Level};
use std::mem;

fn init_bot_game(
    cells: &[i8],
    p1_mark: i8,
    bot_mark: i8,
    empty_mark: i8,
    cells_to_win: u8,
) -> Game {
    let board = Board {
        cells: cells.to_vec(),
        cells_to_win,
        p1_mark,
        bot_mark,
        empty_mark,
    };
    match Game::new(board, Level::Normal) {
        Ok(game) => game,
        Err(error_kind) => panic!("Game::new(): {:?}", error_kind),
    }
}

fn run_minimax_for_bot(mut game: Game) -> Option<usize> {
    let empty_cells = game.empty_cell_count();
    let first_player = game.bot_mark;

    let init_depth = empty_cells.min(game.max_depth);

    let (_, best_move) = Bot::minimax(
        &mut game,
        first_player,
        init_depth as i32,
        i32::MIN,
        i32::MAX,
        true,
    );

    best_move
}

#[test]
fn bot_make_win_move_3x3() {
    let (p1_mark, bot_mark, empty_mark) = (-1, 1, 0);
    let cells_to_win = X33_CELLS_TO_WIN_MIN;

    let cells_collections: [[i8; 9]; 12] = [
        [-1, 1, -1, 0, 1, 0, 1, 0, -1],
        [-1, 1, 0, 0, 1, 0, -1, 0, 0],
        [1, 1, 0, 0, -1, 0, 0, 0, -1],
        [0, 0, 0, -1, -1, 0, 0, 1, 1],
        [1, 0, -1, -1, 0, 0, 0, 0, 1],
        [1, -1, -1, -1, 1, 1, -1, 0, 0],
        [-1, 0, -1, -1, 1, 0, 1, 1, -1],
        [-1, 0, 1, 1, 1, -1, -1, 1, -1],
        [0, 1, 0, -1, 0, 0, 0, 1, -1],
        [0, 1, 1, -1, -1, 0, 1, -1, 0],
        [1, -1, 0, 0, -1, 0, 1, 0, 0],
        [0, 0, -1, 1, 1, 0, 0, -1, 0],
    ];
    let correct_win_moves: [usize; 12] = [7, 7, 2, 6, 4, 8, 1, 1, 4, 0, 3, 5];

    let it = cells_collections.iter().zip(correct_win_moves.iter());

    for (i, (cells, &correct_move)) in it.enumerate() {
        let game = init_bot_game(cells, p1_mark, bot_mark, empty_mark, cells_to_win);

        match run_minimax_for_bot(game) {
            Some(best_move) => assert_eq!(best_move, correct_move, "collection {}", i + 1),
            _ => panic!("Bot::minimax (collection {i}) returned None"),
        }
    }
}

#[test]
fn bot_prevent_win_move_3x3() {
    let (p1_mark, bot_mark, empty_mark) = (-1, 1, 0);
    let cells_to_win = X33_CELLS_TO_WIN_MIN;

    let cells_collections: [[i8; 9]; 12] = [
        [1, -1, -1, -1, -1, 1, 1, 0, 0],
        [1, -1, 0, 0, -1, 1, 0, 0, 0],
        [0, 1, -1, 0, -1, 1, 1, 0, -1],
        [0, -1, -1, -1, 1, 1, 0, 1, 0],
        [0, -1, -1, -1, 1, 1, -1, 1, 0],
        [-1, 1, -1, 1, -1, 0, 1, 0, 0],
        [1, -1, 0, 0, 1, -1, 0, 0, -1],
        [0, -1, 0, 1, 0, 0, 0, -1, 1],
        [-1, 0, -1, 1, 0, 0, 0, 0, 1],
        [-1, 0, 1, 0, 1, 0, -1, 0, 0],
        [1, 1, -1, 0, 0, 0, 0, 0, -1],
        [0, 1, -1, 0, -1, 1, 0, 0, 0],
    ];
    let correct_moves: [usize; 12] = [7, 7, 0, 0, 0, 8, 2, 4, 1, 3, 5, 6];

    let it = cells_collections.iter().zip(correct_moves.iter());

    for (i, (cells, &correct_move)) in it.enumerate() {
        let game = init_bot_game(cells, p1_mark, bot_mark, empty_mark, cells_to_win);

        match run_minimax_for_bot(game) {
            Some(best_move) => assert_eq!(best_move, correct_move, "collection {}", i + 1),
            _ => panic!("Bot::minimax (collection {i}) returned None"),
        }
    }
}

#[test]
fn bot_prevent_early_win_move_3x3() {
    let (p1_mark, bot_mark, empty_mark) = (1, -1, 0);
    let cells_to_win = X33_CELLS_TO_WIN_MIN;

    let cells_collections: [[i8; 9]; 5] = [
        [1, 0, -1, 0, 0, 0, 0, 0, 1],
        [0, 0, 1, 0, 0, -1, 1, 0, 0],
        [0, -1, 0, 0, 0, 0, 1, 0, 1],
        [1, 0, 1, 0, 0, 0, 0, 0, -1],
        [1, 0, 1, -1, 0, 0, 0, 0, 0],
    ];
    let correct_moves: [usize; 5] = [4, 4, 7, 1, 1];

    let it = cells_collections.iter().zip(correct_moves.iter());

    for (i, (cells, &correct_move)) in it.enumerate() {
        let game = init_bot_game(cells, p1_mark, bot_mark, empty_mark, cells_to_win);

        match run_minimax_for_bot(game) {
            Some(best_move) => assert_eq!(best_move, correct_move, "collection {}", i + 1),
            _ => panic!("Bot::minimax (collection {i}) returned None"),
        }
    }
}

#[test]
fn bot_make_win_move_5x5() {
    let (p1_mark, bot_mark, empty_mark) = (1, -1, 0);
    let cells_to_win = X55_CELLS_TO_WIN_MIN;

    let cells_collections: [[i8; 25]; 8] = [
        [
            1, 1, 1, 0, 0, 0, 0, 0, 0, 0, 0, -1, 0, -1, -1, 0, 0, 0, 0, 0, 0, 0, 0, 0, 0,
        ],
        [
            0, 0, 0, 0, 0, 1, 0, -1, 0, 1, 0, 0, 0, 0, 0, 0, 0, -1, 0, 1, 0, 0, -1, 0, 0,
        ],
        [
            0, 0, 0, 1, 1, 0, -1, 0, 1, 0, 0, 0, 0, 0, 0, 0, 0, 0, -1, 0, 0, 0, 0, 0, -1,
        ],
        [
            1, 0, 0, 0, 0, 0, 1, 0, 0, 0, 0, 0, 0, 0, 0, -1, -1, -1, 0, 1, 0, 0, 0, 0, 0,
        ],
        [
            0, -1, 0, -1, -1, 0, 1, -1, 1, 1, 1, -1, -1, -1, 1, 1, 0, 1, 0, 1, 0, 0, 0, 0, -1,
        ],
        [
            0, -1, 1, 0, 0, 0, 1, -1, 1, 0, 0, 1, -1, -1, 0, 1, -1, -1, 0, 0, 0, 0, 1, 0, 0,
        ],
        [
            0, 0, 0, 0, 0, 0, 1, 0, 0, 0, 0, 0, 1, -1, 0, 0, 0, -1, 1, 0, 0, -1, 0, 0, 0,
        ],
        [
            1, 1, 0, 1, -1, 0, 0, 1, 0, 0, -1, -1, 0, -1, 0, 0, 0, 0, -1, 0, -1, 1, 0, 1, 1,
        ],
    ];
    let correct_win_moves: [usize; 8] = [12, 12, 12, 18, 2, 19, 9, 12];

    let it = cells_collections.iter().zip(correct_win_moves.iter());

    for (i, (cells, &correct_move)) in it.enumerate() {
        let game = init_bot_game(cells, p1_mark, bot_mark, empty_mark, cells_to_win);

        match run_minimax_for_bot(game) {
            Some(best_move) => assert_eq!(best_move, correct_move, "collection {}", i + 1),
            _ => panic!("Bot::minimax (collection {i}) returned None"),
        }
    }
}

#[test]
fn bot_prevent_win_move_5x5() {
    let (p1_mark, bot_mark, empty_mark) = (-1, 1, 0);
    let cells_to_win = X55_CELLS_TO_WIN_MIN;

    let cells_collections: [[i8; 25]; 8] = [
        [
            -1, 0, -1, -1, 1, 0, 0, 0, 1, 0, 0, 0, 0, 0, 0, 0, 0, 0, 0, 0, 0, 0, 0, 0, 0,
        ],
        [
            0, 1, -1, -1, -1, 0, 0, 0, -1, -1, 0, 0, 0, 1, 0, 1, 1, 0, 0, -1, 0, 0, 0, 0, 1,
        ],
        [
            0, 0, 0, 0, 0, 0, 0, 0, 0, 0, 0, -1, 1, 0, 0, 0, 0, -1, 1, 0, 0, 0, 0, -1, 0,
        ],
        [
            0, 0, 0, 0, 0, 1, 0, 0, 1, 0, 1, -1, 1, -1, 0, 0, 0, -1, -1, -1, 0, 0, 0, 0, 0,
        ],
        [
            0, 0, 0, 0, 0, 0, 0, 0, 0, 0, 0, 0, 0, 0, 0, 0, 0, 0, 1, 1, 1, -1, -1, -1, 0,
        ],
        [
            -1, 1, 0, 0, 0, -1, 0, 1, 0, 0, 0, 0, 0, 0, 0, -1, 0, 1, 0, -1, 0, 0, 0, 0, 0,
        ],
        [
            0, 1, 1, 0, 0, 0, 0, -1, 0, 0, 0, 0, 0, 0, 0, 0, 0, -1, 0, 0, 0, 0, -1, 0, 0,
        ],
        [
            0, 0, 0, 1, 1, 0, 1, -1, -1, 0, 0, -1, -1, 1, -1, 1, 1, 1, -1, -1, 0, 0, 0, 0, -1,
        ],
    ];
    let correct_moves: [usize; 8] = [1, 14, 5, 16, 24, 10, 12, 9];

    let it = cells_collections.iter().zip(correct_moves.iter());

    for (i, (cells, &correct_move)) in it.enumerate() {
        let game = init_bot_game(cells, p1_mark, bot_mark, empty_mark, cells_to_win);

        match run_minimax_for_bot(game) {
            Some(best_move) => assert_eq!(best_move, correct_move, "collection {}", i + 1),
            _ => panic!("Bot::minimax (collection {i}) returned None"),
        }
    }
}

#[test]
fn bot_game_final_move() {
    let (p1_mark, bot_mark, empty_mark) = (-1, 1, 0);
    let cells_to_win = X33_CELLS_TO_WIN_MIN;

    let cells_collections: [[i8; 9]; 3] = [
        [-1, 1, -1, -1, 1, 1, 1, -1, 0],
        [1, 1, 0, -1, -1, 1, 1, -1, -1],
        [1, -1, 0, 0, 1, -1, 0, 0, 0],
    ];
    let correct_next_move: [u8; 3] = [8, 2, 8];
    let correct_winner: [i8; 3] = [empty_mark, bot_mark, bot_mark];

    let it = cells_collections.iter().zip(0..correct_next_move.len());

    for (cells, i) in it {
        let game = init_bot_game(cells, p1_mark, bot_mark, empty_mark, cells_to_win);

        let bot_move = Bot::next_move(game);

        assert_eq!(bot_move.next, correct_next_move[i]);
        assert_eq!(bot_move.winner, correct_winner[i]);
        assert_eq!(bot_move.next_is_valid, true);
        assert_eq!(bot_move.game_over, true);
    }
}

#[test]
fn bot_game_final_move_markers_correct() {
    let (p1_mark, bot_mark, empty_mark) = (5, -3, 2);
    let cells_to_win = X33_CELLS_TO_WIN_MIN;

    let cells_collections: [[i8; 9]; 2] = [
        [5, 5, -3, 2, -3, 2, 2, 2, 2],
        [5, -3, -3, -3, -3, 5, 5, 5, 2],
    ];

    let correct_next_move: [u8; 2] = [6, 8];
    let correct_winner: [i8; 2] = [bot_mark, empty_mark];

    let it = cells_collections.iter().zip(0..correct_next_move.len());

    for (cells, i) in it {
        let game = init_bot_game(cells, p1_mark, bot_mark, empty_mark, cells_to_win);

        let bot_move = Bot::next_move(game);

        // Check that player markers are the caller's and not the normalized
        assert_eq!(bot_move.next, correct_next_move[i]);
        assert_eq!(bot_move.winner, correct_winner[i]);
        assert_eq!(bot_move.next_is_valid, true);
        assert_eq!(bot_move.game_over, true);
    }
}

#[test]
fn bot_not_game_final_move() {
    let (p1_mark, bot_mark, empty_mark) = (-1, 1, 0);
    let cells_to_win = X33_CELLS_TO_WIN_MIN;

    let cells_collections: [[i8; 9]; 3] = [
        [1, 0, -1, -1, 1, 0, 1, 0, -1],
        [1, -1, 1, 0, 1, 0, -1, 0, -1],
        [-1, 0, 0, 0, 0, 0, 1, 0, -1],
    ];
    let correct_next_move: [u8; 3] = [5, 7, 4];

    let it = cells_collections.iter().zip(0..correct_next_move.len());

    for (cells, i) in it {
        let game = init_bot_game(cells, p1_mark, bot_mark, empty_mark, cells_to_win);

        let bot_move = Bot::next_move(game);

        assert_eq!(bot_move.next, correct_next_move[i]);
        assert_eq!(bot_move.winner, empty_mark);
        assert_eq!(bot_move.next_is_valid, true);
        assert_eq!(bot_move.game_over, false);
    }
}

#[test]
fn bot_game_already_over() {
    let (p1_mark, bot_mark, empty_mark) = (-1, 1, 0);
    let cells_to_win = X55_CELLS_TO_WIN_MIN;

    let cells_collections: [[i8; 25]; 3] = [
        [
            0, 1, 1, 0, 0, 0, -1, -1, -1, -1, 1, 0, 0, 0, 0, 0, 0, 0, 0, 0, 0, 0, 0, 0, 0,
        ],
        [
            0, 0, 1, -1, -1, 0, 0, 1, -1, 0, 0, 0, 1, -1, 0, 0, 0, 1, 0, 0, 0, 0, 0, 0, 0,
        ],
        [
            -1, 1, 1, -1, -1, -1, 1, -1, 1, 1, -1, 1, 1, -1, -1, 1, -1, 1, -1, 1, -1, 1, -1, 1,
            -1,
        ],
    ];
    let correct_winner: [i8; 3] = [p1_mark, bot_mark, empty_mark];

    let it = cells_collections.iter().zip(0..correct_winner.len());

    for (cells, i) in it {
        let game = init_bot_game(cells, p1_mark, bot_mark, empty_mark, cells_to_win);

        let bot_move = Bot::next_move(game);

        assert_eq!(bot_move.winner, correct_winner[i]);
        assert_eq!(bot_move.game_over, true);
        assert_eq!(bot_move.next_is_valid, false);
    }
}

fn play_complete_game(
    game_size: usize,
    cells_to_win: u8,
    play_p1_first_move: bool,
    p1_first_move_idx: usize,
) {
    let empty_mark = 0;
    let (mut p1_mark, mut bot_mark) = (-1, 1);
    let mut cells = vec![0; game_size];

    let mut move_i = 0;

    if play_p1_first_move {
        cells[p1_first_move_idx] = p1_mark;
        move_i += 1;
    }

    loop {
        let board = Board {
            cells: cells.clone(),
            cells_to_win,
            p1_mark,
            bot_mark,
            empty_mark,
        };
        let game = match Game::new(board, Level::Normal) {
            Ok(game) => game,
            Err(error_kind) => panic!("Game::new() error {:?} in move {}", error_kind, move_i),
        };
        let res = Bot::next_move(game);

        move_i += 1;

        // Game status should be zero/tie after every move
        assert_eq!(res.winner, empty_mark, "move {}", move_i);

        if move_i > game_size {
            // Game completed, no possible moves left
            assert!(res.game_over, "move {}", move_i);
            assert!(!res.next_is_valid, "move {}", move_i);
            break;
        } else if move_i == game_size {
            // Game completed after this last move
            assert!(res.game_over, "move {}", move_i);
        } else {
            assert!(!res.game_over, "move {}", move_i);
        }

        assert!(res.next_is_valid, "move {}", move_i);
        let next_move = res.next as usize;
        assert!(next_move < game_size, "move {}", move_i);

        cells[next_move] = bot_mark;
        mem::swap(&mut bot_mark, &mut p1_mark);
    }
    // All cells should not be empty at this point
    let empties = cells.iter().filter(|&cell| *cell == empty_mark).count();
    assert_eq!(empties, 0);
}

// It's probably better to test with smaller `cells_to_win` values because those games are harder.
// But too small values allows winning for one of the players which is not the goal of these test.
// Games with maximal allowed `cells_to_win` should complete fast to a draw.
// Overall, following test games should end up in a draw (make sure `cells_to_win` enables that).

#[test]
fn complete_game_play_3x3_3inarow_normal() {
    play_complete_game(9, 3, false, 0);
}

#[test]
fn complete_game_play_4x4_4inarow_normal() {
    play_complete_game(16, 4, false, 0);
}

#[test]
fn complete_game_play_5x5_4inarow_normal() {
    play_complete_game(25, 4, false, 0);
}

#[test]
fn complete_game_play_6x6_5inarow_normal() {
    play_complete_game(36, 5, false, 0);
}

#[test]
fn complete_game_play_7x7_5inarow_normal() {
    play_complete_game(49, 5, false, 0);
}

#[test]
fn complete_game_play_8x8_5inarow_normal() {
    play_complete_game(64, 5, false, 0);
}

#[test]
fn complete_game_play_9x9_5inarow_normal() {
    play_complete_game(81, 5, false, 0);
}
