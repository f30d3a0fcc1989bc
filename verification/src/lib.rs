//! Move selection for k-in-a-row games on square boards from 3x3 to 15x15.
//!
//! A caller hands in a [`Board`] and a [`Level`]; [`Game::new`] validates and
//! normalises the board, and [`Bot::next_move`] answers with the bot's next
//! cell or with the final verdict of a game that has already ended.

pub mod bot;
pub mod cells;
pub mod conf;
pub mod first_move;
pub mod game;
pub mod grid;
pub mod guards;
pub mod models;
pub mod nearby;
pub mod random;
pub mod search;
pub mod tactics;

pub use bot::Bot;
pub use conf::{BoardParams, BoardSize, GameInitError};
pub use first_move::FirstMove;
pub use game::Game;
pub use guards::RefererGuard;
pub use models::{Board, BotMove, Level, LevelQuery};
