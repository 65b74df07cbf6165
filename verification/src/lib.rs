//! Core of a two-player Othello/Reversi match-making and relay service:
//! the board rules engine, the framed packet codec, the login registry,
//! the match-maker, the per-game relay and the client login sequence.

pub mod board;
pub mod cli_config;
pub mod cli_game;
pub mod codec;
pub mod command;
pub mod game;
pub mod gamehandler;
pub mod lobby;
pub mod login;
pub mod mailbox;
pub mod master;
pub mod nethandler;
pub mod packets;
pub mod score;
pub mod srv_config;

pub use board::Piece;
