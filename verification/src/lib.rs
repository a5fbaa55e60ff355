//! The rules of a multiplayer snake game that is played over a network.

pub mod arena;
pub mod chance;
pub mod grid;
pub mod init;
pub mod laws;
pub mod laws_play;
pub mod laws_round;
pub mod laws_steps;
pub mod laws_turn;
pub mod laws_world;
pub mod packet;
pub mod peers;
pub mod refill;
pub mod screen;
pub mod server;
pub mod snaek;
pub mod update;
