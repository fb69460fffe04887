//! Reversi: a rule engine for the board game and the state of a server that
//! hosts many games at once.

pub mod board;
pub mod console;
pub mod dispatch;
pub mod message;
pub mod registry;
pub mod session;
