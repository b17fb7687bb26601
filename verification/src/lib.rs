//! Game rules of a multiplayer territory-conquest game on a square grid:
//! the shared protocol types, the client's movement, trail and claim rules,
//! and the server's lobby, join and territory bookkeeping.
//!
//! Positions are held in quarter pixels (one unit is 0.25 px): every
//! position the game itself produces (start squares, moves of 0.75 px,
//! clamping to the field, respawn squares) is a whole number of quarter
//! pixels, so the rules run on exact integers.


pub mod shared;
pub mod region;
pub mod field;
pub mod board;
pub mod rng;
pub mod client;
pub mod server;
pub mod conqr;
pub mod laws;
