//! The conqr.io rules, a lighter ruleset of the same game: no lobby, no
//! match clock and no trail deaths reported to others; a claim fills its
//! rows by scanline parity.
pub mod shared;
pub mod client;
pub mod server;
