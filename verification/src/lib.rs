//! The authoritative core of a small capture-the-flag arena game: the shared
//! world, the wire framing, the fixed-tick simulation and the bot controller.
//!
//! Positions are fixed-point integers (see [`geometry::UNIT`]); every public
//! function carries a contract over the mathematical view of the world.

pub mod bot;
pub mod boxes;
pub mod client;
mod clock;
pub mod combat;
pub mod geometry;
pub mod laws;
mod rng;
pub mod select;
pub mod protocol;
pub mod server;
pub mod shared;
pub mod simulation;
pub mod spots;
