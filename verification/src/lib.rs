//! An authoritative multiplayer arena server: clients connect over a
//! message-based transport, send movement and fire intents, and the server
//! simulates a shared 2D world at a fixed tick rate, broadcasting the
//! resulting state to every connected client.
//!
//! All world-space quantities are fixed-point integers counted in
//! milli-pixels (one pixel is [`math::SCALE`] units), so that every step of
//! the simulation and of the wire codec is exact integer arithmetic.

pub mod events;
pub mod gamestate;
pub mod json;
pub mod message;
pub mod math;

pub use math::SCALE;
