//! Tactical decision engine for a round-based hex-grid combat simulation.
//!
//! A small squad of bots must pick one radar, cannon or move action per
//! living bot each round, based only on the log of past rounds' events and
//! the engine's own past decisions.  The crate holds the hex geometry, the
//! pattern generators, the round-indexed history store, the tri-state
//! asteroid classifier and the priority-ordered decision ladder; transport
//! and message framing live outside it.
#![verifier::loop_isolation(false)]

pub mod attack;
pub mod bot;
pub mod defs;
pub mod engine;
pub mod evade;
pub mod lists;
pub mod patterns;
pub mod position;
pub mod radar;
pub mod rng;
pub mod scan;
pub mod tribool;
pub mod util;
