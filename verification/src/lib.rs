//! A verified scoreboard for a keyword-counting chat bot.
//!
//! The library keeps a per-user tally together with a running total,
//! renders the slash-command responses, encodes and decodes the persisted
//! snapshot, and decides for every inbound gateway event what the bot must
//! do.  Everything that touches the network or the backing store stays
//! outside; the library works on plain values and is verified end to end.

pub mod codec;
pub mod commands;
pub mod digits;
pub mod events;
pub mod ranking;
pub mod store;
