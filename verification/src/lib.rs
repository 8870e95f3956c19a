//! A crowd-voted chess backend library.
//!
//! Spectators connect over WebSockets and propose moves during a timed
//! voting window; a funnel aggregates the votes, forwards one per round to
//! a chess engine, and rebroadcasts the engine's state updates to every
//! client.  This crate holds the verified core: the data model, the chess
//! rule validator, the engine state machine with checkmate detection, the
//! JSON wire codec, and the funnel's client table, vote protocol and
//! scheduler.  Socket handling and configuration loading live outside.

pub mod model;
pub mod rules;
pub mod engine;
pub mod codec;
pub mod table;
pub mod funnel;
