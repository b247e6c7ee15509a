//! A simulated Kademlia-style distributed hash table.
//!
//! Peers are named by random 128-bit identifiers and ordered by XOR distance
//! to a target. They discover each other through iterative lookups and keep
//! values for each other. Everything a peer or the network decides is a
//! verified function over a mathematical model:
//!
//! - [`ident`]: identifiers, tokens and the metric, with its laws;
//! - [`message`]: the envelopes that peers exchange;
//! - [`closest`], [`lists`], [`fresh`]: ordering by closeness, list helpers,
//!   and picking a value that is not in use;
//! - [`routing`]: what a peer knows of other peers;
//! - [`node`]: the engine of one peer, a step at a time;
//! - [`lookup`]: the coordinator of an iterative lookup;
//! - [`network`]: the registry of live peers and the operations on it;
//! - [`laws`], [`round_trip`]: what holds of the network as a whole;
//! - [`value`]: what a stored value must offer;
//! - `chance`: the random draws, the only code that is not verified.
//!
//! The library never waits. Whoever runs a peer over a real medium feeds it
//! the envelopes that arrive and tells it when a deadline has passed.

mod chance;
pub mod closest;
pub mod fresh;
pub mod ident;
pub mod laws;
pub mod lists;
pub mod lookup;
pub mod message;
pub mod network;
pub mod node;
pub mod round_trip;
pub mod routing;
pub mod value;
