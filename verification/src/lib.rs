//! A solver for small grid rooms with walls, a key-gated lock, kickable rocks,
//! destructible skeletons and parity-timed spikes.
//!
//! The crate is organised leaves first: coordinates and directions, a fixed
//! bitset over the cells of the room, the immutable and mutable halves of a
//! room, the move rules, and on top of these the searches that walk the graph
//! of reachable rooms.

pub mod coord;
pub mod coord_set;
pub mod room;
pub mod rules;
pub mod parse;
pub mod finite;
pub mod path;
pub mod graph;
pub mod search;
pub mod budget;
pub mod phased;
pub mod render;
