//! Layered key-and-lock maps on a grid.
//!
//! A map is a grid of rooms joined by connections. Rooms are laid down layer by
//! layer; passing from one layer into the next takes a key that lies in an
//! earlier layer. The generator builds such a map at random and backtracks when
//! a layer cannot be completed.
//!
//! - `pos`, `node`, `node_map`: positions, edges, connections, rooms, and the
//!   room map with its lookups.
//! - `generator`: the snapshots of a generation in progress, the steps of a
//!   layer advance, and `NodeMap::generate`.
//! - `layers`, `snapshot`, `wiring`, `advance`, `finish`, `grid`: what the
//!   generator maintains, stated over the mathematical views of map and
//!   snapshot, and the proofs that each step maintains it.
//! - `solvable`: what a finished map is, and why every room of it can be
//!   reached.
//! - `render`: what a renderer draws for each part of a cell.
//! - `random`: the random source, the one part that is believed and not
//!   proved.

pub mod advance;
pub mod finish;
pub mod generator;
pub mod grid;
pub mod layers;
pub mod node;
pub mod node_map;
pub mod pos;
pub mod random;
pub mod render;
pub mod snapshot;
pub mod solvable;
pub mod wiring;
