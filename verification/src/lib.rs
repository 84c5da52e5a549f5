//! A one-shot randomizer for game map data: it gathers the (item, amount)
//! pairs of every qualifying pickup entry across a set of map files, shuffles
//! them, and writes the shuffled pairs back into the same entry positions.
//!
//! The library holds the verified core: the tree model of a map file, the
//! filter that picks out pickup entries, the two traversal passes (collect and
//! apply), and the shuffle-and-redistribute driver. Reading directories and
//! parsing or writing the files themselves is left to the embedding program.
pub mod digits;
pub mod driver;
pub mod files;
pub mod node;
pub mod walk;

