//! A verified core for a two-dimensional cellular-automaton simulation
//! (Conway's Game of Life): a run-length-encoded pattern decoder, a dense
//! rectangular board of byte cell states, a padded-grid simulation engine,
//! and the bootstrap step that centers a decoded pattern inside a dead
//! margin before the engine takes over.

pub mod board;
pub mod bootstrap;
pub mod decode;
pub mod engine;
pub mod error;

pub use board::Board;
pub use bootstrap::board_from_pattern;
pub use bootstrap::engine_from_pattern;
pub use decode::decode;
pub use decode::Pattern;
pub use engine::SimulationEngine;
pub use error::Error;
