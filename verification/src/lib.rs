//! A turn-based arena simulator for a two-team hero game, with the
//! grid geometry it rests on (line tracing, line of sight, standing room),
//! the enumeration of team moves used by a tree search, and a shortest-path
//! solver for grid labyrinths.
pub mod utils;
pub mod protocol;
pub mod simulator;
pub mod mcts;
pub mod labyrinth;
pub mod bot;
pub mod archive;
