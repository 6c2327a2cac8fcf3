//! A 4x4 sliding-tile merge puzzle and an expectimax player for it.
//!
//! `game` holds the board engine: moves with merging, legal actions and
//! random spawns. `ai` holds the verified parts of the player: the search
//! tree's nodes, leaves and children, the chance-node candidates and their
//! sampling, and the integer features of the position heuristic. `laws`
//! states and proves properties that relate several of these. `chance`
//! holds the calls into the random number generator.
pub mod ai;
pub mod chance;
pub mod game;
pub mod laws;
