//! Monte Carlo tree search for deterministic games of two sides that move in
//! turn.
//!
//! A player explores the game from the position it has to decide in: it
//! selects a position that it knows little of, plays it out at random, and
//! credits the result to the record of that position. The records form a
//! graph that is kept from one decision to the next and pruned as the game
//! goes on. Statistics of a subgraph are summed on demand over the records
//! below a position, each counted once however many ways lead to it.
//!
//! - [`game`]: the sides, the conclusions, and the traits of positions and
//!   players;
//! - [`graph`]: the model of the store and of the transitions on it;
//! - [`node`], [`store`], [`pruning`]: the records and the store at work;
//! - [`sums`], [`aggregate`]: statistics of subgraphs;
//! - [`selection`], [`rollout`], [`decision`], [`search`]: the search;
//! - [`laws`]: what holds of the search as a whole;
//! - [`random`], [`adjudicator`]: the random player and the driver of a game;
//! - [`board`], [`tic_tac_toe`]: noughts and crosses.

pub mod adjudicator;
pub mod aggregate;
pub mod board;
pub mod decision;
pub mod game;
pub mod graph;
pub mod laws;
pub mod node;
pub mod pruning;
pub mod random;
pub mod rollout;
pub mod search;
pub mod selection;
pub mod store;
pub mod sums;
pub mod tic_tac_toe;
