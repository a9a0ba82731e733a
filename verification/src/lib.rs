//! A DPLL satisfiability solver with two-watched-literal unit propagation.
//!
//! The solver itself is in `dpll`, on the data of `literal`, `tagged`,
//! `clause` and `order`, with `preprocess` and `setup` before the search and
//! `dimacs` for its input. `model` says what satisfiability is and `state`
//! what the engine's invariants are; `ascending`, `invariants`, `propagation`,
//! `backtrack`, `search` and `answer` hold the proofs, and `laws` states
//! what follows for the users of the engine.

pub mod tagged;
pub mod literal;
pub mod clause;
pub mod order;
pub mod model;
pub mod state;
pub mod ascending;
pub mod invariants;
pub mod propagation;
pub mod backtrack;
pub mod search;
pub mod preprocess;
pub mod setup;
pub mod answer;
pub mod dimacs;
pub mod dpll;
pub mod laws;
