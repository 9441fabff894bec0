//! Search engine for counterexamples to spectral graph conjectures.
//!
//! Each conjecture says that the largest eigenvalue of the Laplacian matrix of
//! a graph is at least some expression in the degrees of the graph. The score
//! of a graph is the eigenvalue less that expression, and a graph whose score
//! is above `1e-4` refutes the conjecture.
//!
//! The library holds everything about the search that is exact: the graph
//! under construction and the moves that extend it, the integers that a score
//! is computed from, and the decisions of six search strategies. Scores
//! themselves are floating-point numbers and are computed by the caller. They
//! reach the library as [`score::Score`] keys, which order as the doubles do,
//! and the library only ever compares them.
//!
//! A strategy is driven from outside: the library says which state is to be
//! scored or rolled out next, the caller does it and hands the result back,
//! and the library says what follows from it.
//!
//! - [`graph`], [`state`], [`enumerate`], [`builders`]: graphs, moves, states.
//! - [`degree`], [`conjecture`]: what scores are made of.
//! - [`harness`], [`playout`], [`chance`]: what the strategies share.
//! - [`nmcs`], [`nrpa`], [`grave`] with [`table`], [`bfs`], [`ils`], [`cmaes`]:
//!   the strategies.

pub mod bfs;
pub mod builders;
pub mod chance;
pub mod cmaes;
pub mod conjecture;
pub mod degree;
pub mod enumerate;
pub mod grave;
pub mod graph;
pub mod harness;
pub mod ils;
pub mod nmcs;
pub mod nrpa;
pub mod playout;
pub mod score;
pub mod state;
pub mod table;
