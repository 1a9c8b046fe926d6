//! A branching search for small dominating sets of an undirected graph.
//!
//! The search picks an active vertex that no chosen vertex dominates and
//! tries each of its active neighbours in the solution. What it finds
//! dominates every vertex; it need not be a smallest dominating set, since
//! the picked vertex is not tried for itself.
//!
//! The crate keeps the state of the search incrementally: choosing a
//! vertex, barring a vertex and taking either step back each cost time
//! proportional to the degrees of the vertices touched. Every executable
//! function carries a contract over a mathematical model of that state.
//!
//! - [`fastset`]: the two kinds of membership set that the state is made of.
//! - [`graph`] and [`edge_list`]: the graph and the text form it is read from.
//! - [`context`]: the search state with its steps and its journal.
//! - [`solver`]: the branching search itself.
//! - [`board`], [`board_lemmas`], [`counting`]: the model of the state and
//!   the proofs about it.
//! - [`laws`]: what holds of every state that the steps can reach.

pub mod board;
pub mod board_lemmas;
pub mod context;
pub mod counting;
pub mod edge_list;
pub mod fastset;
pub mod graph;
pub mod laws;
pub mod solver;
