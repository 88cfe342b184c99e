//! Predecessor search for Conway's Game of Life on a toroidal board.
//!
//! Given a target board, the [`searcher::Searcher`] enumerates boards whose successor
//! under one step of Life is the target. It decides one cell at a time and lets a
//! [`guess::Guess`] propagate what each decision forces on the cells around it. A
//! [`chain::Population`] repeats the search on what it finds, and so builds chains
//! of boards that each come before the next.
//!
//! The modules [`torus`], [`propagation`] and [`machine`] hold the mathematical
//! models that the contracts speak of; [`soundness`] and [`completeness`] prove that
//! every board found is a predecessor and that no predecessor is lost, and [`progress`]
//! that the search finds each of them after finitely many calls and then ends.

pub mod board;
pub mod chain;
pub mod completeness;
pub mod grid;
pub mod guess;
pub mod machine;
pub mod progress;
pub mod propagation;
pub mod render;
pub mod searcher;
pub mod soundness;
pub mod string;
pub mod torus;
