//! A solver and a checker for the two-stack sorting puzzle: a permutation on
//! stack A is to be sorted with eleven moves on A and an auxiliary stack B.
//!
//! - `instruction`: the eleven moves and their tokens.
//! - `sequence`: what moves and queries mean on a plain sequence, and the
//!   laws of rotations and pivots.
//! - `stack`: the stack abstraction and its three containers.
//! - `utils`: the replay engine, which gives the moves their meaning.
//! - `checker`: reading moves from text and judging a replay.
//! - `solver`: two insertion solvers, whose moves are fixed by a plan and
//!   proved to sort, and two graph searches with what they share.
//! - `options`: the settings of a run.
//! - `text`: the plain text forms of numbers, stacks and moves.
//!
//! Every contract speaks of a stack's view: the sequence of its elements
//! from the top down.

pub mod checker;
pub mod instruction;
pub mod options;
pub mod sequence;
pub mod solver;
pub mod stack;
pub mod text;
pub mod utils;
