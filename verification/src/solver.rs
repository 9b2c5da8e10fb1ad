//! The solvers: each turns a stack into a list of moves that sorts it.

use vstd::prelude::*;
use crate::instruction::Instruction;
use crate::options::SolveStrategy;
use crate::sequence::distinct;
use crate::solver::astar::{astar, bound_to_find};
use crate::solver::naive_insert::{naive_insert, naive_plan};
use crate::solver::par_astar::par_astar;
use crate::solver::smart_insert::{smart_insert, smart_plan};
use crate::solver::utils::{first_moves, first_solving, follows_rule};
use crate::stack::Stack;
use crate::utils::{replay, solved};

pub mod astar;
pub mod dumb;
pub mod naive_insert;
pub mod par_astar;
pub mod parallel_astar;
pub mod smart_insert;
pub mod utils;

verus! {

/// `num_cpus::get` of the crate num_cpus: the number of logical processors
/// that the machine offers to this process. Nothing is claimed of the
/// number: it differs from machine to machine and from run to run.
#[verifier::external_body]
fn available_threads() -> (count: usize) {
    num_cpus::get()
}

/// Solves the puzzle for `stack` with the solver that `strategy` names;
/// `n_threads` is the number of extra workers of the parallel search.
///
/// Whatever the container behind `stack`: where no element occurs twice, the
/// moves that come back solve the puzzle, and the insertion solvers give
/// the moves of their plans, which depend on the elements alone. A search
/// may come back with nothing; what it gives solves the puzzle by moves
/// that were each allowed where they were made, and the sequential search
/// gives no move at all for a stack that is sorted already, and for no
/// other. Where one of the first moves solves the puzzle, the searches give
/// the first such move: the parallel one always, the sequential one if the
/// fingerprint tells the solved position from the seed's.
pub fn solve_with<S: Stack>(strategy: &SolveStrategy, n_threads: usize, stack: S) -> (found:
    Option<Vec<Instruction>>)
    ensures
        *strategy == SolveStrategy::NaiveInsert ==> (found matches Some(instrs) && instrs@
            == naive_plan(stack@)),
        *strategy == SolveStrategy::SmartInsert ==> (found matches Some(instrs) && instrs@
            == smart_plan(stack@, Seq::empty())),
        *strategy == SolveStrategy::AStar || *strategy == SolveStrategy::ParAStar ==> (
        found matches Some(instrs) ==> solved(
            replay(instrs@, stack@, Seq::empty()).0,
            replay(instrs@, stack@, Seq::empty()).1,
        ) && follows_rule(instrs@, stack@, Seq::empty())),
        *strategy == SolveStrategy::AStar ==> (solved(stack@, Seq::empty()) <==> (
        found matches Some(instrs) && instrs@.len() == 0)) && (found.is_none() ==> !solved(
            stack@,
            Seq::empty(),
        )),
        *strategy == SolveStrategy::AStar ==> forall|k: int|
            bound_to_find(stack@, k) ==> (found matches Some(instrs) && instrs@ == seq![
                first_moves(stack@)[k],
            ]),
        *strategy == SolveStrategy::ParAStar ==> forall|k: int|
            first_solving(stack@, k) ==> (found matches Some(instrs) && instrs@ == seq![
                first_moves(stack@)[k],
            ]),
        distinct(stack@) ==> (found matches Some(instrs) ==> solved(
            replay(instrs@, stack@, Seq::empty()).0,
            replay(instrs@, stack@, Seq::empty()).1,
        )),
{
    match strategy {
        SolveStrategy::AStar => astar(stack),
        SolveStrategy::NaiveInsert => Some(naive_insert(stack)),
        SolveStrategy::SmartInsert => Some(smart_insert(stack)),
        SolveStrategy::ParAStar => par_astar(n_threads, stack),
    }
}

/// Solves the puzzle for `stack` with the solver that `strategy` names.
/// Where `par_threads` gives no number, the parallel search takes as many
/// extra workers as the machine has processors.
///
/// What comes back is what `solve_with` gives for that number, so it holds
/// whatever the machine: where no element occurs twice, the moves solve
/// the puzzle, and the insertion solvers give the moves of their plans.
pub fn solve<S: Stack>(strategy: &SolveStrategy, par_threads: Option<usize>, stack: S) -> (found:
    Option<Vec<Instruction>>)
    ensures
        *strategy == SolveStrategy::NaiveInsert ==> (found matches Some(instrs) && instrs@
            == naive_plan(stack@)),
        *strategy == SolveStrategy::SmartInsert ==> (found matches Some(instrs) && instrs@
            == smart_plan(stack@, Seq::empty())),
        *strategy == SolveStrategy::AStar || *strategy == SolveStrategy::ParAStar ==> (
        found matches Some(instrs) ==> solved(
            replay(instrs@, stack@, Seq::empty()).0,
            replay(instrs@, stack@, Seq::empty()).1,
        ) && follows_rule(instrs@, stack@, Seq::empty())),
        *strategy == SolveStrategy::AStar ==> (solved(stack@, Seq::empty()) <==> (
        found matches Some(instrs) && instrs@.len() == 0)) && (found.is_none() ==> !solved(
            stack@,
            Seq::empty(),
        )),
        *strategy == SolveStrategy::AStar ==> forall|k: int|
            bound_to_find(stack@, k) ==> (found matches Some(instrs) && instrs@ == seq![
                first_moves(stack@)[k],
            ]),
        *strategy == SolveStrategy::ParAStar ==> forall|k: int|
            first_solving(stack@, k) ==> (found matches Some(instrs) && instrs@ == seq![
                first_moves(stack@)[k],
            ]),
        distinct(stack@) ==> (found matches Some(instrs) ==> solved(
            replay(instrs@, stack@, Seq::empty()).0,
            replay(instrs@, stack@, Seq::empty()).1,
        )),
{
    let n_threads = match par_threads {
        Some(n) => n,
        None => available_threads(),
    };
    solve_with(strategy, n_threads, stack)
}

} // verus!
