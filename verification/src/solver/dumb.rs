//! The baseline solver as an object that hands out one move at a time.

use vstd::prelude::*;
use crate::instruction::Instruction;
use crate::sequence::rotated;
use crate::solver::naive_insert::{
    last_min_index, lemma_last_min_exists, naive_plan, pivot_of, shortest_rotation_of,
};
use crate::stack::Stack;
use crate::utils::{repeat_n, repeated};

verus! {

/// Where the solver stands between two moves.
pub enum DumbSolverState {
    /// Nothing is left to decide: these moves are handed out, the last one
    /// first, and that is all.
    Done(Vec<Instruction>),
    /// These moves are handed out, the last one first; then the solver
    /// looks at the stack again.
    Rotate(Vec<Instruction>),
    /// The solver looks at the stack.
    Looping,
}

/// The baseline solver at some point of its work.
pub struct DumbSolver<S: Stack> {
    stack: S,
    pushed: usize,
    state: DumbSolverState,
}

/// The shorter way to bring index `at` of `stack` to the top, as a move on A
/// and the number of times to make it.
pub fn rotation<S: Stack>(stack: &S, at: usize) -> (turn: (Instruction, usize))
    requires
        at <= stack@.len(),
    ensures
        (turn.0, turn.1 as int) == shortest_rotation_of(stack@.len() as int, at as int),
{
    let mid = stack.len() / 2;
    if at < mid {
        (Instruction::RotateA, at)
    } else {
        (Instruction::ReverseRotateA, stack.len() - at)
    }
}

/// The rotation that sorts `stack`, where its ring has a pivot.
pub fn sorted_rot<S: Stack>(stack: &S) -> (turn: Option<(Instruction, usize)>)
    ensures
        match turn {
            Some((instr, n)) => pivot_of(stack@) matches Some(i) && (instr, n as int)
                == shortest_rotation_of(stack@.len() as int, i),
            None => pivot_of(stack@).is_none(),
        },
{
    match stack.sorted_at() {
        Some(i) => {
            assert(pivot_of(stack@) == Some(i as int));
            Some(rotation(stack, i))
        },
        None => None,
    }
}

/// The moves that are still to come for A holding `a` when `pushed`
/// elements wait on B.
pub open spec fn moves_left(a: Seq<u32>, pushed: nat) -> Seq<Instruction> {
    naive_plan(a) + repeated(Instruction::PushA, pushed)
}

impl<S: Stack> DumbSolver<S> {
    /// The moves that the solver has yet to hand out, in their order.
    pub closed spec fn remaining(&self) -> Seq<Instruction> {
        match self.state {
            DumbSolverState::Done(queue) => queue@.reverse(),
            DumbSolverState::Rotate(queue) => queue@.reverse() + moves_left(
                self.stack@,
                self.pushed as nat,
            ),
            DumbSolverState::Looping => moves_left(self.stack@, self.pushed as nat),
        }
    }

    /// The count of elements on B and the stack fit the machine's word
    /// together.
    pub closed spec fn wf(&self) -> bool {
        self.pushed + self.stack@.len() <= usize::MAX
    }

    /// A solver for `stack` that has handed out nothing yet.
    pub fn new(stack: S) -> (solver: Self)
        ensures
            solver.wf(),
            solver.remaining() == naive_plan(stack@),
    {
        let _ = stack.len();
        assert(moves_left(stack@, 0) =~= naive_plan(stack@));
        DumbSolver { stack, pushed: 0, state: DumbSolverState::Looping }
    }

    /// Looks at the stack and decides what comes next.
    fn advance(&mut self)
        requires
            old(self).wf(),
            old(self).state is Looping,
        ensures
            final(self).wf(),
            final(self).remaining() == old(self).remaining(),
            !(final(self).state is Looping),
            final(self).state matches DumbSolverState::Rotate(queue) ==> queue@.len() > 0,
    {
        let ghost before = self.stack@;
        let ghost waiting = repeated(Instruction::PushA, self.pushed as nat);
        match self.stack.minimum() {
            None => {
                let leftover = repeat_n(Instruction::PushA, self.pushed);
                assert(leftover@.reverse() =~= waiting);
                assert(moves_left(before, self.pushed as nat) =~= waiting);
                self.state = DumbSolverState::Done(leftover);
            },
            Some((_, min_idx)) => {
                match sorted_rot(&self.stack) {
                    Some((instr, n)) => {
                        let mut leftover = repeat_n(Instruction::PushA, self.pushed);
                        let mut turn = repeat_n(instr, n);
                        leftover.append(&mut turn);
                        proof {
                            assert(leftover@.reverse() =~= repeated(instr, n as nat) + waiting);
                        }
                        self.state = DumbSolverState::Done(leftover);
                    },
                    None => {
                        let (instr, n) = rotation(&self.stack, min_idx);
                        self.stack.rotate_n(min_idx);
                        let _ = self.stack.pop();
                        let mut queue: Vec<Instruction> = Vec::new();
                        queue.push(Instruction::PushB);
                        let mut turn = repeat_n(instr, n);
                        queue.append(&mut turn);
                        proof {
                            lemma_last_min_exists(before);
                            assert(last_min_index(before) == min_idx as int);
                            assert(pivot_of(before).is_none());
                            assert(queue@.reverse() =~= repeated(instr, n as nat) + seq![
                                Instruction::PushB,
                            ]);
                            assert(repeated(Instruction::PushA, (self.pushed + 1) as nat)
                                =~= seq![Instruction::PushA] + waiting);
                            assert(queue@.reverse() + moves_left(
                                rotated(before, min_idx as int).drop_first(),
                                (self.pushed + 1) as nat,
                            ) =~= moves_left(before, self.pushed as nat));
                        }
                        self.pushed += 1;
                        self.state = DumbSolverState::Rotate(queue);
                    },
                }
            },
        }
    }

    /// Hands out the next move, or nothing when all moves are out.
    pub fn next(&mut self) -> (instr: Option<Instruction>)
        requires
            old(self).wf(),
        ensures
            final(self).wf(),
            match instr {
                Some(i) => old(self).remaining() == seq![i] + final(self).remaining(),
                None => old(self).remaining().len() == 0 && final(self).remaining().len() == 0,
            },
    {
        let spent = match &self.state {
            DumbSolverState::Rotate(queue) => queue.len() == 0,
            _ => false,
        };
        if spent {
            assert(self.remaining() =~= moves_left(self.stack@, self.pushed as nat));
            self.state = DumbSolverState::Looping;
        }
        let looping = match &self.state {
            DumbSolverState::Looping => true,
            _ => false,
        };
        if looping {
            self.advance();
        }
        let ghost left = moves_left(self.stack@, self.pushed as nat);
        match &mut self.state {
            DumbSolverState::Done(queue) => {
                let ghost full = queue@;
                let instr = queue.pop();
                proof {
                    if instr.is_some() {
                        assert(full.reverse() =~= seq![full.last()] + queue@.reverse());
                    }
                }
                instr
            },
            DumbSolverState::Rotate(queue) => {
                let ghost full = queue@;
                let instr = queue.pop();
                proof {
                    assert(full.reverse() + left =~= seq![full.last()] + (queue@.reverse()
                        + left));
                }
                instr
            },
            DumbSolverState::Looping => None,
        }
    }
}

} // verus!
