//! The baseline solver: move the smallest element to B again and again, then
//! bring everything back.

use vstd::prelude::*;
use crate::instruction::Instruction;
use crate::sequence::{
    last_min_at, lemma_least_on_top, lemma_pivot_sorts, lemma_rotated_elements, rotated,
    sole_descent, sorted,
};
use crate::stack::Stack;
use crate::utils::{
    apply, lemma_replay_concat, lemma_replay_push, lemma_replay_rotations, repeat_n, repeated,
    replay, solved,
};

verus! {

/// The shorter way to bring index `at` of a stack of `len` elements to the
/// top: the move to repeat, and how often.
pub open spec fn shortest_rotation_of(len: int, at: int) -> (Instruction, int) {
    if at < len / 2 {
        (Instruction::RotateA, at)
    } else {
        (Instruction::ReverseRotateA, len - at)
    }
}

/// The moves that bring index `at` of A to the top by the shorter way.
pub open spec fn rotation_to(len: int, at: int) -> Seq<Instruction> {
    repeated(shortest_rotation_of(len, at).0, shortest_rotation_of(len, at).1 as nat)
}

/// The pivot of the ring, if it has one.
pub open spec fn pivot_of(s: Seq<u32>) -> Option<int> {
    if exists|i: int| sole_descent(s, i) {
        Some(choose|i: int| sole_descent(s, i))
    } else {
        None
    }
}

/// The index of the last occurrence of the smallest element.
pub open spec fn last_min_index(s: Seq<u32>) -> int {
    choose|i: int| last_min_at(s, i)
}

/// The moves of the baseline solver for A holding `a`.
///
/// Where the ring of A has a pivot, A is turned to it and that is all.
/// Otherwise the smallest element is turned to the top and pushed to B, the
/// rest is solved in the same way, and the element comes back last.
pub open spec fn naive_plan(a: Seq<u32>) -> Seq<Instruction>
    decreases a.len(),
{
    if a.len() == 0 {
        Seq::empty()
    } else {
        match pivot_of(a) {
            Some(i) => rotation_to(a.len() as int, i),
            None => {
                let m = last_min_index(a);
                proof {
                    lemma_last_min_exists(a);
                }
                rotation_to(a.len() as int, m) + seq![Instruction::PushB] + naive_plan(
                    rotated(a, m).drop_first(),
                ) + seq![Instruction::PushA]
            },
        }
    }
}

/// A sequence that is not empty has a last occurrence of its smallest element.
pub proof fn lemma_last_min_exists(s: Seq<u32>)
    requires
        s.len() > 0,
    ensures
        last_min_at(s, last_min_index(s)),
    decreases s.len(),
{
    if s.len() == 1 {
        assert(last_min_at(s, 0));
    } else {
        let t = s.drop_last();
        lemma_last_min_exists(t);
        let i = last_min_index(t);
        if s.last() <= t[i] {
            assert(last_min_at(s, s.len() - 1)) by {
                let x = s.last();
                assert forall|j: int| 0 <= j < s.len() implies x <= #[trigger] s[j] by {
                    if j < t.len() {
                        assert(t[i] <= t[j]);
                    }
                }
            }
        } else {
            assert(last_min_at(s, i)) by {
                assert forall|j: int| 0 <= j < s.len() implies s[i] <= s[j] by {
                    if j < t.len() {
                        assert(t[i] <= t[j]);
                    }
                }
                assert forall|j: int| i < j < s.len() implies s[i] < s[j] by {
                    if j < t.len() {
                        assert(t[i] < t[j]);
                    }
                }
            }
        }
    }
}

/// Where the ring of `a` has a pivot, the moves lead to `a` turned to it.
proof fn lemma_naive_pivot_case(a: Seq<u32>, b: Seq<u32>, i: int)
    requires
        a.len() > 0,
        pivot_of(a) == Some(i),
    ensures
        replay(naive_plan(a), a, b) == (rotated(a, i), b),
        sorted(rotated(a, i)),
{
    lemma_replay_rotations(shortest_rotation_of(a.len() as int, i).1 as nat, a, b);
    lemma_pivot_sorts(a, i);
}

/// Where the ring of `a` has no pivot, the moves take the smallest element
/// to B, do what is to be done for the rest, and put the element back on
/// top.
proof fn lemma_naive_push_case(a: Seq<u32>, b: Seq<u32>)
    requires
        a.len() > 0,
        pivot_of(a).is_none(),
    ensures
        ({
            let m = last_min_index(a);
            let rest = rotated(a, m).drop_first();
            let held = seq![a[m]] + b;
            let after = replay(naive_plan(rest), rest, held);
            replay(naive_plan(a), a, b) == apply(Instruction::PushA, after.0, after.1)
        }),
{
    lemma_last_min_exists(a);
    let len = a.len() as int;
    let m = last_min_index(a);
    let turn = rotation_to(len, m);
    let rest = rotated(a, m).drop_first();
    let held = seq![a[m]] + b;
    lemma_replay_rotations(shortest_rotation_of(len, m).1 as nat, a, b);
    assert(replay(turn, a, b) == (rotated(a, m), b));
    lemma_replay_push(turn, Instruction::PushB, a, b);
    let first = turn.push(Instruction::PushB);
    assert(first =~= turn + seq![Instruction::PushB]);
    assert(replay(first, a, b) == (rest, held));
    lemma_replay_concat(first, naive_plan(rest), a, b);
    let most = first + naive_plan(rest);
    lemma_replay_push(most, Instruction::PushA, a, b);
    assert(most.push(Instruction::PushA) =~= naive_plan(a));
}

/// The moves of the baseline solver sort A and leave B as it was: replayed
/// on any `a` and `b`, they end with A sorted, holding only elements of `a`,
/// and with B equal to `b`.
pub proof fn lemma_naive_plan_sorts(a: Seq<u32>, b: Seq<u32>)
    ensures
        sorted(replay(naive_plan(a), a, b).0),
        replay(naive_plan(a), a, b).0.len() == a.len(),
        forall|x: u32| replay(naive_plan(a), a, b).0.contains(x) ==> a.contains(x),
        replay(naive_plan(a), a, b).1 == b,
    decreases a.len(),
{
    if a.len() > 0 {
        match pivot_of(a) {
            Some(i) => {
                lemma_naive_pivot_case(a, b, i);
                lemma_rotated_elements(a, i);
            },
            None => {
                lemma_last_min_exists(a);
                let m = last_min_index(a);
                let rest = rotated(a, m).drop_first();
                let held = seq![a[m]] + b;
                lemma_naive_plan_sorts(rest, held);
                lemma_naive_push_case(a, b);
                lemma_rotated_elements(a, m);
                let back = replay(naive_plan(rest), rest, held).0;
                assert(held.drop_first() =~= b);
                assert forall|x: u32| back.contains(x) implies a[m] <= x by {
                    assert(a.contains(x));
                    let k = choose|k: int| 0 <= k < a.len() && a[k] == x;
                    assert(a[m] <= a[k]);
                }
                lemma_least_on_top(a[m], back);
                assert(a.contains(a[m]));
            },
        }
    }
}

/// Replayed on A holding `a` and an empty B, the moves of the baseline solver
/// solve the puzzle.
pub proof fn lemma_naive_plan_solves(a: Seq<u32>)
    ensures
        solved(
            replay(naive_plan(a), a, Seq::empty()).0,
            replay(naive_plan(a), a, Seq::empty()).1,
        ),
{
    lemma_naive_plan_sorts(a, Seq::empty());
}

/// The shorter way to bring index `at` of `stack` to the top, as a move on A
/// and the number of times to make it.
pub fn shortest_rotation<S: Stack>(stack: &S, at: usize) -> (turn: (Instruction, usize))
    requires
        at <= stack@.len(),
    ensures
        (turn.0, turn.1 as int) == shortest_rotation_of(stack@.len() as int, at as int),
{
    let len = stack.len();
    let mid = len / 2;
    if at < mid {
        (Instruction::RotateA, at)
    } else {
        (Instruction::ReverseRotateA, len - at)
    }
}

/// Solves the puzzle for `stack` by repeated selection of the smallest
/// element.
pub fn naive_insert<S: Stack>(stack: S) -> (instrs: Vec<Instruction>)
    ensures
        instrs@ == naive_plan(stack@),
        solved(
            replay(instrs@, stack@, Seq::empty()).0,
            replay(instrs@, stack@, Seq::empty()).1,
        ),
{
    let ghost start = stack@;
    let mut stack = stack;
    let total = stack.len();
    let mut instrs: Vec<Instruction> = Vec::new();
    let mut pushed: usize = 0;
    let mut open = true;
    while open
        invariant
            pushed + stack@.len() <= total,
            naive_plan(start) =~= instrs@ + (if open {
                naive_plan(stack@)
            } else {
                Seq::empty()
            }) + repeated(Instruction::PushA, pushed as nat),
        decreases stack@.len() + (if open { 1int } else { 0int }),
    {
        let ghost before = stack@;
        let ghost done = instrs@;
        let ghost tail = repeated(Instruction::PushA, pushed as nat);
        match stack.minimum() {
            None => {
                open = false;
            },
            Some((_, min_idx)) => {
                match stack.sorted_at() {
                    Some(rot_idx) => {
                        let (instr, n) = shortest_rotation(&stack, rot_idx);
                        let mut turn = repeat_n(instr, n);
                        instrs.append(&mut turn);
                        open = false;
                        assert(pivot_of(before) == Some(rot_idx as int));
                    },
                    None => {
                        let (instr, n) = shortest_rotation(&stack, min_idx);
                        stack.rotate_n(min_idx);
                        let _ = stack.pop();
                        let mut turn = repeat_n(instr, n);
                        instrs.append(&mut turn);
                        instrs.push(Instruction::PushB);
                        pushed += 1;
                        proof {
                            lemma_last_min_exists(before);
                            assert(last_min_index(before) == min_idx as int);
                            assert(pivot_of(before).is_none());
                            assert(repeated(Instruction::PushA, pushed as nat) =~= seq![
                                Instruction::PushA,
                            ] + tail);
                        }
                    },
                }
            },
        }
    }
    let mut back = repeat_n(Instruction::PushA, pushed);
    instrs.append(&mut back);
    proof {
        lemma_naive_plan_solves(start);
    }
    instrs
}

} // verus!
