//! The replay engine: what each move does to the pair of stacks.

use vstd::prelude::*;
use crate::instruction::Instruction;
use crate::sequence::{
    lemma_rotated_none, lemma_rotated_step, lemma_rotated_step_back, reverse_rotated_once, rotated,
    rotated_once, swapped,
};
use crate::stack::Stack;

verus! {

/// Moves the top of `from` onto `to`; gives `(from, to)` as they then are.
/// Nothing moves when `from` is empty.
pub open spec fn moved_top(from: Seq<u32>, to: Seq<u32>) -> (Seq<u32>, Seq<u32>) {
    if from.len() == 0 {
        (from, to)
    } else {
        (from.drop_first(), seq![from[0]] + to)
    }
}

/// The stacks `(a, b)` after one move.
pub open spec fn apply(instr: Instruction, a: Seq<u32>, b: Seq<u32>) -> (Seq<u32>, Seq<u32>) {
    match instr {
        Instruction::PushA => (moved_top(b, a).1, moved_top(b, a).0),
        Instruction::PushB => moved_top(a, b),
        Instruction::SwapA => (swapped(a), b),
        Instruction::SwapB => (a, swapped(b)),
        Instruction::SwapBoth => (swapped(a), swapped(b)),
        Instruction::RotateA => (rotated_once(a), b),
        Instruction::RotateB => (a, rotated_once(b)),
        Instruction::RotateBoth => (rotated_once(a), rotated_once(b)),
        Instruction::ReverseRotateA => (reverse_rotated_once(a), b),
        Instruction::ReverseRotateB => (a, reverse_rotated_once(b)),
        Instruction::ReverseRotateBoth => (reverse_rotated_once(a), reverse_rotated_once(b)),
    }
}

/// The stacks `(a, b)` after the moves of `instrs`, made in their order.
pub open spec fn replay(instrs: Seq<Instruction>, a: Seq<u32>, b: Seq<u32>) -> (
    Seq<u32>,
    Seq<u32>,
)
    decreases instrs.len(),
{
    if instrs.len() == 0 {
        (a, b)
    } else {
        let before = replay(instrs.drop_last(), a, b);
        apply(instrs.last(), before.0, before.1)
    }
}

/// The puzzle is solved: A never descends and B is empty.
pub open spec fn solved(a: Seq<u32>, b: Seq<u32>) -> bool {
    crate::sequence::sorted(a) && b.len() == 0
}

/// `count` copies of `x`.
pub open spec fn repeated<T>(x: T, count: nat) -> Seq<T> {
    Seq::new(count, |i: int| x)
}

/// Replaying one more move is applying it to what the others left.
pub proof fn lemma_replay_push(instrs: Seq<Instruction>, last: Instruction, a: Seq<u32>, b: Seq<u32>)
    ensures
        replay(instrs.push(last), a, b) == apply(
            last,
            replay(instrs, a, b).0,
            replay(instrs, a, b).1,
        ),
{
    assert(instrs.push(last).drop_last() =~= instrs);
}

/// Replaying two runs of moves one after the other is replaying their
/// concatenation.
pub proof fn lemma_replay_concat(
    first: Seq<Instruction>,
    second: Seq<Instruction>,
    a: Seq<u32>,
    b: Seq<u32>,
)
    ensures
        replay(first + second, a, b) == replay(
            second,
            replay(first, a, b).0,
            replay(first, a, b).1,
        ),
    decreases second.len(),
{
    if second.len() == 0 {
        assert(first + second =~= first);
    } else {
        lemma_replay_concat(first, second.drop_last(), a, b);
        assert((first + second).drop_last() =~= first + second.drop_last());
    }
}

/// A run of `n` equal rotations turns the stacks it names by `n` places.
pub proof fn lemma_replay_rotations(n: nat, a: Seq<u32>, b: Seq<u32>)
    ensures
        n <= a.len() ==> replay(repeated(Instruction::RotateA, n), a, b) == (
            rotated(a, n as int),
            b,
        ),
        n <= b.len() ==> replay(repeated(Instruction::RotateB, n), a, b) == (
            a,
            rotated(b, n as int),
        ),
        n <= a.len() && n <= b.len() ==> replay(repeated(Instruction::RotateBoth, n), a, b) == (
            rotated(a, n as int),
            rotated(b, n as int),
        ),
        n <= a.len() ==> replay(repeated(Instruction::ReverseRotateA, n), a, b) == (
            rotated(a, a.len() - n),
            b,
        ),
        n <= b.len() ==> replay(repeated(Instruction::ReverseRotateB, n), a, b) == (
            a,
            rotated(b, b.len() - n),
        ),
        n <= a.len() && n <= b.len() ==> replay(
            repeated(Instruction::ReverseRotateBoth, n),
            a,
            b,
        ) == (rotated(a, a.len() - n), rotated(b, b.len() - n)),
{
    if n <= a.len() {
        lemma_replay_rotate_a(n, a, b);
        lemma_replay_reverse_a(n, a, b);
    }
    if n <= b.len() {
        lemma_replay_rotate_b(n, a, b);
        lemma_replay_reverse_b(n, a, b);
    }
    if n <= a.len() && n <= b.len() {
        lemma_replay_rotate_both(n, a, b);
        lemma_replay_reverse_both(n, a, b);
    }
}

/// `n` rotations of A turn it by `n` places.
pub proof fn lemma_replay_rotate_a(n: nat, a: Seq<u32>, b: Seq<u32>)
    requires
        n <= a.len(),
    ensures
        replay(repeated(Instruction::RotateA, n), a, b) == (rotated(a, n as int), b),
    decreases n,
{
    lemma_rotated_none(a);
    lemma_rotated_none(b);
    if n > 0 {
        lemma_replay_rotate_a(((n - 1) as nat), a, b);
        lemma_repeated_push(Instruction::RotateA, (n - 1) as nat, a, b);
        lemma_rotated_step(a, n - 1);
    }
}

/// `n` rotations of B turn it by `n` places.
pub proof fn lemma_replay_rotate_b(n: nat, a: Seq<u32>, b: Seq<u32>)
    requires
        n <= b.len(),
    ensures
        replay(repeated(Instruction::RotateB, n), a, b) == (a, rotated(b, n as int)),
    decreases n,
{
    lemma_rotated_none(a);
    lemma_rotated_none(b);
    if n > 0 {
        lemma_replay_rotate_b(((n - 1) as nat), a, b);
        lemma_repeated_push(Instruction::RotateB, (n - 1) as nat, a, b);
        lemma_rotated_step(b, n - 1);
    }
}

/// `n` rotations of both stacks turn each by `n` places.
pub proof fn lemma_replay_rotate_both(n: nat, a: Seq<u32>, b: Seq<u32>)
    requires
        n <= a.len() && n <= b.len(),
    ensures
        replay(repeated(Instruction::RotateBoth, n), a, b) == (rotated(a, n as int), rotated(b, n as int)),
    decreases n,
{
    lemma_rotated_none(a);
    lemma_rotated_none(b);
    if n > 0 {
        lemma_replay_rotate_both(((n - 1) as nat), a, b);
        lemma_repeated_push(Instruction::RotateBoth, (n - 1) as nat, a, b);
        lemma_rotated_step(a, n - 1);
        lemma_rotated_step(b, n - 1);
    }
}

/// `n` reverse rotations of A turn it back by `n` places.
pub proof fn lemma_replay_reverse_a(n: nat, a: Seq<u32>, b: Seq<u32>)
    requires
        n <= a.len(),
    ensures
        replay(repeated(Instruction::ReverseRotateA, n), a, b) == (rotated(a, a.len() - n), b),
    decreases n,
{
    lemma_rotated_none(a);
    lemma_rotated_none(b);
    if n > 0 {
        lemma_replay_reverse_a(((n - 1) as nat), a, b);
        lemma_repeated_push(Instruction::ReverseRotateA, (n - 1) as nat, a, b);
        lemma_rotated_step_back(a, a.len() - n + 1);
    }
}

/// `n` reverse rotations of B turn it back by `n` places.
pub proof fn lemma_replay_reverse_b(n: nat, a: Seq<u32>, b: Seq<u32>)
    requires
        n <= b.len(),
    ensures
        replay(repeated(Instruction::ReverseRotateB, n), a, b) == (a, rotated(b, b.len() - n)),
    decreases n,
{
    lemma_rotated_none(a);
    lemma_rotated_none(b);
    if n > 0 {
        lemma_replay_reverse_b(((n - 1) as nat), a, b);
        lemma_repeated_push(Instruction::ReverseRotateB, (n - 1) as nat, a, b);
        lemma_rotated_step_back(b, b.len() - n + 1);
    }
}

/// `n` reverse rotations of both stacks turn each back by `n` places.
pub proof fn lemma_replay_reverse_both(n: nat, a: Seq<u32>, b: Seq<u32>)
    requires
        n <= a.len() && n <= b.len(),
    ensures
        replay(repeated(Instruction::ReverseRotateBoth, n), a, b) == (rotated(a, a.len() - n), rotated(b, b.len() - n)),
    decreases n,
{
    lemma_rotated_none(a);
    lemma_rotated_none(b);
    if n > 0 {
        lemma_replay_reverse_both(((n - 1) as nat), a, b);
        lemma_repeated_push(Instruction::ReverseRotateBoth, (n - 1) as nat, a, b);
        lemma_rotated_step_back(a, a.len() - n + 1);
        lemma_rotated_step_back(b, b.len() - n + 1);
    }
}

proof fn lemma_repeated_push(instr: Instruction, m: nat, a: Seq<u32>, b: Seq<u32>)
    ensures
        replay(repeated(instr, m + 1), a, b) == apply(
            instr,
            replay(repeated(instr, m), a, b).0,
            replay(repeated(instr, m), a, b).1,
        ),
{
    assert(repeated(instr, m + 1) =~= repeated(instr, m).push(instr));
    lemma_replay_push(repeated(instr, m), instr, a, b);
}

/// Three runs of moves one after the other: where each leads is where the
/// whole leads.
pub proof fn lemma_replay_three(
    first: Seq<Instruction>,
    second: Seq<Instruction>,
    third: Seq<Instruction>,
    at: (Seq<u32>, Seq<u32>),
    after_first: (Seq<u32>, Seq<u32>),
    after_second: (Seq<u32>, Seq<u32>),
    after_third: (Seq<u32>, Seq<u32>),
)
    requires
        replay(first, at.0, at.1) == after_first,
        replay(second, after_first.0, after_first.1) == after_second,
        replay(third, after_second.0, after_second.1) == after_third,
    ensures
        replay(first + second + third, at.0, at.1) == after_third,
{
    lemma_replay_concat(first, second, at.0, at.1);
    lemma_replay_concat(first + second, third, at.0, at.1);
}

/// Makes one move on the pair of stacks.
pub fn execute<S: Stack>(instr: &Instruction, a: &mut S, b: &mut S)
    ensures
        (final(a)@, final(b)@) == apply(*instr, old(a)@, old(b)@),
{
    match instr {
        Instruction::PushA => {
            if let Some(n) = b.pop() {
                a.push(n);
            }
        },
        Instruction::PushB => {
            if let Some(n) = a.pop() {
                b.push(n);
            }
        },
        Instruction::SwapA => a.swap(),
        Instruction::SwapB => b.swap(),
        Instruction::SwapBoth => {
            a.swap();
            b.swap();
        },
        Instruction::RotateA => a.rotate(),
        Instruction::RotateB => b.rotate(),
        Instruction::RotateBoth => {
            a.rotate();
            b.rotate();
        },
        Instruction::ReverseRotateA => a.reverse_rotate(),
        Instruction::ReverseRotateB => b.reverse_rotate(),
        Instruction::ReverseRotateBoth => {
            a.reverse_rotate();
            b.reverse_rotate();
        },
    }
}

/// Makes the moves of `instrs` on the pair of stacks, in their order.
pub fn execute_all<S: Stack>(instrs: &Vec<Instruction>, a: &mut S, b: &mut S)
    ensures
        (final(a)@, final(b)@) == replay(instrs@, old(a)@, old(b)@),
{
    let n = instrs.len();
    let mut i: usize = 0;
    while i < n
        invariant
            i <= n,
            n == instrs@.len(),
            (a@, b@) == replay(instrs@.subrange(0, i as int), old(a)@, old(b)@),
        decreases n - i,
    {
        proof {
            lemma_replay_push(instrs@.subrange(0, i as int), instrs@[i as int], old(a)@, old(b)@);
            assert(instrs@.subrange(0, i as int).push(instrs@[i as int]) =~= instrs@.subrange(
                0,
                i + 1,
            ));
        }
        execute(&instrs[i], a, b);
        i += 1;
    }
    assert(instrs@.subrange(0, n as int) =~= instrs@);
}

/// A list of `n` copies of `t`.
pub fn repeat_n<T: Copy>(t: T, n: usize) -> (items: Vec<T>)
    ensures
        items@ == repeated(t, n as nat),
{
    let mut items: Vec<T> = Vec::new();
    let mut i: usize = 0;
    while i < n
        invariant
            i <= n,
            items@ == repeated(t, i as nat),
        decreases n - i,
    {
        items.push(t);
        assert(items@ =~= repeated(t, (i + 1) as nat));
        i += 1;
    }
    items
}

} // verus!
