//! What the graph searches share: the search node, its fingerprint, and the
//! rule that says which moves are worth trying after which.

use std::collections::hash_map::DefaultHasher;
use std::collections::HashSet;
use std::hash::Hasher;
use vstd::bytes::{spec_u32_to_le_bytes, spec_u64_to_le_bytes, u32_to_le_bytes, u64_to_le_bytes};
use vstd::prelude::*;
use vstd::std_specs::hash::DefaultHasherAdditionalSpecFns;
use crate::instruction::Instruction;
use crate::sequence::{distinct, reverse_rotated_once, rotated_once, swapped};
use crate::stack::Stack;
use crate::utils::{apply, execute, replay, solved};

verus! {

/// A position of the puzzle together with the moves that led to it.
pub struct Node<S: Stack> {
    pub a: S,
    pub b: S,
    pub instrs: Vec<Instruction>,
}

impl<S: Stack> Node<S> {
    /// The position that a search starts from: `stack` on A, nothing on B, no
    /// move made.
    pub fn new(stack: S) -> (node: Self)
        ensures
            node.a@ == stack@,
            node.b@ == Seq::<u32>::empty(),
            node.instrs@ == Seq::<Instruction>::empty(),
    {
        Node { a: stack, b: S::new(), instrs: Vec::new() }
    }

    /// The node reached its position from `(a, b)` by its own moves.
    pub open spec fn reached_from(&self, a: Seq<u32>, b: Seq<u32>) -> bool {
        (self.a@, self.b@) == replay(self.instrs@, a, b)
    }

    /// The node reached its position from `(a, b)` by its own moves, and
    /// each of them was allowed where it was made.
    pub open spec fn on_path_from(&self, a: Seq<u32>, b: Seq<u32>) -> bool {
        self.reached_from(a, b) && follows_rule(self.instrs@, a, b)
    }

    /// Whether two nodes stand for the same position, whatever the moves that
    /// led to them.
    pub fn same_position(&self, other: &Self) -> (same: bool)
        ensures
            same == (self.a@ == other.a@ && self.b@ == other.b@),
    {
        self.a.equals(&other.a) && self.b.equals(&other.b)
    }

    /// Whether the puzzle is solved at this node.
    pub fn is_goal(&self) -> (yes: bool)
        ensures
            yes == solved(self.a@, self.b@),
    {
        self.b.len() == 0 && self.a.is_sorted()
    }

    /// A second node with the same position and the same moves.
    pub fn duplicate(&self) -> (node: Self)
        ensures
            node.a@ == self.a@,
            node.b@ == self.b@,
            node.instrs@ == self.instrs@,
    {
        Node { a: self.a.duplicate(), b: self.b.duplicate(), instrs: copy_moves(&self.instrs) }
    }
}

/// A second list with the same moves.
pub fn copy_moves(moves: &Vec<Instruction>) -> (copy: Vec<Instruction>)
    ensures
        copy@ == moves@,
{
    let mut copy: Vec<Instruction> = Vec::new();
    let n = moves.len();
    let mut i: usize = 0;
    while i < n
        invariant
            i <= n,
            n == moves@.len(),
            copy@ == moves@.subrange(0, i as int),
        decreases n - i,
    {
        copy.push(moves[i]);
        assert(copy@ =~= moves@.subrange(0, i + 1));
        i += 1;
    }
    assert(moves@.subrange(0, n as int) =~= moves@);
    copy
}

/// What is written to the hasher for one stack: its length in eight bytes,
/// then each element in four.
pub open spec fn stack_writes(s: Seq<u32>) -> Seq<Seq<u8>> {
    seq![spec_u64_to_le_bytes(s.len() as u64)] + Seq::new(
        s.len(),
        |i: int| spec_u32_to_le_bytes(s[i]),
    )
}

/// The fingerprint of a position: the hash of what is written for A and
/// then for B. The moves that led to the position have no part in it.
pub open spec fn fingerprint(a: Seq<u32>, b: Seq<u32>) -> u64 {
    DefaultHasher::spec_finish(stack_writes(a) + stack_writes(b))
}

fn write_stack<S: Stack>(state: &mut DefaultHasher, stack: &S)
    ensures
        final(state)@ == old(state)@ + stack_writes(stack@),
{
    let items = stack.to_vec();
    let n = items.len();
    let prefix = u64_to_le_bytes(n as u64);
    state.write(prefix.as_slice());
    let mut i: usize = 0;
    while i < n
        invariant
            i <= n,
            n == items@.len(),
            items@ == stack@,
            state@ == old(state)@ + stack_writes(stack@).subrange(0, i + 1),
        decreases n - i,
    {
        let bytes = u32_to_le_bytes(items[i]);
        state.write(bytes.as_slice());
        assert(state@ =~= old(state)@ + stack_writes(stack@).subrange(0, i + 2));
        i += 1;
    }
    assert(stack_writes(stack@).subrange(0, n + 1) =~= stack_writes(stack@));
}

/// The fingerprint of a node's position.
pub fn hash<S: Stack>(node: &Node<S>) -> (h: u64)
    ensures
        h == fingerprint(node.a@, node.b@),
{
    let mut hasher = DefaultHasher::new();
    write_stack(&mut hasher, &node.a);
    write_stack(&mut hasher, &node.b);
    assert(hasher@ =~= stack_writes(node.a@) + stack_writes(node.b@));
    hasher.finish()
}

/// The fingerprints of the positions that a search has dealt with. Nothing
/// is ever taken out of it.
pub struct ClosedSet(HashSet<u64>);

impl ClosedSet {
    /// The fingerprints in the set.
    pub closed spec fn view(&self) -> Set<u64> {
        self.0@
    }

    /// The empty set.
    pub fn new() -> (set: Self)
        ensures
            set@ == Set::<u64>::empty(),
    {
        ClosedSet(HashSet::new())
    }

    /// Whether the fingerprint is in the set.
    pub fn contains(&self, h: u64) -> (found: bool)
        ensures
            found == self@.contains(h),
    {
        self.0.contains(&h)
    }

    /// Puts the fingerprint into the set. Every fingerprint that was in it
    /// stays in it.
    pub fn insert(&mut self, h: u64)
        ensures
            final(self)@ == old(self)@.insert(h),
            old(self)@.subset_of(final(self)@),
    {
        self.0.insert(h);
    }

    /// Puts all of `hashes` into the set. Every fingerprint that was in it
    /// stays in it.
    pub fn extend(&mut self, hashes: &Vec<u64>)
        ensures
            final(self)@ == old(self)@.union(hashes@.to_set()),
            old(self)@.subset_of(final(self)@),
    {
        let n = hashes.len();
        let mut i: usize = 0;
        while i < n
            invariant
                i <= n,
                n == hashes@.len(),
                self@ == old(self)@.union(hashes@.subrange(0, i as int).to_set()),
            decreases n - i,
        {
            self.0.insert(hashes[i]);
            proof {
                let before = hashes@.subrange(0, i as int);
                let after = hashes@.subrange(0, i + 1);
                assert(after =~= before.push(hashes@[i as int]));
                assert forall|x: u64| after.to_set().contains(x) <==> before.to_set().insert(
                    hashes@[i as int],
                ).contains(x) by {
                    if after.contains(x) {
                        let j = choose|j: int| 0 <= j < after.len() && after[j] == x;
                        if j < i {
                            assert(before[j] == x);
                        }
                    }
                    if before.contains(x) {
                        let j = choose|j: int| 0 <= j < before.len() && before[j] == x;
                        assert(after[j] == x);
                    }
                    if x == hashes@[i as int] {
                        assert(after[i as int] == x);
                    }
                }
                assert(self@ =~= old(self)@.union(after.to_set()));
            }
            i += 1;
        }
        assert(hashes@.subrange(0, n as int) =~= hashes@);
    }
}

/// The move is one of the three swaps.
pub open spec fn is_swap(i: Instruction) -> bool {
    i == Instruction::SwapA || i == Instruction::SwapB || i == Instruction::SwapBoth
}

/// The move is one of the three rotations.
pub open spec fn is_rotate(i: Instruction) -> bool {
    i == Instruction::RotateA || i == Instruction::RotateB || i == Instruction::RotateBoth
}

/// The move is one of the three reverse rotations.
pub open spec fn is_reverse_rotate(i: Instruction) -> bool {
    i == Instruction::ReverseRotateA || i == Instruction::ReverseRotateB || i
        == Instruction::ReverseRotateBoth
}

/// Whether `instr` is worth trying at a position with `a_len` elements on A
/// and `b_len` on B that was reached by `last`: the stacks it moves hold two
/// elements at least, and it would not plainly undo or repeat `last`.
pub open spec fn allowed(instr: Instruction, a_len: int, b_len: int, last: Instruction) -> bool {
    match instr {
        Instruction::PushA => b_len >= 1 && last != Instruction::PushB,
        Instruction::PushB => a_len >= 2 && last != Instruction::PushA,
        Instruction::SwapA => a_len >= 2 && !is_swap(last),
        Instruction::SwapB => b_len >= 2 && !is_swap(last),
        Instruction::SwapBoth => a_len >= 2 && b_len >= 2 && !is_swap(last),
        Instruction::RotateA => a_len >= 2 && !is_reverse_rotate(last),
        Instruction::RotateB => b_len >= 2 && !is_reverse_rotate(last),
        Instruction::RotateBoth => a_len >= 2 && b_len >= 2 && !is_reverse_rotate(last) && last
            != Instruction::RotateA && last != Instruction::RotateB,
        Instruction::ReverseRotateA => a_len >= 2 && !is_rotate(last),
        Instruction::ReverseRotateB => b_len >= 2 && !is_rotate(last),
        Instruction::ReverseRotateBoth => a_len >= 2 && b_len >= 2 && !is_rotate(last) && last
            != Instruction::ReverseRotateA && last != Instruction::ReverseRotateB,
    }
}

/// The moves in the order in which a search tries them.
pub open spec fn trial_order() -> Seq<Instruction> {
    seq![
        Instruction::PushA,
        Instruction::PushB,
        Instruction::SwapA,
        Instruction::SwapB,
        Instruction::SwapBoth,
        Instruction::RotateA,
        Instruction::RotateB,
        Instruction::RotateBoth,
        Instruction::ReverseRotateA,
        Instruction::ReverseRotateB,
        Instruction::ReverseRotateBoth,
    ]
}

/// The move that led to a position: the last of `instrs`, and `PushB` where
/// there is none.
pub open spec fn last_move(instrs: Seq<Instruction>) -> Instruction {
    if instrs.len() == 0 {
        Instruction::PushB
    } else {
        instrs.last()
    }
}

/// Those of the first `upto` moves of the trial order that are allowed,
/// in that order.
pub open spec fn accepted(a_len: int, b_len: int, last: Instruction, upto: int) -> Seq<Instruction>
    decreases upto,
{
    if upto <= 0 {
        Seq::empty()
    } else {
        let before = accepted(a_len, b_len, last, upto - 1);
        if allowed(trial_order()[upto - 1], a_len, b_len, last) {
            before.push(trial_order()[upto - 1])
        } else {
            before
        }
    }
}

/// From `(a, b)`, every move of `instrs` is allowed at the position where
/// it is made, after the move made before it.
pub open spec fn follows_rule(instrs: Seq<Instruction>, a: Seq<u32>, b: Seq<u32>) -> bool
    decreases instrs.len(),
{
    if instrs.len() == 0 {
        true
    } else {
        let before = instrs.drop_last();
        let at = replay(before, a, b);
        follows_rule(before, a, b) && allowed(
            instrs.last(),
            at.0.len() as int,
            at.1.len() as int,
            last_move(before),
        )
    }
}

/// Every node is on a path from `a` on A and nothing on B.
pub open spec fn all_on_path<S: Stack>(nodes: Seq<Node<S>>, a: Seq<u32>) -> bool {
    forall|k: int| 0 <= k < nodes.len() ==> (#[trigger] nodes[k]).on_path_from(a, Seq::empty())
}

/// The moves that are tried first of all, from `a` on A and nothing on B.
pub open spec fn first_moves(a: Seq<u32>) -> Seq<Instruction> {
    accepted(a.len() as int, 0, Instruction::PushB, 11)
}

/// Move `k` of the first moves solves the puzzle at once, and none before
/// it does.
pub open spec fn first_solving(a: Seq<u32>, k: int) -> bool {
    &&& 0 <= k < first_moves(a).len()
    &&& solved(
        apply(first_moves(a)[k], a, Seq::empty()).0,
        apply(first_moves(a)[k], a, Seq::empty()).1,
    )
    &&& forall|j: int|
        0 <= j < k ==> !solved(
            apply(#[trigger] first_moves(a)[j], a, Seq::empty()).0,
            apply(first_moves(a)[j], a, Seq::empty()).1,
        )
}

/// The accepted moves are allowed, and there are no more of them than were
/// tried.
pub proof fn lemma_accepted_allowed(a_len: int, b_len: int, last: Instruction, upto: int)
    requires
        0 <= upto,
    ensures
        accepted(a_len, b_len, last, upto).len() <= upto,
        forall|k: int|
            0 <= k < accepted(a_len, b_len, last, upto).len() ==> allowed(
                #[trigger] accepted(a_len, b_len, last, upto)[k],
                a_len,
                b_len,
                last,
            ),
    decreases upto,
{
    if upto > 0 {
        lemma_accepted_allowed(a_len, b_len, last, upto - 1);
    }
}

/// `child` is what `instr` makes of `parent`: the same moves and one more,
/// and the position that the move leads to.
pub open spec fn is_child<S: Stack>(child: Node<S>, parent: Node<S>, instr: Instruction) -> bool {
    &&& child.instrs@ == parent.instrs@.push(instr)
    &&& (child.a@, child.b@) == apply(instr, parent.a@, parent.b@)
}

/// Whether `instr` is one of `set`.
pub fn instr_among(instr: &Instruction, set: &[Instruction]) -> (found: bool)
    ensures
        found == set@.contains(*instr),
{
    let n = set.len();
    let mut i: usize = 0;
    while i < n
        invariant
            i <= n,
            n == set@.len(),
            forall|j: int| 0 <= j < i ==> set@[j] != *instr,
        decreases n - i,
    {
        if *instr == set[i] {
            return true;
        }
        i += 1;
    }
    false
}

fn among_swaps(instr: &Instruction) -> (found: bool)
    ensures
        found == is_swap(*instr),
{
    let set = [Instruction::SwapA, Instruction::SwapB, Instruction::SwapBoth];
    let found = instr_among(instr, set.as_slice());
    proof {
        assert(set@[0] == Instruction::SwapA);
        assert(set@[1] == Instruction::SwapB);
        assert(set@[2] == Instruction::SwapBoth);
    }
    found
}

fn among_rotations(instr: &Instruction) -> (found: bool)
    ensures
        found == is_rotate(*instr),
{
    let set = [Instruction::RotateA, Instruction::RotateB, Instruction::RotateBoth];
    let found = instr_among(instr, set.as_slice());
    proof {
        assert(set@[0] == Instruction::RotateA);
        assert(set@[1] == Instruction::RotateB);
        assert(set@[2] == Instruction::RotateBoth);
    }
    found
}

fn among_reverse_rotations(instr: &Instruction) -> (found: bool)
    ensures
        found == is_reverse_rotate(*instr),
{
    let set = [
        Instruction::ReverseRotateA,
        Instruction::ReverseRotateB,
        Instruction::ReverseRotateBoth,
    ];
    let found = instr_among(instr, set.as_slice());
    proof {
        assert(set@[0] == Instruction::ReverseRotateA);
        assert(set@[1] == Instruction::ReverseRotateB);
        assert(set@[2] == Instruction::ReverseRotateBoth);
    }
    found
}

/// Whether `instr` is worth trying after `last` on stacks of these lengths.
pub fn is_allowed(instr: &Instruction, a_len: usize, b_len: usize, last: &Instruction) -> (yes:
    bool)
    ensures
        yes == allowed(*instr, a_len as int, b_len as int, *last),
{
    match instr {
        Instruction::PushA => b_len > 0 && *last != Instruction::PushB,
        Instruction::PushB => a_len >= 2 && *last != Instruction::PushA,
        Instruction::SwapA => a_len >= 2 && !among_swaps(last),
        Instruction::SwapB => b_len >= 2 && !among_swaps(last),
        Instruction::SwapBoth => a_len >= 2 && b_len >= 2 && !among_swaps(last),
        Instruction::RotateA => a_len >= 2 && !among_reverse_rotations(last),
        Instruction::RotateB => b_len >= 2 && !among_reverse_rotations(last),
        Instruction::RotateBoth => a_len >= 2 && b_len >= 2 && !among_reverse_rotations(last)
            && *last != Instruction::RotateA && *last != Instruction::RotateB,
        Instruction::ReverseRotateA => a_len >= 2 && !among_rotations(last),
        Instruction::ReverseRotateB => b_len >= 2 && !among_rotations(last),
        Instruction::ReverseRotateBoth => a_len >= 2 && b_len >= 2 && !among_rotations(last)
            && *last != Instruction::ReverseRotateA && *last != Instruction::ReverseRotateB,
    }
}

/// The move at place `k` of the trial order.
pub fn trial(k: usize) -> (instr: Instruction)
    requires
        k < 11,
    ensures
        instr == trial_order()[k as int],
{
    if k == 0 {
        Instruction::PushA
    } else if k == 1 {
        Instruction::PushB
    } else if k == 2 {
        Instruction::SwapA
    } else if k == 3 {
        Instruction::SwapB
    } else if k == 4 {
        Instruction::SwapBoth
    } else if k == 5 {
        Instruction::RotateA
    } else if k == 6 {
        Instruction::RotateB
    } else if k == 7 {
        Instruction::RotateBoth
    } else if k == 8 {
        Instruction::ReverseRotateA
    } else if k == 9 {
        Instruction::ReverseRotateB
    } else {
        Instruction::ReverseRotateBoth
    }
}

/// The nodes that the allowed moves lead to from `node`, in the trial order.
pub fn neighbors<S: Stack>(node: Node<S>) -> (next: Vec<Node<S>>)
    ensures
        next@.len() == accepted(
            node.a@.len() as int,
            node.b@.len() as int,
            last_move(node.instrs@),
            11,
        ).len(),
        forall|k: int|
            0 <= k < next@.len() ==> is_child(
                #[trigger] next@[k],
                node,
                accepted(
                    node.a@.len() as int,
                    node.b@.len() as int,
                    last_move(node.instrs@),
                    11,
                )[k],
            ),
{
    let a_len = node.a.len();
    let b_len = node.b.len();
    let last_instr = if node.instrs.len() == 0 {
        Instruction::PushB
    } else {
        node.instrs[node.instrs.len() - 1]
    };
    let mut next: Vec<Node<S>> = Vec::new();
    let mut k: usize = 0;
    while k < 11
        invariant
            k <= 11,
            a_len == node.a@.len(),
            b_len == node.b@.len(),
            last_instr == last_move(node.instrs@),
            next@.len() == accepted(a_len as int, b_len as int, last_instr, k as int).len(),
            forall|j: int|
                0 <= j < next@.len() ==> is_child(
                    #[trigger] next@[j],
                    node,
                    accepted(a_len as int, b_len as int, last_instr, k as int)[j],
                ),
        decreases 11 - k,
    {
        let instr = trial(k);
        if is_allowed(&instr, a_len, b_len, &last_instr) {
            let child = transform_instr(&instr, &node);
            next.push(child);
        }
        k += 1;
    }
    next
}

/// The node that `instr` leads to from `n`.
pub fn transform_instr<S: Stack>(instr: &Instruction, n: &Node<S>) -> (node: Node<S>)
    ensures
        is_child(node, *n, *instr),
{
    let mut node = n.duplicate();
    node.instrs.push(*instr);
    execute(instr, &mut node.a, &mut node.b);
    node
}

/// A child that an allowed move makes of a node on a path from a starting
/// position is on a path from it too.
pub proof fn lemma_child_on_path<S: Stack>(
    child: Node<S>,
    parent: Node<S>,
    instr: Instruction,
    a: Seq<u32>,
    b: Seq<u32>,
)
    requires
        parent.on_path_from(a, b),
        is_child(child, parent, instr),
        allowed(
            instr,
            parent.a@.len() as int,
            parent.b@.len() as int,
            last_move(parent.instrs@),
        ),
    ensures
        child.on_path_from(a, b),
{
    crate::utils::lemma_replay_push(parent.instrs@, instr, a, b);
    assert(parent.instrs@.push(instr).drop_last() =~= parent.instrs@);
}

/// What a move that is no push does to one stack.
pub enum Turn {
    Keep,
    Swap,
    Forward,
    Backward,
}

/// The stack after the turn.
pub open spec fn turned(s: Seq<u32>, t: Turn) -> Seq<u32> {
    match t {
        Turn::Keep => s,
        Turn::Swap => swapped(s),
        Turn::Forward => rotated_once(s),
        Turn::Backward => reverse_rotated_once(s),
    }
}

/// Whether the move is a push.
pub open spec fn is_push(i: Instruction) -> bool {
    i == Instruction::PushA || i == Instruction::PushB
}

/// What the move does to A.
pub open spec fn turn_of_a(i: Instruction) -> Turn {
    match i {
        Instruction::SwapA | Instruction::SwapBoth => Turn::Swap,
        Instruction::RotateA | Instruction::RotateBoth => Turn::Forward,
        Instruction::ReverseRotateA | Instruction::ReverseRotateBoth => Turn::Backward,
        _ => Turn::Keep,
    }
}

/// What the move does to B.
pub open spec fn turn_of_b(i: Instruction) -> Turn {
    match i {
        Instruction::SwapB | Instruction::SwapBoth => Turn::Swap,
        Instruction::RotateB | Instruction::RotateBoth => Turn::Forward,
        Instruction::ReverseRotateB | Instruction::ReverseRotateBoth => Turn::Backward,
        _ => Turn::Keep,
    }
}

/// The second turn undoes the first on every stack.
pub open spec fn undoes(first: Turn, second: Turn) -> bool {
    match (first, second) {
        (Turn::Keep, Turn::Keep) => true,
        (Turn::Swap, Turn::Swap) => true,
        (Turn::Forward, Turn::Backward) => true,
        (Turn::Backward, Turn::Forward) => true,
        _ => false,
    }
}

/// Two turns in a row give a stack of distinct elements back as it was in
/// two cases only: the second undoes the first, or both move a stack of
/// exactly two elements.
pub proof fn lemma_two_turns(s: Seq<u32>, first: Turn, second: Turn)
    requires
        distinct(s),
        first != Turn::Keep || second != Turn::Keep ==> s.len() >= 2,
    ensures
        turned(turned(s, first), second) == s <==> undoes(first, second) || (s.len() == 2 && first
            != Turn::Keep && second != Turn::Keep),
{
    let mid = turned(s, first);
    let end = turned(mid, second);
    let n = s.len() as int;
    if first == Turn::Keep && second == Turn::Keep {
    } else if n == 2 {
        assert(s[0] != s[1]);
        if first == Turn::Keep || second == Turn::Keep {
            assert(end[0] == s[1]);
        } else {
            assert(mid =~= seq![s[1], s[0]]);
            assert(end =~= s);
        }
    } else {
        assert(s[0] != s[1] && s[0] != s[2] && s[1] != s[2]);
        assert(s[0] != s[n - 1] && s[0] != s[n - 2] && s[1] != s[n - 1]);
        match (first, second) {
            (Turn::Keep, Turn::Swap) | (Turn::Swap, Turn::Keep) => {
                assert(end[0] == s[1]);
            },
            (Turn::Keep, Turn::Forward) | (Turn::Forward, Turn::Keep) => {
                assert(end[0] == s[1]);
            },
            (Turn::Keep, Turn::Backward) | (Turn::Backward, Turn::Keep) => {
                assert(end[0] == s[n - 1]);
            },
            (Turn::Swap, Turn::Swap) => {
                assert(end =~= s);
            },
            (Turn::Swap, Turn::Forward) => {
                assert(end[1] == s[2]);
            },
            (Turn::Swap, Turn::Backward) => {
                assert(end[0] == s[n - 1]);
            },
            (Turn::Forward, Turn::Swap) => {
                assert(end[0] == s[2]);
            },
            (Turn::Forward, Turn::Forward) => {
                assert(end[0] == s[2]);
            },
            (Turn::Forward, Turn::Backward) => {
                assert(end =~= s);
            },
            (Turn::Backward, Turn::Swap) => {
                assert(end[1] == s[n - 1]);
            },
            (Turn::Backward, Turn::Forward) => {
                assert(end =~= s);
            },
            (Turn::Backward, Turn::Backward) => {
                assert(end[0] == s[n - 2]);
            },
            (Turn::Keep, Turn::Keep) => {},
        }
    }
}

/// An allowed move never leads back to the position before the last move,
/// but when both moves act on the same stacks and each of these holds
/// exactly two elements.
///
/// `(a, b)` is the position before `last`, which was itself allowed there
/// after `before`, and `next` is allowed after `last`. Neither stack holds
/// an element twice.
pub proof fn lemma_pruning_sound(
    a: Seq<u32>,
    b: Seq<u32>,
    before: Instruction,
    last: Instruction,
    next: Instruction,
)
    requires
        distinct(a),
        distinct(b),
        allowed(last, a.len() as int, b.len() as int, before),
        allowed(
            next,
            apply(last, a, b).0.len() as int,
            apply(last, a, b).1.len() as int,
            last,
        ),
    ensures
        ({
            let at = apply(last, a, b);
            apply(next, at.0, at.1) == (a, b) <==> {
                &&& !is_push(last)
                &&& !is_push(next)
                &&& (turn_of_a(last) == Turn::Keep <==> turn_of_a(next) == Turn::Keep)
                &&& (turn_of_b(last) == Turn::Keep <==> turn_of_b(next) == Turn::Keep)
                &&& (turn_of_a(next) != Turn::Keep ==> a.len() == 2)
                &&& (turn_of_b(next) != Turn::Keep ==> b.len() == 2)
            }
        }),
{
    let at = apply(last, a, b);
    let end = apply(next, at.0, at.1);
    if is_push(last) || is_push(next) {
        assert(end.0.len() != a.len() || end.1.len() != b.len());
    } else {
        assert(at == (turned(a, turn_of_a(last)), turned(b, turn_of_b(last))));
        assert(end == (turned(at.0, turn_of_a(next)), turned(at.1, turn_of_b(next))));
        lemma_two_turns(a, turn_of_a(last), turn_of_a(next));
        lemma_two_turns(b, turn_of_b(last), turn_of_b(next));
    }
}

} // verus!
