//! The sequential graph search: breadth first over the positions, each
//! fingerprint dealt with once.

use std::collections::VecDeque;
use vstd::prelude::*;
use crate::instruction::Instruction;
use crate::solver::utils::{
    accepted, all_on_path, fingerprint, first_moves, first_solving, follows_rule, hash, last_move,
    lemma_accepted_allowed, lemma_child_on_path, neighbors, ClosedSet, Node,
};
use crate::stack::Stack;
use crate::utils::{apply, replay, solved};

verus! {

/// The node is what move `k` of the first moves makes of the seed of a
/// search from `a`.
pub open spec fn is_first_child<S: Stack>(node: Node<S>, a: Seq<u32>, k: int) -> bool {
    &&& 0 <= k < first_moves(a).len()
    &&& node.instrs@ == seq![first_moves(a)[k]]
    &&& (node.a@, node.b@) == apply(first_moves(a)[k], a, Seq::empty())
}

/// The node that move `k` of the first moves makes of the seed waits at
/// `pos` of the open set, behind nodes that solve nothing.
pub open spec fn waits_at<S: Stack>(open: Seq<Node<S>>, pos: int, a: Seq<u32>, k: int) -> bool {
    &&& 0 <= pos < open.len()
    &&& is_first_child(open[pos], a, k)
    &&& forall|j: int| 0 <= j < pos ==> !solved((#[trigger] open[j]).a@, open[j].b@)
}

/// Move `k` of the first moves is what a search from `a` is bound to find:
/// `a` is not sorted, the move solves the puzzle at once and none before it
/// does, and the position it leads to is told apart from the seed's by its
/// fingerprint.
pub open spec fn bound_to_find(a: Seq<u32>, k: int) -> bool {
    &&& !solved(a, Seq::empty())
    &&& first_solving(a, k)
    &&& fingerprint(
        apply(first_moves(a)[k], a, Seq::empty()).0,
        apply(first_moves(a)[k], a, Seq::empty()).1,
    ) != fingerprint(a, Seq::empty())
}

/// Searches breadth first for moves that solve the puzzle for `stack`.
///
/// The moves that come back solve it, and each of them was allowed where
/// it was made. For a stack that is sorted already they are none, and for
/// no other. Where one of the first moves solves the puzzle, the first such
/// move comes back, if only the fingerprint tells its position from the
/// seed's. Nothing comes back when the search runs out of positions to
/// try, which two positions with one fingerprint can bring about, or when
/// it has looked at as many nodes as a machine word counts.
pub fn astar<S: Stack>(stack: S) -> (found: Option<Vec<Instruction>>)
    ensures
        match found {
            Some(instrs) => solved(
                replay(instrs@, stack@, Seq::empty()).0,
                replay(instrs@, stack@, Seq::empty()).1,
            ) && follows_rule(instrs@, stack@, Seq::empty()),
            None => !solved(stack@, Seq::empty()),
        },
        solved(stack@, Seq::empty()) <==> (found matches Some(instrs) && instrs@.len() == 0),
        forall|k: int|
            bound_to_find(stack@, k) ==> (found matches Some(instrs) && instrs@ == seq![
                first_moves(stack@)[k],
            ]),
{
    let ghost start = stack@;
    let ghost none = Seq::<u32>::empty();
    let ghost hunting = exists|k: int| bound_to_find(start, k);
    let ghost target = if hunting {
        choose|k: int| bound_to_find(start, k)
    } else {
        0
    };
    let ghost mut pos: int = 0;
    let mut open_set: VecDeque<Node<S>> = VecDeque::new();
    let mut closed_set = ClosedSet::new();
    open_set.push_back(Node::new(stack));
    let ghost mut first = true;
    let mut steps: usize = 0;
    while steps < usize::MAX
        invariant
            start == stack@,
            none == Seq::<u32>::empty(),
            hunting == exists|k: int| bound_to_find(start, k),
            hunting ==> bound_to_find(start, target),
            all_on_path(open_set@, start),
            first ==> steps == 0 && open_set@.len() == 1 && open_set@[0].instrs@.len() == 0
                && open_set@[0].a@ == start && open_set@[0].b@ == none && closed_set@
                == Set::<u64>::empty(),
            !first ==> !solved(start, none),
            hunting && !first ==> waits_at(open_set@, pos, start, target) && steps + pos <= 12,
        decreases usize::MAX - steps,
    {
        steps += 1;
        match open_set.pop_front() {
            None => {
                return None;
            },
            Some(node) => {
                if node.is_goal() {
                    proof {
                        if hunting && !first {
                            assert(pos == 0);
                            lemma_target_is_unique(start, target);
                        }
                    }
                    return Some(node.instrs);
                }
                proof {
                    if hunting && !first {
                        assert(pos > 0);
                        pos = pos - 1;
                    }
                }
                closed_set.insert(hash(&node));
                let ghost parent = node;
                let mut children = neighbors(node);
                let ghost all = children@;
                let ghost moves = accepted(
                    parent.a@.len() as int,
                    parent.b@.len() as int,
                    last_move(parent.instrs@),
                    11,
                );
                let ghost mut taken: int = 0;
                proof {
                    lemma_accepted_allowed(
                        parent.a@.len() as int,
                        parent.b@.len() as int,
                        last_move(parent.instrs@),
                        11,
                    );
                    assert forall|k: int| 0 <= k < children@.len() implies (
                    #[trigger] children@[k]).on_path_from(start, Seq::empty()) by {
                        lemma_child_on_path(children@[k], parent, moves[k], start, none);
                    }
                    if first {
                        assert(parent.instrs@ =~= Seq::<Instruction>::empty());
                        assert(moves == first_moves(start));
                        assert forall|k: int| 0 <= k < all.len() implies is_first_child(
                            #[trigger] all[k],
                            start,
                            k,
                        ) by {
                            assert(all[k].instrs@ =~= seq![first_moves(start)[k]]);
                        }
                    }
                }
                while children.len() > 0
                    invariant
                        0 <= taken <= all.len(),
                        children@ == all.subrange(taken, all.len() as int),
                        none == Seq::<u32>::empty(),
                        steps >= 1,
                        all_on_path(open_set@, start),
                        all_on_path(children@, start),
                        hunting ==> bound_to_find(start, target),
                        hunting && !first ==> waits_at(open_set@, pos, start, target) && steps
                            + pos <= 12,
                        first ==> steps == 1 && closed_set@ == set![fingerprint(start, none)]
                            && all.len() == first_moves(start).len() && all.len() <= 11
                            && forall|k: int|
                            0 <= k < all.len() ==> is_first_child(#[trigger] all[k], start, k),
                        hunting && first && taken <= target ==> open_set@.len() <= taken
                            && forall|j: int|
                            0 <= j < open_set@.len() ==> !solved(
                                (#[trigger] open_set@[j]).a@,
                                open_set@[j].b@,
                            ),
                        hunting && first && taken > target ==> waits_at(
                            open_set@,
                            pos,
                            start,
                            target,
                        ) && pos <= target,
                    decreases children@.len(),
                {
                    let child = children.remove(0);
                    proof {
                        assert(child == all[taken]);
                        assert(children@ =~= all.subrange(taken + 1, all.len() as int));
                        if first {
                            assert(is_first_child(all[taken], start, taken));
                        }
                    }
                    if !closed_set.contains(hash(&child)) {
                        let ghost waiting = open_set@;
                        proof {
                            if hunting && first && taken == target {
                                pos = open_set@.len() as int;
                            }
                        }
                        open_set.push_back(child);
                        assert forall|j: int| 0 <= j < waiting.len() implies open_set@[j]
                            == waiting[j] by {}
                    }
                    proof {
                        if hunting && first && taken < target {
                            assert(!solved(child.a@, child.b@));
                        }
                        taken = taken + 1;
                    }
                }
                proof {
                    first = false;
                }
            },
        }
    }
    None
}

/// Only one of the first moves is the first to solve the puzzle.
proof fn lemma_target_is_unique(a: Seq<u32>, k: int)
    requires
        bound_to_find(a, k),
    ensures
        forall|j: int| bound_to_find(a, j) ==> j == k,
{
}

} // verus!
