//! The parallel graph search, as its steps: what a worker makes of one node,
//! and a run of the whole protocol on the calling thread.

use std::collections::VecDeque;
use vstd::prelude::*;
use crate::instruction::Instruction;
use crate::solver::parallel_astar::{
    first_goal_at, no_goal, nodes_of, Dispatch, ParallelAstar,
};
use crate::solver::utils::{
    accepted, all_on_path, allowed, fingerprint, first_moves, first_solving, follows_rule, hash,
    is_child, last_move, lemma_accepted_allowed, lemma_child_on_path, neighbors, ClosedSet, Node,
};
use crate::stack::Stack;
use crate::utils::{apply, replay, solved};

verus! {

/// Those of `moves` that lead from `(a, b)` to a position whose fingerprint
/// is not in `closed`, in their order.
pub open spec fn fresh(moves: Seq<Instruction>, a: Seq<u32>, b: Seq<u32>, closed: Set<u64>) -> Seq<
    Instruction,
>
    decreases moves.len(),
{
    if moves.len() == 0 {
        Seq::empty()
    } else {
        let before = fresh(moves.drop_last(), a, b, closed);
        let at = apply(moves.last(), a, b);
        if closed.contains(fingerprint(at.0, at.1)) {
            before
        } else {
            before.push(moves.last())
        }
    }
}

/// What is left of allowed moves is allowed.
pub proof fn lemma_fresh_allowed(
    moves: Seq<Instruction>,
    a: Seq<u32>,
    b: Seq<u32>,
    closed: Set<u64>,
    last: Instruction,
)
    requires
        forall|j: int| 0 <= j < moves.len() ==> allowed(
            #[trigger] moves[j],
            a.len() as int,
            b.len() as int,
            last,
        ),
    ensures
        fresh(moves, a, b, closed).len() <= moves.len(),
        forall|k: int|
            0 <= k < fresh(moves, a, b, closed).len() ==> allowed(
                #[trigger] fresh(moves, a, b, closed)[k],
                a.len() as int,
                b.len() as int,
                last,
            ),
    decreases moves.len(),
{
    if moves.len() > 0 {
        assert forall|j: int| 0 <= j < moves.drop_last().len() implies allowed(
            #[trigger] moves.drop_last()[j],
            a.len() as int,
            b.len() as int,
            last,
        ) by {
            assert(moves.drop_last()[j] == moves[j]);
        }
        lemma_fresh_allowed(moves.drop_last(), a, b, closed, last);
        assert(allowed(moves[moves.len() - 1], a.len() as int, b.len() as int, last));
    }
}

/// The moves that a worker follows from a node: the allowed ones that lead
/// to a fingerprint not in `closed`.
pub open spec fn worth_following<S: Stack>(node: Node<S>, closed: Set<u64>) -> Seq<Instruction> {
    fresh(
        accepted(node.a@.len() as int, node.b@.len() as int, last_move(node.instrs@), 11),
        node.a@,
        node.b@,
        closed,
    )
}

/// A worker's step: the neighbours of `node` whose fingerprints are not in
/// the closed set, each with its fingerprint, in the trial order.
pub fn compute_neighbors<S: Stack>(node: Node<S>, closed_set: &ClosedSet) -> (batch: Vec<
    (Node<S>, u64),
>)
    ensures
        batch@.len() == worth_following(node, closed_set@).len(),
        forall|k: int|
            0 <= k < batch@.len() ==> is_child(
                (#[trigger] batch@[k]).0,
                node,
                worth_following(node, closed_set@)[k],
            ) && batch@[k].1 == fingerprint(batch@[k].0.a@, batch@[k].0.b@),
{
    let ghost moves = accepted(
        node.a@.len() as int,
        node.b@.len() as int,
        last_move(node.instrs@),
        11,
    );
    let mut children = neighbors(node);
    let ghost all = children@;
    let ghost mut taken: int = 0;
    let mut batch: Vec<(Node<S>, u64)> = Vec::new();
    while children.len() > 0
        invariant
            0 <= taken <= all.len(),
            all.len() == moves.len(),
            children@ == all.subrange(taken, all.len() as int),
            forall|k: int| 0 <= k < all.len() ==> is_child(#[trigger] all[k], node, moves[k]),
            batch@.len() == fresh(moves.subrange(0, taken), node.a@, node.b@, closed_set@).len(),
            forall|k: int|
                0 <= k < batch@.len() ==> is_child(
                    (#[trigger] batch@[k]).0,
                    node,
                    fresh(moves.subrange(0, taken), node.a@, node.b@, closed_set@)[k],
                ) && batch@[k].1 == fingerprint(batch@[k].0.a@, batch@[k].0.b@),
        decreases children@.len(),
    {
        let child = children.remove(0);
        let h = hash(&child);
        proof {
            assert(child == all[taken]);
            assert(moves.subrange(0, taken + 1).drop_last() =~= moves.subrange(0, taken));
            assert(children@ =~= all.subrange(taken + 1, all.len() as int));
            taken = taken + 1;
        }
        if !closed_set.contains(h) {
            batch.push((child, h));
        }
    }
    assert(moves.subrange(0, taken) =~= moves);
    batch
}

/// The node is the seed of a search from `a`.
pub open spec fn is_seed<S: Stack>(node: Node<S>, a: Seq<u32>) -> bool {
    node.a@ == a && node.b@ == Seq::<u32>::empty() && node.instrs@ == Seq::<Instruction>::empty()
}

/// The batch is what a worker makes of the seed while nothing is closed:
/// one node for each of the first moves.
pub open spec fn seed_batch<S: Stack>(batch: Seq<(Node<S>, u64)>, a: Seq<u32>) -> bool {
    &&& batch.len() == first_moves(a).len()
    &&& forall|k: int|
        0 <= k < batch.len() ==> (#[trigger] batch[k]).0.instrs@ == seq![first_moves(a)[k]] && (
            batch[k].0.a@,
            batch[k].0.b@,
        ) == apply(first_moves(a)[k], a, Seq::empty())
}

/// While nothing is closed, every move is worth following.
pub proof fn lemma_fresh_of_nothing(moves: Seq<Instruction>, a: Seq<u32>, b: Seq<u32>)
    ensures
        fresh(moves, a, b, Set::empty()) == moves,
    decreases moves.len(),
{
    if moves.len() > 0 {
        lemma_fresh_of_nothing(moves.drop_last(), a, b);
        assert(moves.drop_last().push(moves.last()) =~= moves);
    }
}

/// Runs the parallel search for `stack` on the calling thread: in each
/// round as many nodes as there are workers leave the open set, every one
/// is made into a batch against the closed set as it then stands, and the
/// coordinator takes the batches in.
///
/// The moves that come back solve the puzzle, and each of them was allowed
/// where it was made. Where one of the first moves solves the puzzle, the
/// first such move comes back. Nothing comes back when the open set runs
/// empty: the seed itself is never looked at, so a stack that is sorted
/// already is passed over, and two positions with one fingerprint can hide
/// a way. Nothing comes back either after as many rounds as a machine word
/// counts, or when the counts of nodes no longer fit one.
pub fn par_astar<S: Stack>(extra_worker_count: usize, stack: S) -> (found: Option<
    Vec<Instruction>,
>)
    ensures
        found matches Some(instrs) ==> solved(
            replay(instrs@, stack@, Seq::empty()).0,
            replay(instrs@, stack@, Seq::empty()).1,
        ) && follows_rule(instrs@, stack@, Seq::empty()),
        forall|k: int|
            first_solving(stack@, k) ==> (found matches Some(instrs) && instrs@ == seq![
                first_moves(stack@)[k],
            ]),
{
    let ghost start = stack@;
    let n_threads: usize = if extra_worker_count <= usize::MAX - 2 {
        extra_worker_count + 2
    } else {
        usize::MAX
    };
    let mut search = ParallelAstar::new(n_threads, stack);
    let workers = search.extra_worker_count() + 1;
    let mut closed_set = ClosedSet::new();
    let mut open_set: VecDeque<Node<S>> = VecDeque::new();
    if let Some(seed) = search.take_seed() {
        assert(seed.b@ =~= Seq::<u32>::empty());
        assert(seed.instrs@ =~= Seq::<Instruction>::empty());
        assert(seed.on_path_from(start, Seq::empty()));
        open_set.push_back(seed);
    }
    let ghost mut first = true;
    let mut steps: usize = 0;
    while steps < usize::MAX
        invariant
            start == stack@,
            workers >= 1,
            search.wf(),
            search.in_flight() == open_set@.len(),
            all_on_path(open_set@, start),
            all_on_path(search.gathered(), start),
            first ==> steps == 0 && open_set@.len() == 1 && is_seed(open_set@[0], start)
                && closed_set@ == Set::<u64>::empty() && search.gathered().len() == 0,
            !first ==> forall|k: int| !first_solving(start, k),
        decreases usize::MAX - steps,
    {
        steps += 1;
        // the workers take their nodes
        let mut stolen: Vec<Node<S>> = Vec::new();
        while stolen.len() < workers && open_set.len() > 0
            invariant
                search.in_flight() == open_set@.len() + stolen@.len(),
                all_on_path(open_set@, start),
                all_on_path(stolen@, start),
                first ==> open_set@.len() + stolen@.len() == 1,
                first && open_set@.len() == 1 ==> is_seed(open_set@[0], start),
                first && stolen@.len() == 1 ==> is_seed(stolen@[0], start),
            decreases open_set@.len(),
        {
            if let Some(node) = open_set.pop_front() {
                stolen.push(node);
            }
        }
        if stolen.len() == 0 {
            return None;
        }
        // each worker makes its batch
        let mut batches: Vec<Vec<(Node<S>, u64)>> = Vec::new();
        while stolen.len() > 0
            invariant
                search.in_flight() == open_set@.len() + stolen@.len() + batches@.len(),
                all_on_path(stolen@, start),
                forall|i: int|
                    0 <= i < batches@.len() ==> all_on_path(
                        nodes_of((#[trigger] batches@[i])@),
                        start,
                    ),
                first ==> stolen@.len() + batches@.len() == 1 && closed_set@ == Set::<
                    u64,
                >::empty(),
                first && stolen@.len() == 1 ==> is_seed(stolen@[0], start),
                first && batches@.len() == 1 ==> seed_batch(batches@[0]@, start),
            decreases stolen@.len(),
        {
            let node = stolen.remove(0);
            let ghost parent = node;
            let batch = compute_neighbors(node, &closed_set);
            proof {
                let last = last_move(parent.instrs@);
                let moves = accepted(parent.a@.len() as int, parent.b@.len() as int, last, 11);
                lemma_accepted_allowed(
                    parent.a@.len() as int,
                    parent.b@.len() as int,
                    last,
                    11,
                );
                lemma_fresh_allowed(moves, parent.a@, parent.b@, closed_set@, last);
                assert forall|k: int| 0 <= k < batch@.len() implies (#[trigger] nodes_of(
                    batch@,
                )[k]).on_path_from(start, Seq::empty()) by {
                    lemma_child_on_path(
                        batch@[k].0,
                        parent,
                        worth_following(parent, closed_set@)[k],
                        start,
                        Seq::empty(),
                    );
                }
                if first {
                    lemma_fresh_of_nothing(moves, parent.a@, parent.b@);
                    assert(moves == first_moves(start));
                    assert forall|k: int| 0 <= k < batch@.len() implies (
                    #[trigger] batch@[k]).0.instrs@ == seq![first_moves(start)[k]] by {
                        assert(batch@[k].0.instrs@ =~= seq![first_moves(start)[k]]);
                    }
                }
            }
            batches.push(batch);
        }
        // the coordinator takes the batches in
        while batches.len() > 0
            invariant
                start == stack@,
                search.wf(),
                search.in_flight() == open_set@.len() + batches@.len(),
                all_on_path(open_set@, start),
                all_on_path(search.gathered(), start),
                forall|i: int|
                    0 <= i < batches@.len() ==> all_on_path(
                        nodes_of((#[trigger] batches@[i])@),
                        start,
                    ),
                first ==> batches@.len() == 1 && seed_batch(batches@[0]@, start) && open_set@.len()
                    == 0 && search.gathered().len() == 0,
                !first ==> forall|k: int| !first_solving(start, k),
            decreases batches@.len(),
        {
            let batch = batches.remove(0);
            let ghost taken_in = batch@;
            let ghost gathered = search.gathered();
            proof {
                lemma_accepted_allowed(start.len() as int, 0, Instruction::PushB, 11);
            }
            if !search.can_receive(batch.len()) {
                return None;
            }
            match search.receive(batch) {
                Dispatch::Found(instrs) => {
                    proof {
                        if first {
                            let hit = choose|k: int|
                                first_goal_at(nodes_of(taken_in), k) && instrs@ == (
                                #[trigger] nodes_of(taken_in)[k]).instrs@;
                            assert forall|k: int| first_solving(start, k) implies instrs@
                                == seq![first_moves(start)[k]] by {
                                assert(nodes_of(taken_in)[k] == taken_in[k].0);
                                assert(nodes_of(taken_in)[hit] == taken_in[hit].0);
                                if k < hit {
                                    assert(!solved(
                                        nodes_of(taken_in)[k].a@,
                                        nodes_of(taken_in)[k].b@,
                                    ));
                                }
                            }
                        }
                    }
                    return Some(instrs);
                },
                Dispatch::Wait => {
                    assert(all_on_path(gathered + nodes_of(taken_in), start));
                    proof {
                        if first {
                            lemma_no_first_move(taken_in, start);
                        }
                        first = false;
                    }
                },
                Dispatch::Flush(nodes, hashes) => {
                    assert(all_on_path(gathered + nodes_of(taken_in), start));
                    proof {
                        if first {
                            lemma_no_first_move(taken_in, start);
                        }
                        first = false;
                    }
                    closed_set.extend(&hashes);
                    let mut nodes = nodes;
                    while nodes.len() > 0
                        invariant
                            search.in_flight() == open_set@.len() + batches@.len() + nodes@.len(),
                            all_on_path(open_set@, start),
                            all_on_path(nodes@, start),
                        decreases nodes@.len(),
                    {
                        let node = nodes.remove(0);
                        open_set.push_back(node);
                    }
                },
            }
        }
    }
    None
}

/// Where no node of the seed's batch solves the puzzle, none of the first
/// moves does.
proof fn lemma_no_first_move<S: Stack>(batch: Seq<(Node<S>, u64)>, a: Seq<u32>)
    requires
        seed_batch(batch, a),
        no_goal(nodes_of(batch)),
    ensures
        forall|k: int| !first_solving(a, k),
{
    assert forall|k: int| !first_solving(a, k) by {
        if 0 <= k < first_moves(a).len() {
            assert(nodes_of(batch)[k] == batch[k].0);
            assert(!solved(nodes_of(batch)[k].a@, nodes_of(batch)[k].b@));
        }
    }
}

} // verus!
