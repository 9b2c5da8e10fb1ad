//! The coordinator of the parallel graph search. Workers take nodes from the
//! open set and send back, for each node, one batch of its new neighbours;
//! the coordinator alone decides when the search ends and when the batches
//! it has gathered go to the closed set and the open set.

use vstd::prelude::*;
use crate::instruction::Instruction;
use crate::solver::utils::Node;
use crate::stack::Stack;
use crate::utils::solved;

verus! {

/// How many nodes the coordinator gathers at most before it hands them on.
pub const NODE_BUFFER_SIZE: usize = 512;

/// The room that is kept for the next batch.
pub const BATCH_ROOM: usize = 16;

/// What is to be done after a batch.
pub enum Dispatch<S: Stack> {
    /// The search is over: these moves solve the puzzle.
    Found(Vec<Instruction>),
    /// Nothing yet: wait for the next batch.
    Wait,
    /// Put the fingerprints into the closed set, then the nodes into the
    /// open set.
    Flush(Vec<Node<S>>, Vec<u64>),
}

/// The coordinator's state.
pub struct ParallelAstar<S: Stack> {
    extra_worker_count: usize,
    seed: Option<Node<S>>,
    open_size: usize,
    buff_nodes: Vec<Node<S>>,
    buff_hashes: Vec<u64>,
    pushed: Ghost<nat>,
    received: Ghost<nat>,
}

/// The nodes of a batch.
pub open spec fn nodes_of<S: Stack>(batch: Seq<(Node<S>, u64)>) -> Seq<Node<S>> {
    Seq::new(batch.len(), |i: int| batch[i].0)
}

/// The fingerprints of a batch.
pub open spec fn hashes_of<S: Stack>(batch: Seq<(Node<S>, u64)>) -> Seq<u64> {
    Seq::new(batch.len(), |i: int| batch[i].1)
}

/// The node at `k` solves the puzzle and none before it does.
pub open spec fn first_goal_at<S: Stack>(nodes: Seq<Node<S>>, k: int) -> bool {
    &&& 0 <= k < nodes.len()
    &&& solved(nodes[k].a@, nodes[k].b@)
    &&& forall|j: int| 0 <= j < k ==> !solved((#[trigger] nodes[j]).a@, nodes[j].b@)
}

/// No node solves the puzzle.
pub open spec fn no_goal<S: Stack>(nodes: Seq<Node<S>>) -> bool {
    forall|j: int| 0 <= j < nodes.len() ==> !solved((#[trigger] nodes[j]).a@, nodes[j].b@)
}

/// Whether gathered nodes are handed on: nothing is left to wait for, or
/// the next batch might not find room.
pub open spec fn flush_due(in_flight: int, gathered: int) -> bool {
    in_flight == 0 || gathered + BATCH_ROOM > NODE_BUFFER_SIZE
}

impl<S: Stack> ParallelAstar<S> {
    /// The nodes that went to the open set and are not answered by a batch
    /// yet.
    pub closed spec fn in_flight(&self) -> nat {
        self.open_size as nat
    }

    /// The nodes that went to the open set so far.
    pub closed spec fn pushed(&self) -> nat {
        self.pushed@
    }

    /// The batches that came in so far.
    pub closed spec fn received(&self) -> nat {
        self.received@
    }

    /// The nodes that are gathered and not handed on yet.
    pub closed spec fn gathered(&self) -> Seq<Node<S>> {
        self.buff_nodes@
    }

    /// The fingerprints of the gathered nodes.
    pub closed spec fn gathered_hashes(&self) -> Seq<u64> {
        self.buff_hashes@
    }

    /// The node that the search starts from, until it is taken.
    pub closed spec fn seed(&self) -> Option<Node<S>> {
        self.seed
    }

    /// The workers beyond the first one.
    pub closed spec fn extra_workers(&self) -> nat {
        self.extra_worker_count as nat
    }

    /// The counts agree: as many nodes are in flight as went to the open
    /// set and were not answered by a batch.
    pub closed spec fn wf(&self) -> bool {
        &&& self.buff_nodes@.len() == self.buff_hashes@.len()
        &&& self.open_size as nat + self.received@ == self.pushed@
    }

    /// At every moment the batches that came in are as many as the nodes
    /// that went to the open set, less those that are still in flight.
    pub proof fn lemma_counts_agree(&self)
        requires
            self.wf(),
        ensures
            self.received() == self.pushed() - self.in_flight(),
            self.gathered().len() == self.gathered_hashes().len(),
    {
    }

    /// A coordinator for a search from `stack` with `n_threads` threads. One
    /// thread is the coordinator's and one the first worker's: what is left
    /// are extra workers. The seed counts as pushed.
    pub fn new(n_threads: usize, stack: S) -> (search: Self)
        ensures
            search.wf(),
            search.extra_workers() == if n_threads >= 2 {
                n_threads - 2
            } else {
                0
            },
            search.seed() matches Some(node) && node.a@ == stack@ && node.b@.len() == 0
                && node.instrs@.len() == 0,
            search.in_flight() == 1,
            search.pushed() == 1,
            search.received() == 0,
            search.gathered().len() == 0,
    {
        let extra_worker_count = if n_threads >= 2 {
            n_threads - 2
        } else {
            0
        };
        ParallelAstar {
            extra_worker_count,
            seed: Some(Node::new(stack)),
            open_size: 1,
            buff_nodes: Vec::new(),
            buff_hashes: Vec::new(),
            pushed: Ghost(1),
            received: Ghost(0),
        }
    }

    /// The number of workers beyond the first one.
    pub fn extra_worker_count(&self) -> (n: usize)
        ensures
            n == self.extra_workers(),
    {
        self.extra_worker_count
    }

    /// The number of nodes in flight.
    pub fn open_size(&self) -> (n: usize)
        ensures
            n == self.in_flight(),
    {
        self.open_size
    }

    /// The number of gathered nodes.
    pub fn buffered(&self) -> (n: usize)
        ensures
            n == self.gathered().len(),
    {
        self.buff_nodes.len()
    }

    /// Whether nothing is in flight: no batch is to come, and the search is
    /// over unless nodes go to the open set.
    pub fn exhausted(&self) -> (yes: bool)
        ensures
            yes == (self.in_flight() == 0),
    {
        self.open_size == 0
    }

    /// Whether a batch of `batch_len` nodes can be taken in: a node is in
    /// flight that it can answer, and the counts of nodes fit the machine's
    /// word.
    pub fn can_receive(&self, batch_len: usize) -> (yes: bool)
        ensures
            yes == (self.in_flight() >= 1 && self.in_flight() + self.gathered().len() + batch_len
                <= usize::MAX),
    {
        if self.open_size == 0 {
            return false;
        }
        let room = usize::MAX - self.open_size;
        self.buff_nodes.len() <= room && batch_len <= room - self.buff_nodes.len()
    }

    /// Takes the seed, which is to go to the open set.
    pub fn take_seed(&mut self) -> (node: Option<Node<S>>)
        ensures
            node == old(self).seed(),
            final(self).seed().is_none(),
            final(self).in_flight() == old(self).in_flight(),
            final(self).pushed() == old(self).pushed(),
            final(self).received() == old(self).received(),
            final(self).gathered() == old(self).gathered(),
            final(self).gathered_hashes() == old(self).gathered_hashes(),
            final(self).extra_workers() == old(self).extra_workers(),
            old(self).wf() ==> final(self).wf(),
    {
        self.seed.take()
    }

    /// Takes in the batch that a worker made of one node from the open set.
    ///
    /// Where a node of the batch solves the puzzle, the moves of the first
    /// such node come back. Otherwise the batch is gathered; the gathered
    /// nodes are handed on when no node is in flight any more or when the
    /// next batch might not find room, and are then in flight themselves.
    pub fn receive(&mut self, batch: Vec<(Node<S>, u64)>) -> (action: Dispatch<S>)
        requires
            old(self).wf(),
            old(self).in_flight() >= 1,
            old(self).in_flight() + old(self).gathered().len() + batch@.len() <= usize::MAX,
        ensures
            final(self).wf(),
            final(self).received() == old(self).received() + 1,
            final(self).seed() == old(self).seed(),
            final(self).extra_workers() == old(self).extra_workers(),
            match action {
                Dispatch::Found(instrs) => {
                    &&& exists|k: int|
                        first_goal_at(nodes_of(batch@), k) && instrs@ == (
                        #[trigger] nodes_of(batch@)[k]).instrs@
                    &&& final(self).pushed() == old(self).pushed()
                    &&& final(self).in_flight() == old(self).in_flight() - 1
                },
                Dispatch::Wait => {
                    &&& no_goal(nodes_of(batch@))
                    &&& !flush_due(
                        old(self).in_flight() - 1,
                        (old(self).gathered().len() + batch@.len()) as int,
                    )
                    &&& final(self).gathered() == old(self).gathered() + nodes_of(batch@)
                    &&& final(self).gathered_hashes() == old(self).gathered_hashes() + hashes_of(
                        batch@,
                    )
                    &&& final(self).pushed() == old(self).pushed()
                    &&& final(self).in_flight() == old(self).in_flight() - 1
                },
                Dispatch::Flush(nodes, hashes) => {
                    &&& no_goal(nodes_of(batch@))
                    &&& flush_due(
                        old(self).in_flight() - 1,
                        (old(self).gathered().len() + batch@.len()) as int,
                    )
                    &&& nodes@ == old(self).gathered() + nodes_of(batch@)
                    &&& hashes@ == old(self).gathered_hashes() + hashes_of(batch@)
                    &&& final(self).gathered().len() == 0
                    &&& final(self).gathered_hashes().len() == 0
                    &&& final(self).pushed() == old(self).pushed() + nodes@.len()
                    &&& final(self).in_flight() == old(self).in_flight() - 1 + nodes@.len()
                },
            },
    {
        let ghost all = batch@;
        let mut rest = batch;
        self.open_size -= 1;
        proof {
            self.received@ = self.received@ + 1;
        }
        let ghost mut taken: int = 0;
        while rest.len() > 0
            invariant
                old(self).wf(),
                old(self).in_flight() >= 1,
                old(self).in_flight() + old(self).gathered().len() + all.len() <= usize::MAX,
                0 <= taken <= all.len(),
                all == batch@,
                rest@ == all.subrange(taken, all.len() as int),
                self.buff_nodes@ == old(self).buff_nodes@ + nodes_of(all).subrange(0, taken),
                self.buff_hashes@ == old(self).buff_hashes@ + hashes_of(all).subrange(0, taken),
                no_goal(nodes_of(all).subrange(0, taken)),
                self.open_size == old(self).open_size - 1,
                self.received@ == old(self).received@ + 1,
                self.pushed@ == old(self).pushed@,
                self.seed == old(self).seed,
                self.extra_worker_count == old(self).extra_worker_count,
            decreases rest@.len(),
        {
            let (node, hash) = rest.remove(0);
            assert(node == nodes_of(all)[taken]);
            assert(hash == hashes_of(all)[taken]);
            if node.is_goal() {
                proof {
                    assert(first_goal_at(nodes_of(all), taken)) by {
                        assert forall|j: int| 0 <= j < taken implies !solved(
                            (#[trigger] nodes_of(all)[j]).a@,
                            nodes_of(all)[j].b@,
                        ) by {
                            assert(nodes_of(all).subrange(0, taken)[j] == nodes_of(all)[j]);
                        }
                    }
                    assert(node.instrs@ == nodes_of(batch@)[taken].instrs@);
                }
                return Dispatch::Found(node.instrs);
            }
            self.buff_nodes.push(node);
            self.buff_hashes.push(hash);
            proof {
                assert(nodes_of(all).subrange(0, taken + 1) =~= nodes_of(all).subrange(
                    0,
                    taken,
                ).push(node));
                assert(hashes_of(all).subrange(0, taken + 1) =~= hashes_of(all).subrange(
                    0,
                    taken,
                ).push(hash));
                assert(self.buff_nodes@ =~= old(self).buff_nodes@ + nodes_of(all).subrange(
                    0,
                    taken + 1,
                ));
                assert(self.buff_hashes@ =~= old(self).buff_hashes@ + hashes_of(all).subrange(
                    0,
                    taken + 1,
                ));
                assert(rest@ =~= all.subrange(taken + 1, all.len() as int));
                assert forall|j: int| 0 <= j < taken + 1 implies !solved(
                    (#[trigger] nodes_of(all).subrange(0, taken + 1)[j]).a@,
                    nodes_of(all).subrange(0, taken + 1)[j].b@,
                ) by {
                    if j < taken {
                        assert(nodes_of(all).subrange(0, taken)[j] == nodes_of(all)[j]);
                    }
                }
                taken = taken + 1;
            }
        }
        proof {
            assert(taken == all.len());
            assert(nodes_of(all).subrange(0, taken) =~= nodes_of(all));
            assert(hashes_of(all).subrange(0, taken) =~= hashes_of(all));
        }
        if self.open_size == 0 || self.buff_nodes.len() > NODE_BUFFER_SIZE - BATCH_ROOM {
            let mut nodes: Vec<Node<S>> = Vec::new();
            let mut hashes: Vec<u64> = Vec::new();
            nodes.append(&mut self.buff_nodes);
            hashes.append(&mut self.buff_hashes);
            self.open_size += nodes.len();
            proof {
                self.pushed@ = self.pushed@ + nodes@.len();
                assert(nodes@ =~= old(self).buff_nodes@ + nodes_of(all));
                assert(hashes@ =~= old(self).buff_hashes@ + hashes_of(all));
            }
            Dispatch::Flush(nodes, hashes)
        } else {
            Dispatch::Wait
        }
    }
}

} // verus!
