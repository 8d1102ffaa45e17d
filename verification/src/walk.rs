//! Walking a circuit breadth first.

use vstd::prelude::*;
use std::collections::VecDeque;
use crate::redstone::{Redstone, RedstoneNode, Wiring, wirings, slot};
use crate::circuit::all_below;
use crate::frame::Frame;
use crate::dispatch::Constraint;

verus! {

/// Every node of `g` refers to nodes of `g` only.
pub open spec fn ranged(g: Seq<Wiring>) -> bool {
    forall|i: int| 0 <= i < g.len() ==> (#[trigger] g[i]).in_range(g.len())
}

/// How many of the first `n` nodes are not in `visited`.
pub open spec fn unvisited(n: nat, visited: Set<usize>) -> nat
    decreases n,
{
    if n == 0 {
        0
    } else {
        unvisited((n - 1) as nat, visited) + if n - 1 <= usize::MAX && visited.contains(
            (n - 1) as usize,
        ) {
            0nat
        } else {
            1nat
        }
    }
}

/// `queue` without the visited nodes at its front.
pub open spec fn pending(queue: Seq<usize>, visited: Set<usize>) -> Seq<usize>
    decreases queue.len(),
{
    if queue.len() == 0 || !visited.contains(queue[0]) {
        queue
    } else {
        pending(queue.subrange(1, queue.len() as int), visited)
    }
}

/// The nodes that a breadth-first walk visits, in order.  The walk takes
/// the first node of the queue that it has not visited, visits it and
/// appends what is adjacent to it to the queue, until the queue holds
/// visited nodes only.
pub open spec fn walk(g: Seq<Wiring>, queue: Seq<usize>, visited: Set<usize>) -> Seq<usize>
    decreases unvisited(g.len(), visited),
    when ranged(g) && all_below(queue, g.len())
    via walk_decreases
{
    let q = pending(queue, visited);
    if q.len() == 0 {
        Seq::empty()
    } else {
        seq![q[0]] + walk(
            g,
            q.subrange(1, q.len() as int) + g[q[0] as int].adjacent(),
            visited.insert(q[0]),
        )
    }
}

#[via_fn]
proof fn walk_decreases(g: Seq<Wiring>, queue: Seq<usize>, visited: Set<usize>) {
    let q = pending(queue, visited);
    if q.len() != 0 {
        lemma_pending(queue, visited, g.len());
        lemma_unvisited_insert(g.len(), visited, q[0]);
    }
}

/// What is pending is in range where the queue is, and starts with a
/// node that was not visited.
pub proof fn lemma_pending(queue: Seq<usize>, visited: Set<usize>, n: nat)
    requires
        all_below(queue, n),
    ensures
        all_below(pending(queue, visited), n),
        pending(queue, visited).len() <= queue.len(),
        pending(queue, visited).len() > 0 ==> !visited.contains(pending(queue, visited)[0]),
    decreases queue.len(),
{
    if queue.len() == 0 || !visited.contains(queue[0]) {
    } else {
        let rest = queue.subrange(1, queue.len() as int);
        assert forall|k: int| 0 <= k < rest.len() implies #[trigger] rest[k] < n by {
            assert(rest[k] == queue[k + 1]);
        }
        lemma_pending(rest, visited, n);
    }
}

/// Visiting a node beyond the first `n` leaves the count of the first `n`.
pub proof fn lemma_unvisited_beyond(n: nat, visited: Set<usize>, x: usize)
    requires
        x >= n,
    ensures
        unvisited(n, visited.insert(x)) == unvisited(n, visited),
    decreases n,
{
    if n > 0 {
        lemma_unvisited_beyond((n - 1) as nat, visited, x);
    }
}

/// Visiting a new node among the first `n` leaves one less to visit.
pub proof fn lemma_unvisited_insert(n: nat, visited: Set<usize>, x: usize)
    requires
        x < n,
        !visited.contains(x),
    ensures
        unvisited(n, visited.insert(x)) + 1 == unvisited(n, visited),
    decreases n,
{
    if n - 1 == x {
        lemma_unvisited_beyond((n - 1) as nat, visited, x);
    } else {
        lemma_unvisited_insert((n - 1) as nat, visited, x);
    }
}

/// What is adjacent to a node in range is in range.
pub proof fn lemma_adjacent_in_range(w: Wiring, n: nat)
    requires
        w.in_range(n),
    ensures
        all_below(w.adjacent(), n),
{
    assert forall|k: int| 0 <= k < w.adjacent().len() implies #[trigger] w.adjacent()[k] < n by {
        match w {
            Wiring::Torch { incoming, outgoing } => {
                if k < slot(incoming).len() {
                    assert(w.adjacent()[k] == slot(incoming)[k]);
                } else {
                    assert(w.adjacent()[k] == outgoing[k - slot(incoming).len()]);
                }
            },
            Wiring::Dust { neighbors, sources } => {
                if k < neighbors.len() {
                    assert(w.adjacent()[k] == neighbors[k]);
                } else {
                    assert(w.adjacent()[k] == sources[k - neighbors.len()].1);
                }
            },
            Wiring::Block { incoming, outgoing } => {
                if k < incoming.len() {
                    assert(w.adjacent()[k] == incoming[k]);
                } else {
                    assert(w.adjacent()[k] == outgoing[k - incoming.len()]);
                }
            },
            Wiring::Repeater { incoming, outgoing, neighbors, .. } => {
                if k < slot(incoming).len() {
                    assert(w.adjacent()[k] == slot(incoming)[k]);
                } else if k < slot(incoming).len() + slot(outgoing).len() {
                    assert(w.adjacent()[k] == slot(outgoing)[k - slot(incoming).len()]);
                } else {
                    assert(w.adjacent()[k] == neighbors[k - slot(incoming).len() - slot(
                        outgoing,
                    ).len()]);
                }
            },
        }
    }
}

/// The nodes that a node in range listens to are in range.
pub proof fn lemma_listens_in_range(w: Wiring, n: nat)
    requires
        w.in_range(n),
    ensures
        all_below(w.listens_to(), n),
{
}

/// A circuit refers to its own nodes only.
pub proof fn lemma_well_formed_ranged(g: Seq<Wiring>)
    requires
        crate::circuit::well_formed(g),
    ensures
        ranged(g),
{
    assert forall|i: int| 0 <= i < g.len() implies (#[trigger] g[i]).in_range(g.len()) by {
        assert(crate::circuit::node_ok(g, i));
    }
}

/// Appends every index of `ids` to the queue.
pub fn enqueue_all(queue: &mut VecDeque<usize>, ids: &Vec<usize>)
    ensures
        final(queue)@ == old(queue)@ + ids@,
{
    let mut i: usize = 0;
    while i < ids.len()
        invariant
            i <= ids.len(),
            queue@ == old(queue)@ + ids@.take(i as int),
        decreases ids.len() - i,
    {
        queue.push_back(ids[i]);
        assert(ids@.take(i + 1) == ids@.take(i as int).push(ids@[i as int]));
        i += 1;
    }
    assert(ids@.take(ids.len() as int) == ids@);
}

/// Appends the index in the slot, if there is one, to the queue.
pub fn enqueue_slot(queue: &mut VecDeque<usize>, id: Option<usize>)
    ensures
        final(queue)@ == old(queue)@ + slot(id),
{
    if let Some(i) = id {
        queue.push_back(i);
    }
}

/// Appends the node of every weighted source to the queue.
pub fn enqueue_sources(queue: &mut VecDeque<usize>, sources: &Vec<(u8, usize)>)
    ensures
        final(queue)@ == old(queue)@ + Seq::new(sources@.len(), |i: int| sources@[i].1),
{
    let ghost all = Seq::new(sources@.len(), |i: int| sources@[i].1);
    let mut i: usize = 0;
    while i < sources.len()
        invariant
            i <= sources.len(),
            all == Seq::new(sources@.len(), |i: int| sources@[i].1),
            queue@ == old(queue)@ + all.take(i as int),
        decreases sources.len() - i,
    {
        queue.push_back(sources[i].1);
        assert(all.take(i + 1) == all.take(i as int).push(all[i as int]));
        i += 1;
    }
    assert(all.take(sources.len() as int) == all);
}

impl Redstone {
    /// Appends what is adjacent to this node to the queue: for a torch
    /// its input and then its outputs, for a dust its neighbors and then
    /// its sources, for a block its inputs and then its outputs, for a
    /// repeater its input, its output and its locks.
    pub fn enqueue_adjacent(&self, queue: &mut VecDeque<usize>)
        ensures
            final(queue)@ == old(queue)@ + self.wiring().adjacent(),
    {
        match self.node() {
            RedstoneNode::Torch(torch) => {
                enqueue_slot(queue, torch.incoming);
                enqueue_all(queue, &torch.outgoing);
            },
            RedstoneNode::Dust(dust) => {
                enqueue_all(queue, &dust.neighbors);
                enqueue_sources(queue, &dust.sources);
            },
            RedstoneNode::Block(block) => {
                enqueue_all(queue, &block.incoming);
                enqueue_all(queue, &block.outgoing);
            },
            RedstoneNode::Repeater(repeater) => {
                enqueue_slot(queue, repeater.incoming);
                enqueue_slot(queue, repeater.outgoing);
                enqueue_all(queue, &repeater.neighbors);
            },
        }
    }
}

/// A breadth-first walk in progress: the queue of nodes to look at and
/// the nodes that were visited.
pub struct RedstoneIter {
    queue: VecDeque<usize>,
    visited: Vec<bool>,
}

impl RedstoneIter {
    /// The nodes that the walk has yet to look at, in order.
    pub closed spec fn queue(&self) -> Seq<usize> {
        self.queue@
    }

    /// The nodes that the walk has visited.
    pub closed spec fn visited(&self) -> Set<usize> {
        Set::new(|i: usize| i < self.visited.len() && self.visited[i as int])
    }

    /// The number of nodes of the circuit that is walked.
    pub closed spec fn size(&self) -> nat {
        self.visited.len() as nat
    }

    /// The walk is one of the circuit `g`.
    pub open spec fn fits(&self, g: Seq<Wiring>) -> bool {
        &&& ranged(g)
        &&& self.size() == g.len()
        &&& all_below(self.queue(), g.len())
    }

    /// A walk that starts at `seed`.
    pub fn new(nodes: &Vec<Redstone>, seed: usize) -> (iter: RedstoneIter)
        requires
            seed < nodes.len(),
        ensures
            iter.queue() == seq![seed],
            iter.visited() == Set::<usize>::empty(),
            iter.size() == nodes.len(),
    {
        let mut queue: VecDeque<usize> = VecDeque::new();
        queue.push_front(seed);
        let visited: Vec<bool> = vec![false; nodes.len()];
        let iter = RedstoneIter { queue, visited };
        assert(iter.visited() =~= Set::<usize>::empty());
        assert(iter.queue() =~= seq![seed]);
        iter
    }

    /// The next node of the walk: the first node of the queue that was
    /// not visited.  It becomes visited, the visited nodes before it leave
    /// the queue and what is adjacent to it joins the queue.  Without such a
    /// node the walk is over and the queue is left empty.
    pub fn next(&mut self, nodes: &Vec<Redstone>) -> (current: Option<usize>)
        requires
            old(self).fits(wirings(nodes@)),
        ensures
            final(self).fits(wirings(nodes@)),
            ({
                let q = pending(old(self).queue(), old(self).visited());
                if q.len() == 0 {
                    &&& current is None
                    &&& final(self).queue() == Seq::<usize>::empty()
                    &&& final(self).visited() == old(self).visited()
                } else {
                    &&& current == Some(q[0])
                    &&& final(self).queue() == q.subrange(1, q.len() as int) + wirings(
                        nodes@,
                    )[q[0] as int].adjacent()
                    &&& final(self).visited() == old(self).visited().insert(q[0])
                }
            }),
    {
        let ghost g = wirings(nodes@);
        loop
            invariant
                self.fits(g),
                g == wirings(nodes@),
                self.visited() == old(self).visited(),
                pending(self.queue(), self.visited()) == pending(
                    old(self).queue(),
                    old(self).visited(),
                ),
            decreases self.queue@.len(),
        {
            let ghost before = self.queue@;
            match self.queue.pop_front() {
                None => {
                    return None;
                },
                Some(current) => {
                    let ghost rest = self.queue@;
                    assert forall|k: int| 0 <= k < rest.len() implies #[trigger] rest[k]
                        < g.len() by {
                        assert(rest[k] == before[k + 1]);
                    }
                    assert(current == before[0]);
                    if !self.visited[current] {
                        let ghost seen = self.visited();
                        self.visited.set(current, true);
                        assert(self.visited() =~= seen.insert(current));
                        nodes[current].enqueue_adjacent(&mut self.queue);
                        proof {
                            lemma_adjacent_in_range(g[current as int], g.len());
                            assert(pending(before, seen) == before);
                            assert(before.subrange(1, before.len() as int) == rest);
                        }
                        return Some(current);
                    }
                    assert(pending(before, self.visited()) == pending(rest, self.visited()));
                },
            }
        }
    }
}

/// One initial work item, for frame zero, for each torch among `order`.
pub open spec fn seeds(g: Seq<Wiring>, order: Seq<usize>) -> Seq<Constraint>
    decreases order.len(),
{
    if order.len() == 0 {
        Seq::empty()
    } else {
        let rest = seeds(g, order.drop_last());
        if g[order.last() as int] is Torch {
            rest.push(
                Constraint {
                    next_dispatch_frame: Frame { tick: 0 },
                    redstone: order.last(),
                    creator: None,
                },
            )
        } else {
            rest
        }
    }
}

/// The initial work of the part of the circuit that is connected to
/// `seed`: one item for each of its torches, in the order of a
/// breadth-first walk from `seed`.
pub open spec fn collected(g: Seq<Wiring>, seed: usize) -> Seq<Constraint> {
    seeds(g, walk(g, seq![seed], Set::empty()))
}

/// Every seed is for a node among `order`.
pub proof fn lemma_seeds(g: Seq<Wiring>, order: Seq<usize>)
    ensures
        forall|k: int|
            0 <= k < seeds(g, order).len() ==> {
                let c = #[trigger] seeds(g, order)[k];
                &&& order.contains(c.redstone)
                &&& g[c.redstone as int] is Torch
                &&& c.creator is None
                &&& c.next_dispatch_frame.tick == 0
            },
    decreases order.len(),
{
    if order.len() > 0 {
        let front = order.drop_last();
        lemma_seeds(g, front);
        assert forall|k: int| 0 <= k < seeds(g, order).len() implies {
            let c = #[trigger] seeds(g, order)[k];
            &&& order.contains(c.redstone)
            &&& g[c.redstone as int] is Torch
            &&& c.creator is None
            &&& c.next_dispatch_frame.tick == 0
        } by {
            let c = seeds(g, order)[k];
            if k < seeds(g, front).len() {
                assert(c == seeds(g, front)[k]);
                let j = choose|j: int| 0 <= j < front.len() && front[j] == c.redstone;
                assert(order[j] == c.redstone);
            } else {
                assert(order[order.len() - 1] == c.redstone);
            }
        }
    }
}

/// A walk visits nodes of the circuit only.
pub proof fn lemma_walk_in_range(g: Seq<Wiring>, queue: Seq<usize>, visited: Set<usize>)
    requires
        ranged(g),
        all_below(queue, g.len()),
    ensures
        all_below(walk(g, queue, visited), g.len()),
    decreases unvisited(g.len(), visited),
{
    let q = pending(queue, visited);
    lemma_pending(queue, visited, g.len());
    if q.len() > 0 {
        let next = q.subrange(1, q.len() as int) + g[q[0] as int].adjacent();
        lemma_adjacent_in_range(g[q[0] as int], g.len());
        lemma_unvisited_insert(g.len(), visited, q[0]);
        assert forall|k: int| 0 <= k < next.len() implies #[trigger] next[k] < g.len() by {
            if k < q.len() - 1 {
                assert(next[k] == q[k + 1]);
            } else {
                assert(next[k] == g[q[0] as int].adjacent()[k - (q.len() - 1)]);
            }
        }
        lemma_walk_in_range(g, next, visited.insert(q[0]));
        let rest = walk(g, next, visited.insert(q[0]));
        assert forall|k: int| 0 <= k < walk(g, queue, visited).len() implies #[trigger] walk(
            g,
            queue,
            visited,
        )[k] < g.len() by {
            if k > 0 {
                assert(walk(g, queue, visited)[k] == rest[k - 1]);
            }
        }
    }
}

/// The initial work of a circuit is for torches of the circuit, in frame
/// zero, and nobody asked for it.
pub proof fn lemma_collected(g: Seq<Wiring>, seed: usize)
    requires
        ranged(g),
        seed < g.len(),
    ensures
        forall|k: int|
            0 <= k < collected(g, seed).len() ==> {
                let c = #[trigger] collected(g, seed)[k];
                &&& c.redstone < g.len()
                &&& g[c.redstone as int] is Torch
                &&& c.creator is None
                &&& c.next_dispatch_frame.tick == 0
            },
{
    let order = walk(g, seq![seed], Set::empty());
    lemma_walk_in_range(g, seq![seed], Set::empty());
    lemma_seeds(g, order);
    assert forall|k: int| 0 <= k < collected(g, seed).len() implies {
        let c = #[trigger] collected(g, seed)[k];
        &&& c.redstone < g.len()
        &&& g[c.redstone as int] is Torch
        &&& c.creator is None
        &&& c.next_dispatch_frame.tick == 0
    } by {
        let c = collected(g, seed)[k];
        assert(order.contains(c.redstone));
        let j = choose|j: int| 0 <= j < order.len() && order[j] == c.redstone;
        assert(order[j] < g.len());
    }
}

/// What is pending is the end of the queue, behind visited nodes only.
pub proof fn lemma_pending_is_a_rest(queue: Seq<usize>, visited: Set<usize>)
    ensures
        ({
            let skipped = queue.len() - pending(queue, visited).len();
            &&& 0 <= skipped <= queue.len()
            &&& pending(queue, visited) == queue.subrange(skipped, queue.len() as int)
            &&& forall|k: int| 0 <= k < skipped ==> visited.contains(#[trigger] queue[k])
        }),
    decreases queue.len(),
{
    if queue.len() == 0 || !visited.contains(queue[0]) {
        assert(queue.subrange(0, queue.len() as int) == queue);
    } else {
        let rest = queue.subrange(1, queue.len() as int);
        lemma_pending_is_a_rest(rest, visited);
        let skipped = rest.len() - pending(rest, visited).len();
        assert(rest.subrange(skipped, rest.len() as int) == queue.subrange(
            skipped + 1,
            queue.len() as int,
        ));
        assert forall|k: int| 0 <= k < skipped + 1 implies visited.contains(#[trigger] queue[k]) by {
            if k > 0 {
                assert(queue[k] == rest[k - 1]);
            }
        }
    }
}

/// A walk visits no node twice, and none of the nodes that were visited before.
pub proof fn law_walk_visits_once(g: Seq<Wiring>, queue: Seq<usize>, visited: Set<usize>)
    requires
        ranged(g),
        all_below(queue, g.len()),
    ensures
        forall|i: int| 0 <= i < walk(g, queue, visited).len() ==> !visited.contains(#[trigger] walk(g, queue, visited)[i]),
        forall|i: int, j: int|
            0 <= i < j < walk(g, queue, visited).len() ==> walk(g, queue, visited)[i] != walk(g, queue, visited)[j],
    decreases unvisited(g.len(), visited),
{
    let q = pending(queue, visited);
    lemma_pending(queue, visited, g.len());
    if q.len() > 0 {
        let next = q.subrange(1, q.len() as int) + g[q[0] as int].adjacent();
        lemma_adjacent_in_range(g[q[0] as int], g.len());
        lemma_unvisited_insert(g.len(), visited, q[0]);
        assert forall|k: int| 0 <= k < next.len() implies #[trigger] next[k] < g.len() by {
            if k < q.len() - 1 {
                assert(next[k] == q[k + 1]);
            } else {
                assert(next[k] == g[q[0] as int].adjacent()[k - (q.len() - 1)]);
            }
        }
        let rest = walk(g, next, visited.insert(q[0]));
        law_walk_visits_once(g, next, visited.insert(q[0]));
        let w = walk(g, queue, visited);
        assert(w == seq![q[0]] + rest);
        assert forall|i: int| 0 <= i < w.len() implies !visited.contains(#[trigger] w[i]) by {
            if i > 0 {
                assert(w[i] == rest[i - 1]);
            }
        }
        assert forall|i: int, j: int| 0 <= i < j < w.len() implies w[i] != w[j] by {
            assert(w[j] == rest[j - 1]);
            if i > 0 {
                assert(w[i] == rest[i - 1]);
            } else {
                assert(!visited.insert(q[0]).contains(rest[j - 1]));
            }
        }
    }
}

/// A set of nodes that holds, with each of its nodes, what is adjacent to it.
pub open spec fn closed(g: Seq<Wiring>, nodes: Set<usize>) -> bool {
    forall|x: usize, k: int|
        nodes.contains(x) && x < g.len() && 0 <= k < g[x as int].adjacent().len() ==> nodes.contains(
            #[trigger] g[x as int].adjacent()[k],
        )
}

/// Every node of the queue is visited by the walk, unless it was visited
/// before; and what is adjacent to a node that the walk visits is visited
/// by the walk as well, unless it was visited before.
pub proof fn lemma_walk_covers(g: Seq<Wiring>, queue: Seq<usize>, visited: Set<usize>)
    requires
        ranged(g),
        all_below(queue, g.len()),
    ensures
        forall|k: int|
            0 <= k < queue.len() ==> visited.contains(#[trigger] queue[k]) || walk(g, queue, visited).contains(
                queue[k],
            ),
        forall|i: int, k: int|
            0 <= i < walk(g, queue, visited).len() && 0 <= k < g[walk(g, queue, visited)[i] as int].adjacent().len()
                ==> {
                let y = #[trigger] g[walk(g, queue, visited)[i] as int].adjacent()[k];
                visited.contains(y) || walk(g, queue, visited).contains(y)
            },
    decreases unvisited(g.len(), visited),
{
    let q = pending(queue, visited);
    let w = walk(g, queue, visited);
    lemma_pending(queue, visited, g.len());
    lemma_pending_is_a_rest(queue, visited);
    let skipped = queue.len() - q.len();
    if q.len() > 0 {
        let around = g[q[0] as int].adjacent();
        let next = q.subrange(1, q.len() as int) + around;
        let seen = visited.insert(q[0]);
        lemma_adjacent_in_range(g[q[0] as int], g.len());
        lemma_unvisited_insert(g.len(), visited, q[0]);
        assert forall|k: int| 0 <= k < next.len() implies #[trigger] next[k] < g.len() by {
            if k < q.len() - 1 {
                assert(next[k] == q[k + 1]);
            } else {
                assert(next[k] == around[k - (q.len() - 1)]);
            }
        }
        let rest = walk(g, next, seen);
        lemma_walk_covers(g, next, seen);
        assert(w == seq![q[0]] + rest);
        assert(w[0] == q[0]);
        assert forall|y: usize| seen.contains(y) || rest.contains(y) implies visited.contains(y)
            || w.contains(y) by {
            if rest.contains(y) {
                let j = choose|j: int| 0 <= j < rest.len() && rest[j] == y;
                assert(w[j + 1] == y);
            }
        }
        assert forall|k: int| 0 <= k < queue.len() implies visited.contains(#[trigger] queue[k])
            || w.contains(queue[k]) by {
            if k > skipped {
                assert(queue[k] == q[k - skipped]);
                assert(next[k - skipped - 1] == queue[k]);
                assert(seen.contains(next[k - skipped - 1]) || rest.contains(next[k - skipped - 1]));
            } else if k == skipped {
                assert(queue[k] == q[0]);
            }
        }
        assert forall|i: int, k: int|
            0 <= i < w.len() && 0 <= k < g[w[i] as int].adjacent().len() implies {
            let y = #[trigger] g[w[i] as int].adjacent()[k];
            visited.contains(y) || w.contains(y)
        } by {
            let y = g[w[i] as int].adjacent()[k];
            if i == 0 {
                assert(next[q.len() - 1 + k] == y);
                assert(seen.contains(next[q.len() - 1 + k]) || rest.contains(next[q.len() - 1 + k]));
            } else {
                assert(w[i] == rest[i - 1]);
                let z = g[rest[i - 1] as int].adjacent()[k];
                assert(seen.contains(z) || rest.contains(z));
            }
        }
    } else {
        assert forall|k: int| 0 <= k < queue.len() implies visited.contains(#[trigger] queue[k]) by {}
    }
}

/// A walk stays within every set that holds the queue and is closed.
pub proof fn lemma_walk_stays(g: Seq<Wiring>, queue: Seq<usize>, visited: Set<usize>, nodes: Set<usize>)
    requires
        ranged(g),
        all_below(queue, g.len()),
        closed(g, nodes),
        forall|k: int| 0 <= k < queue.len() ==> nodes.contains(#[trigger] queue[k]),
    ensures
        forall|i: int| 0 <= i < walk(g, queue, visited).len() ==> nodes.contains(#[trigger] walk(g, queue, visited)[i]),
    decreases unvisited(g.len(), visited),
{
    let q = pending(queue, visited);
    let w = walk(g, queue, visited);
    lemma_pending(queue, visited, g.len());
    lemma_pending_is_a_rest(queue, visited);
    let skipped = queue.len() - q.len();
    if q.len() > 0 {
        let around = g[q[0] as int].adjacent();
        let next = q.subrange(1, q.len() as int) + around;
        lemma_adjacent_in_range(g[q[0] as int], g.len());
        lemma_unvisited_insert(g.len(), visited, q[0]);
        assert(q[0] == queue[skipped]);
        assert forall|k: int| 0 <= k < next.len() implies #[trigger] next[k] < g.len() && nodes.contains(
            next[k],
        ) by {
            if k < q.len() - 1 {
                assert(next[k] == q[k + 1]);
                assert(q[k + 1] == queue[skipped + k + 1]);
            } else {
                assert(next[k] == around[k - (q.len() - 1)]);
            }
        }
        let rest = walk(g, next, visited.insert(q[0]));
        lemma_walk_stays(g, next, visited.insert(q[0]), nodes);
        assert(w == seq![q[0]] + rest);
        assert forall|i: int| 0 <= i < w.len() implies nodes.contains(#[trigger] w[i]) by {
            if i > 0 {
                assert(w[i] == rest[i - 1]);
            }
        }
    }
}

/// The nodes that a walk from `seed` visits are the nodes that are
/// connected to `seed`: they hold `seed` and, with each node, what is
/// adjacent to it; and every set of nodes of which this is true holds all
/// of them.  The walk visits none of them twice.
pub proof fn law_walk_visits_the_connected_nodes(g: Seq<Wiring>, seed: usize, nodes: Set<usize>)
    requires
        ranged(g),
        seed < g.len(),
    ensures
        walk(g, seq![seed], Set::empty()).contains(seed),
        closed(g, walk(g, seq![seed], Set::empty()).to_set()),
        closed(g, nodes) && nodes.contains(seed) ==> walk(g, seq![seed], Set::empty()).to_set().subset_of(
            nodes,
        ),
        walk(g, seq![seed], Set::empty()).no_duplicates(),
{
    let start = seq![seed];
    let none = Set::<usize>::empty();
    let w = walk(g, start, none);
    lemma_walk_covers(g, start, none);
    lemma_walk_in_range(g, start, none);
    law_walk_visits_once(g, start, none);
    assert(none.contains(start[0]) || w.contains(start[0]));
    assert forall|x: usize, k: int|
        w.to_set().contains(x) && x < g.len() && 0 <= k < g[x as int].adjacent().len() implies w.to_set().contains(
        #[trigger] g[x as int].adjacent()[k],
    ) by {
        let i = choose|i: int| 0 <= i < w.len() && w[i] == x;
        let y = g[w[i] as int].adjacent()[k];
        assert(none.contains(y) || w.contains(y));
    }
    if closed(g, nodes) && nodes.contains(seed) {
        lemma_walk_stays(g, start, none, nodes);
        assert forall|x: usize| w.to_set().contains(x) implies nodes.contains(x) by {
            let i = choose|i: int| 0 <= i < w.len() && w[i] == x;
            assert(nodes.contains(w[i]));
        }
    }
}

/// The seeds of nodes that are listed once are for different nodes, and
/// there is one for every torch of the list.
pub proof fn lemma_seeds_once(g: Seq<Wiring>, order: Seq<usize>)
    requires
        order.no_duplicates(),
    ensures
        forall|i: int, j: int|
            0 <= i < j < seeds(g, order).len() ==> seeds(g, order)[i].redstone != seeds(g, order)[j].redstone,
        forall|k: int|
            0 <= k < order.len() && g[order[k] as int] is Torch ==> exists|i: int|
                0 <= i < seeds(g, order).len() && (#[trigger] seeds(g, order)[i]).redstone == order[k],
    decreases order.len(),
{
    if order.len() > 0 {
        let front = order.drop_last();
        lemma_seeds_once(g, front);
        lemma_seeds(g, front);
        let s = seeds(g, order);
        let t = seeds(g, front);
        assert forall|i: int, j: int| 0 <= i < j < s.len() implies s[i].redstone != s[j].redstone by {
            assert(s[i] == t[i]);
            if j < t.len() {
                assert(s[j] == t[j]);
            } else {
                assert(front.contains(t[i].redstone));
                let q = choose|q: int| 0 <= q < front.len() && front[q] == t[i].redstone;
                assert(order[q] == front[q]);
                assert(s[j].redstone == order[order.len() - 1]);
            }
        }
        assert forall|k: int| 0 <= k < order.len() && g[order[k] as int] is Torch implies exists|i: int|
            0 <= i < s.len() && (#[trigger] s[i]).redstone == order[k] by {
            if k < front.len() {
                assert(front[k] == order[k]);
                let i = choose|i: int| 0 <= i < t.len() && (#[trigger] t[i]).redstone == front[k];
                assert(s[i].redstone == order[k]);
            } else {
                assert(s[s.len() - 1].redstone == order[k]);
            }
        }
    }
}

/// The initial work of a circuit holds exactly one item for each torch
/// that is connected to the seed, and nothing else.
pub proof fn law_collected_torches(g: Seq<Wiring>, seed: usize)
    requires
        ranged(g),
        seed < g.len(),
    ensures
        forall|i: int, j: int|
            0 <= i < j < collected(g, seed).len() ==> collected(g, seed)[i].redstone != collected(g, seed)[j].redstone,
        forall|t: usize|
            walk(g, seq![seed], Set::empty()).contains(t) && g[t as int] is Torch ==> exists|i: int|
                0 <= i < collected(g, seed).len() && (#[trigger] collected(g, seed)[i]).redstone == t,
        forall|i: int|
            0 <= i < collected(g, seed).len() ==> {
                let c = #[trigger] collected(g, seed)[i];
                &&& walk(g, seq![seed], Set::empty()).contains(c.redstone)
                &&& g[c.redstone as int] is Torch
                &&& c.creator is None
                &&& c.next_dispatch_frame.tick == 0
            },
{
    let w = walk(g, seq![seed], Set::empty());
    law_walk_visits_once(g, seq![seed], Set::empty());
    lemma_seeds_once(g, w);
    lemma_seeds(g, w);
    assert forall|t: usize| w.contains(t) && g[t as int] is Torch implies exists|i: int|
        0 <= i < collected(g, seed).len() && (#[trigger] collected(g, seed)[i]).redstone == t by {
        let k = choose|k: int| 0 <= k < w.len() && w[k] == t;
        assert(g[w[k] as int] is Torch);
    }
}

/// Walks the circuit from `seed` with a [`RedstoneIter`] and returns the
/// initial work: one item per torch.
pub fn collect_with_iter(nodes: &Vec<Redstone>, seed: usize) -> (out: Vec<Constraint>)
    requires
        seed < nodes.len(),
        ranged(wirings(nodes@)),
    ensures
        out@ == collected(wirings(nodes@), seed),
{
    let ghost g = wirings(nodes@);
    let ghost full = walk(g, seq![seed], Set::empty());
    let ghost mut order: Seq<usize> = Seq::empty();
    let mut out: Vec<Constraint> = Vec::new();
    let mut iter = RedstoneIter::new(nodes, seed);
    loop
        invariant
            g == wirings(nodes@),
            iter.fits(g),
            full == order + walk(g, iter.queue(), iter.visited()),
            out@ == seeds(g, order),
        ensures
            out@ == seeds(g, full),
        decreases unvisited(g.len(), iter.visited()),
    {
        let ghost q = pending(iter.queue(), iter.visited());
        let ghost seen = iter.visited();
        proof {
            lemma_pending(iter.queue(), iter.visited(), g.len());
        }
        match iter.next(nodes) {
            None => {
                assert(order + Seq::<usize>::empty() == order);
                break ;
            },
            Some(current) => {
                proof {
                    lemma_unvisited_insert(g.len(), seen, current);
                    assert(order.push(current) + walk(g, iter.queue(), iter.visited()) == order + (
                    seq![current] + walk(g, iter.queue(), iter.visited())));
                    assert(order.push(current).drop_last() == order);
                    order = order.push(current);
                }
                if nodes[current].is_torch() {
                    out.push(Constraint::new(current, Frame::zero()));
                }
            },
        }
    }
    out
}

/// Walks the circuit from `seed` and returns the initial work: one item
/// per torch.
pub fn collect_from(nodes: &Vec<Redstone>, seed: usize) -> (out: Vec<Constraint>)
    requires
        seed < nodes.len(),
        ranged(wirings(nodes@)),
    ensures
        out@ == collected(wirings(nodes@), seed),
{
    let ghost g = wirings(nodes@);
    let ghost full = walk(g, seq![seed], Set::empty());
    let ghost mut order: Seq<usize> = Seq::empty();
    let mut visited: Vec<bool> = vec![false; nodes.len()];
    let ghost mut seen: Set<usize> = Set::empty();
    let mut queue: VecDeque<usize> = VecDeque::new();
    queue.push_front(seed);
    assert(queue@ == seq![seed]);
    let mut out: Vec<Constraint> = Vec::new();
    loop
        invariant
            g == wirings(nodes@),
            ranged(g),
            visited.len() == nodes.len(),
            forall|i: usize| seen.contains(i) <==> i < visited.len() && visited[i as int],
            all_below(queue@, g.len()),
            full == order + walk(g, queue@, seen),
            out@ == seeds(g, order),
        ensures
            out@ == seeds(g, full),
        decreases unvisited(g.len(), seen), queue@.len(),
    {
        let ghost before = queue@;
        let current = match queue.pop_front() {
            Some(current) => current,
            None => {
                assert(pending(before, seen) == before);
                assert(order + Seq::<usize>::empty() == order);
                break ;
            },
        };
        let ghost rest = queue@;
        assert forall|k: int| 0 <= k < rest.len() implies #[trigger] rest[k] < g.len() by {
            assert(rest[k] == before[k + 1]);
        }
        assert(current == before[0]);
        if visited[current] {
            assert(pending(before, seen) == pending(rest, seen));
            continue ;
        }
        visited.set(current, true);
        proof {
            assert(pending(before, seen) == before);
            assert(before.subrange(1, before.len() as int) == rest);
            lemma_unvisited_insert(g.len(), seen, current);
            lemma_adjacent_in_range(g[current as int], g.len());
            assert(order.push(current) + walk(
                g,
                rest + g[current as int].adjacent(),
                seen.insert(current),
            ) == order + (seq![current] + walk(
                g,
                rest + g[current as int].adjacent(),
                seen.insert(current),
            )));
            assert(order.push(current).drop_last() == order);
            order = order.push(current);
            seen = seen.insert(current);
        }
        if nodes[current].is_torch() {
            out.push(Constraint::new(current, Frame::zero()));
        }
        nodes[current].enqueue_adjacent(&mut queue);
    }
    out
}

} // verus!
