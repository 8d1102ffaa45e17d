//! Circuits without feedback come to rest.
//!
//! A dust or a block does not schedule the node that asked for its
//! dispatch, so two of them that list each other do not keep each other
//! busy.  What counts as feedback is therefore judged on pairs of a node
//! and the node that asked for it.

use vstd::prelude::*;
use crate::frame::Frame;
use crate::redstate::Redstate;
use crate::redstone::Wiring;
use crate::circuit::{well_formed, node_ok};
use crate::dispatch::{consequents, without, Constraint};
use crate::solver::{earliest, lemma_earliest, lemma_run_fixed, lemma_step_in_bounds, stacked, Solving};
use crate::walk::{collected, lemma_collected, ranged};

verus! {

impl Wiring {
    /// The nodes that a dispatch asked for by `creator` schedules unless
    /// it idles: what the node lists, a dust and a block leaving out
    /// `creator`.
    pub open spec fn targets(self, creator: Option<usize>) -> Seq<usize> {
        match self {
            Wiring::Dust { neighbors, .. } => without(neighbors, creator),
            Wiring::Block { outgoing, .. } => without(outgoing, creator),
            _ => self.forward(),
        }
    }
}

/// `rank` numbers the pairs of a node and the node that asked for its
/// dispatch such that every dispatch schedules pairs of a lesser number
/// only.  Such a numbering exists where the only loops of the circuit are
/// dusts and blocks that list each other; it does not exist where a chain
/// of forward connections leads back to where it began by another way.
pub open spec fn descends(g: Seq<Wiring>, rank: spec_fn(usize, Option<usize>) -> nat) -> bool {
    forall|m: int, creator: Option<usize>, k: int|
        0 <= m < g.len() && 0 <= k < g[m].targets(creator).len() ==> rank(
            #[trigger] g[m].targets(creator)[k],
            Some(m as usize),
        ) < rank(m as usize, creator)
}

/// The number of dispatches that the nodes of `ids`, asked for by `by`,
/// can bring about at most, counting for each pair of a rank below `bound`
/// itself and what the nodes that it schedules can bring about.
pub open spec fn reach_count(
    g: Seq<Wiring>,
    rank: spec_fn(usize, Option<usize>) -> nat,
    ids: Seq<usize>,
    by: usize,
    bound: nat,
) -> nat
    decreases bound, ids.len(),
{
    if ids.len() == 0 {
        0
    } else {
        reach_count(g, rank, ids.drop_last(), by, bound) + if rank(ids.last(), Some(by)) < bound {
            1 + reach_count(
                g,
                rank,
                g[ids.last() as int].targets(Some(by)),
                ids.last(),
                rank(ids.last(), Some(by)),
            )
        } else {
            0
        }
    }
}

/// The number of dispatches that a dispatch of node `m`, asked for by
/// `creator`, can bring about at most, itself included.
pub open spec fn weight(
    g: Seq<Wiring>,
    rank: spec_fn(usize, Option<usize>) -> nat,
    m: usize,
    creator: Option<usize>,
) -> nat {
    1 + reach_count(g, rank, g[m as int].targets(creator), m, rank(m, creator))
}

/// The sum of the weights of the nodes of `ids`, each asked for by `by`.
pub open spec fn heft(g: Seq<Wiring>, rank: spec_fn(usize, Option<usize>) -> nat, ids: Seq<usize>, by: usize) -> nat
    decreases ids.len(),
{
    if ids.len() == 0 {
        0
    } else {
        heft(g, rank, ids.drop_last(), by) + weight(g, rank, ids.last(), Some(by))
    }
}

/// The sum of the weights of the work items.
pub open spec fn load(g: Seq<Wiring>, rank: spec_fn(usize, Option<usize>) -> nat, items: Seq<Constraint>) -> nat
    decreases items.len(),
{
    if items.len() == 0 {
        0
    } else {
        load(g, rank, items.drop_last()) + weight(g, rank, items.last().redstone, items.last().creator)
    }
}

/// Whether no item of the queue is ready: one if so, zero if one is.
pub open spec fn idle(g: Seq<Wiring>, s: Solving) -> nat {
    if exists|k: int| 0 <= k < s.queue.len() && (#[trigger] s.queue[k]).ready(g, s.frame) {
        0
    } else {
        1
    }
}

/// No work is for a frame that is yet to come, and the work that was put
/// off is not ready.
pub open spec fn on_time(g: Seq<Wiring>, s: Solving) -> bool {
    &&& forall|k: int|
        0 <= k < s.queue.len() ==> (#[trigger] s.queue[k]).next_dispatch_frame.tick <= s.frame.tick
    &&& forall|k: int|
        0 <= k < s.deferred.len() ==> (#[trigger] s.deferred[k]).next_dispatch_frame.tick <= s.frame.tick
            && !s.deferred[k].ready(g, s.frame)
}

/// The last frame that the work at hand can reach: four frames for every
/// dispatch that it can bring about, beyond the current one.
pub open spec fn horizon(g: Seq<Wiring>, rank: spec_fn(usize, Option<usize>) -> nat, s: Solving) -> int {
    s.frame.tick + 4 * (load(g, rank, s.queue) + load(g, rank, s.deferred) + idle(g, s))
}

proof fn lemma_reach_count_is_heft(
    g: Seq<Wiring>,
    rank: spec_fn(usize, Option<usize>) -> nat,
    ids: Seq<usize>,
    by: usize,
    bound: nat,
)
    requires
        forall|k: int| 0 <= k < ids.len() ==> rank(#[trigger] ids[k], Some(by)) < bound,
    ensures
        reach_count(g, rank, ids, by, bound) == heft(g, rank, ids, by),
    decreases ids.len(),
{
    if ids.len() > 0 {
        assert(forall|k: int| 0 <= k < ids.drop_last().len() ==> ids.drop_last()[k] == ids[k]);
        lemma_reach_count_is_heft(g, rank, ids.drop_last(), by, bound);
        assert(rank(ids[ids.len() - 1], Some(by)) < bound);
    }
}

proof fn lemma_load_consequents(
    g: Seq<Wiring>,
    rank: spec_fn(usize, Option<usize>) -> nat,
    targets: Seq<usize>,
    frame: Frame,
    creator: usize,
)
    ensures
        load(g, rank, consequents(targets, frame, creator)) == heft(g, rank, targets, creator),
    decreases targets.len(),
{
    if targets.len() > 0 {
        lemma_load_consequents(g, rank, targets.drop_last(), frame, creator);
        assert(consequents(targets, frame, creator).drop_last() == consequents(
            targets.drop_last(),
            frame,
            creator,
        ));
    }
}

proof fn lemma_load_one(g: Seq<Wiring>, rank: spec_fn(usize, Option<usize>) -> nat, c: Constraint)
    ensures
        load(g, rank, seq![c]) == weight(g, rank, c.redstone, c.creator),
{
    let one = seq![c];
    assert(one.drop_last() == Seq::<Constraint>::empty());
    assert(load(g, rank, one.drop_last()) == 0);
    assert(one.last() == c);
}

proof fn lemma_load_append(
    g: Seq<Wiring>,
    rank: spec_fn(usize, Option<usize>) -> nat,
    a: Seq<Constraint>,
    b: Seq<Constraint>,
)
    ensures
        load(g, rank, a + b) == load(g, rank, a) + load(g, rank, b),
    decreases b.len(),
{
    if b.len() == 0 {
        assert(a + b == a);
    } else {
        lemma_load_append(g, rank, a, b.drop_last());
        assert((a + b).drop_last() == a + b.drop_last());
    }
}

proof fn lemma_load_stacked(
    g: Seq<Wiring>,
    rank: spec_fn(usize, Option<usize>) -> nat,
    items: Seq<Constraint>,
    queue: Seq<Constraint>,
)
    ensures
        load(g, rank, stacked(items, queue)) == load(g, rank, items) + load(g, rank, queue),
    decreases items.len(),
{
    if items.len() > 0 {
        lemma_load_stacked(g, rank, items.drop_last(), queue);
        let head = seq![items.last()];
        lemma_load_append(g, rank, head, stacked(items.drop_last(), queue));
        lemma_load_one(g, rank, items.last());
    }
}

proof fn lemma_load_front(g: Seq<Wiring>, rank: spec_fn(usize, Option<usize>) -> nat, queue: Seq<Constraint>)
    requires
        queue.len() > 0,
    ensures
        load(g, rank, queue) == weight(g, rank, queue[0].redstone, queue[0].creator) + load(
            g,
            rank,
            queue.subrange(1, queue.len() as int),
        ),
{
    let head = seq![queue[0]];
    let rest = queue.subrange(1, queue.len() as int);
    assert(head + rest == queue);
    lemma_load_append(g, rank, head, rest);
    lemma_load_one(g, rank, queue[0]);
}

/// What a dispatch of a node schedules weighs less than the node.
proof fn lemma_emits_weigh_less(
    g: Seq<Wiring>,
    rank: spec_fn(usize, Option<usize>) -> nat,
    m: usize,
    st: Seq<Redstate>,
    creator: Option<usize>,
    frame: Frame,
)
    requires
        m < g.len(),
        descends(g, rank),
    ensures
        heft(g, rank, g[m as int].emits(st, creator, frame), m) < weight(g, rank, m, creator),
{
    let w = g[m as int];
    let all = w.targets(creator);
    assert forall|k: int| 0 <= k < all.len() implies rank(#[trigger] all[k], Some(m)) < rank(m, creator) by {
        assert(rank(g[m as int].targets(creator)[k], Some(m)) < rank(m, creator));
    }
    lemma_reach_count_is_heft(g, rank, all, m, rank(m, creator));
    assert(w.emits(st, creator, frame) == all || w.emits(st, creator, frame) == Seq::<usize>::empty());
}

/// A step with work at hand lessens the load, or leaves it and makes
/// an item ready, or leaves both and shortens the queue.  It keeps the
/// work on time and does not move the horizon out.
proof fn lemma_step_lessens(g: Seq<Wiring>, rank: spec_fn(usize, Option<usize>) -> nat, s: Solving)
    requires
        well_formed(g),
        s.in_bounds(g),
        descends(g, rank),
        on_time(g, s),
        horizon(g, rank, s) <= u64::MAX,
        !s.done(),
    ensures
        ({
            let t = s.step(g);
            let before = load(g, rank, s.queue) + load(g, rank, s.deferred);
            let after = load(g, rank, t.queue) + load(g, rank, t.deferred);
            &&& on_time(g, t)
            &&& horizon(g, rank, t) <= horizon(g, rank, s)
            &&& {
                ||| after < before
                ||| after == before && idle(g, t) < idle(g, s)
                ||| after == before && idle(g, t) == idle(g, s) && t.queue.len() < s.queue.len()
            }
        }),
{
    let t = s.step(g);
    if s.queue.len() > 0 {
        let c = s.queue[0];
        let rest = s.queue.subrange(1, s.queue.len() as int);
        lemma_load_front(g, rank, s.queue);
        assert forall|k: int| 0 <= k < rest.len() implies (#[trigger] rest[k]).next_dispatch_frame.tick
            <= s.frame.tick by {
            assert(rest[k] == s.queue[k + 1]);
        }
        if c.ready(g, s.frame) {
            let w = g[c.redstone as int];
            let targets = w.emits(s.states, c.creator, s.frame);
            let items = consequents(targets, s.frame, c.redstone);
            lemma_emits_weigh_less(g, rank, c.redstone, s.states, c.creator, s.frame);
            lemma_load_consequents(g, rank, targets, s.frame, c.redstone);
            lemma_load_stacked(g, rank, items, rest);
            crate::solver::lemma_stacked_members(items, rest);
            assert forall|k: int| 0 <= k < t.queue.len() implies (#[trigger] t.queue[k]).next_dispatch_frame.tick
                <= t.frame.tick by {
                if t.queue != rest {
                    if k < items.len() {
                        assert(t.queue[k] == items[items.len() - 1 - k]);
                    } else {
                        assert(t.queue[items.len() + (k - items.len())] == rest[k - items.len()]);
                    }
                }
            }
            assert(t.deferred == s.deferred);
            assert(idle(g, s) == 0) by {
                assert(s.queue[0].ready(g, s.frame));
            }
        } else {
            assert(t.deferred.drop_last() == s.deferred);
            assert forall|k: int| 0 <= k < t.deferred.len() implies (
            #[trigger] t.deferred[k]).next_dispatch_frame.tick <= t.frame.tick && !t.deferred[k].ready(
                g,
                t.frame,
            ) by {
                if k < s.deferred.len() {
                    assert(t.deferred[k] == s.deferred[k]);
                }
            }
            if idle(g, s) == 0 {
                let k = choose|k: int| 0 <= k < s.queue.len() && (#[trigger] s.queue[k]).ready(g, s.frame);
                assert(t.queue[k - 1] == s.queue[k]);
                assert(t.queue[k - 1].ready(g, t.frame));
            } else {
                if idle(g, t) == 0 {
                    let k = choose|k: int| 0 <= k < t.queue.len() && (#[trigger] t.queue[k]).ready(g, t.frame);
                    assert(s.queue[k + 1] == t.queue[k]);
                    assert(s.queue[k + 1].ready(g, s.frame));
                }
            }
        }
    } else {
        lemma_earliest(g, s.deferred);
        let k = choose|k: int|
            0 <= k < s.deferred.len() && earliest(g, s.deferred) == (#[trigger] s.deferred[k]).due(g);
        let first = s.deferred[k];
        assert(node_ok(g, first.redstone as int));
        assert(g[first.redstone as int].frame_offset().tick <= 4);
        assert(s.frame.tick < earliest(g, s.deferred) <= s.frame.tick + 4);
        assert(idle(g, s) == 1);
        assert(s.queue == Seq::<Constraint>::empty());
        assert(load(g, rank, s.queue) == 0);
        assert(earliest(g, s.deferred) <= u64::MAX);
        assert(t == s.advance(g));
        assert(t.deferred == Seq::<Constraint>::empty());
        assert(t.queue[k].ready(g, t.frame));
        assert forall|j: int| 0 <= j < t.queue.len() implies (#[trigger] t.queue[j]).next_dispatch_frame.tick
            <= t.frame.tick by {
            assert(t.queue[j] == s.deferred[j]);
        }
    }
}

/// A solver whose work is on time and whose horizon exists comes to rest.
proof fn lemma_comes_to_rest(g: Seq<Wiring>, rank: spec_fn(usize, Option<usize>) -> nat, s: Solving) -> (fuel: nat)
    requires
        well_formed(g),
        s.in_bounds(g),
        descends(g, rank),
        on_time(g, s),
        horizon(g, rank, s) <= u64::MAX,
    ensures
        s.run(g, fuel).done(),
    decreases load(g, rank, s.queue) + load(g, rank, s.deferred), idle(g, s), s.queue.len(),
{
    if s.done() {
        0
    } else {
        lemma_step_lessens(g, rank, s);
        lemma_step_in_bounds(s, g);
        let rest = lemma_comes_to_rest(g, rank, s.step(g));
        rest + 1
    }
}

/// Running `a` steps and then `b` steps is running `a + b` steps.
proof fn lemma_run_split(s: Solving, g: Seq<Wiring>, a: nat, b: nat)
    ensures
        s.run(g, a).run(g, b) == s.run(g, a + b),
    decreases a,
{
    if a > 0 {
        lemma_run_split(s.step(g), g, (a - 1) as nat, b);
    }
}

/// A circuit without feedback comes to rest.  Where the pairs of a node
/// and the node that asked for it can be numbered downwards, a solve
/// that starts in frame zero from work for frame zero empties both of its
/// queues: there is a number of steps, which is returned, from which on
/// the solver is done.  The frames that the work can reach must exist.
pub proof fn law_no_feedback_comes_to_rest(
    g: Seq<Wiring>,
    rank: spec_fn(usize, Option<usize>) -> nat,
    st: Seq<Redstate>,
    constraints: Seq<Constraint>,
) -> (fuel: nat)
    requires
        well_formed(g),
        st.len() == g.len(),
        descends(g, rank),
        forall|k: int|
            0 <= k < constraints.len() ==> (#[trigger] constraints[k]).redstone < g.len()
                && constraints[k].next_dispatch_frame.tick == 0,
        4 * (load(g, rank, constraints) + 1) <= u64::MAX,
    ensures
        forall|steps: nat| steps >= fuel ==> (#[trigger] Solving::start(st, constraints).run(g, steps)).done(),
{
    let s = Solving::start(st, constraints);
    assert(load(g, rank, s.deferred) == 0);
    let fuel = lemma_comes_to_rest(g, rank, s);
    assert forall|steps: nat| steps >= fuel implies (#[trigger] s.run(g, steps)).done() by {
        lemma_run_split(s, g, fuel, (steps - fuel) as nat);
        lemma_run_fixed(s.run(g, fuel), g, (steps - fuel) as nat);
    }
    fuel
}

/// The work that is collected from a node of a circuit without feedback
/// is solved in a number of steps, which is returned: with that many steps
/// or more, the solver ends with both queues empty.
pub proof fn law_collected_work_comes_to_rest(
    g: Seq<Wiring>,
    rank: spec_fn(usize, Option<usize>) -> nat,
    st: Seq<Redstate>,
    seed: usize,
) -> (fuel: nat)
    requires
        well_formed(g),
        st.len() == g.len(),
        seed < g.len(),
        descends(g, rank),
        4 * (load(g, rank, collected(g, seed)) + 1) <= u64::MAX,
    ensures
        forall|steps: nat|
            steps >= fuel ==> (#[trigger] Solving::start(st, collected(g, seed)).run(g, steps)).done(),
{
    crate::walk::lemma_well_formed_ranged(g);
    lemma_collected(g, seed);
    law_no_feedback_comes_to_rest(g, rank, st, collected(g, seed))
}

} // verus!
