//! The frame-based fixed-point loop.
//!
//! The loop is described as a machine that takes one step at a time:
//! [`Solving::step`].  The executable solver takes exactly those steps.

use vstd::prelude::*;
use std::collections::VecDeque;
use crate::frame::Frame;
use crate::redstate::Redstate;
use crate::redstone::{Redstone, Wiring, states, wirings, slot};
use crate::circuit::{well_formed, node_ok};
use crate::dispatch::{Constraint, consequents, without};

verus! {

/// What the solver did in a step, for diagnosis.
#[derive(Clone, Copy, Debug, PartialEq, Eq, Structural)]
pub enum SolveEvent {
    /// The work item for `node` was put off to a later frame.
    Deferred { node: usize },
    /// `node` was dispatched; whether it conducted before and after.
    Dispatched { node: usize, was_on: bool, now_on: bool },
    /// The signal of the dispatched node has changed, and `count` work
    /// items went to the front of the queue.
    Queued { count: usize },
    /// The frame advanced to `to`.
    Advanced { to: Frame },
}

/// The solver between two steps: the state of every node, the work that
/// is waiting in this frame, the work that was put off to a later frame, the
/// current frame, how many dispatches have changed a signal so far, and
/// the events so far.
pub struct Solving {
    pub states: Seq<Redstate>,
    pub queue: Seq<Constraint>,
    pub deferred: Seq<Constraint>,
    pub frame: Frame,
    pub changes: nat,
    pub log: Seq<SolveEvent>,
}

/// `queue` after each of `items`, in order, was pushed to its front.
pub open spec fn stacked(items: Seq<Constraint>, queue: Seq<Constraint>) -> Seq<Constraint>
    decreases items.len(),
{
    if items.len() == 0 {
        queue
    } else {
        seq![items.last()] + stacked(items.drop_last(), queue)
    }
}

/// The earliest frame from which on one of `items` may fire.
pub open spec fn earliest(g: Seq<Wiring>, items: Seq<Constraint>) -> int
    decreases items.len(),
{
    if items.len() == 0 {
        0
    } else if items.len() == 1 {
        items[0].due(g)
    } else {
        let rest = earliest(g, items.drop_last());
        let last = items.last().due(g);
        if last < rest {
            last
        } else {
            rest
        }
    }
}

impl Solving {
    /// The solver before its first step.
    pub open spec fn start(states: Seq<Redstate>, constraints: Seq<Constraint>) -> Solving {
        Solving {
            states,
            queue: constraints,
            deferred: Seq::empty(),
            frame: Frame { tick: 0 },
            changes: 0,
            log: Seq::empty(),
        }
    }

    /// Nothing is left to do.
    pub open spec fn done(self) -> bool {
        self.queue.len() == 0 && self.deferred.len() == 0
    }

    /// The head of the queue is put off.
    pub open spec fn defer(self) -> Solving {
        Solving {
            queue: self.queue.subrange(1, self.queue.len() as int),
            deferred: self.deferred.push(self.queue[0]),
            log: self.log.push(SolveEvent::Deferred { node: self.queue[0].redstone }),
            ..self
        }
    }

    /// The head of the queue is dispatched.  What it schedules goes to the
    /// front of the queue, but only if its signal has changed.
    pub open spec fn fire(self, g: Seq<Wiring>) -> Solving {
        let c = self.queue[0];
        let rest = self.queue.subrange(1, self.queue.len() as int);
        let w = g[c.redstone as int];
        let me = self.states[c.redstone as int];
        let next = w.outcome(me, self.states, self.frame);
        let targets = w.emits(self.states, c.creator, self.frame);
        let dispatched = SolveEvent::Dispatched {
            node: c.redstone,
            was_on: me@.is_on(),
            now_on: next@.is_on(),
        };
        if next@ != me@ {
            Solving {
                states: self.states.update(c.redstone as int, next),
                queue: stacked(consequents(targets, self.frame, c.redstone), rest),
                changes: self.changes + 1,
                log: self.log.push(dispatched).push(SolveEvent::Queued { count: targets.len() as usize }),
                ..self
            }
        } else {
            Solving {
                states: self.states.update(c.redstone as int, next),
                queue: rest,
                log: self.log.push(dispatched),
                ..self
            }
        }
    }

    /// The frame jumps to the earliest frame in which deferred work may
    /// fire, and the deferred work becomes the queue.
    pub open spec fn advance(self, g: Seq<Wiring>) -> Solving {
        Solving {
            frame: Frame { tick: earliest(g, self.deferred) as u64 },
            queue: self.deferred,
            deferred: Seq::empty(),
            log: self.log.push(
                SolveEvent::Advanced { to: Frame { tick: earliest(g, self.deferred) as u64 } },
            ),
            ..self
        }
    }

    /// One step of the solver.  With work in the queue, its head is
    /// dispatched if it is ready and put off if it is not.  With an empty
    /// queue the frame advances, unless nothing was put off or the frame
    /// to jump to does not exist: then nothing happens any more.
    pub open spec fn step(self, g: Seq<Wiring>) -> Solving {
        if self.queue.len() > 0 {
            if self.queue[0].ready(g, self.frame) {
                self.fire(g)
            } else {
                self.defer()
            }
        } else if self.deferred.len() > 0 && earliest(g, self.deferred) <= u64::MAX {
            self.advance(g)
        } else {
            self
        }
    }

    /// The solver after `fuel` steps.
    pub open spec fn run(self, g: Seq<Wiring>, fuel: nat) -> Solving
        decreases fuel,
    {
        if fuel == 0 {
            self
        } else {
            self.step(g).run(g, (fuel - 1) as nat)
        }
    }

    /// Every piece of work is for a node of the circuit.
    pub open spec fn in_bounds(self, g: Seq<Wiring>) -> bool {
        &&& self.states.len() == g.len()
        &&& forall|k: int| 0 <= k < self.queue.len() ==> (#[trigger] self.queue[k]).redstone < g.len()
        &&& forall|k: int|
            0 <= k < self.deferred.len() ==> (#[trigger] self.deferred[k]).redstone < g.len()
    }
}

/// What is left without a node was there before.
pub proof fn lemma_without_subset(ids: Seq<usize>, skip: Option<usize>)
    ensures
        forall|x: usize| #[trigger] without(ids, skip).contains(x) ==> ids.contains(x) && Some(x) != skip,
        forall|x: usize| ids.contains(x) && Some(x) != skip ==> #[trigger] without(ids, skip).contains(x),
    decreases ids.len(),
{
    if ids.len() > 0 {
        let front = ids.drop_last();
        lemma_without_subset(front, skip);
        assert forall|x: usize| #[trigger] without(ids, skip).contains(x) implies ids.contains(x)
            && Some(x) != skip by {
            let k = choose|k: int| 0 <= k < without(ids, skip).len() && without(ids, skip)[k] == x;
            if Some(ids.last()) != skip && k == without(front, skip).len() {
                assert(ids[ids.len() - 1] == x);
            } else {
                assert(without(front, skip)[k] == x);
                assert(without(front, skip).contains(x));
                let j = choose|j: int| 0 <= j < front.len() && front[j] == x;
                assert(ids[j] == x);
            }
        }
        assert forall|x: usize| ids.contains(x) && Some(x) != skip implies #[trigger] without(
            ids,
            skip,
        ).contains(x) by {
            let k = choose|k: int| 0 <= k < ids.len() && ids[k] == x;
            if k == ids.len() - 1 {
                assert(without(ids, skip).last() == x);
            } else {
                assert(front[k] == x);
                assert(front.contains(x));
                assert(without(front, skip).contains(x));
                let j = choose|j: int|
                    0 <= j < without(front, skip).len() && without(front, skip)[j] == x;
                assert(without(ids, skip)[j] == x);
            }
        }
    }
}

/// A dispatch schedules only nodes that the dispatched node lists as its
/// forward connections.
pub proof fn lemma_emits_forward(w: Wiring, st: Seq<Redstate>, creator: Option<usize>, frame: Frame)
    ensures
        forall|x: usize| #[trigger] w.emits(st, creator, frame).contains(x) ==> w.forward().contains(x),
{
    match w {
        Wiring::Dust { neighbors, .. } => {
            lemma_without_subset(neighbors, creator);
        },
        Wiring::Block { outgoing, .. } => {
            lemma_without_subset(outgoing, creator);
        },
        _ => {},
    }
}

/// The members of a stack are the items pushed and what was in the queue.
pub proof fn lemma_stacked_members(items: Seq<Constraint>, queue: Seq<Constraint>)
    ensures
        stacked(items, queue).len() == items.len() + queue.len(),
        forall|k: int|
            0 <= k < items.len() ==> #[trigger] stacked(items, queue)[k] == items[items.len() - 1 - k],
        forall|k: int|
            0 <= k < queue.len() ==> #[trigger] stacked(items, queue)[items.len() + k] == queue[k],
    decreases items.len(),
{
    if items.len() > 0 {
        lemma_stacked_members(items.drop_last(), queue);
        let s = stacked(items, queue);
        let t = stacked(items.drop_last(), queue);
        assert forall|k: int| 0 <= k < items.len() implies #[trigger] s[k] == items[items.len() - 1
            - k] by {
            if k > 0 {
                assert(s[k] == t[k - 1]);
            }
        }
        assert forall|k: int| 0 <= k < queue.len() implies #[trigger] s[items.len() + k]
            == queue[k] by {
            assert(s[items.len() + k] == t[items.len() - 1 + k]);
        }
    }
}

/// The earliest frame is the due frame of one of the items and no later
/// than any of them.
pub proof fn lemma_earliest(g: Seq<Wiring>, items: Seq<Constraint>)
    requires
        items.len() > 0,
    ensures
        forall|k: int| 0 <= k < items.len() ==> earliest(g, items) <= (#[trigger] items[k]).due(g),
        exists|k: int| 0 <= k < items.len() && earliest(g, items) == (#[trigger] items[k]).due(g),
    decreases items.len(),
{
    if items.len() > 1 {
        let front = items.drop_last();
        lemma_earliest(g, front);
        let j = choose|k: int| 0 <= k < front.len() && earliest(g, front) == (#[trigger] front[k]).due(g);
        assert(front[j] == items[j]);
        assert forall|k: int| 0 <= k < items.len() implies earliest(g, items) <= (
        #[trigger] items[k]).due(g) by {
            if k < front.len() {
                assert(front[k] == items[k]);
            }
        }
        if items.last().due(g) < earliest(g, front) {
            assert(earliest(g, items) == items[items.len() - 1].due(g));
        } else {
            assert(earliest(g, items) == items[j].due(g));
        }
    } else {
        assert(earliest(g, items) == items[0].due(g));
    }
}

/// A step keeps every piece of work within the circuit.
pub proof fn lemma_step_in_bounds(s: Solving, g: Seq<Wiring>)
    requires
        well_formed(g),
        s.in_bounds(g),
    ensures
        s.step(g).in_bounds(g),
{
    let t = s.step(g);
    if s.queue.len() > 0 {
        let c = s.queue[0];
        let rest = s.queue.subrange(1, s.queue.len() as int);
        assert forall|k: int| 0 <= k < rest.len() implies (#[trigger] rest[k]).redstone < g.len() by {
            assert(rest[k] == s.queue[k + 1]);
        }
        if c.ready(g, s.frame) {
            let w = g[c.redstone as int];
            let targets = w.emits(s.states, c.creator, s.frame);
            let items = consequents(targets, s.frame, c.redstone);
            lemma_emits_forward(w, s.states, c.creator, s.frame);
            lemma_stacked_members(items, rest);
            assert(node_ok(g, c.redstone as int));
            lemma_forward_in_range(w, g.len());
            assert forall|k: int| 0 <= k < t.queue.len() implies (#[trigger] t.queue[k]).redstone
                < g.len() by {
                if t.queue != rest {
                    if k < items.len() {
                        let j = items.len() - 1 - k;
                        assert(t.queue[k] == items[j]);
                        assert(targets.contains(targets[j]));
                        assert(w.forward().contains(targets[j]));
                    } else {
                        assert(t.queue[items.len() + (k - items.len())] == rest[k - items.len()]);
                    }
                }
            }
        } else {
            assert forall|k: int| 0 <= k < t.deferred.len() implies (
            #[trigger] t.deferred[k]).redstone < g.len() by {
                if k < s.deferred.len() {
                    assert(t.deferred[k] == s.deferred[k]);
                }
            }
        }
    }
}

/// What a node in range schedules is in range.
pub proof fn lemma_forward_in_range(w: Wiring, n: nat)
    requires
        w.in_range(n),
    ensures
        forall|x: usize| #[trigger] w.forward().contains(x) ==> x < n,
{
    assert forall|x: usize| #[trigger] w.forward().contains(x) implies x < n by {
        let k = choose|k: int| 0 <= k < w.forward().len() && w.forward()[k] == x;
        match w {
            Wiring::Repeater { outgoing, .. } => {
                assert(slot(outgoing)[k] == x);
            },
            _ => {},
        }
    }
}

/// Once a step changes nothing, no number of steps does.
pub proof fn lemma_run_fixed(s: Solving, g: Seq<Wiring>, fuel: nat)
    requires
        s.step(g) == s,
    ensures
        s.run(g, fuel) == s,
    decreases fuel,
{
    if fuel > 0 {
        lemma_run_fixed(s, g, (fuel - 1) as nat);
    }
}

/// What a solve that came to rest reports: how many dispatches changed a
/// signal, and the frame in which the last work was done.
#[derive(Clone, Copy, Debug)]
pub struct SolveStats {
    pub changes: u64,
    pub frame: Frame,
}

/// The solver used up its steps with work left, or would have had to
/// jump beyond the last frame.
#[derive(Clone, Copy, Debug)]
pub struct NonConvergent {
    pub changes: u64,
    pub frame: Frame,
}

/// The earliest frame from which on one of `items` may fire.
pub fn earliest_due(nodes: &Vec<Redstone>, items: &VecDeque<Constraint>) -> (e: u128)
    requires
        items.len() > 0,
        forall|k: int| 0 <= k < items@.len() ==> (#[trigger] items@[k]).redstone < nodes.len(),
    ensures
        e == earliest(wirings(nodes@), items@),
{
    let first = items[0];
    let mut e: u128 = first.next_dispatch_frame.tick as u128 + nodes[first.redstone].dispatch_frame_offset().tick as u128;
    let mut i: usize = 1;
    assert(items@.take(1).len() == 1 && items@.take(1)[0] == items@[0]);
    while i < items.len()
        invariant
            1 <= i <= items.len(),
            forall|k: int| 0 <= k < items@.len() ==> (#[trigger] items@[k]).redstone < nodes.len(),
            e == earliest(wirings(nodes@), items@.take(i as int)),
        decreases items.len() - i,
    {
        let c = items[i];
        let due: u128 = c.next_dispatch_frame.tick as u128 + nodes[c.redstone].dispatch_frame_offset().tick as u128;
        proof {
            assert(items@.take(i + 1).drop_last() == items@.take(i as int));
            assert(items@.take(i + 1).last() == items@[i as int]);
        }
        if due < e {
            e = due;
        }
        i += 1;
    }
    assert(items@.take(items.len() as int) == items@);
    e
}

/// Runs the fixed-point loop on a table of nodes, starting from the
/// given work items in frame zero, for at most `max_steps` steps.
///
/// A step dispatches or puts off one work item, or advances the frame.  The
/// nodes end in the states that the machine of [`Solving::step`] reaches in
/// `max_steps` steps, and the result is `Ok` exactly when the machine has
/// come to rest by then.  With `record`, the events of the run are appended
/// to `events`.
pub fn solve(
    nodes: &mut Vec<Redstone>,
    constraints: &Vec<Constraint>,
    max_steps: u64,
    events: &mut Vec<SolveEvent>,
    record: bool,
) -> (r: Result<SolveStats, NonConvergent>)
    requires
        well_formed(wirings(old(nodes)@)),
        forall|k: int| 0 <= k < constraints.len() ==> (#[trigger] constraints[k]).redstone < old(nodes).len(),
    ensures
        wirings(final(nodes)@) == wirings(old(nodes)@),
        final(nodes).len() == old(nodes).len(),
        forall|i: int| 0 <= i < old(nodes).len() ==> final(nodes)[i].label() == old(nodes)[i].label(),
        ({
            let end = Solving::start(states(old(nodes)@), constraints@).run(
                wirings(old(nodes)@),
                max_steps as nat,
            );
            &&& states(final(nodes)@) == end.states
            &&& r is Ok <==> end.done()
            &&& r matches Ok(stats) ==> stats.changes == end.changes && stats.frame == end.frame
            &&& r matches Err(e) ==> e.changes == end.changes && e.frame == end.frame
            &&& final(events)@ == old(events)@ + (if record {
                end.log
            } else {
                Seq::empty()
            })
        }),
{
    let ghost g = wirings(nodes@);
    let ghost mut log: Seq<SolveEvent> = Seq::empty();
    assert(events@ + Seq::<SolveEvent>::empty() == events@);
    let ghost init = Solving::start(states(nodes@), constraints@);
    let mut queue: VecDeque<Constraint> = VecDeque::new();
    let mut i: usize = 0;
    while i < constraints.len()
        invariant
            i <= constraints.len(),
            queue@ == constraints@.take(i as int),
        decreases constraints.len() - i,
    {
        queue.push_back(constraints[i]);
        assert(constraints@.take(i + 1) == constraints@.take(i as int).push(constraints@[i as int]));
        i += 1;
    }
    assert(constraints@.take(constraints.len() as int) == constraints@);
    let mut deferred: VecDeque<Constraint> = VecDeque::new();
    let mut frame = Frame::zero();
    let mut steps: u64 = 0;
    let mut changes: u64 = 0;
    let mut resting = false;
    while steps < max_steps && !resting
        invariant
            wirings(nodes@) == g,
            well_formed(g),
            nodes.len() == old(nodes).len(),
            forall|i: int| 0 <= i < old(nodes).len() ==> nodes[i].label() == old(nodes)[i].label(),
            steps <= max_steps,
            changes <= steps,
            ({
                let cur = Solving {
                    states: states(nodes@),
                    queue: queue@,
                    deferred: deferred@,
                    frame,
                    changes: changes as nat,
                    log,
                };
                &&& cur.in_bounds(g)
                &&& init.run(g, max_steps as nat) == cur.run(g, (max_steps - steps) as nat)
                &&& resting ==> cur.step(g) == cur
            }),
            events@ == old(events)@ + (if record {
                log
            } else {
                Seq::empty()
            }),
        decreases max_steps - steps + (if resting { 0int } else { 1int }),
    {
        let ghost cur = Solving {
            states: states(nodes@),
            queue: queue@,
            deferred: deferred@,
            frame,
            changes: changes as nat,
            log,
        };
        proof {
            lemma_step_in_bounds(cur, g);
        }
        match queue.pop_front() {
            Some(c) => {
                let ghost rest = queue@;
                if c.dispatchable(nodes, frame) {
                    assert(node_ok(g, c.redstone as int));
                    let previous_state = *nodes[c.redstone].redstate();
                    let extra = c.dispatch(nodes, frame);
                    let new_state = *nodes[c.redstone].redstate();
                    let changed = previous_state != new_state;
                    assert(new_state == states(nodes@)[c.redstone as int]);
                    assert(changed == (new_state@ != previous_state@));
                    let dispatched = SolveEvent::Dispatched {
                        node: c.redstone,
                        was_on: previous_state.is_on(),
                        now_on: new_state.is_on(),
                    };
                    if record {
                        events.push(dispatched);
                    }
                    proof {
                        log = log.push(dispatched);
                    }
                    if changed {
                        if record {
                            events.push(SolveEvent::Queued { count: extra.len() });
                        }
                        proof {
                            log = log.push(SolveEvent::Queued { count: extra.len() });
                        }
                        changes += 1;
                        let mut j: usize = 0;
                        while j < extra.len()
                            invariant
                                j <= extra.len(),
                                queue@ == stacked(extra@.take(j as int), rest),
                            decreases extra.len() - j,
                        {
                            queue.push_front(extra[j]);
                            proof {
                                assert(extra@.take(j + 1).drop_last() == extra@.take(j as int));
                                assert(extra@.take(j + 1).last() == extra@[j as int]);
                            }
                            j += 1;
                        }
                        assert(extra@.take(extra.len() as int) == extra@);
                    }
                    assert(cur.step(g) == cur.fire(g));
                } else {
                    if record {
                        events.push(SolveEvent::Deferred { node: c.redstone });
                    }
                    proof {
                        log = log.push(SolveEvent::Deferred { node: c.redstone });
                    }
                    deferred.push_back(c);
                    assert(cur.step(g) == cur.defer());
                }
                steps += 1;
            },
            None => {
                if deferred.len() == 0 {
                    resting = true;
                } else {
                    let e = earliest_due(nodes, &deferred);
                    if e > u64::MAX as u128 {
                        resting = true;
                    } else {
                        frame = Frame { tick: e as u64 };
                        if record {
                            events.push(SolveEvent::Advanced { to: frame });
                        }
                        proof {
                            log = log.push(SolveEvent::Advanced { to: frame });
                        }
                        queue = deferred;
                        deferred = VecDeque::new();
                        steps += 1;
                        assert(cur.step(g) == cur.advance(g));
                    }
                }
            },
        }
        proof {
            let next = Solving {
                states: states(nodes@),
                queue: queue@,
                deferred: deferred@,
                frame,
                changes: changes as nat,
                log,
            };
            if resting {
                assert(next == cur);
                assert(cur.step(g) == cur);
            } else {
                assert(next == cur.step(g));
            }
        }
    }
    let ghost last = Solving {
        states: states(nodes@),
        queue: queue@,
        deferred: deferred@,
        frame,
        changes: changes as nat,
        log,
    };
    proof {
        if resting {
            lemma_run_fixed(last, g, (max_steps - steps) as nat);
        }
        assert(init.run(g, max_steps as nat) == last);
    }
    if queue.len() == 0 && deferred.len() == 0 {
        Ok(SolveStats { changes, frame })
    } else {
        Err(NonConvergent { changes, frame })
    }
}

} // verus!
