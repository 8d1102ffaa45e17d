//! What holds of every dispatch and of every run of the solver.

use vstd::prelude::*;
use crate::frame::Frame;
use crate::redstate::{bounded, Redstate};
use crate::redstone::{Wiring, slot};
use crate::circuit::{well_formed, node_ok};
use crate::dispatch::{any_forced, any_on, attenuated, best_offer, lit, offer, without, Constraint, consequents};
use crate::solver::{lemma_emits_forward, lemma_stacked_members, lemma_without_subset, Solving};

verus! {

/// The greatest offer is offered by a source that counts, and no source
/// that counts offers more.  No source counts exactly when there is none.
pub proof fn lemma_best_offer(st: Seq<Redstate>, sources: Seq<(u8, usize)>, frame: Frame)
    ensures
        best_offer(st, sources, frame) is None <==> forall|k: int|
            0 <= k < sources.len() ==> !lit(st, #[trigger] sources[k], frame),
        best_offer(st, sources, frame) matches Some(p) ==> {
            &&& exists|k: int|
                0 <= k < sources.len() && lit(st, #[trigger] sources[k], frame) && offer(st, sources[k])
                    == p
            &&& forall|k: int|
                0 <= k < sources.len() && lit(st, #[trigger] sources[k], frame) ==> offer(
                    st,
                    sources[k],
                ) <= p
        },
    decreases sources.len(),
{
    if sources.len() > 0 {
        let front = sources.drop_last();
        let last = sources.last();
        lemma_best_offer(st, front, frame);
        assert(forall|k: int| 0 <= k < front.len() ==> front[k] == sources[k]);
        let best = best_offer(st, sources, frame);
        if let Some(p) = best {
            if lit(st, last, frame) && !(best_offer(st, front, frame) matches Some(q) && q >= offer(
                st,
                last,
            )) {
                assert(lit(st, sources[sources.len() - 1], frame) && offer(
                    st,
                    sources[sources.len() - 1],
                ) == p);
            } else {
                let k = choose|k: int|
                    0 <= k < front.len() && lit(st, #[trigger] front[k], frame) && offer(st, front[k])
                        == p;
                assert(lit(st, sources[k], frame) && offer(st, sources[k]) == p);
            }
            assert forall|k: int|
                0 <= k < sources.len() && lit(st, #[trigger] sources[k], frame) implies offer(
                st,
                sources[k],
            ) <= p by {
                if k < front.len() {
                    assert(lit(st, front[k], frame));
                }
            }
        } else {
            assert forall|k: int| 0 <= k < sources.len() implies !lit(
                st,
                #[trigger] sources[k],
                frame,
            ) by {
                if k < front.len() {
                    assert(front[k] == sources[k]);
                }
            }
        }
        if forall|k: int| 0 <= k < sources.len() ==> !lit(st, #[trigger] sources[k], frame) {
            assert(!lit(st, sources[sources.len() - 1], frame));
            assert forall|k: int| 0 <= k < front.len() implies !lit(st, #[trigger] front[k], frame) by {
                assert(front[k] == sources[k]);
            }
        }
    }
}

/// A torch without an input carries full power after every dispatch, and conducts.
pub proof fn law_torch_source(w: Wiring, me: Redstate, st: Seq<Redstate>, frame: Frame)
    requires
        w matches Wiring::Torch { incoming, .. } && incoming is None,
    ensures
        w.outcome(me, st, frame)@.power == 16,
        w.outcome(me, st, frame)@.is_on(),
        w.outcome(me, st, frame).stamp() == Some(frame),
{
    let next = w.signal(me@, st, frame);
    Redstate::lemma_written(next, frame);
}

/// A torch with an input inverts it: after every dispatch it carries no
/// power if the input conducts and full power if it does not.
pub proof fn law_torch_inverts(w: Wiring, me: Redstate, st: Seq<Redstate>, frame: Frame)
    requires
        w matches Wiring::Torch { incoming, .. } && incoming is Some,
    ensures
        ({
            let x = w->Torch_incoming.unwrap();
            w.outcome(me, st, frame)@.power == (if st[x as int]@.is_on() {
                0u8
            } else {
                16u8
            })
        }),
        w.outcome(me, st, frame)@.forced == me@.forced,
        w.outcome(me, st, frame).stamp() == Some(frame),
{
    let x = w->Torch_incoming.unwrap();
    let next = w.signal(me@, st, frame);
    Redstate::lemma_written(next, frame);
    assert(slot(Some(x))[0] == x);
    if st[x as int]@.is_on() {
        assert(st[slot(Some(x))[0] as int]@.is_on());
    }
}

/// A dispatch of a dust with a source that was written in the current
/// frame leaves the dust with the greatest power that such a source
/// offers: the source's power less its weight, and nothing where the
/// weight is the greater.  Without such a source the dust stays as it is
/// and schedules nothing.
pub proof fn law_dust_attenuates(w: Wiring, me: Redstate, st: Seq<Redstate>, creator: Option<usize>, frame: Frame)
    requires
        w is Dust,
    ensures
        ({
            let sources = w->Dust_sources;
            let next = w.outcome(me, st, frame);
            if exists|k: int| 0 <= k < sources.len() && lit(st, #[trigger] sources[k], frame) {
                &&& next.stamp() == Some(frame)
                &&& next@.forced == me@.forced
                &&& exists|k: int|
                    0 <= k < sources.len() && lit(st, #[trigger] sources[k], frame) && next@.power
                        == attenuated(st[sources[k].1 as int]@.power, sources[k].0)
                &&& forall|k: int|
                    0 <= k < sources.len() && lit(st, #[trigger] sources[k], frame) ==> next@.power
                        >= attenuated(st[sources[k].1 as int]@.power, sources[k].0)
            } else {
                &&& next == me
                &&& w.emits(st, creator, frame) == Seq::<usize>::empty()
            }
        }),
{
    let sources = w->Dust_sources;
    lemma_best_offer(st, sources, frame);
    let next = w.signal(me@, st, frame);
    Redstate::lemma_written(next, frame);
}

/// Behind sources of weight one or more that carry at most full power, a
/// dust carries a power of at most fifteen after a dispatch that wrote it.
pub proof fn law_dust_below_full(w: Wiring, me: Redstate, st: Seq<Redstate>, frame: Frame)
    requires
        w is Dust,
        !w.idles(st, frame),
        forall|k: int|
            0 <= k < w->Dust_sources.len() ==> (#[trigger] w->Dust_sources[k]).0 >= 1 && st[w->Dust_sources[k].1 as int]@.power
                <= 16,
    ensures
        w.outcome(me, st, frame)@.power <= 15,
{
    let sources = w->Dust_sources;
    lemma_best_offer(st, sources, frame);
    let next = w.signal(me@, st, frame);
    Redstate::lemma_written(next, frame);
}

/// After every dispatch a block is hard-powered exactly when one of its
/// inputs conducts, and carries full power when one of its inputs is
/// hard-powered and no power otherwise.
pub proof fn law_block_relays(w: Wiring, me: Redstate, st: Seq<Redstate>, frame: Frame)
    requires
        w is Block,
    ensures
        ({
            let incoming = w->Block_incoming;
            let next = w.outcome(me, st, frame);
            &&& next@.forced == (exists|k: int|
                0 <= k < incoming.len() && (#[trigger] st[incoming[k] as int])@.is_on())
            &&& next@.power == 0 || next@.power == 16
            &&& next@.power == 16 <==> exists|k: int|
                0 <= k < incoming.len() && (#[trigger] st[incoming[k] as int])@.forced
            &&& next.stamp() == Some(frame)
        }),
{
    let next = w.signal(me@, st, frame);
    Redstate::lemma_written(next, frame);
}

/// A repeater with a conducting neighbor among those that lock it keeps
/// its state in a dispatch, and schedules nothing.
pub proof fn law_repeater_lock(w: Wiring, me: Redstate, st: Seq<Redstate>, creator: Option<usize>, frame: Frame)
    requires
        w is Repeater,
        exists|k: int|
            0 <= k < w->Repeater_neighbors.len() && (#[trigger] st[w->Repeater_neighbors[k] as int])@.is_on(),
    ensures
        w.outcome(me, st, frame) == me,
        w.emits(st, creator, frame) == Seq::<usize>::empty(),
{
}

/// A repeater that is not locked repeats its input at full strength.
pub proof fn law_repeater_repeats(w: Wiring, me: Redstate, st: Seq<Redstate>, frame: Frame)
    requires
        w is Repeater,
        !any_on(st, w->Repeater_neighbors),
        w->Repeater_incoming is Some,
    ensures
        ({
            let x = w->Repeater_incoming.unwrap();
            let next = w.outcome(me, st, frame);
            &&& next@.forced == st[x as int]@.is_on()
            &&& next@.power == (if st[x as int]@.is_on() {
                16u8
            } else {
                0u8
            })
        }),
{
    let x = w->Repeater_incoming.unwrap();
    let next = w.signal(me@, st, frame);
    Redstate::lemma_written(next, frame);
    assert(slot(Some(x))[0] == x);
    if st[x as int]@.is_on() {
        assert(st[slot(Some(x))[0] as int]@.is_on());
    }
}

/// A dispatch of a dust or of a block never schedules the node that
/// asked for the dispatch, and schedules every other node that the
/// dispatched node lists, unless it idles.
pub proof fn law_self_suppression(w: Wiring, st: Seq<Redstate>, creator: usize, frame: Frame)
    requires
        w is Dust || w is Block,
    ensures
        !w.emits(st, Some(creator), frame).contains(creator),
        forall|x: usize|
            x != creator && !w.idles(st, frame) && w.forward().contains(x) ==> #[trigger] w.emits(
                st,
                Some(creator),
                frame,
            ).contains(x),
{
    lemma_without_subset(w.forward(), Some(creator));
}

/// Node `n` agrees with its inputs: a torch carries the inverse of its
/// input, a block relays its inputs.  Nothing is asked of a dust or a
/// repeater.
pub open spec fn balanced(g: Seq<Wiring>, st: Seq<Redstate>, n: usize) -> bool {
    (g[n as int] is Torch || g[n as int] is Block) ==> g[n as int].signal(
        st[n as int]@,
        st,
        Frame { tick: 0 },
    ) == st[n as int]@
}

/// No node that `n` listens to is scheduled by `n`: no link leads from
/// `n` straight back to one of its inputs.
pub open spec fn no_feedback(g: Seq<Wiring>, n: usize) -> bool {
    forall|k: int|
        0 <= k < g[n as int].listens_to().len() ==> !g[n as int].forward().contains(
            #[trigger] g[n as int].listens_to()[k],
        )
}

impl Solving {
    /// Some work for node `n` is waiting or was put off.
    pub open spec fn awaits(self, n: usize) -> bool {
        ||| exists|k: int| 0 <= k < self.queue.len() && (#[trigger] self.queue[k]).redstone == n
        ||| exists|k: int| 0 <= k < self.deferred.len() && (#[trigger] self.deferred[k]).redstone == n
    }

    /// Every piece of work that a dispatch asked for is for a node that
    /// the dispatched node schedules.
    pub open spec fn sourced(self, g: Seq<Wiring>) -> bool {
        &&& forall|k: int|
            0 <= k < self.queue.len() ==> asked_by_neighbor(g, #[trigger] self.queue[k])
        &&& forall|k: int|
            0 <= k < self.deferred.len() ==> asked_by_neighbor(g, #[trigger] self.deferred[k])
    }
}

/// If a dispatch asked for `c`, it was one of a node that schedules the node of `c`.
pub open spec fn asked_by_neighbor(g: Seq<Wiring>, c: Constraint) -> bool {
    c.creator matches Some(p) ==> p < g.len() && g[p as int].forward().contains(c.redstone)
}

/// Whether some node of `ids` conducts, or is hard-powered, depends on
/// the signals of these nodes only.
pub proof fn lemma_any_same(a: Seq<Redstate>, b: Seq<Redstate>, ids: Seq<usize>)
    requires
        forall|k: int| 0 <= k < ids.len() ==> (#[trigger] a[ids[k] as int])@ == b[ids[k] as int]@,
    ensures
        any_on(a, ids) == any_on(b, ids),
        any_forced(a, ids) == any_forced(b, ids),
{
    if any_on(a, ids) {
        let k = choose|k: int| 0 <= k < ids.len() && (#[trigger] a[ids[k] as int])@.is_on();
        assert(b[ids[k] as int]@.is_on());
    }
    if any_on(b, ids) {
        let k = choose|k: int| 0 <= k < ids.len() && (#[trigger] b[ids[k] as int])@.is_on();
        assert(a[ids[k] as int]@ == b[ids[k] as int]@);
        assert(a[ids[k] as int]@.is_on());
    }
    if any_forced(a, ids) {
        let k = choose|k: int| 0 <= k < ids.len() && (#[trigger] a[ids[k] as int])@.forced;
        assert(b[ids[k] as int]@.forced);
    }
    if any_forced(b, ids) {
        let k = choose|k: int| 0 <= k < ids.len() && (#[trigger] b[ids[k] as int])@.forced;
        assert(a[ids[k] as int]@ == b[ids[k] as int]@);
        assert(a[ids[k] as int]@.forced);
    }
}

/// Whether a torch or a block agrees with its inputs depends on its own
/// signal and on the signals of the nodes it listens to only.
pub proof fn lemma_balanced_same(g: Seq<Wiring>, a: Seq<Redstate>, b: Seq<Redstate>, n: usize)
    requires
        a[n as int]@ == b[n as int]@,
        forall|k: int|
            0 <= k < g[n as int].listens_to().len() ==> (#[trigger] a[g[n as int].listens_to()[k] as int])@
                == b[g[n as int].listens_to()[k] as int]@,
    ensures
        balanced(g, a, n) == balanced(g, b, n),
{
    lemma_any_same(a, b, g[n as int].listens_to());
}

/// A step keeps the work that dispatches asked for with the nodes that
/// the dispatched nodes schedule.
pub proof fn lemma_step_sourced(s: Solving, g: Seq<Wiring>)
    requires
        s.in_bounds(g),
        s.sourced(g),
    ensures
        s.step(g).sourced(g),
{
    let t = s.step(g);
    if s.queue.len() > 0 {
        let c = s.queue[0];
        let rest = s.queue.subrange(1, s.queue.len() as int);
        assert forall|k: int| 0 <= k < rest.len() implies asked_by_neighbor(g, #[trigger] rest[k]) by {
            assert(rest[k] == s.queue[k + 1]);
        }
        if c.ready(g, s.frame) {
            let w = g[c.redstone as int];
            let targets = w.emits(s.states, c.creator, s.frame);
            let items = consequents(targets, s.frame, c.redstone);
            lemma_emits_forward(w, s.states, c.creator, s.frame);
            lemma_stacked_members(items, rest);
            assert forall|k: int| 0 <= k < t.queue.len() implies asked_by_neighbor(
                g,
                #[trigger] t.queue[k],
            ) by {
                if t.queue != rest {
                    if k < items.len() {
                        let j = items.len() - 1 - k;
                        assert(t.queue[k] == items[j]);
                        assert(targets.contains(targets[j]));
                    } else {
                        assert(t.queue[items.len() + (k - items.len())] == rest[k - items.len()]);
                    }
                }
            }
        } else {
            assert forall|k: int| 0 <= k < t.deferred.len() implies asked_by_neighbor(
                g,
                #[trigger] t.deferred[k],
            ) by {
                if k < s.deferred.len() {
                    assert(t.deferred[k] == s.deferred[k]);
                }
            }
        }
    }
}

/// A step keeps a torch or a block without feedback in agreement with
/// its inputs, or leaves work for it.
pub proof fn lemma_step_settles(s: Solving, g: Seq<Wiring>, n: usize)
    requires
        well_formed(g),
        s.in_bounds(g),
        s.sourced(g),
        n < g.len(),
        g[n as int] is Torch || g[n as int] is Block,
        no_feedback(g, n),
        balanced(g, s.states, n) || s.awaits(n),
    ensures
        balanced(g, s.step(g).states, n) || s.step(g).awaits(n),
{
    let t = s.step(g);
    let ears = g[n as int].listens_to();
    assert(node_ok(g, n as int));
    if s.queue.len() == 0 {
        if s.awaits(n) && t != s {
            let k = choose|k: int| 0 <= k < s.deferred.len() && (#[trigger] s.deferred[k]).redstone == n;
            assert(t.queue[k].redstone == n);
        }
    } else {
        let c = s.queue[0];
        let m = c.redstone;
        let rest = s.queue.subrange(1, s.queue.len() as int);
        if !c.ready(g, s.frame) {
            if s.awaits(n) {
                if exists|k: int| 0 <= k < s.queue.len() && (#[trigger] s.queue[k]).redstone == n {
                    let k = choose|k: int| 0 <= k < s.queue.len() && (#[trigger] s.queue[k]).redstone == n;
                    if k == 0 {
                        assert(t.deferred[s.deferred.len() as int].redstone == n);
                    } else {
                        assert(t.queue[k - 1].redstone == n);
                    }
                } else {
                    let k = choose|k: int|
                        0 <= k < s.deferred.len() && (#[trigger] s.deferred[k]).redstone == n;
                    assert(t.deferred[k].redstone == n);
                }
            }
        } else {
            let w = g[m as int];
            let me = s.states[m as int];
            let next = w.outcome(me, s.states, s.frame);
            let targets = w.emits(s.states, c.creator, s.frame);
            let items = consequents(targets, s.frame, m);
            lemma_stacked_members(items, rest);
            Redstate::lemma_written(w.signal(me@, s.states, s.frame), s.frame);
            // work for `n` other than `c` stays
            if m != n && s.awaits(n) {
                if exists|k: int| 0 <= k < s.queue.len() && (#[trigger] s.queue[k]).redstone == n {
                    let k = choose|k: int| 0 <= k < s.queue.len() && (#[trigger] s.queue[k]).redstone == n;
                    assert(rest[k - 1] == s.queue[k]);
                    if next@ != me@ {
                        assert(t.queue[items.len() + (k - 1)] == rest[k - 1]);
                    } else {
                        assert(t.queue[k - 1].redstone == n);
                    }
                } else {
                    let k = choose|k: int|
                        0 <= k < s.deferred.len() && (#[trigger] s.deferred[k]).redstone == n;
                    assert(t.deferred[k].redstone == n);
                }
                assert(t.awaits(n));
            } else if m == n {
                // the dispatched node agrees with its inputs, which are other nodes
                assert forall|k: int| 0 <= k < ears.len() implies (#[trigger] t.states[ears[k] as int])@
                    == s.states[ears[k] as int]@ by {
                    if ears[k] == n {
                        assert(g[ears[k] as int].forward().contains(n));
                    }
                }
                lemma_any_same(t.states, s.states, ears);
                assert(balanced(g, t.states, n));
            } else {
                // `n` agreed with its inputs before the step
                if next@ == me@ {
                    assert forall|k: int| 0 <= k < ears.len() implies (
                    #[trigger] t.states[ears[k] as int])@ == s.states[ears[k] as int]@ by {}
                    lemma_balanced_same(g, t.states, s.states, n);
                } else if !ears.contains(m) {
                    assert forall|k: int| 0 <= k < ears.len() implies (
                    #[trigger] t.states[ears[k] as int])@ == s.states[ears[k] as int]@ by {
                        assert(ears.contains(ears[k]));
                    }
                    lemma_balanced_same(g, t.states, s.states, n);
                } else {
                    // an input of `n` has changed: it schedules `n`
                    let k = choose|k: int| 0 <= k < ears.len() && ears[k] == m;
                    assert(g[ears[k] as int].forward().contains(n));
                    assert(asked_by_neighbor(g, s.queue[0]));
                    if c.creator == Some(n) {
                        assert(g[n as int].forward().contains(m));
                        assert(!g[n as int].forward().contains(ears[k]));
                    }
                    match w {
                        Wiring::Dust { neighbors, .. } => {
                            lemma_without_subset(neighbors, c.creator);
                        },
                        Wiring::Block { outgoing, .. } => {
                            lemma_without_subset(outgoing, c.creator);
                        },
                        _ => {},
                    }
                    assert(targets.contains(n));
                    let j = choose|j: int| 0 <= j < targets.len() && targets[j] == n;
                    assert(items[j].redstone == n);
                    assert(t.queue[items.len() - 1 - j] == items[items.len() - 1 - (items.len() - 1
                        - j)]);
                    assert(t.queue[items.len() - 1 - j].redstone == n);
                    assert(t.awaits(n));
                }
            }
        }
    }
}

/// Once the solver has come to rest, every torch and every block without
/// feedback agrees with its inputs, provided that it did so at the start
/// or that there was work for it: the torch carries the inverse of its
/// input, and full power without one; the block is hard-powered exactly
/// when an input conducts and carries full power exactly when an input is
/// hard-powered.
pub proof fn law_rest_is_balanced(g: Seq<Wiring>, s: Solving, fuel: nat, n: usize)
    requires
        well_formed(g),
        s.in_bounds(g),
        s.sourced(g),
        n < g.len(),
        g[n as int] is Torch || g[n as int] is Block,
        no_feedback(g, n),
        balanced(g, s.states, n) || s.awaits(n),
        s.run(g, fuel).done(),
    ensures
        balanced(g, s.run(g, fuel).states, n),
    decreases fuel,
{
    if fuel > 0 {
        lemma_step_settles(s, g, n);
        lemma_step_sourced(s, g);
        crate::solver::lemma_step_in_bounds(s, g);
        law_rest_is_balanced(g, s.step(g), (fuel - 1) as nat, n);
    } else {
        if s.awaits(n) {
            if exists|k: int| 0 <= k < s.queue.len() && (#[trigger] s.queue[k]).redstone == n {
            } else {
            }
        }
    }
}

/// The work of `constraints` is for nodes of the circuit, and no dispatch asked for it.
pub open spec fn initial(g: Seq<Wiring>, constraints: Seq<Constraint>) -> bool {
    forall|k: int|
        0 <= k < constraints.len() ==> (#[trigger] constraints[k]).redstone < g.len()
            && constraints[k].creator is None
}

/// After a solve that came to rest, every torch of the work list that
/// does not schedule its own input carries the inverse of its input: no
/// power if the input conducts, full power if it does not or if there is
/// no input.
pub proof fn law_solved_torch(g: Seq<Wiring>, st: Seq<Redstate>, constraints: Seq<Constraint>, fuel: nat, k: int)
    requires
        well_formed(g),
        st.len() == g.len(),
        initial(g, constraints),
        0 <= k < constraints.len(),
        g[constraints[k].redstone as int] is Torch,
        no_feedback(g, constraints[k].redstone),
        Solving::start(st, constraints).run(g, fuel).done(),
    ensures
        ({
            let t = constraints[k].redstone;
            let end = Solving::start(st, constraints).run(g, fuel).states;
            match g[t as int]->Torch_incoming {
                Some(x) => end[t as int]@.power == (if end[x as int]@.is_on() {
                    0u8
                } else {
                    16u8
                }),
                None => end[t as int]@.power == 16,
            }
        }),
{
    let t = constraints[k].redstone;
    let s = Solving::start(st, constraints);
    assert(s.queue[k].redstone == t);
    law_rest_is_balanced(g, s, fuel, t);
    let end = s.run(g, fuel).states;
    if let Some(x) = g[t as int]->Torch_incoming {
        assert(slot(Some(x))[0] == x);
        if end[x as int]@.is_on() {
            assert(end[slot(Some(x))[0] as int]@.is_on());
        }
    }
}

/// After a solve that came to rest, every block that does not schedule
/// one of its own inputs, and that relayed its inputs at the start, relays
/// them: it is hard-powered exactly when an input conducts and carries
/// full power exactly when an input is hard-powered, and no power
/// otherwise.
pub proof fn law_solved_block(g: Seq<Wiring>, st: Seq<Redstate>, constraints: Seq<Constraint>, fuel: nat, b: usize)
    requires
        well_formed(g),
        st.len() == g.len(),
        initial(g, constraints),
        b < g.len(),
        g[b as int] is Block,
        no_feedback(g, b),
        balanced(g, st, b),
        Solving::start(st, constraints).run(g, fuel).done(),
    ensures
        ({
            let incoming = g[b as int]->Block_incoming;
            let end = Solving::start(st, constraints).run(g, fuel).states;
            &&& end[b as int]@.forced == (exists|k: int|
                0 <= k < incoming.len() && (#[trigger] end[incoming[k] as int])@.is_on())
            &&& end[b as int]@.power == 0 || end[b as int]@.power == 16
            &&& end[b as int]@.power == 16 <==> exists|k: int|
                0 <= k < incoming.len() && (#[trigger] end[incoming[k] as int])@.forced
        }),
{
    law_rest_is_balanced(g, Solving::start(st, constraints), fuel, b);
}

/// A block of a circuit in which no node conducts relays its inputs.
pub proof fn lemma_dark_block_is_balanced(g: Seq<Wiring>, st: Seq<Redstate>, b: usize)
    requires
        g[b as int] is Block,
        g[b as int].in_range(st.len()),
        b < st.len(),
        forall|i: int| 0 <= i < st.len() ==> (#[trigger] st[i]) == Redstate::no_signal(),
    ensures
        balanced(g, st, b),
{
    Redstate::lemma_no_signal();
    let incoming = g[b as int]->Block_incoming;
    if any_on(st, incoming) {
        let k = choose|k: int| 0 <= k < incoming.len() && (#[trigger] st[incoming[k] as int])@.is_on();
        assert(incoming[k] < st.len());
        assert(false);
    }
    if any_forced(st, incoming) {
        let k = choose|k: int| 0 <= k < incoming.len() && (#[trigger] st[incoming[k] as int])@.forced;
        assert(incoming[k] < st.len());
        assert(false);
    }
}

/// A step of the solver leaves no state with more than full power.
pub proof fn lemma_step_bounded(s: Solving, g: Seq<Wiring>)
    requires
        well_formed(g),
        s.in_bounds(g),
        bounded(s.states),
    ensures
        bounded(s.step(g).states),
{
    if s.queue.len() > 0 && s.queue[0].ready(g, s.frame) {
        let c = s.queue[0];
        let w = g[c.redstone as int];
        let me = s.states[c.redstone as int];
        let next = w.outcome(me, s.states, s.frame);
        assert(node_ok(g, c.redstone as int));
        Redstate::lemma_written(w.signal(me@, s.states, s.frame), s.frame);
        if let Wiring::Dust { sources, .. } = w {
            lemma_best_offer(s.states, sources, s.frame);
            if let Some(p) = best_offer(s.states, sources, s.frame) {
                let k = choose|k: int|
                    0 <= k < sources.len() && lit(s.states, #[trigger] sources[k], s.frame) && offer(
                        s.states,
                        sources[k],
                    ) == p;
                assert(sources[k].1 < g.len());
                assert(s.states[sources[k].1 as int]@.power <= 16);
            }
        }
        assert(next@.power <= 16);
        assert forall|i: int| 0 <= i < s.step(g).states.len() implies (#[trigger] s.step(g).states[i])@.power
            <= 16 by {
            if i != c.redstone {
                assert(s.step(g).states[i] == s.states[i]);
            }
        }
    }
}

/// Power stays within its range: if no node carries more than full
/// power, none does after any number of steps of the solver.
pub proof fn law_power_stays_bounded(g: Seq<Wiring>, s: Solving, fuel: nat)
    requires
        well_formed(g),
        s.in_bounds(g),
        bounded(s.states),
    ensures
        bounded(s.run(g, fuel).states),
    decreases fuel,
{
    if fuel > 0 {
        lemma_step_bounded(s, g);
        crate::solver::lemma_step_in_bounds(s, g);
        law_power_stays_bounded(g, s.step(g), (fuel - 1) as nat);
    }
}

/// The work list is one of torches that agree with their inputs.
pub open spec fn settled(g: Seq<Wiring>, st: Seq<Redstate>, constraints: Seq<Constraint>) -> bool {
    forall|k: int|
        0 <= k < constraints.len() ==> {
            let c = #[trigger] constraints[k];
            &&& c.redstone < g.len()
            &&& g[c.redstone as int] is Torch
            &&& balanced(g, st, c.redstone)
        }
}

proof fn lemma_step_stays(g: Seq<Wiring>, st: Seq<Redstate>, s: Solving)
    requires
        well_formed(g),
        st.len() == g.len(),
        s.states.len() == g.len(),
        forall|i: int| 0 <= i < g.len() ==> (#[trigger] s.states[i])@ == st[i]@,
        settled(g, st, s.queue),
        settled(g, st, s.deferred),
    ensures
        s.step(g).states.len() == g.len(),
        forall|i: int| 0 <= i < g.len() ==> (#[trigger] s.step(g).states[i])@ == st[i]@,
        settled(g, st, s.step(g).queue),
        settled(g, st, s.step(g).deferred),
        s.step(g).changes == s.changes,
{
    let t = s.step(g);
    if s.queue.len() > 0 {
        let c = s.queue[0];
        let m = c.redstone;
        let rest = s.queue.subrange(1, s.queue.len() as int);
        assert(forall|k: int| 0 <= k < rest.len() ==> rest[k] == s.queue[k + 1]);
        if c.ready(g, s.frame) {
            let w = g[m as int];
            let me = s.states[m as int];
            Redstate::lemma_written(w.signal(me@, s.states, s.frame), s.frame);
            let ears = w.listens_to();
            assert forall|k: int| 0 <= k < ears.len() implies (#[trigger] s.states[ears[k] as int])@
                == st[ears[k] as int]@ by {
                assert(node_ok(g, m as int));
                assert(ears[k] < g.len());
            }
            lemma_any_same(s.states, st, ears);
            assert(balanced(g, st, m));
            assert(w.outcome(me, s.states, s.frame)@ == me@);
        } else {
            assert forall|k: int| 0 <= k < t.deferred.len() implies {
                let d = #[trigger] t.deferred[k];
                &&& d.redstone < g.len()
                &&& g[d.redstone as int] is Torch
                &&& balanced(g, st, d.redstone)
            } by {
                if k < s.deferred.len() {
                    assert(t.deferred[k] == s.deferred[k]);
                }
            }
        }
    }
}

/// A second solve changes nothing: where every torch of the work list
/// agrees with its input, no dispatch of a run changes a signal, whatever
/// the number of steps, and every node keeps its signal.
pub proof fn law_settled_solve_changes_nothing(
    g: Seq<Wiring>,
    st: Seq<Redstate>,
    constraints: Seq<Constraint>,
    fuel: nat,
)
    requires
        well_formed(g),
        st.len() == g.len(),
        settled(g, st, constraints),
    ensures
        Solving::start(st, constraints).run(g, fuel).changes == 0,
        forall|i: int|
            0 <= i < g.len() ==> (#[trigger] Solving::start(st, constraints).run(g, fuel).states[i])@
                == st[i]@,
{
    lemma_run_stays(g, st, Solving::start(st, constraints), fuel);
}

proof fn lemma_run_stays(g: Seq<Wiring>, st: Seq<Redstate>, s: Solving, fuel: nat)
    requires
        well_formed(g),
        st.len() == g.len(),
        s.states.len() == g.len(),
        forall|i: int| 0 <= i < g.len() ==> (#[trigger] s.states[i])@ == st[i]@,
        settled(g, st, s.queue),
        settled(g, st, s.deferred),
    ensures
        s.run(g, fuel).changes == s.changes,
        forall|i: int| 0 <= i < g.len() ==> (#[trigger] s.run(g, fuel).states[i])@ == st[i]@,
    decreases fuel,
{
    if fuel > 0 {
        lemma_step_stays(g, st, s);
        lemma_run_stays(g, st, s.step(g), (fuel - 1) as nat);
    }
}

impl Solving {
    /// The step that comes next dispatches node `n`.
    pub open spec fn fires(self, g: Seq<Wiring>, n: usize) -> bool {
        self.queue.len() > 0 && self.queue[0].ready(g, self.frame) && self.queue[0].redstone == n
    }
}

/// Work that is waiting or was put off stays until it is dispatched.
proof fn lemma_step_keeps_work(s: Solving, g: Seq<Wiring>, n: usize)
    requires
        s.awaits(n),
        !s.fires(g, n),
    ensures
        s.step(g).awaits(n),
{
    let t = s.step(g);
    if s.queue.len() == 0 {
        if t != s {
            let k = choose|k: int| 0 <= k < s.deferred.len() && (#[trigger] s.deferred[k]).redstone == n;
            assert(t.queue[k].redstone == n);
        }
    } else {
        let c = s.queue[0];
        let rest = s.queue.subrange(1, s.queue.len() as int);
        if exists|k: int| 0 <= k < s.deferred.len() && (#[trigger] s.deferred[k]).redstone == n {
            let k = choose|k: int| 0 <= k < s.deferred.len() && (#[trigger] s.deferred[k]).redstone == n;
            assert(t.deferred[k].redstone == n);
        } else {
            let k = choose|k: int| 0 <= k < s.queue.len() && (#[trigger] s.queue[k]).redstone == n;
            if !c.ready(g, s.frame) {
                if k == 0 {
                    assert(t.deferred[s.deferred.len() as int].redstone == n);
                } else {
                    assert(t.queue[k - 1].redstone == n);
                }
            } else {
                let targets = g[c.redstone as int].emits(s.states, c.creator, s.frame);
                let items = consequents(targets, s.frame, c.redstone);
                lemma_stacked_members(items, rest);
                assert(rest[k - 1] == s.queue[k]);
                if t.queue == rest {
                    assert(t.queue[k - 1].redstone == n);
                } else {
                    assert(t.queue[items.len() + (k - 1)] == rest[k - 1]);
                }
            }
        }
    }
}

/// Work for a node is dispatched before the solver is done.
pub proof fn lemma_work_is_dispatched(g: Seq<Wiring>, s: Solving, fuel: nat, n: usize) -> (at: nat)
    requires
        s.awaits(n),
        s.run(g, fuel).done(),
    ensures
        at < fuel,
        s.run(g, at).fires(g, n),
    decreases fuel,
{
    assert(fuel > 0) by {
        if fuel == 0 {
            assert(s.queue.len() == 0 && s.deferred.len() == 0);
        }
    }
    if s.fires(g, n) {
        0
    } else {
        lemma_step_keeps_work(s, g, n);
        let later = lemma_work_is_dispatched(g, s.step(g), (fuel - 1) as nat, n);
        later + 1
    }
}

/// Leaving out the node that asked for a dispatch drops nothing else: if
/// the dispatch of the node at the head of the queue changes its signal,
/// every node that it lists, but the node that asked for the dispatch, is
/// dispatched in a later step, before the solver is done.  The step is
/// returned.
pub proof fn law_scheduled_node_is_dispatched(g: Seq<Wiring>, s: Solving, fuel: nat, n: usize) -> (at: nat)
    requires
        s.queue.len() > 0,
        s.queue[0].ready(g, s.frame),
        g[s.queue[0].redstone as int].outcome(
            s.states[s.queue[0].redstone as int],
            s.states,
            s.frame,
        )@ != s.states[s.queue[0].redstone as int]@,
        g[s.queue[0].redstone as int].forward().contains(n),
        s.queue[0].creator != Some(n),
        s.run(g, fuel).done(),
    ensures
        0 < at < fuel,
        s.run(g, at).fires(g, n),
{
    let c = s.queue[0];
    let w = g[c.redstone as int];
    let rest = s.queue.subrange(1, s.queue.len() as int);
    let targets = w.emits(s.states, c.creator, s.frame);
    let items = consequents(targets, s.frame, c.redstone);
    match w {
        Wiring::Dust { neighbors, .. } => {
            lemma_without_subset(neighbors, c.creator);
        },
        Wiring::Block { outgoing, .. } => {
            lemma_without_subset(outgoing, c.creator);
        },
        _ => {},
    }
    assert(targets.contains(n));
    let j = choose|j: int| 0 <= j < targets.len() && targets[j] == n;
    lemma_stacked_members(items, rest);
    let t = s.step(g);
    assert(t.queue[items.len() - 1 - j] == items[items.len() - 1 - (items.len() - 1 - j)]);
    assert(t.queue[items.len() - 1 - j].redstone == n);
    assert(t.awaits(n));
    assert(fuel > 0);
    let later = lemma_work_is_dispatched(g, t, (fuel - 1) as nat, n);
    later + 1
}

/// Behind sources of weight one or more, a dust that carries at most
/// fifteen keeps to that through a step of the solver.
proof fn lemma_step_dust_below_full(s: Solving, g: Seq<Wiring>, d: usize)
    requires
        well_formed(g),
        s.in_bounds(g),
        bounded(s.states),
        d < g.len(),
        g[d as int] is Dust,
        forall|k: int| 0 <= k < g[d as int]->Dust_sources.len() ==> (#[trigger] g[d as int]->Dust_sources[k]).0 >= 1,
        s.states[d as int]@.power <= 15,
    ensures
        s.step(g).states[d as int]@.power <= 15,
{
    if s.queue.len() > 0 && s.queue[0].ready(g, s.frame) && s.queue[0].redstone == d {
        let w = g[d as int];
        let me = s.states[d as int];
        assert(node_ok(g, d as int));
        if !w.idles(s.states, s.frame) {
            assert forall|k: int| 0 <= k < w->Dust_sources.len() implies (#[trigger] w->Dust_sources[k]).0
                >= 1 && s.states[w->Dust_sources[k].1 as int]@.power <= 16 by {
                assert(w->Dust_sources[k].1 < g.len());
            }
            law_dust_below_full(w, me, s.states, s.frame);
        }
    }
}

/// A dust never carries full power: behind sources of weight one or
/// more, a dust that starts with a power of at most fifteen has at most
/// fifteen after any number of steps of the solver.
pub proof fn law_dust_stays_below_full(g: Seq<Wiring>, s: Solving, fuel: nat, d: usize)
    requires
        well_formed(g),
        s.in_bounds(g),
        bounded(s.states),
        d < g.len(),
        g[d as int] is Dust,
        forall|k: int| 0 <= k < g[d as int]->Dust_sources.len() ==> (#[trigger] g[d as int]->Dust_sources[k]).0 >= 1,
        s.states[d as int]@.power <= 15,
    ensures
        s.run(g, fuel).states[d as int]@.power <= 15,
    decreases fuel,
{
    if fuel > 0 {
        lemma_step_dust_below_full(s, g, d);
        lemma_step_bounded(s, g);
        crate::solver::lemma_step_in_bounds(s, g);
        law_dust_stays_below_full(g, s.step(g), (fuel - 1) as nat, d);
    }
}

/// Running keeps every piece of work within the circuit.
proof fn lemma_run_in_bounds(s: Solving, g: Seq<Wiring>, fuel: nat)
    requires
        well_formed(g),
        s.in_bounds(g),
    ensures
        s.run(g, fuel).in_bounds(g),
    decreases fuel,
{
    if fuel > 0 {
        crate::solver::lemma_step_in_bounds(s, g);
        lemma_run_in_bounds(s.step(g), g, (fuel - 1) as nat);
    }
}

/// Solving twice is solving once: after a solve of work for torches that
/// has come to rest, in a circuit in which no torch of the work schedules
/// its own input, a second solve of the same work changes no signal,
/// whatever the number of its steps.
pub proof fn law_second_solve_changes_nothing(
    g: Seq<Wiring>,
    st: Seq<Redstate>,
    constraints: Seq<Constraint>,
    first: nat,
    second: nat,
)
    requires
        well_formed(g),
        st.len() == g.len(),
        initial(g, constraints),
        forall|k: int|
            0 <= k < constraints.len() ==> g[(#[trigger] constraints[k]).redstone as int] is Torch && no_feedback(
                g,
                constraints[k].redstone,
            ),
        Solving::start(st, constraints).run(g, first).done(),
    ensures
        ({
            let settled = Solving::start(st, constraints).run(g, first).states;
            let again = Solving::start(settled, constraints).run(g, second);
            &&& again.changes == 0
            &&& forall|i: int| 0 <= i < g.len() ==> (#[trigger] again.states[i])@ == settled[i]@
        }),
{
    let s = Solving::start(st, constraints);
    let end = s.run(g, first).states;
    lemma_run_in_bounds(s, g, first);
    assert forall|k: int| 0 <= k < constraints.len() implies {
        let c = #[trigger] constraints[k];
        &&& c.redstone < g.len()
        &&& g[c.redstone as int] is Torch
        &&& balanced(g, end, c.redstone)
    } by {
        assert(s.queue[k].redstone == constraints[k].redstone);
        law_rest_is_balanced(g, s, first, constraints[k].redstone);
    }
    law_settled_solve_changes_nothing(g, end, constraints, second);
}

/// What a dust holds after a run is what its last write gave it: the
/// greatest power that a source offered which had been written in the
/// frame of that write, the source's power less its weight.  The step of
/// the last write is returned; without a write in the run the dust holds
/// what it held before.
pub proof fn law_dust_holds_its_last_offer(g: Seq<Wiring>, s: Solving, fuel: nat, d: usize) -> (at: Option<nat>)
    requires
        well_formed(g),
        s.in_bounds(g),
        d < g.len(),
        g[d as int] is Dust,
    ensures
        match at {
            None => s.run(g, fuel).states[d as int] == s.states[d as int],
            Some(i) => {
                let then = s.run(g, i);
                let last = s.run(g, fuel).states[d as int];
                &&& i < fuel
                &&& then.fires(g, d)
                &&& best_offer(then.states, g[d as int]->Dust_sources, then.frame) == Some(last@.power)
                &&& last.stamp() == Some(then.frame)
                &&& last@.forced == then.states[d as int]@.forced
            },
        },
    decreases fuel,
{
    if fuel == 0 {
        None
    } else {
        let t = s.step(g);
        crate::solver::lemma_step_in_bounds(s, g);
        match law_dust_holds_its_last_offer(g, t, (fuel - 1) as nat, d) {
            Some(i) => Some(i + 1),
            None => {
                if s.fires(g, d) && !g[d as int].idles(s.states, s.frame) {
                    let me = s.states[d as int];
                    Redstate::lemma_written(g[d as int].signal(me@, s.states, s.frame), s.frame);
                    Some(0)
                } else {
                    None
                }
            },
        }
    }
}

} // verus!
