//! How each kind of node recomputes its state and whom it schedules next.

use vstd::prelude::*;
use crate::frame::Frame;
use crate::redstate::{Redstate, Signal};
use crate::redstone::{
    Block, Redstone, RedstoneDust, RedstoneNode, RedstoneRepeater, RedstoneTorch, Wiring, slot,
    states, wirings,
};
use crate::circuit::all_below;

verus! {

/// A work item: a node to revisit and the earliest frame in which it may
/// fire, with the node whose dispatch asked for it.
#[derive(Clone, Copy, Debug)]
pub struct Constraint {
    pub next_dispatch_frame: Frame,
    pub redstone: usize,
    pub creator: Option<usize>,
}

/// What a dispatch is told: the current frame, the node that is
/// dispatched and the node that asked for it.
#[derive(Clone, Copy, Debug)]
pub struct ConstraintCtxt {
    pub current_frame: Frame,
    pub redstone: usize,
    pub creator: Option<usize>,
}

/// Some node of `ids` conducts.
pub open spec fn any_on(st: Seq<Redstate>, ids: Seq<usize>) -> bool {
    exists|k: int| 0 <= k < ids.len() && (#[trigger] st[ids[k] as int])@.is_on()
}

/// Some node of `ids` is hard-powered.
pub open spec fn any_forced(st: Seq<Redstate>, ids: Seq<usize>) -> bool {
    exists|k: int| 0 <= k < ids.len() && (#[trigger] st[ids[k] as int])@.forced
}

/// What is left of `power` behind a source of the given weight.
pub open spec fn attenuated(power: u8, weight: u8) -> u8 {
    if power > weight {
        (power - weight) as u8
    } else {
        0
    }
}

/// A weighted source counts in `frame` when it was written in that frame.
pub open spec fn lit(st: Seq<Redstate>, source: (u8, usize), frame: Frame) -> bool {
    st[source.1 as int].stamp() == Some(frame)
}

/// The power that a weighted source offers.
pub open spec fn offer(st: Seq<Redstate>, source: (u8, usize)) -> u8 {
    attenuated(st[source.1 as int]@.power, source.0)
}

/// The greatest offer among the sources that count in `frame`, if any counts.
pub open spec fn best_offer(st: Seq<Redstate>, sources: Seq<(u8, usize)>, frame: Frame) -> Option<u8>
    decreases sources.len(),
{
    if sources.len() == 0 {
        None
    } else {
        let rest = best_offer(st, sources.drop_last(), frame);
        let last = sources.last();
        if !lit(st, last, frame) {
            rest
        } else if rest matches Some(p) && p >= offer(st, last) {
            rest
        } else {
            Some(offer(st, last))
        }
    }
}

/// `ids` in order, without the node `skip`.
pub open spec fn without(ids: Seq<usize>, skip: Option<usize>) -> Seq<usize>
    decreases ids.len(),
{
    if ids.len() == 0 {
        Seq::empty()
    } else {
        let rest = without(ids.drop_last(), skip);
        if Some(ids.last()) == skip {
            rest
        } else {
            rest.push(ids.last())
        }
    }
}

/// One work item for each of `targets`, in order, for `frame` and on behalf of `creator`.
pub open spec fn consequents(targets: Seq<usize>, frame: Frame, creator: usize) -> Seq<Constraint> {
    Seq::new(
        targets.len(),
        |k: int| Constraint { next_dispatch_frame: frame, redstone: targets[k], creator: Some(creator) },
    )
}

impl Wiring {
    /// Whether a dispatch in `frame` leaves the node as it is: a dust
    /// without a source that counts, a locked repeater, a repeater without
    /// an input.
    pub open spec fn idles(self, st: Seq<Redstate>, frame: Frame) -> bool {
        match self {
            Wiring::Torch { .. } => false,
            Wiring::Dust { sources, .. } => best_offer(st, sources, frame) is None,
            Wiring::Block { .. } => false,
            Wiring::Repeater { incoming, neighbors, .. } => any_on(st, neighbors) || incoming is None,
        }
    }

    /// The signal that a dispatch in `frame` writes, where the node does not idle.
    pub open spec fn signal(self, me: Signal, st: Seq<Redstate>, frame: Frame) -> Signal {
        match self {
            Wiring::Torch { incoming, .. } => Signal {
                power: if any_on(st, slot(incoming)) {
                    0
                } else {
                    16
                },
                forced: me.forced,
            },
            Wiring::Dust { sources, .. } => Signal {
                power: match best_offer(st, sources, frame) {
                    Some(p) => p,
                    None => me.power,
                },
                forced: me.forced,
            },
            Wiring::Block { incoming, .. } => Signal {
                power: if any_forced(st, incoming) {
                    16
                } else {
                    0
                },
                forced: any_on(st, incoming),
            },
            Wiring::Repeater { incoming, .. } => Signal {
                power: if any_on(st, slot(incoming)) {
                    16
                } else {
                    0
                },
                forced: any_on(st, slot(incoming)),
            },
        }
    }

    /// The state of the node after a dispatch in `frame`.
    pub open spec fn outcome(self, me: Redstate, st: Seq<Redstate>, frame: Frame) -> Redstate {
        if self.idles(st, frame) {
            me
        } else {
            Redstate::written(self.signal(me@, st, frame), frame)
        }
    }

    /// The nodes that a dispatch in `frame` schedules, in order: none
    /// where the node idles; else what it schedules, a dust and a block
    /// leaving out the node that asked for the dispatch.
    pub open spec fn emits(self, st: Seq<Redstate>, creator: Option<usize>, frame: Frame) -> Seq<usize> {
        if self.idles(st, frame) {
            Seq::empty()
        } else {
            match self {
                Wiring::Torch { outgoing, .. } => outgoing,
                Wiring::Dust { neighbors, .. } => without(neighbors, creator),
                Wiring::Block { outgoing, .. } => without(outgoing, creator),
                Wiring::Repeater { outgoing, .. } => slot(outgoing),
            }
        }
    }
}

/// Whether some node of `ids` conducts.
pub fn any_is_on(nodes: &Vec<Redstone>, ids: &Vec<usize>) -> (b: bool)
    requires
        all_below(ids@, nodes.len() as nat),
    ensures
        b == any_on(states(nodes@), ids@),
{
    let mut i: usize = 0;
    while i < ids.len()
        invariant
            i <= ids.len(),
            all_below(ids@, nodes.len() as nat),
            forall|k: int| 0 <= k < i ==> !(#[trigger] states(nodes@)[ids[k] as int])@.is_on(),
        decreases ids.len() - i,
    {
        if nodes[ids[i]].redstate().is_on() {
            assert(states(nodes@)[ids[i as int] as int]@.is_on());
            return true;
        }
        i += 1;
    }
    false
}

/// Whether some node of `ids` is hard-powered.
pub fn any_is_forced(nodes: &Vec<Redstone>, ids: &Vec<usize>) -> (b: bool)
    requires
        all_below(ids@, nodes.len() as nat),
    ensures
        b == any_forced(states(nodes@), ids@),
{
    let mut i: usize = 0;
    while i < ids.len()
        invariant
            i <= ids.len(),
            all_below(ids@, nodes.len() as nat),
            forall|k: int| 0 <= k < i ==> !(#[trigger] states(nodes@)[ids[k] as int])@.forced,
        decreases ids.len() - i,
    {
        if nodes[ids[i]].redstate().is_forced() {
            assert(states(nodes@)[ids[i as int] as int]@.forced);
            return true;
        }
        i += 1;
    }
    false
}

/// Whether the node in the slot, if there is one, conducts.
pub fn slot_is_on(nodes: &Vec<Redstone>, incoming: Option<usize>) -> (b: bool)
    requires
        all_below(slot(incoming), nodes.len() as nat),
    ensures
        b == any_on(states(nodes@), slot(incoming)),
{
    match incoming {
        Some(x) => {
            assert(slot(incoming)[0] == x);
            let on = nodes[x].redstate().is_on();
            assert(on ==> states(nodes@)[slot(incoming)[0] as int]@.is_on());
            on
        },
        None => false,
    }
}

/// The greatest power that the sources written in `frame` offer.
pub fn best_source(nodes: &Vec<Redstone>, sources: &Vec<(u8, usize)>, frame: Frame) -> (best: Option<u8>)
    requires
        forall|k: int| 0 <= k < sources.len() ==> (#[trigger] sources[k]).1 < nodes.len(),
    ensures
        best == best_offer(states(nodes@), sources@, frame),
{
    let mut best: Option<u8> = None;
    let mut i: usize = 0;
    while i < sources.len()
        invariant
            i <= sources.len(),
            forall|k: int| 0 <= k < sources.len() ==> (#[trigger] sources[k]).1 < nodes.len(),
            best == best_offer(states(nodes@), sources@.take(i as int), frame),
        decreases sources.len() - i,
    {
        let (weight, source) = sources[i];
        let state = nodes[source].redstate();
        proof {
            assert(sources@.take(i + 1).drop_last() == sources@.take(i as int));
            assert(sources@.take(i + 1).last() == sources@[i as int]);
        }
        if state.updated_in(frame) {
            let power = state.get_power().saturating_sub(weight);
            let keep = match best {
                Some(p) => p >= power,
                None => false,
            };
            if !keep {
                best = Some(power);
            }
        }
        i += 1;
    }
    assert(sources@.take(sources.len() as int) == sources@);
    best
}

/// One work item for each node of `targets` but `skip`, in order.
pub fn schedule(targets: &Vec<usize>, skip: Option<usize>, frame: Frame, creator: usize) -> (out: Vec<
    Constraint,
>)
    ensures
        out@ == consequents(without(targets@, skip), frame, creator),
{
    let mut out: Vec<Constraint> = Vec::new();
    let mut i: usize = 0;
    while i < targets.len()
        invariant
            i <= targets.len(),
            out@ == consequents(without(targets@.take(i as int), skip), frame, creator),
        decreases targets.len() - i,
    {
        let target = targets[i];
        proof {
            assert(targets@.take(i + 1).drop_last() == targets@.take(i as int));
            assert(targets@.take(i + 1).last() == targets@[i as int]);
        }
        let skipped = match skip {
            Some(s) => s == target,
            None => false,
        };
        if !skipped {
            out.push(Constraint { next_dispatch_frame: frame, redstone: target, creator: Some(creator) });
        }
        i += 1;
    }
    assert(targets@.take(targets.len() as int) == targets@);
    out
}

/// Leaving out no node leaves every node.
pub proof fn lemma_without_none(ids: Seq<usize>)
    ensures
        without(ids, None) == ids,
    decreases ids.len(),
{
    if ids.len() > 0 {
        lemma_without_none(ids.drop_last());
        assert(ids.drop_last().push(ids.last()) == ids);
    }
}

impl RedstoneTorch {
    /// Inverts the input: full power unless the input conducts.  Schedules
    /// every outgoing node.
    pub fn dispatch(&self, me: &Redstate, nodes: &Vec<Redstone>, ctxt: ConstraintCtxt) -> (r: (
        Redstate,
        Vec<Constraint>,
    ))
        requires
            self@.in_range(nodes.len() as nat),
        ensures
            r.0 == self@.outcome(*me, states(nodes@), ctxt.current_frame),
            r.1@ == consequents(
                self@.emits(states(nodes@), ctxt.creator, ctxt.current_frame),
                ctxt.current_frame,
                ctxt.redstone,
            ),
    {
        let on = slot_is_on(nodes, self.incoming);
        let mut state = *me;
        state.set_power(if on { 0 } else { 16 }, ctxt.current_frame);
        let out = schedule(&self.outgoing, None, ctxt.current_frame, ctxt.redstone);
        proof {
            lemma_without_none(self.outgoing@);
            let signal = self@.signal(me@, states(nodes@), ctxt.current_frame);
            Redstate::lemma_written(signal, ctxt.current_frame);
            Redstate::lemma_same(state, Redstate::written(signal, ctxt.current_frame));
        }
        (state, out)
    }

    pub fn dispatch_frame_offset(&self) -> (offset: Frame)
        ensures
            offset == self@.frame_offset(),
    {
        Frame { tick: 1 }
    }
}

impl RedstoneDust {
    /// Takes the greatest power that a source written in this frame
    /// offers, and schedules every neighbor but the one that asked.  Without
    /// such a source nothing happens.
    pub fn dispatch(&self, me: &Redstate, nodes: &Vec<Redstone>, ctxt: ConstraintCtxt) -> (r: (
        Redstate,
        Vec<Constraint>,
    ))
        requires
            self@.in_range(nodes.len() as nat),
        ensures
            r.0 == self@.outcome(*me, states(nodes@), ctxt.current_frame),
            r.1@ == consequents(
                self@.emits(states(nodes@), ctxt.creator, ctxt.current_frame),
                ctxt.current_frame,
                ctxt.redstone,
            ),
    {
        match best_source(nodes, &self.sources, ctxt.current_frame) {
            None => (*me, Vec::new()),
            Some(power) => {
                let mut state = *me;
                state.set_power(power, ctxt.current_frame);
                let out = schedule(&self.neighbors, ctxt.creator, ctxt.current_frame, ctxt.redstone);
                proof {
                    let signal = self@.signal(me@, states(nodes@), ctxt.current_frame);
                    Redstate::lemma_written(signal, ctxt.current_frame);
                    Redstate::lemma_same(state, Redstate::written(signal, ctxt.current_frame));
                }
                (state, out)
            },
        }
    }

    pub fn dispatch_frame_offset(&self) -> (offset: Frame)
        ensures
            offset == self@.frame_offset(),
    {
        Frame { tick: 0 }
    }
}

impl Block {
    /// Becomes hard-powered when an input conducts, and carries full
    /// power when an input is hard-powered.  Schedules every outgoing node
    /// but the one that asked.
    pub fn dispatch(&self, me: &Redstate, nodes: &Vec<Redstone>, ctxt: ConstraintCtxt) -> (r: (
        Redstate,
        Vec<Constraint>,
    ))
        requires
            self@.in_range(nodes.len() as nat),
        ensures
            r.0 == self@.outcome(*me, states(nodes@), ctxt.current_frame),
            r.1@ == consequents(
                self@.emits(states(nodes@), ctxt.creator, ctxt.current_frame),
                ctxt.current_frame,
                ctxt.redstone,
            ),
    {
        let has_power = any_is_on(nodes, &self.incoming);
        let is_forced = any_is_forced(nodes, &self.incoming);
        let mut state = *me;
        state.set_forced(has_power, ctxt.current_frame);
        state.set_power(if is_forced { 16 } else { 0 }, ctxt.current_frame);
        let out = schedule(&self.outgoing, ctxt.creator, ctxt.current_frame, ctxt.redstone);
        proof {
            let signal = self@.signal(me@, states(nodes@), ctxt.current_frame);
            Redstate::lemma_written(signal, ctxt.current_frame);
            Redstate::lemma_same(state, Redstate::written(signal, ctxt.current_frame));
        }
        (state, out)
    }

    pub fn dispatch_frame_offset(&self) -> (offset: Frame)
        ensures
            offset == self@.frame_offset(),
    {
        Frame { tick: 0 }
    }
}

impl RedstoneRepeater {
    /// Holds its state while a neighbor that locks it conducts, or
    /// without an input.  Else it repeats the input at full strength and
    /// schedules its output.
    pub fn dispatch(&self, me: &Redstate, nodes: &Vec<Redstone>, ctxt: ConstraintCtxt) -> (r: (
        Redstate,
        Vec<Constraint>,
    ))
        requires
            self@.in_range(nodes.len() as nat),
        ensures
            r.0 == self@.outcome(*me, states(nodes@), ctxt.current_frame),
            r.1@ == consequents(
                self@.emits(states(nodes@), ctxt.creator, ctxt.current_frame),
                ctxt.current_frame,
                ctxt.redstone,
            ),
    {
        if any_is_on(nodes, &self.neighbors) {
            return (*me, Vec::new());
        }
        if self.incoming.is_none() {
            return (*me, Vec::new());
        }
        let on = slot_is_on(nodes, self.incoming);
        let mut state = *me;
        state.set_forced(on, ctxt.current_frame);
        state.set_power(if on { 16 } else { 0 }, ctxt.current_frame);
        let mut out: Vec<Constraint> = Vec::new();
        if let Some(outgoing) = self.outgoing {
            out.push(
                Constraint {
                    next_dispatch_frame: ctxt.current_frame,
                    redstone: outgoing,
                    creator: Some(ctxt.redstone),
                },
            );
        }
        proof {
            let signal = self@.signal(me@, states(nodes@), ctxt.current_frame);
            Redstate::lemma_written(signal, ctxt.current_frame);
            Redstate::lemma_same(state, Redstate::written(signal, ctxt.current_frame));
            assert(out@ == consequents(slot(self.outgoing), ctxt.current_frame, ctxt.redstone));
        }
        (state, out)
    }

    pub fn dispatch_frame_offset(&self) -> (offset: Frame)
        ensures
            offset == self@.frame_offset(),
    {
        self.delay
    }
}

impl Redstone {
    /// What a dispatch of this node in the frame of `ctxt` makes of it: its
    /// next state and the work items that follow.
    pub fn dispatch(&self, nodes: &Vec<Redstone>, ctxt: ConstraintCtxt) -> (r: (
        Redstate,
        Vec<Constraint>,
    ))
        requires
            self.wiring().in_range(nodes.len() as nat),
        ensures
            r.0 == self.wiring().outcome(self.state(), states(nodes@), ctxt.current_frame),
            r.1@ == consequents(
                self.wiring().emits(states(nodes@), ctxt.creator, ctxt.current_frame),
                ctxt.current_frame,
                ctxt.redstone,
            ),
    {
        match self.node() {
            RedstoneNode::Torch(torch) => torch.dispatch(self.redstate(), nodes, ctxt),
            RedstoneNode::Dust(dust) => dust.dispatch(self.redstate(), nodes, ctxt),
            RedstoneNode::Block(block) => block.dispatch(self.redstate(), nodes, ctxt),
            RedstoneNode::Repeater(repeater) => repeater.dispatch(self.redstate(), nodes, ctxt),
        }
    }

    pub fn dispatch_frame_offset(&self) -> (offset: Frame)
        ensures
            offset == self.wiring().frame_offset(),
    {
        match self.node() {
            RedstoneNode::Torch(torch) => torch.dispatch_frame_offset(),
            RedstoneNode::Dust(dust) => dust.dispatch_frame_offset(),
            RedstoneNode::Block(block) => block.dispatch_frame_offset(),
            RedstoneNode::Repeater(repeater) => repeater.dispatch_frame_offset(),
        }
    }
}

/// The states of a circuit after node `node` was dispatched in `frame`.
pub open spec fn dispatched(g: Seq<Wiring>, st: Seq<Redstate>, node: usize, frame: Frame) -> Seq<
    Redstate,
> {
    st.update(node as int, g[node as int].outcome(st[node as int], st, frame))
}

impl Constraint {
    /// A work item for `redstone` that no dispatch asked for.
    pub fn new(redstone: usize, next_dispatch_frame: Frame) -> (c: Constraint)
        ensures
            c == (Constraint { next_dispatch_frame, redstone, creator: None }),
    {
        Constraint { next_dispatch_frame, redstone, creator: None }
    }

    /// The frame from which on this item may fire.
    pub open spec fn due(self, g: Seq<Wiring>) -> int {
        self.next_dispatch_frame.tick + g[self.redstone as int].frame_offset().tick
    }

    /// The item may fire once its frame and the latency of its node have passed.
    pub open spec fn ready(self, g: Seq<Wiring>, frame: Frame) -> bool {
        self.due(g) <= frame.tick
    }

    pub fn dispatchable(&self, nodes: &Vec<Redstone>, current_frame: Frame) -> (b: bool)
        requires
            self.redstone < nodes.len(),
        ensures
            b == self.ready(wirings(nodes@), current_frame),
    {
        let offset = nodes[self.redstone].dispatch_frame_offset();
        self.next_dispatch_frame.tick as u128 + offset.tick as u128 <= current_frame.tick as u128
    }

    /// Dispatches the node of this item in `frame`: writes its next state
    /// and returns the work items that follow.
    pub fn dispatch(&self, nodes: &mut Vec<Redstone>, frame: Frame) -> (out: Vec<Constraint>)
        requires
            self.redstone < old(nodes).len(),
            self.ready(wirings(old(nodes)@), frame),
            wirings(old(nodes)@)[self.redstone as int].in_range(old(nodes).len() as nat),
        ensures
            wirings(final(nodes)@) == wirings(old(nodes)@),
            states(final(nodes)@) == dispatched(
                wirings(old(nodes)@),
                states(old(nodes)@),
                self.redstone,
                frame,
            ),
            out@ == consequents(
                wirings(old(nodes)@)[self.redstone as int].emits(
                    states(old(nodes)@),
                    self.creator,
                    frame,
                ),
                frame,
                self.redstone,
            ),
            final(nodes).len() == old(nodes).len(),
            forall|i: int|
                0 <= i < old(nodes).len() ==> final(nodes)[i].label() == old(nodes)[i].label(),
    {
        let ctxt = ConstraintCtxt { current_frame: frame, redstone: self.redstone, creator: self.creator };
        let (state, out) = nodes[self.redstone].dispatch(nodes, ctxt);
        nodes[self.redstone].set_state(state);
        out
    }
}

} // verus!
