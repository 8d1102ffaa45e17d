//! The components of a circuit and how they refer to each other.
//!
//! A node is identified by its index in the arena that holds it; every
//! reference from one node to another is such an index.

use vstd::prelude::*;
use crate::frame::Frame;
use crate::redstate::Redstate;
use crate::redpower::Redpower;

verus! {

/// An inverting source: powered unless its input conducts.
pub struct RedstoneTorch {
    pub incoming: Option<usize>,
    pub outgoing: Vec<usize>,
}

/// A passive conductor whose power decays with the weight of its sources.
pub struct RedstoneDust {
    pub neighbors: Vec<usize>,
    pub sources: Vec<(u8, usize)>,
}

/// A solid block.  It relays hard power and conducts to what is attached to it.
pub struct Block {
    pub incoming: Vec<usize>,
    pub outgoing: Vec<usize>,
}

/// A delayed one-way amplifier that holds its output while a neighbor locks it.
pub struct RedstoneRepeater {
    pub delay: Frame,
    pub incoming: Option<usize>,
    pub outgoing: Option<usize>,
    pub neighbors: Vec<usize>,
}

pub enum RedstoneNode {
    Torch(RedstoneTorch),
    Dust(RedstoneDust),
    Block(Block),
    Repeater(RedstoneRepeater),
}

/// The connections of one node, as mathematical sequences of node indices.
#[allow(inconsistent_fields)]
pub enum Wiring {
    Torch { incoming: Option<usize>, outgoing: Seq<usize> },
    Dust { neighbors: Seq<usize>, sources: Seq<(u8, usize)> },
    Block { incoming: Seq<usize>, outgoing: Seq<usize> },
    Repeater { delay: Frame, incoming: Option<usize>, outgoing: Option<usize>, neighbors: Seq<usize> },
}

/// An optional index as a sequence of at most one index.
pub open spec fn slot(s: Option<usize>) -> Seq<usize> {
    match s {
        Some(i) => seq![i],
        None => Seq::empty(),
    }
}

impl Wiring {
    /// Torches and repeaters are directed: a link towards a dust or a
    /// repeater is registered on the far side only when it comes from an
    /// undirected node.
    pub open spec fn is_directed(self) -> bool {
        self is Torch || self is Repeater
    }

    /// The nodes that a dispatch of this node may schedule, in order.
    pub open spec fn forward(self) -> Seq<usize> {
        match self {
            Wiring::Torch { outgoing, .. } => outgoing,
            Wiring::Dust { neighbors, .. } => neighbors,
            Wiring::Block { outgoing, .. } => outgoing,
            Wiring::Repeater { outgoing, .. } => slot(outgoing),
        }
    }

    /// Every node that a walk of the circuit reaches from this one in one
    /// step, in the order in which the walk visits them.
    pub open spec fn adjacent(self) -> Seq<usize> {
        match self {
            Wiring::Torch { incoming, outgoing } => slot(incoming) + outgoing,
            Wiring::Dust { neighbors, sources } => neighbors + Seq::new(
                sources.len(),
                |i: int| sources[i].1,
            ),
            Wiring::Block { incoming, outgoing } => incoming + outgoing,
            Wiring::Repeater { incoming, outgoing, neighbors, .. } => slot(incoming) + slot(outgoing)
                + neighbors,
        }
    }

    /// The latency that is charged before a work item for this node may fire.
    pub open spec fn frame_offset(self) -> Frame {
        match self {
            Wiring::Torch { .. } => Frame { tick: 1 },
            Wiring::Dust { .. } => Frame { tick: 0 },
            Wiring::Block { .. } => Frame { tick: 0 },
            Wiring::Repeater { delay, .. } => delay,
        }
    }
}

impl View for RedstoneTorch {
    type V = Wiring;

    open spec fn view(&self) -> Wiring {
        Wiring::Torch { incoming: self.incoming, outgoing: self.outgoing@ }
    }
}

impl View for RedstoneDust {
    type V = Wiring;

    open spec fn view(&self) -> Wiring {
        Wiring::Dust { neighbors: self.neighbors@, sources: self.sources@ }
    }
}

impl View for Block {
    type V = Wiring;

    open spec fn view(&self) -> Wiring {
        Wiring::Block { incoming: self.incoming@, outgoing: self.outgoing@ }
    }
}

impl View for RedstoneRepeater {
    type V = Wiring;

    open spec fn view(&self) -> Wiring {
        Wiring::Repeater {
            delay: self.delay,
            incoming: self.incoming,
            outgoing: self.outgoing,
            neighbors: self.neighbors@,
        }
    }
}

impl View for RedstoneNode {
    type V = Wiring;

    open spec fn view(&self) -> Wiring {
        match self {
            RedstoneNode::Torch(torch) => torch@,
            RedstoneNode::Dust(dust) => dust@,
            RedstoneNode::Block(block) => block@,
            RedstoneNode::Repeater(repeater) => repeater@,
        }
    }
}

/// One node of a circuit: a diagnostic name, a state and the connections.
pub struct Redstone {
    pub(crate) name: String,
    pub(crate) redstate: Redstate,
    pub(crate) node: RedstoneNode,
}

impl Redstone {
    pub closed spec fn label(&self) -> Seq<char> {
        self.name@
    }

    pub closed spec fn state(&self) -> Redstate {
        self.redstate
    }

    pub closed spec fn wiring(&self) -> Wiring {
        self.node@
    }

    pub fn name(&self) -> (name: String)
        ensures
            name@ == self.label(),
    {
        self.name.clone()
    }

    pub fn redstate(&self) -> (state: &Redstate)
        ensures
            *state == self.state(),
    {
        &self.redstate
    }

    pub fn node(&self) -> (node: &RedstoneNode)
        ensures
            node@ == self.wiring(),
    {
        &self.node
    }

    /// The node's power level as a value of its own.
    pub fn redpower(&self) -> (power: Redpower)
        ensures
            power.strength == self.state()@.power,
    {
        Redpower::new(self.redstate.get_power() as u32)
    }

    pub fn is_directed(&self) -> (b: bool)
        ensures
            b == self.wiring().is_directed(),
    {
        match &self.node {
            RedstoneNode::Torch(_) => true,
            RedstoneNode::Dust(_) => false,
            RedstoneNode::Block(_) => false,
            RedstoneNode::Repeater(_) => true,
        }
    }

    pub fn is_undirected(&self) -> (b: bool)
        ensures
            b == !self.wiring().is_directed(),
    {
        !self.is_directed()
    }
}

impl Redstone {
    /// Whether this node has room for one more outgoing link.
    pub fn can_link_from(&self) -> (b: bool)
        ensures
            b == self.wiring().may_link_from(),
    {
        match &self.node {
            RedstoneNode::Torch(torch) => torch.outgoing.len() <= 5,
            RedstoneNode::Dust(dust) => dust.neighbors.len() <= 6,
            RedstoneNode::Block(block) => block.outgoing.len() <= 6,
            RedstoneNode::Repeater(repeater) => repeater.outgoing.is_none(),
        }
    }

    /// Whether this node has room for a link that arrives from a directed
    /// or an undirected node.
    pub fn can_link_into(&self, source_directed: bool) -> (b: bool)
        ensures
            b == self.wiring().may_link_into(source_directed),
    {
        match &self.node {
            RedstoneNode::Torch(torch) => torch.incoming.is_none(),
            RedstoneNode::Dust(dust) => source_directed || dust.neighbors.len() <= 6,
            RedstoneNode::Block(block) => block.incoming.len() <= 6,
            RedstoneNode::Repeater(repeater) => source_directed || repeater.incoming.is_none(),
        }
    }

    /// Records an outgoing link to `target`.
    pub fn link_from(&mut self, target: usize)
        requires
            old(self).wiring().may_link_from(),
        ensures
            final(self).wiring() == old(self).wiring().link_from(target),
            final(self).state() == old(self).state(),
            final(self).label() == old(self).label(),
    {
        match &mut self.node {
            RedstoneNode::Torch(torch) => {
                torch.outgoing.push(target);
            },
            RedstoneNode::Dust(dust) => {
                dust.neighbors.push(target);
            },
            RedstoneNode::Block(block) => {
                block.outgoing.push(target);
            },
            RedstoneNode::Repeater(repeater) => {
                repeater.outgoing = Some(target);
            },
        }
    }

    /// Records a link that arrives from `source`.
    pub fn link_into(&mut self, source: usize, source_directed: bool)
        requires
            old(self).wiring().may_link_into(source_directed),
        ensures
            final(self).wiring() == old(self).wiring().link_into(source, source_directed),
            final(self).state() == old(self).state(),
            final(self).label() == old(self).label(),
    {
        match &mut self.node {
            RedstoneNode::Torch(torch) => {
                torch.incoming = Some(source);
            },
            RedstoneNode::Dust(dust) => {
                if !source_directed {
                    dust.neighbors.push(source);
                }
            },
            RedstoneNode::Block(block) => {
                block.incoming.push(source);
            },
            RedstoneNode::Repeater(repeater) => {
                if !source_directed {
                    repeater.incoming = Some(source);
                }
            },
        }
    }
}

impl Redstone {
    /// A torch that is wired to nothing.
    pub fn torch(name: &str) -> (node: Redstone)
        ensures
            node.label() == name@,
            node.state() == Redstate::no_signal(),
            node.wiring() == (Wiring::Torch { incoming: None, outgoing: Seq::empty() }),
    {
        Redstone {
            name: name.to_owned(),
            redstate: Redstate::zero(),
            node: RedstoneNode::Torch(RedstoneTorch { incoming: None, outgoing: Vec::new() }),
        }
    }

    /// A dust that is wired to nothing.
    pub fn dust(name: &str) -> (node: Redstone)
        ensures
            node.label() == name@,
            node.state() == Redstate::no_signal(),
            node.wiring() == (Wiring::Dust { neighbors: Seq::empty(), sources: Seq::empty() }),
    {
        Redstone {
            name: name.to_owned(),
            redstate: Redstate::zero(),
            node: RedstoneNode::Dust(RedstoneDust { neighbors: Vec::new(), sources: Vec::new() }),
        }
    }

    /// A block that is wired to nothing.
    pub fn block(name: &str) -> (node: Redstone)
        ensures
            node.label() == name@,
            node.state() == Redstate::no_signal(),
            node.wiring() == (Wiring::Block { incoming: Seq::empty(), outgoing: Seq::empty() }),
    {
        Redstone {
            name: name.to_owned(),
            redstate: Redstate::zero(),
            node: RedstoneNode::Block(Block { incoming: Vec::new(), outgoing: Vec::new() }),
        }
    }

    /// A repeater with the given delay that is wired to nothing.
    pub fn repeater(name: &str, delay: u8) -> (node: Redstone)
        ensures
            node.label() == name@,
            node.state() == Redstate::no_signal(),
            node.wiring() == (Wiring::Repeater {
                delay: Frame { tick: delay as u64 },
                incoming: None,
                outgoing: None,
                neighbors: Seq::empty(),
            }),
    {
        Redstone {
            name: name.to_owned(),
            redstate: Redstate::zero(),
            node: RedstoneNode::Repeater(
                RedstoneRepeater {
                    delay: Frame { tick: delay as u64 },
                    incoming: None,
                    outgoing: None,
                    neighbors: Vec::new(),
                },
            ),
        }
    }

    pub fn is_dust(&self) -> (b: bool)
        ensures
            b == (self.wiring() is Dust),
    {
        match &self.node {
            RedstoneNode::Dust(_) => true,
            _ => false,
        }
    }

    pub fn is_torch(&self) -> (b: bool)
        ensures
            b == (self.wiring() is Torch),
    {
        match &self.node {
            RedstoneNode::Torch(_) => true,
            _ => false,
        }
    }

    pub fn is_repeater(&self) -> (b: bool)
        ensures
            b == (self.wiring() is Repeater),
    {
        match &self.node {
            RedstoneNode::Repeater(_) => true,
            _ => false,
        }
    }

    /// Whether this node is a repeater with room for one more lock.
    pub fn can_take_lock(&self) -> (b: bool)
        ensures
            b == (self.wiring() matches Wiring::Repeater { neighbors, .. } && neighbors.len() <= 2),
    {
        match &self.node {
            RedstoneNode::Repeater(repeater) => repeater.neighbors.len() <= 2,
            _ => false,
        }
    }

    /// Whether this node, once it has an outgoing link, still has room for
    /// the arriving side of a link from itself.
    pub fn can_link_through(&self) -> (b: bool)
        ensures
            forall|target: usize|
                b == (#[trigger] self.wiring().link_from(target)).may_link_into(
                    self.wiring().is_directed(),
                ),
    {
        match &self.node {
            RedstoneNode::Torch(torch) => torch.incoming.is_none(),
            RedstoneNode::Dust(dust) => dust.neighbors.len() <= 5,
            RedstoneNode::Block(block) => block.incoming.len() <= 6,
            RedstoneNode::Repeater(_) => true,
        }
    }

    /// Appends a weighted source to a dust.
    pub fn add_source(&mut self, weight: u8, source: usize)
        requires
            old(self).wiring() is Dust,
        ensures
            final(self).wiring() == old(self).wiring().with_source(weight, source),
            final(self).state() == old(self).state(),
            final(self).label() == old(self).label(),
    {
        match &mut self.node {
            RedstoneNode::Dust(dust) => {
                dust.sources.push((weight, source));
            },
            _ => {},
        }
    }

    /// Appends a locking neighbor to a repeater.
    pub fn add_lock(&mut self, edge: usize)
        requires
            old(self).wiring() is Repeater,
        ensures
            final(self).wiring() == old(self).wiring().with_lock(edge),
            final(self).state() == old(self).state(),
            final(self).label() == old(self).label(),
    {
        match &mut self.node {
            RedstoneNode::Repeater(repeater) => {
                repeater.neighbors.push(edge);
            },
            _ => {},
        }
    }

    /// Replaces the node's state.
    pub fn set_state(&mut self, state: Redstate)
        ensures
            final(self).state() == state,
            final(self).wiring() == old(self).wiring(),
            final(self).label() == old(self).label(),
    {
        self.redstate = state;
    }
}

/// The connections of every node of a sequence of nodes.
pub open spec fn wirings(nodes: Seq<Redstone>) -> Seq<Wiring> {
    Seq::new(nodes.len(), |i: int| nodes[i].wiring())
}

/// The state of every node of a sequence of nodes.
pub open spec fn states(nodes: Seq<Redstone>) -> Seq<Redstate> {
    Seq::new(nodes.len(), |i: int| nodes[i].state())
}

} // verus!
