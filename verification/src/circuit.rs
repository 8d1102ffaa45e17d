//! What makes a table of wirings a circuit.

use vstd::prelude::*;
use crate::redstone::{Wiring, slot};

verus! {

/// Every index in `s` is below `n`.
pub open spec fn all_below(s: Seq<usize>, n: nat) -> bool {
    forall|k: int| 0 <= k < s.len() ==> #[trigger] s[k] < n
}

impl Wiring {
    /// Every node that this one refers to has an index below `n`.
    pub open spec fn in_range(self, n: nat) -> bool {
        match self {
            Wiring::Torch { incoming, outgoing } => all_below(slot(incoming), n) && all_below(
                outgoing,
                n,
            ),
            Wiring::Dust { neighbors, sources } => all_below(neighbors, n) && (forall|k: int|
                0 <= k < sources.len() ==> (#[trigger] sources[k]).1 < n),
            Wiring::Block { incoming, outgoing } => all_below(incoming, n) && all_below(outgoing, n),
            Wiring::Repeater { incoming, outgoing, neighbors, .. } => all_below(slot(incoming), n)
                && all_below(slot(outgoing), n) && all_below(neighbors, n),
        }
    }

    /// The fan-in and fan-out that linking allows, and the delays that a
    /// repeater can have.
    pub open spec fn within_caps(self) -> bool {
        match self {
            Wiring::Torch { outgoing, .. } => outgoing.len() <= 6,
            Wiring::Dust { neighbors, .. } => neighbors.len() <= 7,
            Wiring::Block { incoming, outgoing } => incoming.len() <= 7 && outgoing.len() <= 7,
            Wiring::Repeater { delay, neighbors, .. } => 1 <= delay.tick <= 4 && neighbors.len()
                <= 3,
        }
    }

    /// The nodes that were linked to this one and that it listens to: each
    /// of them lists this node among those it schedules.
    pub open spec fn listens_to(self) -> Seq<usize> {
        match self {
            Wiring::Torch { incoming, .. } => slot(incoming),
            Wiring::Dust { .. } => Seq::empty(),
            Wiring::Block { incoming, .. } => incoming,
            Wiring::Repeater { incoming, .. } => slot(incoming),
        }
    }
}

/// Node `i` of `g` is sound: its references exist, it is within its caps, a
/// dust has no dust among its weighted sources, a repeater is locked by
/// repeaters only, and whoever it listens to schedules it.
pub open spec fn node_ok(g: Seq<Wiring>, i: int) -> bool {
    &&& g[i].in_range(g.len())
    &&& g[i].within_caps()
    &&& g[i] matches Wiring::Dust { sources, .. } ==> forall|k: int|
        0 <= k < sources.len() ==> !(g[(#[trigger] sources[k]).1 as int] is Dust)
    &&& g[i] matches Wiring::Repeater { neighbors, .. } ==> forall|k: int|
        0 <= k < neighbors.len() ==> g[(#[trigger] neighbors[k]) as int] is Repeater
    &&& forall|k: int|
        0 <= k < g[i].listens_to().len() ==> g[(#[trigger] g[i].listens_to()[k]) as int].forward().contains(
            i as usize,
        )
}

/// Every node of `g` is sound.
pub open spec fn well_formed(g: Seq<Wiring>) -> bool {
    forall|i: int| 0 <= i < g.len() ==> #[trigger] node_ok(g, i)
}

/// Two wirings are of the same kind of node.
pub open spec fn same_kind(a: Wiring, b: Wiring) -> bool {
    &&& a is Torch <==> b is Torch
    &&& a is Dust <==> b is Dust
    &&& a is Block <==> b is Block
    &&& a is Repeater <==> b is Repeater
}

/// `h` has the nodes of `g`, each of the same kind, and each schedules at
/// least what it scheduled in `g`.
pub open spec fn extends(g: Seq<Wiring>, h: Seq<Wiring>) -> bool {
    &&& g.len() == h.len()
    &&& forall|i: int| 0 <= i < g.len() ==> same_kind(#[trigger] g[i], h[i])
    &&& forall|i: int, x: usize|
        0 <= i < g.len() && #[trigger] g[i].forward().contains(x) ==> h[i].forward().contains(x)
}

} // verus!
