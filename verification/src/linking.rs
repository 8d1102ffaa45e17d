//! Wiring nodes together.

use vstd::prelude::*;
use crate::redstone::{Redstone, Wiring, wirings, states};
use crate::circuit::{well_formed, node_ok, extends, same_kind};

verus! {

impl Wiring {
    /// Whether this node can take one more outgoing link.
    pub open spec fn may_link_from(self) -> bool {
        match self {
            Wiring::Torch { outgoing, .. } => outgoing.len() <= 5,
            Wiring::Dust { neighbors, .. } => neighbors.len() <= 6,
            Wiring::Block { outgoing, .. } => outgoing.len() <= 6,
            Wiring::Repeater { outgoing, .. } => outgoing is None,
        }
    }

    /// This node with an outgoing link to `target`.
    pub open spec fn link_from(self, target: usize) -> Wiring {
        match self {
            Wiring::Torch { incoming, outgoing } => Wiring::Torch {
                incoming,
                outgoing: outgoing.push(target),
            },
            Wiring::Dust { neighbors, sources } => Wiring::Dust {
                neighbors: neighbors.push(target),
                sources,
            },
            Wiring::Block { incoming, outgoing } => Wiring::Block {
                incoming,
                outgoing: outgoing.push(target),
            },
            Wiring::Repeater { delay, incoming, outgoing, neighbors } => Wiring::Repeater {
                delay,
                incoming,
                outgoing: Some(target),
                neighbors,
            },
        }
    }

    /// Whether this node can register a link that arrives from a node
    /// that is directed or not.
    pub open spec fn may_link_into(self, source_directed: bool) -> bool {
        match self {
            Wiring::Torch { incoming, .. } => incoming is None,
            Wiring::Dust { neighbors, .. } => source_directed || neighbors.len() <= 6,
            Wiring::Block { incoming, .. } => incoming.len() <= 6,
            Wiring::Repeater { incoming, .. } => source_directed || incoming is None,
        }
    }

    /// This node after a link from `source` has arrived.
    pub open spec fn link_into(self, source: usize, source_directed: bool) -> Wiring {
        match self {
            Wiring::Torch { incoming, outgoing } => Wiring::Torch { incoming: Some(source), outgoing },
            Wiring::Dust { neighbors, sources } => Wiring::Dust {
                neighbors: if source_directed {
                    neighbors
                } else {
                    neighbors.push(source)
                },
                sources,
            },
            Wiring::Block { incoming, outgoing } => Wiring::Block {
                incoming: incoming.push(source),
                outgoing,
            },
            Wiring::Repeater { delay, incoming, outgoing, neighbors } => Wiring::Repeater {
                delay,
                incoming: if source_directed {
                    incoming
                } else {
                    Some(source)
                },
                outgoing,
                neighbors,
            },
        }
    }
}

/// The circuit `g` with the outgoing half of a link from `here` to `there`.
pub open spec fn half_linked(g: Seq<Wiring>, here: usize, there: usize) -> Seq<Wiring> {
    g.update(here as int, g[here as int].link_from(there))
}

/// Whether `here` may be linked to `there`: both exist, `here` has room for
/// the link and `there`, once `here` has it, has room for its side of it.
pub open spec fn may_link(g: Seq<Wiring>, here: usize, there: usize) -> bool {
    &&& here < g.len()
    &&& there < g.len()
    &&& g[here as int].may_link_from()
    &&& half_linked(g, here, there)[there as int].may_link_into(g[here as int].is_directed())
}

/// The circuit `g` after `here` was linked to `there`.
pub open spec fn linked(g: Seq<Wiring>, here: usize, there: usize) -> Seq<Wiring> {
    let half = half_linked(g, here, there);
    half.update(there as int, half[there as int].link_into(here, g[here as int].is_directed()))
}

impl Wiring {
    /// This dust with one more weighted source.
    pub open spec fn with_source(self, weight: u8, source: usize) -> Wiring {
        match self {
            Wiring::Dust { neighbors, sources } => Wiring::Dust {
                neighbors,
                sources: sources.push((weight, source)),
            },
            _ => self,
        }
    }

    /// This repeater with one more neighbor that locks it.
    pub open spec fn with_lock(self, edge: usize) -> Wiring {
        match self {
            Wiring::Repeater { delay, incoming, outgoing, neighbors } => Wiring::Repeater {
                delay,
                incoming,
                outgoing,
                neighbors: neighbors.push(edge),
            },
            _ => self,
        }
    }
}

/// Whether `source` may become a weighted source of `dust`: the one is a
/// dust and the other is not.
pub open spec fn may_add_weighted_edge(g: Seq<Wiring>, dust: usize, source: usize) -> bool {
    &&& dust < g.len()
    &&& source < g.len()
    &&& g[dust as int] is Dust
    &&& !(g[source as int] is Dust)
}

/// Whether `edge` may lock `repeater`: both are repeaters and `repeater`
/// has at most two locks so far.
pub open spec fn may_lock(g: Seq<Wiring>, repeater: usize, edge: usize) -> bool {
    &&& repeater < g.len()
    &&& edge < g.len()
    &&& g[repeater as int] matches Wiring::Repeater { neighbors, .. }
    &&& neighbors.len() <= 2
    &&& g[edge as int] is Repeater
}

/// Linking keeps every node, its kind and what it schedules.
pub proof fn lemma_linked_extends(g: Seq<Wiring>, here: usize, there: usize)
    requires
        may_link(g, here, there),
    ensures
        extends(g, linked(g, here, there)),
        linked(g, here, there)[here as int].forward().contains(there),
{
    let half = half_linked(g, here, there);
    let full = linked(g, here, there);
    let d = g[here as int].is_directed();
    let n = g[here as int].forward().len() as int;
    assert(half[here as int].forward().len() > 0);
    assert(half[here as int].forward().last() == there);
    assert(half[here as int].forward().contains(there));
    assert forall|i: int, x: usize| 0 <= i < g.len() && #[trigger] g[i].forward().contains(
        x,
    ) implies half[i].forward().contains(x) by {
        let k = choose|k: int| 0 <= k < g[i].forward().len() && g[i].forward()[k] == x;
        if i == here {
            match g[i] {
                Wiring::Repeater { .. } => {},
                _ => {
                    assert(half[i].forward()[k] == x);
                },
            }
        }
    }
    assert forall|i: int, x: usize| 0 <= i < g.len() && #[trigger] half[i].forward().contains(
        x,
    ) implies full[i].forward().contains(x) by {
        let k = choose|k: int| 0 <= k < half[i].forward().len() && half[i].forward()[k] == x;
        if i == there {
            assert(full[i].forward()[k] == x);
        }
    }
    assert(full[here as int].forward().contains(there));
    assert forall|i: int, x: usize| 0 <= i < g.len() && #[trigger] g[i].forward().contains(
        x,
    ) implies full[i].forward().contains(x) by {
        assert(half[i].forward().contains(x));
    }
    assert forall|i: int| 0 <= i < g.len() implies same_kind(#[trigger] g[i], full[i]) by {
        assert(same_kind(g[i], half[i]));
        assert(same_kind(half[i], full[i]));
    }
}

/// Linking two nodes of a circuit leaves a circuit.
pub proof fn lemma_linked_well_formed(g: Seq<Wiring>, here: usize, there: usize)
    requires
        well_formed(g),
        may_link(g, here, there),
    ensures
        well_formed(linked(g, here, there)),
{
    let half = half_linked(g, here, there);
    let full = linked(g, here, there);
    let d = g[here as int].is_directed();
    lemma_linked_extends(g, here, there);
    assert forall|i: int| 0 <= i < full.len() implies #[trigger] node_ok(full, i) by {
        assert(node_ok(g, i));
        assert(same_kind(g[i], full[i]));
        assert(full[i].in_range(full.len()));
        assert(full[i].within_caps());
        if let Wiring::Dust { sources, .. } = full[i] {
            assert forall|k: int| 0 <= k < sources.len() implies !(full[(
            #[trigger] sources[k]).1 as int] is Dust) by {
                let j = sources[k].1 as int;
                assert(g[i] matches Wiring::Dust { sources: s0, .. } && s0 == sources);
                assert(same_kind(g[j], full[j]));
            }
        }
        if let Wiring::Repeater { neighbors, .. } = full[i] {
            assert forall|k: int| 0 <= k < neighbors.len() implies full[(
            #[trigger] neighbors[k]) as int] is Repeater by {
                let j = neighbors[k] as int;
                assert(g[i] matches Wiring::Repeater { neighbors: n0, .. } && n0 == neighbors);
                assert(same_kind(g[j], full[j]));
            }
        }
        assert forall|k: int| 0 <= k < full[i].listens_to().len() implies full[(
        #[trigger] full[i].listens_to()[k]) as int].forward().contains(i as usize) by {
            let x = full[i].listens_to()[k];
            if i == there && (k >= g[i].listens_to().len() || g[i].listens_to()[k] != x) {
                assert(x == here);
            } else {
                assert(g[i].listens_to()[k] == x);
                assert(g[x as int].forward().contains(i as usize));
            }
        }
    }
}

/// Adding a weighted source to a dust of a circuit leaves a circuit.
pub proof fn lemma_with_source_well_formed(g: Seq<Wiring>, dust: usize, source: usize, weight: u8)
    requires
        well_formed(g),
        may_add_weighted_edge(g, dust, source),
    ensures
        well_formed(g.update(dust as int, g[dust as int].with_source(weight, source))),
        extends(g, g.update(dust as int, g[dust as int].with_source(weight, source))),
{
    let h = g.update(dust as int, g[dust as int].with_source(weight, source));
    assert forall|i: int| 0 <= i < h.len() implies #[trigger] node_ok(h, i) by {
        assert(node_ok(g, i));
        assert(forall|j: int| 0 <= j < g.len() ==> same_kind(g[j], h[j]));
        assert(forall|j: int| 0 <= j < g.len() ==> g[j].forward() == h[j].forward());
        assert(h[i].listens_to() == g[i].listens_to());
        if let Wiring::Dust { sources, .. } = h[i] {
            assert forall|k: int| 0 <= k < sources.len() implies !(h[(
            #[trigger] sources[k]).1 as int] is Dust) by {
                if i == dust && k == sources.len() - 1 {
                } else {
                    assert(g[i] matches Wiring::Dust { sources: s0, .. } && s0[k] == sources[k]);
                }
            }
        }
    }
}

/// Adding a lock to a repeater of a circuit leaves a circuit.
pub proof fn lemma_with_lock_well_formed(g: Seq<Wiring>, repeater: usize, edge: usize)
    requires
        well_formed(g),
        may_lock(g, repeater, edge),
    ensures
        well_formed(g.update(repeater as int, g[repeater as int].with_lock(edge))),
        extends(g, g.update(repeater as int, g[repeater as int].with_lock(edge))),
{
    let h = g.update(repeater as int, g[repeater as int].with_lock(edge));
    assert forall|i: int| 0 <= i < h.len() implies #[trigger] node_ok(h, i) by {
        assert(node_ok(g, i));
        assert(forall|j: int| 0 <= j < g.len() ==> same_kind(g[j], h[j]));
        assert(forall|j: int| 0 <= j < g.len() ==> g[j].forward() == h[j].forward());
        assert(h[i].listens_to() == g[i].listens_to());
        if let Wiring::Repeater { neighbors, .. } = h[i] {
            assert forall|k: int| 0 <= k < neighbors.len() implies h[(
            #[trigger] neighbors[k]) as int] is Repeater by {
                if i == repeater && k == neighbors.len() - 1 {
                } else {
                    assert(g[i] matches Wiring::Repeater { neighbors: n0, .. } && n0[k]
                        == neighbors[k]);
                }
            }
        }
    }
}

/// Links `here` to `there` in a table of nodes.
pub fn link_nodes(nodes: &mut Vec<Redstone>, here: usize, there: usize)
    requires
        may_link(wirings(old(nodes)@), here, there),
    ensures
        wirings(final(nodes)@) == linked(wirings(old(nodes)@), here, there),
        states(final(nodes)@) == states(old(nodes)@),
        final(nodes).len() == old(nodes).len(),
        forall|i: int| 0 <= i < old(nodes).len() ==> final(nodes)[i].label() == old(nodes)[i].label(),
{
    let directed = nodes[here].is_directed();
    nodes[here].link_from(there);
    assert(wirings(nodes@) == half_linked(wirings(old(nodes)@), here, there));
    nodes[there].link_into(here, directed);
}


/// Whether `here` may be linked to `there` in a table of nodes.
pub fn can_link_nodes(nodes: &Vec<Redstone>, here: usize, there: usize) -> (b: bool)
    ensures
        b == may_link(wirings(nodes@), here, there),
{
    if here >= nodes.len() || there >= nodes.len() {
        return false;
    }
    if !nodes[here].can_link_from() {
        return false;
    }
    let directed = nodes[here].is_directed();
    if here != there {
        nodes[there].can_link_into(directed)
    } else {
        nodes[here].can_link_through()
    }
}

/// Appends `(weight, source)` to the weighted sources of `dust`.
pub fn add_source_to(nodes: &mut Vec<Redstone>, dust: usize, source: usize, weight: u8)
    requires
        may_add_weighted_edge(wirings(old(nodes)@), dust, source),
    ensures
        wirings(final(nodes)@) == wirings(old(nodes)@).update(
            dust as int,
            wirings(old(nodes)@)[dust as int].with_source(weight, source),
        ),
        states(final(nodes)@) == states(old(nodes)@),
        final(nodes).len() == old(nodes).len(),
        forall|i: int| 0 <= i < old(nodes).len() ==> final(nodes)[i].label() == old(nodes)[i].label(),
{
    nodes[dust].add_source(weight, source);
}

/// Whether `source` may become a weighted source of `dust`.
pub fn can_add_source_to(nodes: &Vec<Redstone>, dust: usize, source: usize) -> (b: bool)
    ensures
        b == may_add_weighted_edge(wirings(nodes@), dust, source),
{
    dust < nodes.len() && source < nodes.len() && nodes[dust].is_dust() && !nodes[source].is_dust()
}

/// Appends `edge` to the neighbors that lock `repeater`.
pub fn add_lock_to(nodes: &mut Vec<Redstone>, repeater: usize, edge: usize)
    requires
        may_lock(wirings(old(nodes)@), repeater, edge),
    ensures
        wirings(final(nodes)@) == wirings(old(nodes)@).update(
            repeater as int,
            wirings(old(nodes)@)[repeater as int].with_lock(edge),
        ),
        states(final(nodes)@) == states(old(nodes)@),
        final(nodes).len() == old(nodes).len(),
        forall|i: int| 0 <= i < old(nodes).len() ==> final(nodes)[i].label() == old(nodes)[i].label(),
{
    nodes[repeater].add_lock(edge);
}

/// Whether `edge` may lock `repeater`.
pub fn can_add_lock_to(nodes: &Vec<Redstone>, repeater: usize, edge: usize) -> (b: bool)
    ensures
        b == may_lock(wirings(nodes@), repeater, edge),
{
    repeater < nodes.len() && edge < nodes.len() && nodes[repeater].can_take_lock()
        && nodes[edge].is_repeater()
}

} // verus!
