//! The arena that owns the nodes of a circuit.
//!
//! Nodes are allocated in a `typed_arena::Arena` and are known by the order
//! of their allocation: the first node has index 0.  Every operation that
//! looks at nodes moves them into a vector, works on the vector and
//! allocates them again in the same order.

use vstd::prelude::*;
use typed_arena::Arena;
use crate::frame::Frame;
use crate::redpower::Redpower;
use crate::redstate::{bounded, Redstate};
use crate::redstone::{Redstone, Wiring, states, wirings};
use crate::circuit::{well_formed, node_ok};
use crate::linking::{
    add_lock_to, add_source_to, can_add_lock_to, can_add_source_to, can_link_nodes, lemma_linked_well_formed,
    lemma_with_lock_well_formed, lemma_with_source_well_formed, link_nodes, linked, may_add_weighted_edge,
    may_link, may_lock,
};

verus! {

/// `typed_arena::Arena`, an allocator for values of one type.  Nothing
/// is known of what is inside it but what [`arena_items`] names.
#[verifier::external_type_specification]
#[verifier::external_body]
#[verifier::reject_recursive_types(T)]
pub struct ExArena<T>(typed_arena::Arena<T>);

/// The nodes that an arena holds, in the order of their allocation.
pub uninterp spec fn arena_items(arena: Arena<Redstone>) -> Seq<Redstone>;

/// `typed_arena::Arena::new`: an arena in which nothing is allocated.
#[verifier::external_body]
fn arena_new() -> (arena: Arena<Redstone>)
    ensures
        arena_items(arena) == Seq::<Redstone>::empty(),
{
    Arena::new()
}

/// `typed_arena::Arena::len`: the number of values allocated so far.
#[verifier::external_body]
fn arena_len(arena: &Arena<Redstone>) -> (n: usize)
    ensures
        n == arena_items(*arena).len(),
{
    arena.len()
}

/// `typed_arena::Arena::alloc`: the value is allocated behind those
/// allocated before.  The reference that the arena hands out is dropped.
#[verifier::external_body]
fn arena_alloc(arena: &mut Arena<Redstone>, node: Redstone)
    ensures
        arena_items(*final(arena)) == arena_items(*old(arena)).push(node),
{
    arena.alloc(node);
}

/// `typed_arena::Arena::alloc_extend`: the values are allocated, in their
/// order, behind those allocated before.
#[verifier::external_body]
fn arena_alloc_extend(arena: &mut Arena<Redstone>, nodes: Vec<Redstone>)
    ensures
        arena_items(*final(arena)) == arena_items(*old(arena)) + nodes@,
{
    arena.alloc_extend(nodes);
}

/// `typed_arena::Arena::into_vec`: the allocated values in the order of
/// their allocation.
#[verifier::external_body]
fn arena_into_vec(arena: Arena<Redstone>) -> (nodes: Vec<Redstone>)
    ensures
        nodes@ == arena_items(arena),
{
    arena.into_vec()
}

/// Owns the nodes of a circuit and hands out their indices.
pub struct RedstoneArena {
    arena: Arena<Redstone>,
}

impl View for RedstoneArena {
    type V = Seq<Redstone>;

    /// The nodes, by index.
    closed spec fn view(&self) -> Seq<Redstone> {
        arena_items(self.arena)
    }
}

impl RedstoneArena {
    /// The connections of every node.
    pub open spec fn wiring(&self) -> Seq<Wiring> {
        wirings(self@)
    }

    /// The state of every node.
    pub open spec fn state(&self) -> Seq<Redstate> {
        states(self@)
    }

    /// The nodes form a circuit, and none carries more than full power.
    pub open spec fn wf(&self) -> bool {
        well_formed(self.wiring()) && bounded(self.state())
    }

    /// `other` holds the same nodes under the same names.
    pub open spec fn same_names(&self, other: &RedstoneArena) -> bool {
        &&& self@.len() == other@.len()
        &&& forall|i: int| 0 <= i < self@.len() ==> self@[i].label() == other@[i].label()
    }

    /// An arena without nodes.
    pub fn new() -> (arena: RedstoneArena)
        ensures
            arena@.len() == 0,
            arena.wf(),
    {
        RedstoneArena { arena: arena_new() }
    }

    /// The number of nodes.
    pub fn len(&self) -> (n: usize)
        ensures
            n == self@.len(),
    {
        arena_len(&self.arena)
    }

    /// Moves the nodes out of the arena.
    pub(crate) fn take(&mut self) -> (nodes: Vec<Redstone>)
        ensures
            nodes@ == old(self)@,
            final(self)@.len() == 0,
    {
        let mut arena = arena_new();
        std::mem::swap(&mut self.arena, &mut arena);
        arena_into_vec(arena)
    }

    /// Moves the nodes into the empty arena.
    pub(crate) fn put(&mut self, nodes: Vec<Redstone>)
        requires
            old(self)@.len() == 0,
        ensures
            final(self)@ == nodes@,
    {
        let ghost before = self@;
        arena_alloc_extend(&mut self.arena, nodes);
        assert(before + nodes@ == nodes@);
    }

    fn make(&mut self, node: Redstone) -> (id: usize)
        requires
            old(self).wf(),
            node.wiring().in_range(0),
            node.wiring().within_caps(),
            node.state() == Redstate::no_signal(),
        ensures
            final(self).wf(),
            id == old(self)@.len(),
            final(self)@ == old(self)@.push(node),
            final(self).wiring() == old(self).wiring().push(node.wiring()),
            final(self).state() == old(self).state().push(node.state()),
    {
        let id = arena_len(&self.arena);
        arena_alloc(&mut self.arena, node);
        proof {
            let g = old(self).wiring();
            let h = self.wiring();
            assert(h == g.push(node.wiring()));
            assert(self.state() == old(self).state().push(node.state()));
            Redstate::lemma_no_signal();
            assert forall|i: int| 0 <= i < h.len() implies #[trigger] node_ok(h, i) by {
                if i < g.len() {
                    assert(node_ok(g, i));
                    assert(h[i] == g[i]);
                    assert forall|k: int| 0 <= k < h[i].listens_to().len() implies h[(
                    #[trigger] h[i].listens_to()[k]) as int].forward().contains(i as usize) by {
                        let x = g[i].listens_to()[k];
                        crate::walk::lemma_listens_in_range(g[i], g.len());
                        assert(h[x as int] == g[x as int]);
                    }
                    match h[i] {
                        Wiring::Dust { sources, .. } => {
                            assert forall|k: int| 0 <= k < sources.len() implies !(h[(
                            #[trigger] sources[k]).1 as int] is Dust) by {
                                assert(h[sources[k].1 as int] == g[sources[k].1 as int]);
                            }
                        },
                        Wiring::Repeater { neighbors, .. } => {
                            assert forall|k: int| 0 <= k < neighbors.len() implies h[(
                            #[trigger] neighbors[k]) as int] is Repeater by {
                                assert(h[neighbors[k] as int] == g[neighbors[k] as int]);
                            }
                        },
                        _ => {},
                    }
                }
            }
        }
        id
    }

    /// Allocates a torch that is wired to nothing and returns its index.
    pub fn make_torch(&mut self, name: &str) -> (id: usize)
        requires
            old(self).wf(),
        ensures
            final(self).wf(),
            id == old(self)@.len(),
            final(self)@.len() == old(self)@.len() + 1,
            final(self)@[id as int].label() == name@,
            final(self).wiring() == old(self).wiring().push(
                Wiring::Torch { incoming: None, outgoing: Seq::empty() },
            ),
            final(self).state() == old(self).state().push(Redstate::no_signal()),
            forall|i: int| 0 <= i < old(self)@.len() ==> final(self)@[i] == old(self)@[i],
    {
        self.make(Redstone::torch(name))
    }

    /// Allocates a dust that is wired to nothing and returns its index.
    pub fn make_dust(&mut self, name: &str) -> (id: usize)
        requires
            old(self).wf(),
        ensures
            final(self).wf(),
            id == old(self)@.len(),
            final(self)@.len() == old(self)@.len() + 1,
            final(self)@[id as int].label() == name@,
            final(self).wiring() == old(self).wiring().push(
                Wiring::Dust { neighbors: Seq::empty(), sources: Seq::empty() },
            ),
            final(self).state() == old(self).state().push(Redstate::no_signal()),
            forall|i: int| 0 <= i < old(self)@.len() ==> final(self)@[i] == old(self)@[i],
    {
        self.make(Redstone::dust(name))
    }

    /// Allocates a block that is wired to nothing and returns its index.
    pub fn make_block(&mut self, name: &str) -> (id: usize)
        requires
            old(self).wf(),
        ensures
            final(self).wf(),
            id == old(self)@.len(),
            final(self)@.len() == old(self)@.len() + 1,
            final(self)@[id as int].label() == name@,
            final(self).wiring() == old(self).wiring().push(
                Wiring::Block { incoming: Seq::empty(), outgoing: Seq::empty() },
            ),
            final(self).state() == old(self).state().push(Redstate::no_signal()),
            forall|i: int| 0 <= i < old(self)@.len() ==> final(self)@[i] == old(self)@[i],
    {
        self.make(Redstone::block(name))
    }

    /// Allocates a repeater with a delay of one to four frames that is
    /// wired to nothing, and returns its index.
    pub fn make_repeater(&mut self, name: &str, delay: u8) -> (id: usize)
        requires
            old(self).wf(),
            1 <= delay <= 4,
        ensures
            final(self).wf(),
            id == old(self)@.len(),
            final(self)@.len() == old(self)@.len() + 1,
            final(self)@[id as int].label() == name@,
            final(self).wiring() == old(self).wiring().push(
                Wiring::Repeater {
                    delay: Frame { tick: delay as u64 },
                    incoming: None,
                    outgoing: None,
                    neighbors: Seq::empty(),
                },
            ),
            final(self).state() == old(self).state().push(Redstate::no_signal()),
            forall|i: int| 0 <= i < old(self)@.len() ==> final(self)@[i] == old(self)@[i],
    {
        self.make(Redstone::repeater(name, delay))
    }

    /// The state of node `id`.
    pub fn redstate(&mut self, id: usize) -> (state: Redstate)
        requires
            id < old(self)@.len(),
        ensures
            final(self)@ == old(self)@,
            state == old(self).state()[id as int],
    {
        let nodes = self.take();
        let state = *nodes[id].redstate();
        self.put(nodes);
        state
    }

    /// The power level of node `id`.
    pub fn redpower(&mut self, id: usize) -> (power: Redpower)
        requires
            id < old(self)@.len(),
        ensures
            final(self)@ == old(self)@,
            power.strength == old(self).state()[id as int]@.power,
    {
        let nodes = self.take();
        let power = nodes[id].redpower();
        self.put(nodes);
        power
    }

    /// The name of node `id`.
    pub fn name(&mut self, id: usize) -> (name: String)
        requires
            id < old(self)@.len(),
        ensures
            final(self)@ == old(self)@,
            name@ == old(self)@[id as int].label(),
    {
        let nodes = self.take();
        let name = nodes[id].name();
        self.put(nodes);
        name
    }

    /// Whether `here` may be linked to `there`.
    pub fn can_link(&mut self, here: usize, there: usize) -> (b: bool)
        ensures
            final(self)@ == old(self)@,
            b == may_link(old(self).wiring(), here, there),
    {
        let nodes = self.take();
        let b = can_link_nodes(&nodes, here, there);
        self.put(nodes);
        b
    }

    /// Links `here` to `there`: `here` gets an outgoing reference to
    /// `there`, and `there` registers `here` as far as its kind and the
    /// kind of `here` ask for it.
    pub fn link(&mut self, here: usize, there: usize)
        requires
            old(self).wf(),
            may_link(old(self).wiring(), here, there),
        ensures
            final(self).wf(),
            final(self).wiring() == linked(old(self).wiring(), here, there),
            final(self).state() == old(self).state(),
            final(self).same_names(old(self)),
    {
        let mut nodes = self.take();
        link_nodes(&mut nodes, here, there);
        self.put(nodes);
        proof {
            lemma_linked_well_formed(old(self).wiring(), here, there);
        }
    }
}

/// Whether `source` may become a weighted source of `dust`.
pub fn can_add_weighted_edge(arena: &mut RedstoneArena, dust: usize, source: usize) -> (b: bool)
    ensures
        final(arena)@ == old(arena)@,
        b == may_add_weighted_edge(old(arena).wiring(), dust, source),
{
    let nodes = arena.take();
    let b = can_add_source_to(&nodes, dust, source);
    arena.put(nodes);
    b
}

/// Appends `(weight, source)` to the weighted sources of `dust`.
pub fn add_weighted_edge(arena: &mut RedstoneArena, dust: usize, source: usize, weight: u8)
    requires
        old(arena).wf(),
        may_add_weighted_edge(old(arena).wiring(), dust, source),
    ensures
        final(arena).wf(),
        final(arena).wiring() == old(arena).wiring().update(
            dust as int,
            old(arena).wiring()[dust as int].with_source(weight, source),
        ),
        final(arena).state() == old(arena).state(),
        final(arena).same_names(old(arena)),
{
    let mut nodes = arena.take();
    add_source_to(&mut nodes, dust, source, weight);
    arena.put(nodes);
    proof {
        lemma_with_source_well_formed(old(arena).wiring(), dust, source, weight);
    }
}

/// Whether `edge` may lock `repeater`.
pub fn can_lock(arena: &mut RedstoneArena, repeater: usize, edge: usize) -> (b: bool)
    ensures
        final(arena)@ == old(arena)@,
        b == may_lock(old(arena).wiring(), repeater, edge),
{
    let nodes = arena.take();
    let b = can_add_lock_to(&nodes, repeater, edge);
    arena.put(nodes);
    b
}

/// Appends `edge` to the neighbors that lock `repeater`.
pub fn lock(arena: &mut RedstoneArena, repeater: usize, edge: usize)
    requires
        old(arena).wf(),
        may_lock(old(arena).wiring(), repeater, edge),
    ensures
        final(arena).wf(),
        final(arena).wiring() == old(arena).wiring().update(
            repeater as int,
            old(arena).wiring()[repeater as int].with_lock(edge),
        ),
        final(arena).state() == old(arena).state(),
        final(arena).same_names(old(arena)),
{
    let mut nodes = arena.take();
    add_lock_to(&mut nodes, repeater, edge);
    arena.put(nodes);
    proof {
        lemma_with_lock_well_formed(old(arena).wiring(), repeater, edge);
    }
}

} // verus!
