//! The voxel world: a grid of cells from which a circuit is wired by
//! adjacency.

use vstd::prelude::*;
use std::collections::VecDeque;
use fnv::FnvHashMap;
use crate::arena::RedstoneArena;
use crate::redstate::{bounded, Redstate};
use crate::redstone::{Redstone, Wiring, states, wirings};
use crate::constraints::ConstraintGraph;
use crate::dispatch::Constraint;
use crate::solver::{SolveEvent, Solving};
use crate::plan::{apply_ops, ops_allowed, ops_applied};
use crate::circuit::well_formed;
use crate::plan::Op;
use crate::vec3::{Vec3, vec3_text};
use crate::walk::{
    collected, lemma_pending, lemma_unvisited_insert, lemma_well_formed_ranged, unvisited, walk,
    RedstoneIter,
};
use crate::voxels::{AirVoxel, DustVoxel, Facing, TorchVoxel, Voxel, kind_text};

verus! {

/// `fnv::FnvHasher`, the hasher of the maps of a world.
#[verifier::external_type_specification]
#[verifier::external_body]
pub struct ExFnvHasher(fnv::FnvHasher);

/// `std::hash::BuildHasherDefault`, which makes the hashers of an `fnv::FnvHashMap`.
#[verifier::external_type_specification]
#[verifier::external_body]
#[verifier::reject_recursive_types(H)]
pub struct ExBuildHasherDefault<H>(std::hash::BuildHasherDefault<H>);

/// `FnvHashMap::default`: a map without entries.
#[verifier::external_body]
fn fnv_map_new<V>() -> (map: FnvHashMap<u128, V>)
    ensures
        map@ == (Map::<u128, V>::empty()),
{
    FnvHashMap::default()
}

/// `HashMap::insert` on a map that hashes with FNV: the key is bound to
/// the value, whatever it was bound to before.
#[verifier::external_body]
fn fnv_map_insert<V>(map: &mut FnvHashMap<u128, V>, key: u128, value: V)
    ensures
        final(map)@ == old(map)@.insert(key, value),
{
    map.insert(key, value);
}

/// `HashMap::get` on a map that hashes with FNV: a copy of what the key
/// is bound to, if it is bound.
#[verifier::external_body]
fn fnv_map_get<V: Copy>(map: &FnvHashMap<u128, V>, key: u128) -> (value: Option<V>)
    ensures
        value == (if map@.contains_key(key) {
            Some(map@[key])
        } else {
            None
        }),
{
    map.get(&key).copied()
}

/// `HashMap::iter` on a map that hashes with FNV: every entry once, in
/// an order that is not specified.
#[verifier::external_body]
fn fnv_map_entries<V: Copy>(map: &FnvHashMap<u128, V>) -> (entries: Vec<(u128, V)>)
    ensures
        forall|i: int|
            0 <= i < entries@.len() ==> map@.contains_key((#[trigger] entries@[i]).0) && map@[entries@[i].0]
                == entries@[i].1,
        forall|k: u128| map@.contains_key(k) ==> exists|i: int| 0 <= i < entries@.len() && (#[trigger] entries@[i]).0 == k,
        forall|i: int, j: int| 0 <= i < j < entries@.len() ==> (#[trigger] entries@[i]).0 != (#[trigger] entries@[j]).0,
{
    map.iter().map(|(key, value)| (*key, *value)).collect()
}

/// The key under which the cell at a position is stored: the three
/// coordinates, each shifted to be non-negative, side by side.
pub open spec fn key_of(at: Vec3) -> u128 {
    ((at.0 + 0x8000_0000) * 0x1_0000_0000_0000_0000 + (at.1 + 0x8000_0000) * 0x1_0000_0000 + (at.2
        + 0x8000_0000)) as u128
}

/// The position that is stored under a key.
pub open spec fn vec3_of(key: u128) -> Vec3 {
    Vec3(
        ((key / 0x1_0000_0000_0000_0000) % 0x1_0000_0000 - 0x8000_0000) as i32,
        ((key / 0x1_0000_0000) % 0x1_0000_0000 - 0x8000_0000) as i32,
        (key % 0x1_0000_0000 - 0x8000_0000) as i32,
    )
}

/// A cell whose neighbors are looked at when the world is wired: a torch or a dust.
pub open spec fn looks_around(voxel: Voxel) -> bool {
    voxel is Torch || voxel is Dust
}

/// A position whose six neighbors exist: no coordinate is the least or
/// the greatest of its type.
pub open spec fn inside(at: Vec3) -> bool {
    &&& i32::MIN < at.0 < i32::MAX
    &&& i32::MIN < at.1 < i32::MAX
    &&& i32::MIN < at.2 < i32::MAX
}

/// Positions and keys correspond one to one.
pub proof fn lemma_key_of(at: Vec3)
    ensures
        vec3_of(key_of(at)) == at,
        key_of(at) == (at.0 + 0x8000_0000) * 0x1_0000_0000_0000_0000 + (at.1 + 0x8000_0000)
            * 0x1_0000_0000 + (at.2 + 0x8000_0000),
{
    let x = at.0 + 0x8000_0000;
    let y = at.1 + 0x8000_0000;
    let z = at.2 + 0x8000_0000;
    let k = x * 0x1_0000_0000_0000_0000 + y * 0x1_0000_0000 + z;
    vstd::arithmetic::div_mod::lemma_fundamental_div_mod_converse(
        k,
        0x1_0000_0000,
        x * 0x1_0000_0000 + y,
        z,
    );
    vstd::arithmetic::div_mod::lemma_fundamental_div_mod_converse(
        x * 0x1_0000_0000 + y,
        0x1_0000_0000,
        x,
        y,
    );
    vstd::arithmetic::div_mod::lemma_fundamental_div_mod_converse(
        k,
        0x1_0000_0000_0000_0000,
        x,
        y * 0x1_0000_0000 + z,
    );
    vstd::arithmetic::div_mod::lemma_fundamental_div_mod_converse(x, 0x1_0000_0000, 0, x);
}

/// The key of a position.
pub fn key(at: Vec3) -> (k: u128)
    ensures
        k == key_of(at),
{
    let x = (at.0 as i64 + 0x8000_0000) as u128;
    let y = (at.1 as i64 + 0x8000_0000) as u128;
    let z = (at.2 as i64 + 0x8000_0000) as u128;
    x * 0x1_0000_0000_0000_0000 + y * 0x1_0000_0000 + z
}

/// The position of a key.
pub fn position(k: u128) -> (at: Vec3)
    ensures
        at == vec3_of(k),
{
    let x = (k / 0x1_0000_0000_0000_0000) % 0x1_0000_0000;
    let y = (k / 0x1_0000_0000) % 0x1_0000_0000;
    let z = k % 0x1_0000_0000;
    Vec3(
        (x as i64 - 0x8000_0000) as i32,
        (y as i64 - 0x8000_0000) as i32,
        (z as i64 - 0x8000_0000) as i32,
    )
}

/// The connections of the node that is made for a cell: those of a
/// block for a stone, of a torch for a torch and of a dust for a dust, all
/// of them wired to nothing.
pub open spec fn fresh_wiring(voxel: Voxel) -> Wiring {
    match voxel {
        Voxel::Torch(_) => Wiring::Torch { incoming: None, outgoing: Seq::empty() },
        Voxel::Dust(_) => Wiring::Dust { neighbors: Seq::empty(), sources: Seq::empty() },
        _ => Wiring::Block { incoming: Seq::empty(), outgoing: Seq::empty() },
    }
}

/// The cells of a world and the nodes that were made for them, both
/// by the key of the position.
pub struct Grid {
    pub cells: Map<u128, Voxel>,
    pub nodes: Map<u128, usize>,
}

impl Grid {
    /// The cell at a position: air where none was set.
    pub open spec fn voxel_at(self, at: Vec3) -> Voxel {
        if self.cells.contains_key(key_of(at)) {
            self.cells[key_of(at)]
        } else {
            Voxel::Air(AirVoxel)
        }
    }

    /// The node that was made for the cell at a position.
    pub open spec fn node_at(self, at: Vec3) -> Option<usize> {
        if self.nodes.contains_key(key_of(at)) {
            Some(self.nodes[key_of(at)])
        } else {
            None
        }
    }

    /// Every cell is stored under the key of its position, every torch
    /// and every dust is at a position whose neighbors exist, every node
    /// is one of the first `n` nodes, and no two cells share a node.
    pub open spec fn fits(self, n: nat) -> bool {
        &&& forall|k: u128| #[trigger]
            self.cells.contains_key(k) ==> key_of(vec3_of(k)) == k && (looks_around(self.cells[k])
                ==> inside(vec3_of(k)))
        &&& forall|k: u128| #[trigger] self.nodes.contains_key(k) ==> self.nodes[k] < n
        &&& forall|j: u128, k: u128|
            self.nodes.contains_key(j) && self.nodes.contains_key(k) && j != k ==> #[trigger] self.nodes[j]
                != #[trigger] self.nodes[k]
    }

    /// Every cell that is not air has a node.
    pub open spec fn complete(self) -> bool {
        forall|k: u128| #[trigger]
            self.cells.contains_key(k) && !(self.cells[k] is Air) ==> self.nodes.contains_key(k)
    }
}

/// `entries` lists every cell of `cells` once.
pub open spec fn lists(cells: Map<u128, Voxel>, entries: Seq<(u128, Voxel)>) -> bool {
    &&& forall|i: int|
        0 <= i < entries.len() ==> cells.contains_key((#[trigger] entries[i]).0) && cells[entries[i].0]
            == entries[i].1
    &&& forall|k: u128|
        cells.contains_key(k) ==> exists|i: int| 0 <= i < entries.len() && (#[trigger] entries[i]).0 == k
    &&& forall|i: int, j: int|
        0 <= i < j < entries.len() ==> (#[trigger] entries[i]).0 != (#[trigger] entries[j]).0
}

/// A cell for which a node is yet to be made.
pub open spec fn is_fresh(grid: Grid, entry: (u128, Voxel)) -> bool {
    !(entry.1 is Air) && !grid.nodes.contains_key(entry.0)
}

/// The cells among `entries` for which a node is yet to be made, in order.
pub open spec fn fresh(grid: Grid, entries: Seq<(u128, Voxel)>) -> Seq<(u128, Voxel)>
    decreases entries.len(),
{
    if entries.len() == 0 {
        Seq::empty()
    } else if is_fresh(grid, entries.last()) {
        fresh(grid, entries.drop_last()).push(entries.last())
    } else {
        fresh(grid, entries.drop_last())
    }
}

/// The nodes of `grid` and one more node for each of `made`, numbered from `base`.
pub open spec fn with_nodes(nodes: Map<u128, usize>, base: nat, made: Seq<(u128, Voxel)>) -> Map<
    u128,
    usize,
>
    decreases made.len(),
{
    if made.len() == 0 {
        nodes
    } else {
        with_nodes(nodes, base, made.drop_last()).insert(
            made.last().0,
            (base + made.len() - 1) as usize,
        )
    }
}

/// A grid of cells and the circuit that is made of it.
pub struct World {
    redstone_arena: RedstoneArena,
    voxels: FnvHashMap<u128, Voxel>,
    redstones: FnvHashMap<u128, usize>,
}

impl World {
    /// The arena with the nodes that were made for cells.
    pub closed spec fn arena(&self) -> RedstoneArena {
        self.redstone_arena
    }

    /// The cells that were set and the nodes that were made for them.
    pub closed spec fn grid(&self) -> Grid {
        Grid { cells: self.voxels@, nodes: self.redstones@ }
    }

    /// The nodes form a circuit, and the grid goes with it.
    pub open spec fn wf(&self) -> bool {
        &&& self.arena().wf()
        &&& self.grid().fits(self.arena()@.len())
    }

    /// A world of air.
    pub fn new() -> (world: World)
        ensures
            world.wf(),
            world.grid().cells == Map::<u128, Voxel>::empty(),
            world.grid().nodes == Map::<u128, usize>::empty(),
            world.arena()@.len() == 0,
    {
        World { redstone_arena: RedstoneArena::new(), voxels: fnv_map_new(), redstones: fnv_map_new() }
    }

    /// The cell at a position.
    pub fn voxel(&self, at: Vec3) -> (voxel: Voxel)
        ensures
            voxel == self.grid().voxel_at(at),
    {
        match fnv_map_get(&self.voxels, key(at)) {
            Some(voxel) => voxel,
            None => Voxel::air().voxel(),
        }
    }

    /// The node that was made for the cell at a position.
    pub fn node(&self, at: Vec3) -> (node: Option<usize>)
        ensures
            node == self.grid().node_at(at),
    {
        fnv_map_get(&self.redstones, key(at))
    }

    /// Sets the cell at a position.  A torch or a dust needs a position
    /// whose neighbors exist.
    pub fn set(&mut self, at: Vec3, voxel: Voxel)
        requires
            old(self).wf(),
            looks_around(voxel) ==> inside(at),
        ensures
            final(self).wf(),
            final(self).grid().cells == old(self).grid().cells.insert(key_of(at), voxel),
            final(self).grid().nodes == old(self).grid().nodes,
            final(self).arena() == old(self).arena(),
            final(self).grid().voxel_at(at) == voxel,
    {
        proof {
            lemma_key_of(at);
        }
        fnv_map_insert(&mut self.voxels, key(at), voxel);
        assert forall|k: u128| #[trigger] self.grid().cells.contains_key(k) implies key_of(vec3_of(k))
            == k && (looks_around(self.grid().cells[k]) ==> inside(vec3_of(k))) by {
            if k != key_of(at) {
                assert(old(self).grid().cells.contains_key(k));
            }
        }
        assert(self.arena() == old(self).arena());
        assert(self.grid().nodes == old(self).grid().nodes);
    }

    /// The node of the cell at a position.  The first time that it is
    /// asked for, a node is made: a block for a stone, a torch for a torch,
    /// a dust for a dust, named after the cell and its position.  Air has
    /// no node.
    pub fn get(&mut self, at: Vec3) -> (node: Option<usize>)
        requires
            old(self).wf(),
        ensures
            final(self).wf(),
            final(self).grid().cells == old(self).grid().cells,
            match old(self).grid().node_at(at) {
                Some(id) => node == Some(id) && final(self).grid() == old(self).grid() && final(self).arena()
                    == old(self).arena(),
                None => if old(self).grid().voxel_at(at) is Air {
                    &&& node is None
                    &&& final(self).grid() == old(self).grid()
                    &&& final(self).arena() == old(self).arena()
                } else {
                    let id = node.unwrap();
                    &&& node is Some
                    &&& id == old(self).arena()@.len()
                    &&& final(self).grid().nodes == old(self).grid().nodes.insert(key_of(at), id)
                    &&& final(self).arena().wiring() == old(self).arena().wiring().push(
                        fresh_wiring(old(self).grid().voxel_at(at)),
                    )
                    &&& final(self).arena().state() == old(self).arena().state().push(
                        Redstate::no_signal(),
                    )
                    &&& final(self).arena()@[id as int].label() == kind_text(
                        old(self).grid().voxel_at(at),
                    ) + vec3_text(at)
                    &&& forall|i: int|
                        0 <= i < old(self).arena()@.len() ==> final(self).arena()@[i] == old(self).arena()@[i]
                },
            },
    {
        let k = key(at);
        if let Some(id) = fnv_map_get(&self.redstones, k) {
            return Some(id);
        }
        let voxel = self.voxel(at);
        let name = voxel.get_name(at);
        let id = match voxel {
            Voxel::Air(_) => {
                return None;
            },
            Voxel::Stone(_) => self.redstone_arena.make_block(name.as_str()),
            Voxel::Torch(_) => self.redstone_arena.make_torch(name.as_str()),
            Voxel::Dust(_) => self.redstone_arena.make_dust(name.as_str()),
        };
        fnv_map_insert(&mut self.redstones, k, id);
        assert(self.grid().cells == old(self).grid().cells);
        assert forall|j: u128, q: u128|
            self.grid().nodes.contains_key(j) && self.grid().nodes.contains_key(q) && j
                != q implies #[trigger] self.grid().nodes[j] != #[trigger] self.grid().nodes[q] by {
            if j != k {
                assert(old(self).grid().nodes.contains_key(j));
            }
            if q != k {
                assert(old(self).grid().nodes.contains_key(q));
            }
        }
        assert forall|j: u128| #[trigger] self.grid().nodes.contains_key(j) implies self.grid().nodes[j]
            < self.arena()@.len() by {
            if j != k {
                assert(old(self).grid().nodes.contains_key(j));
            }
        }
        Some(id)
    }
}

/// The connections of the nodes that are made for `made`, in order.
pub open spec fn wires(made: Seq<(u128, Voxel)>) -> Seq<Wiring> {
    Seq::new(made.len(), |j: int| fresh_wiring(made[j].1))
}

/// As many states of nodes that were just made.
pub open spec fn blanks(n: nat) -> Seq<Redstate> {
    Seq::new(n, |j: int| Redstate::no_signal())
}

/// The fresh cells are among the entries, and every fresh entry is among them.
pub proof fn lemma_fresh(grid: Grid, entries: Seq<(u128, Voxel)>)
    ensures
        forall|j: int|
            0 <= j < fresh(grid, entries).len() ==> entries.contains(#[trigger] fresh(grid, entries)[j])
                && is_fresh(grid, fresh(grid, entries)[j]),
        forall|i: int|
            0 <= i < entries.len() && is_fresh(grid, #[trigger] entries[i]) ==> fresh(
                grid,
                entries,
            ).contains(entries[i]),
    decreases entries.len(),
{
    if entries.len() > 0 {
        let front = entries.drop_last();
        lemma_fresh(grid, front);
        let f = fresh(grid, entries);
        assert forall|j: int| 0 <= j < f.len() implies entries.contains(#[trigger] f[j]) && is_fresh(
            grid,
            f[j],
        ) by {
            if j < fresh(grid, front).len() {
                assert(f[j] == fresh(grid, front)[j]);
                let i = choose|i: int| 0 <= i < front.len() && front[i] == f[j];
                assert(entries[i] == f[j]);
            } else {
                assert(entries[entries.len() - 1] == f[j]);
            }
        }
        assert forall|i: int| 0 <= i < entries.len() && is_fresh(grid, #[trigger] entries[i]) implies f.contains(
            entries[i],
        ) by {
            if i < front.len() {
                assert(front[i] == entries[i]);
                assert(fresh(grid, front).contains(front[i]));
                let j = choose|j: int|
                    0 <= j < fresh(grid, front).len() && fresh(grid, front)[j] == front[i];
                assert(f[j] == entries[i]);
            } else {
                assert(f[f.len() - 1] == entries[i]);
            }
        }
    }
}

/// The keys with a node are those that had one and those of `made`.
pub proof fn lemma_with_nodes(nodes: Map<u128, usize>, base: nat, made: Seq<(u128, Voxel)>)
    ensures
        forall|k: u128| #[trigger]
            with_nodes(nodes, base, made).contains_key(k) <==> nodes.contains_key(k) || exists|j: int|
                0 <= j < made.len() && (#[trigger] made[j]).0 == k,
        forall|k: u128|
            nodes.contains_key(k) && !(exists|j: int| 0 <= j < made.len() && (#[trigger] made[j]).0 == k)
                ==> #[trigger] with_nodes(nodes, base, made)[k] == nodes[k],
    decreases made.len(),
{
    if made.len() > 0 {
        let front = made.drop_last();
        lemma_with_nodes(nodes, base, front);
        let m = with_nodes(nodes, base, made);
        let w = with_nodes(nodes, base, front);
        assert forall|k: u128| #[trigger]
            m.contains_key(k) <==> nodes.contains_key(k) || exists|j: int|
                0 <= j < made.len() && (#[trigger] made[j]).0 == k by {
            let listed = exists|j: int| 0 <= j < made.len() && (#[trigger] made[j]).0 == k;
            let listed_before = exists|j: int| 0 <= j < front.len() && (#[trigger] front[j]).0 == k;
            assert(w.contains_key(k) <==> nodes.contains_key(k) || listed_before);
            assert(m.contains_key(k) <==> k == made.last().0 || w.contains_key(k));
            if listed_before {
                let j = choose|j: int| 0 <= j < front.len() && (#[trigger] front[j]).0 == k;
                assert(made[j].0 == k);
            }
            if k == made.last().0 {
                assert(made[made.len() - 1].0 == k);
            }
            if listed {
                let j = choose|j: int| 0 <= j < made.len() && (#[trigger] made[j]).0 == k;
                if j < front.len() {
                    assert(front[j].0 == k);
                }
            }
        }
        assert forall|k: u128|
            nodes.contains_key(k) && !(exists|j: int| 0 <= j < made.len() && (#[trigger] made[j]).0 == k)
                implies #[trigger] m[k] == nodes[k] by {
            assert(made[made.len() - 1].0 != k);
            assert forall|j: int| 0 <= j < front.len() implies (#[trigger] front[j]).0 != k by {
                assert(made[j].0 != k);
            }
            assert(!(exists|j: int| 0 <= j < front.len() && (#[trigger] front[j]).0 == k));
            assert(with_nodes(nodes, base, front)[k] == nodes[k]);
        }
    }
}

impl World {
    /// Makes a node for every cell of `entries` that is not air and has none
    /// yet, in the order of `entries`.
    pub fn materialize(&mut self, entries: &Vec<(u128, Voxel)>)
        requires
            old(self).wf(),
            lists(old(self).grid().cells, entries@),
        ensures
            final(self).wf(),
            final(self).grid().complete(),
            final(self).grid().cells == old(self).grid().cells,
            ({
                let made = fresh(old(self).grid(), entries@);
                &&& final(self).grid().nodes == with_nodes(
                    old(self).grid().nodes,
                    old(self).arena()@.len(),
                    made,
                )
                &&& final(self).arena().wiring() == old(self).arena().wiring() + wires(made)
                &&& final(self).arena().state() == old(self).arena().state() + blanks(made.len())
                &&& forall|i: int|
                    0 <= i < old(self).arena()@.len() ==> final(self).arena()@[i] == old(self).arena()@[i]
                &&& forall|j: int|
                    0 <= j < made.len() ==> (#[trigger] final(self).arena()@[old(self).arena()@.len() + j]).label()
                        == kind_text(made[j].1) + vec3_text(vec3_of(made[j].0))
            }),
    {
        let ghost grid0 = self.grid();
        let ghost base = self.arena()@.len();
        let mut i: usize = 0;
        while i < entries.len()
            invariant
                i <= entries.len(),
                self.wf(),
                grid0 == old(self).grid(),
                base == old(self).arena()@.len(),
                lists(grid0.cells, entries@),
                grid0.fits(base),
                self.grid().cells == grid0.cells,
                ({
                    let made = fresh(grid0, entries@.take(i as int));
                    &&& self.arena()@.len() == base + made.len()
                    &&& self.grid().nodes == with_nodes(grid0.nodes, base, made)
                    &&& self.arena().wiring() == old(self).arena().wiring() + wires(made)
                    &&& self.arena().state() == old(self).arena().state() + blanks(made.len())
                    &&& forall|q: int| 0 <= q < base ==> self.arena()@[q] == old(self).arena()@[q]
                    &&& forall|j: int|
                        0 <= j < made.len() ==> (#[trigger] self.arena()@[base + j]).label() == kind_text(
                            made[j].1,
                        ) + vec3_text(vec3_of(made[j].0))
                }),
            decreases entries.len() - i,
        {
            let (k, voxel) = entries[i];
            let ghost made = fresh(grid0, entries@.take(i as int));
            let ghost before = self.arena()@;
            proof {
                assert(entries@.take(i + 1).drop_last() == entries@.take(i as int));
                assert(entries@.take(i + 1).last() == entries@[i as int]);
                lemma_with_nodes(grid0.nodes, base, made);
                lemma_fresh(grid0, entries@.take(i as int));
                assert(grid0.cells.contains_key(entries@[i as int].0));
                // the key has a node now exactly if it had one at the start
                if exists|j: int| 0 <= j < made.len() && (#[trigger] made[j]).0 == k {
                    let j = choose|j: int| 0 <= j < made.len() && (#[trigger] made[j]).0 == k;
                    assert(entries@.take(i as int).contains(made[j]));
                    let q = choose|q: int| 0 <= q < i && entries@.take(i as int)[q] == made[j];
                    assert(entries@[q].0 == entries@[i as int].0);
                    assert(false);
                }
            }
            let at = position(k);
            let node = self.get(at);
            proof {
                let now = fresh(grid0, entries@.take(i + 1));
                assert(before.len() == base + made.len());
                assert(self.arena().wiring().len() == self.arena()@.len());
                assert(old(self).arena().wiring().len() == base);
                assert(wires(made).len() == made.len());
                if is_fresh(grid0, entries@[i as int]) {
                    assert(self.arena()@.len() == before.len() + 1);
                    assert(key_of(at) == k);
                    assert(grid0.voxel_at(at) == voxel);
                    assert(now[made.len() as int] == entries@[i as int]);
                    assert(now == made.push(entries@[i as int]));
                    assert(now.drop_last() == made);
                    assert(wires(now) == wires(made).push(fresh_wiring(voxel)));
                    assert(blanks(now.len()) == blanks(made.len()).push(Redstate::no_signal()));
                    assert(self.arena().wiring() == old(self).arena().wiring() + wires(now));
                    assert(self.arena().state() == old(self).arena().state() + blanks(now.len()));
                    assert forall|j: int| 0 <= j < now.len() implies (#[trigger] self.arena()@[base
                        + j]).label() == kind_text(now[j].1) + vec3_text(vec3_of(now[j].0)) by {
                        if j < made.len() {
                            assert(self.arena()@[base + j] == before[base + j]);
                        }
                    }
                } else {
                    assert(now == made);
                }
            }
            i += 1;
        }
        proof {
            assert(entries@.take(entries.len() as int) == entries@);
            let made = fresh(grid0, entries@);
            lemma_with_nodes(grid0.nodes, base, made);
            lemma_fresh(grid0, entries@);
            assert forall|k: u128| #[trigger]
                self.grid().cells.contains_key(k) && !(self.grid().cells[k] is Air) implies self.grid().nodes.contains_key(
                k,
            ) by {
                let i = choose|i: int| 0 <= i < entries@.len() && (#[trigger] entries@[i]).0 == k;
                if is_fresh(grid0, entries@[i]) {
                    assert(made.contains(entries@[i]));
                    let j = choose|j: int| 0 <= j < made.len() && made[j] == entries@[i];
                    assert(made[j].0 == k);
                }
            }
        }
    }
}

/// A cell with its position and the node that was made for it.
#[derive(Clone, Copy, Debug)]
pub struct VoxelCtxt {
    pub vec3: Vec3,
    pub voxel: Voxel,
    pub redstone: Option<usize>,
}

/// Six values, one for each neighbor of a position: above, below, to the
/// west, to the east, to the north and to the south.
#[derive(Clone, Copy, Debug)]
pub struct Neighbors<T: Copy> {
    pub components: [T; 6],
}

impl<T: Copy> Neighbors<T> {
    pub fn new(up: T, down: T, left: T, right: T, front: T, back: T) -> (n: Neighbors<T>)
        ensures
            n.components@ == seq![up, down, left, right, front, back],
    {
        Neighbors::from_components([up, down, left, right, front, back])
    }

    pub fn from_components(components: [T; 6]) -> (n: Neighbors<T>)
        ensures
            n.components == components,
    {
        Neighbors { components }
    }

    pub fn up(&self) -> (v: &T)
        ensures
            *v == self.components@[0],
    {
        &self.components[0]
    }

    pub fn down(&self) -> (v: &T)
        ensures
            *v == self.components@[1],
    {
        &self.components[1]
    }

    pub fn left(&self) -> (v: &T)
        ensures
            *v == self.components@[2],
    {
        &self.components[2]
    }

    pub fn right(&self) -> (v: &T)
        ensures
            *v == self.components@[3],
    {
        &self.components[3]
    }

    pub fn front(&self) -> (v: &T)
        ensures
            *v == self.components@[4],
    {
        &self.components[4]
    }

    pub fn back(&self) -> (v: &T)
        ensures
            *v == self.components@[5],
    {
        &self.components[5]
    }
}

/// The six neighbors of a position, in the order of [`Neighbors`].
pub open spec fn around(at: Vec3) -> Seq<Vec3> {
    seq![
        Vec3(at.0, (at.1 + 1) as i32, at.2),
        Vec3(at.0, (at.1 - 1) as i32, at.2),
        Vec3((at.0 - 1) as i32, at.1, at.2),
        Vec3((at.0 + 1) as i32, at.1, at.2),
        Vec3(at.0, at.1, (at.2 - 1) as i32),
        Vec3(at.0, at.1, (at.2 + 1) as i32),
    ]
}

/// The position of the block on which a torch is placed: below it, or on
/// the side that it is facing.
pub open spec fn placed_on(at: Vec3, torch: TorchVoxel) -> Vec3 {
    match torch.facing {
        Some(Facing::North) => Vec3(at.0, at.1, (at.2 - 1) as i32),
        Some(Facing::East) => Vec3((at.0 + 1) as i32, at.1, at.2),
        Some(Facing::West) => Vec3((at.0 - 1) as i32, at.1, at.2),
        Some(Facing::South) => Vec3(at.0, at.1, (at.2 + 1) as i32),
        None => Vec3(at.0, (at.1 - 1) as i32, at.2),
    }
}

/// A torch links to a dust, and to the stone right below it, but never
/// to the block on which it is placed.
pub open spec fn torch_links_to(at: Vec3, torch: TorchVoxel, other_at: Vec3, other: Voxel) -> bool {
    &&& other_at != placed_on(at, torch)
    &&& other is Dust || (other is Stone && at.1 - other_at.1 == 1)
}

/// A dust links to a dust right next to it.
pub open spec fn dust_links_to(at: Vec3, other_at: Vec3, other: Voxel) -> bool {
    &&& other is Dust
    &&& {
        let dx = if at.0 < other_at.0 { other_at.0 - at.0 } else { at.0 - other_at.0 };
        let dy = if at.1 < other_at.1 { other_at.1 - at.1 } else { at.1 - other_at.1 };
        let dz = if at.2 < other_at.2 { other_at.2 - at.2 } else { at.2 - other_at.2 };
        dx + dy + dz == 1
    }
}

/// The six neighbors of a position.
pub fn vec3_neighbors(vec3: Vec3) -> (n: Neighbors<Vec3>)
    requires
        inside(vec3),
    ensures
        n.components@ == around(vec3),
{
    Neighbors::new(vec3.up(), vec3.down(), vec3.west(), vec3.east(), vec3.north(), vec3.south())
}

/// Whether a torch links to the cell `other`.
pub fn is_linkable_from_torch(torch: (Vec3, &TorchVoxel), other: (Vec3, &Voxel)) -> (b: bool)
    requires
        inside(torch.0),
        torch.0.can_minus(other.0),
    ensures
        b == torch_links_to(torch.0, *torch.1, other.0, *other.1),
{
    let placed_on_vec3 = match &torch.1.facing {
        Some(Facing::North) => torch.0.north(),
        Some(Facing::East) => torch.0.east(),
        Some(Facing::West) => torch.0.west(),
        Some(Facing::South) => torch.0.south(),
        None => torch.0.down(),
    };
    // The torch is never linked to the voxel on which it is placed.
    if other.0 == placed_on_vec3 {
        return false;
    }
    let diff = torch.0 - other.0;
    match other.1 {
        Voxel::Air(_) => false,
        Voxel::Stone(_) => diff.y() == 1,
        Voxel::Torch(_) => false,
        Voxel::Dust(_) => true,
    }
}

/// Whether a dust links to the cell `other`, which is another cell.
pub fn is_linkable_from_dust(dust: (Vec3, &DustVoxel), other: (Vec3, &Voxel)) -> (b: bool)
    requires
        dust.0 != other.0,
        dust.0.can_minus(other.0),
        inside(dust.0.minus(other.0)),
    ensures
        b == dust_links_to(dust.0, other.0, *other.1),
{
    let diff = (dust.0 - other.0).abs();
    if !other.1.is_dust() {
        return false;
    }
    (diff.x() == 0 && diff.y() == 0 && diff.z() == 1) || (diff.x() == 0 && diff.y() == 1 && diff.z()
        == 0) || (diff.x() == 1 && diff.y() == 0 && diff.z() == 0)
}

/// Why a world could not be run.
#[derive(Clone, Copy, Debug, PartialEq, Eq, Structural)]
pub enum WorldError {
    /// The dust at this position is not placed on a stone.
    DustNotOnStone(Vec3),
    /// This step of the wiring was refused: a slot was taken, a cap was
    /// reached or a node was of the wrong kind.
    Refused(Op),
    /// The solver used up its steps.
    NonConvergent,
}

/// The position below a position.
pub open spec fn below(at: Vec3) -> Vec3 {
    Vec3(at.0, (at.1 - 1) as i32, at.2)
}

/// A link from `me` to the node of the cell at a position, if it is
/// wanted and there is such a node.
pub open spec fn link_to(grid: Grid, me: usize, at: Vec3, wanted: bool) -> Seq<Op> {
    if wanted && grid.node_at(at) is Some {
        seq![Op::Link { here: me, there: grid.node_at(at).unwrap() }]
    } else {
        Seq::empty()
    }
}

/// The links from a torch to the first `count` of its neighbors.
pub open spec fn torch_ops(grid: Grid, at: Vec3, torch: TorchVoxel, me: usize, count: nat) -> Seq<Op>
    decreases count,
{
    if count == 0 {
        Seq::empty()
    } else {
        let other = around(at)[count - 1];
        torch_ops(grid, at, torch, me, (count - 1) as nat) + link_to(
            grid,
            me,
            other,
            torch_links_to(at, torch, other, grid.voxel_at(other)),
        )
    }
}

/// The links from a dust to the dusts among the first `count` of its neighbors.
pub open spec fn dust_ops(grid: Grid, at: Vec3, me: usize, count: nat) -> Seq<Op>
    decreases count,
{
    if count == 0 {
        Seq::empty()
    } else {
        let other = around(at)[count - 1];
        dust_ops(grid, at, me, (count - 1) as nat) + link_to(
            grid,
            me,
            other,
            dust_links_to(at, other, grid.voxel_at(other)),
        )
    }
}

/// The links that are made for a torch at a position: one to each
/// neighbor that the torch links to.
pub open spec fn torch_plan(grid: Grid, at: Vec3, torch: TorchVoxel) -> Seq<Op> {
    match grid.node_at(at) {
        Some(me) => torch_ops(grid, at, torch, me, 6),
        None => Seq::empty(),
    }
}

/// The links that are made for a dust at a position: one to the stone
/// below it, then one to each dust next to it.
pub open spec fn dust_plan(grid: Grid, at: Vec3) -> Seq<Op> {
    match grid.node_at(at) {
        Some(me) => link_to(grid, me, below(at), true) + dust_ops(grid, at, me, 6),
        None => Seq::empty(),
    }
}

/// The links that are made for a cell.
pub open spec fn cell_plan(grid: Grid, entry: (u128, Voxel)) -> Seq<Op> {
    match entry.1 {
        Voxel::Torch(torch) => torch_plan(grid, vec3_of(entry.0), torch),
        Voxel::Dust(_) => dust_plan(grid, vec3_of(entry.0)),
        _ => Seq::empty(),
    }
}

/// A dust is placed on a stone; nothing is asked of other cells.
pub open spec fn grounded(grid: Grid, entry: (u128, Voxel)) -> bool {
    entry.1 is Dust ==> grid.voxel_at(below(vec3_of(entry.0))) is Stone
}

/// The links that are made for the cells of `entries`, in order.
pub open spec fn links_plan(grid: Grid, entries: Seq<(u128, Voxel)>) -> Seq<Op>
    decreases entries.len(),
{
    if entries.len() == 0 {
        Seq::empty()
    } else {
        links_plan(grid, entries.drop_last()) + cell_plan(grid, entries.last())
    }
}

impl World {
    /// The cell at a position with its node.
    pub fn ctxt(&self, vec3: Vec3) -> (c: VoxelCtxt)
        ensures
            c.vec3 == vec3,
            c.voxel == self.grid().voxel_at(vec3),
            c.redstone == self.grid().node_at(vec3),
    {
        VoxelCtxt { vec3, voxel: self.voxel(vec3), redstone: self.node(vec3) }
    }

    /// The six cells around a position.
    pub fn neighbors(&self, vec3: Vec3) -> (n: Neighbors<VoxelCtxt>)
        requires
            inside(vec3),
        ensures
            forall|i: int|
                0 <= i < 6 ==> {
                    let c = #[trigger] n.components@[i];
                    &&& c.vec3 == around(vec3)[i]
                    &&& c.voxel == self.grid().voxel_at(around(vec3)[i])
                    &&& c.redstone == self.grid().node_at(around(vec3)[i])
                },
    {
        let around = vec3_neighbors(vec3);
        Neighbors::new(
            self.ctxt(*around.up()),
            self.ctxt(*around.down()),
            self.ctxt(*around.left()),
            self.ctxt(*around.right()),
            self.ctxt(*around.front()),
            self.ctxt(*around.back()),
        )
    }

    /// Plans the links of the torch at `vec3`: one to each neighbor that
    /// the torch links to and that has a node.
    pub fn visit_torch_voxel(&self, vec3: Vec3, torch: &TorchVoxel, ops: &mut Vec<Op>)
        requires
            inside(vec3),
        ensures
            final(ops)@ == old(ops)@ + torch_plan(self.grid(), vec3, *torch),
    {
        let redstone = match self.node(vec3) {
            Some(redstone) => redstone,
            None => {
                assert(ops@ + Seq::<Op>::empty() == ops@);
                return ;
            },
        };
        let neighbors = self.neighbors(vec3);
        let mut i: usize = 0;
        assert(ops@ + Seq::<Op>::empty() == ops@);
        while i < 6
            invariant
                i <= 6,
                inside(vec3),
                forall|j: int|
                    0 <= j < 6 ==> {
                        let c = #[trigger] neighbors.components@[j];
                        &&& c.vec3 == around(vec3)[j]
                        &&& c.voxel == self.grid().voxel_at(around(vec3)[j])
                        &&& c.redstone == self.grid().node_at(around(vec3)[j])
                    },
                ops@ == old(ops)@ + torch_ops(self.grid(), vec3, *torch, redstone, i as nat),
            decreases 6 - i,
        {
            let n = neighbors.components[i];
            assert(n == neighbors.components@[i as int]);
            let ghost before = ops@;
            if is_linkable_from_torch((vec3, torch), (n.vec3, &n.voxel)) {
                if let Some(target) = n.redstone {
                    ops.push(Op::Link { here: redstone, there: target });
                }
            }
            i += 1;
            proof {
                let step = link_to(
                    self.grid(),
                    redstone,
                    around(vec3)[i - 1],
                    torch_links_to(vec3, *torch, around(vec3)[i - 1], self.grid().voxel_at(around(vec3)[i - 1])),
                );
                assert(ops@ == before + step);
                assert(old(ops)@ + torch_ops(self.grid(), vec3, *torch, redstone, i as nat) == (old(ops)@
                    + torch_ops(self.grid(), vec3, *torch, redstone, (i - 1) as nat)) + step);
            }
        }
    }

    /// Plans the links of the dust at `vec3`, which must be placed on a
    /// stone: one to the stone, then one to each dust next to it.
    pub fn visit_dust_voxel(&self, vec3: Vec3, dust: &DustVoxel, ops: &mut Vec<Op>) -> (r: Result<
        (),
        WorldError,
    >)
        requires
            inside(vec3),
        ensures
            r is Ok <==> self.grid().voxel_at(below(vec3)) is Stone,
            r is Ok ==> final(ops)@ == old(ops)@ + dust_plan(self.grid(), vec3),
            r is Err ==> r == Err::<(), WorldError>(WorldError::DustNotOnStone(vec3)) && final(ops)@ == old(ops)@,
    {
        let neighbors = self.neighbors(vec3);
        assert(neighbors.components@[1].vec3 == below(vec3));
        // A dust must be placed on a stone at all times.
        if !neighbors.down().voxel.is_stone() {
            return Err(WorldError::DustNotOnStone(vec3));
        }
        let redstone = match self.node(vec3) {
            Some(redstone) => redstone,
            None => {
                assert(ops@ + Seq::<Op>::empty() == ops@);
                return Ok(());
            },
        };
        if let Some(target) = neighbors.down().redstone {
            ops.push(Op::Link { here: redstone, there: target });
        }
        let ghost base = ops@;
        assert(base == old(ops)@ + link_to(self.grid(), redstone, below(vec3), true));
        assert(base + Seq::<Op>::empty() == base);
        let mut i: usize = 0;
        while i < 6
            invariant
                i <= 6,
                inside(vec3),
                forall|j: int|
                    0 <= j < 6 ==> {
                        let c = #[trigger] neighbors.components@[j];
                        &&& c.vec3 == around(vec3)[j]
                        &&& c.voxel == self.grid().voxel_at(around(vec3)[j])
                        &&& c.redstone == self.grid().node_at(around(vec3)[j])
                    },
                ops@ == base + dust_ops(self.grid(), vec3, redstone, i as nat),
            decreases 6 - i,
        {
            let n = neighbors.components[i];
            assert(n == neighbors.components@[i as int]);
            let ghost before = ops@;
            if is_linkable_from_dust((vec3, dust), (n.vec3, &n.voxel)) {
                if let Some(target) = n.redstone {
                    ops.push(Op::Link { here: redstone, there: target });
                }
            }
            i += 1;
            proof {
                let step = link_to(
                    self.grid(),
                    redstone,
                    around(vec3)[i - 1],
                    dust_links_to(vec3, around(vec3)[i - 1], self.grid().voxel_at(around(vec3)[i - 1])),
                );
                assert(ops@ == before + step);
                assert(base + dust_ops(self.grid(), vec3, redstone, i as nat) == (base + dust_ops(
                    self.grid(),
                    vec3,
                    redstone,
                    (i - 1) as nat,
                )) + step);
            }
        }
        assert(ops@ == old(ops)@ + dust_plan(self.grid(), vec3));
        Ok(())
    }
}

/// The six neighbors of a position, each with a weight of one more,
/// unless there is no such weight.
pub open spec fn ring(weight: u8, at: Vec3) -> Seq<(u8, Vec3)> {
    if weight < 255 {
        Seq::new(6, |i: int| ((weight + 1) as u8, around(at)[i]))
    } else {
        Seq::empty()
    }
}

/// Every node of the grid is one of the first `n` nodes.
pub open spec fn nodes_below(grid: Grid, n: nat) -> bool {
    forall|k: u128| #[trigger] grid.nodes.contains_key(k) ==> grid.nodes[k] < n
}

/// The weighted sources that are found for the dust `dust` by spreading
/// out from the positions of the queue, breadth first, across dusts.  A
/// dust passes the search on to its neighbors with a weight of one more.
/// A stone or a torch becomes a source with the weight that it was reached
/// with.  Air and cells that were reached before are passed over.
pub open spec fn spread(grid: Grid, n: nat, dust: usize, queue: Seq<(u8, Vec3)>, visited: Set<usize>) -> Seq<
    Op,
>
    decreases unvisited(n, visited), queue.len(),
    when nodes_below(grid, n)
    via spread_decreases
{
    if queue.len() == 0 {
        Seq::empty()
    } else {
        let weight = queue[0].0;
        let at = queue[0].1;
        let rest = queue.subrange(1, queue.len() as int);
        if grid.voxel_at(at) is Air || grid.node_at(at) is None || visited.contains(
            grid.node_at(at).unwrap(),
        ) {
            spread(grid, n, dust, rest, visited)
        } else if grid.voxel_at(at) is Dust {
            spread(grid, n, dust, rest + ring(weight, at), visited.insert(grid.node_at(at).unwrap()))
        } else {
            seq![Op::Source { dust, source: grid.node_at(at).unwrap(), weight }] + spread(
                grid,
                n,
                dust,
                rest,
                visited.insert(grid.node_at(at).unwrap()),
            )
        }
    }
}

#[via_fn]
proof fn spread_decreases(grid: Grid, n: nat, dust: usize, queue: Seq<(u8, Vec3)>, visited: Set<usize>) {
    if queue.len() != 0 {
        let at = queue[0].1;
        if !(grid.voxel_at(at) is Air || grid.node_at(at) is None || visited.contains(
            grid.node_at(at).unwrap(),
        )) {
            assert(grid.nodes.contains_key(key_of(at)));
            lemma_unvisited_insert(n, visited, grid.node_at(at).unwrap());
        }
    }
}

/// The weighted sources that are found for the dusts of `entries`, in order.
pub open spec fn sources_plan(grid: Grid, n: nat, entries: Seq<(u128, Voxel)>) -> Seq<Op>
    decreases entries.len(),
{
    if entries.len() == 0 {
        Seq::empty()
    } else {
        sources_plan(grid, n, entries.drop_last()) + cell_sources(grid, n, entries.last())
    }
}

/// The weighted sources that are found for a cell: those of a dust with
/// a node, found by spreading out from its own position with weight zero.
pub open spec fn cell_sources(grid: Grid, n: nat, entry: (u128, Voxel)) -> Seq<Op> {
    if entry.1 is Dust && grid.node_at(vec3_of(entry.0)) is Some {
        spread(
            grid,
            n,
            grid.node_at(vec3_of(entry.0)).unwrap(),
            seq![(0u8, vec3_of(entry.0))],
            Set::empty(),
        )
    } else {
        Seq::empty()
    }
}

impl World {
    /// Plans the weighted sources of the dust `dust` at `vec3`.
    pub fn visit_dust_sources(&self, vec3: Vec3, dust: usize, ops: &mut Vec<Op>)
        requires
            self.wf(),
        ensures
            final(ops)@ == old(ops)@ + spread(
                self.grid(),
                self.arena()@.len(),
                dust,
                seq![(0u8, vec3)],
                Set::empty(),
            ),
    {
        let ghost grid = self.grid();
        let n = self.redstone_arena.len();
        let ghost full = spread(grid, n as nat, dust, seq![(0u8, vec3)], Set::empty());
        let ghost mut found: Seq<Op> = Seq::empty();
        let ghost mut seen: Set<usize> = Set::empty();
        let mut anticycle: Vec<bool> = vec![false; n];
        let mut queue: VecDeque<(u8, Vec3)> = VecDeque::new();
        queue.push_front((0u8, vec3));
        assert(queue@ == seq![(0u8, vec3)]);
        assert(found + full == full);
        assert(ops@ + found == ops@);
        loop
            invariant
                self.wf(),
                grid == self.grid(),
                n == self.arena()@.len(),
                nodes_below(grid, n as nat),
                anticycle.len() == n,
                forall|i: usize| seen.contains(i) <==> i < anticycle.len() && anticycle[i as int],
                full == found + spread(grid, n as nat, dust, queue@, seen),
                ops@ == old(ops)@ + found,
            ensures
                ops@ == old(ops)@ + full,
            decreases unvisited(n as nat, seen), queue@.len(),
        {
            let ghost before = queue@;
            let current = match queue.pop_front() {
                Some(current) => current,
                None => {
                    assert(found + Seq::<Op>::empty() == found);
                    break ;
                },
            };
            let ghost rest = queue@;
            assert(rest == before.subrange(1, before.len() as int));
            assert(current == before[0]);
            let voxel = self.voxel(current.1);
            let source = match self.node(current.1) {
                Some(source) => source,
                None => {
                    continue ;
                },
            };
            assert(grid.nodes.contains_key(key_of(current.1)));
            if voxel.is_air() || anticycle[source] {
                continue ;
            }
            anticycle.set(source, true);
            proof {
                lemma_unvisited_insert(n as nat, seen, source);
            }
            if voxel.is_dust() {
                proof {
                    lemma_key_of(current.1);
                    assert(grid.cells.contains_key(key_of(current.1)));
                }
                if current.0 < 255 {
                    let around = vec3_neighbors(current.1);
                    let weight = current.0 + 1;
                    queue.push_back((weight, *around.up()));
                    queue.push_back((weight, *around.down()));
                    queue.push_back((weight, *around.left()));
                    queue.push_back((weight, *around.right()));
                    queue.push_back((weight, *around.front()));
                    queue.push_back((weight, *around.back()));
                }
                assert(queue@ == rest + ring(current.0, current.1));
                proof {
                    seen = seen.insert(source);
                }
            } else {
                ops.push(Op::Source { dust, source, weight: current.0 });
                proof {
                    let op = Op::Source { dust, source, weight: current.0 };
                    assert(found.push(op) + spread(grid, n as nat, dust, rest, seen.insert(source)) == found
                        + (seq![op] + spread(grid, n as nat, dust, rest, seen.insert(source))));
                    assert(old(ops)@ + found.push(op) == (old(ops)@ + found).push(op));
                    found = found.push(op);
                    seen = seen.insert(source);
                }
            }
        }
    }

    /// Plans the wiring of the world from its cells in the order of
    /// `entries`: first the links of every torch and every dust, then the
    /// weighted sources of every dust.  Fails at the first dust that is
    /// not placed on a stone.
    pub fn plan(&self, entries: &Vec<(u128, Voxel)>) -> (r: Result<Vec<Op>, WorldError>)
        requires
            self.wf(),
            lists(self.grid().cells, entries@),
        ensures
            r is Ok <==> forall|i: int| 0 <= i < entries@.len() ==> grounded(self.grid(), #[trigger] entries@[i]),
            r matches Ok(ops) ==> ops@ == links_plan(self.grid(), entries@) + sources_plan(
                self.grid(),
                self.arena()@.len(),
                entries@,
            ),
            r matches Err(e) ==> exists|i: int|
                0 <= i < entries@.len() && !grounded(self.grid(), #[trigger] entries@[i]) && e
                    == WorldError::DustNotOnStone(vec3_of(entries@[i].0)) && forall|j: int|
                    0 <= j < i ==> grounded(self.grid(), #[trigger] entries@[j]),
    {
        let mut ops: Vec<Op> = Vec::new();
        let mut i: usize = 0;
        while i < entries.len()
            invariant
                i <= entries.len(),
                self.wf(),
                lists(self.grid().cells, entries@),
                forall|j: int| 0 <= j < i ==> grounded(self.grid(), #[trigger] entries@[j]),
                ops@ == links_plan(self.grid(), entries@.take(i as int)),
            decreases entries.len() - i,
        {
            let (k, voxel) = entries[i];
            let at = position(k);
            proof {
                assert(entries@.take(i + 1).drop_last() == entries@.take(i as int));
                assert(entries@.take(i + 1).last() == entries@[i as int]);
                assert(self.grid().cells.contains_key(entries@[i as int].0));
                assert(ops@ + Seq::<Op>::empty() == ops@);
            }
            match voxel {
                Voxel::Air(_) => {},
                Voxel::Stone(_) => {},
                Voxel::Torch(torch) => {
                    self.visit_torch_voxel(at, &torch, &mut ops);
                },
                Voxel::Dust(dust) => {
                    match self.visit_dust_voxel(at, &dust, &mut ops) {
                        Ok(_) => {},
                        Err(e) => {
                            return Err(e);
                        },
                    }
                },
            }
            i += 1;
        }
        assert(entries@.take(entries.len() as int) == entries@);
        let ghost links = ops@;
        let n = self.redstone_arena.len();
        let mut i: usize = 0;
        assert(ops@ + Seq::<Op>::empty() == ops@);
        while i < entries.len()
            invariant
                i <= entries.len(),
                self.wf(),
                n == self.arena()@.len(),
                ops@ == links + sources_plan(self.grid(), n as nat, entries@.take(i as int)),
            decreases entries.len() - i,
        {
            let (k, voxel) = entries[i];
            let ghost before = ops@;
            proof {
                assert(entries@.take(i + 1).drop_last() == entries@.take(i as int));
                assert(entries@.take(i + 1).last() == entries@[i as int]);
                assert(ops@ + Seq::<Op>::empty() == ops@);
            }
            if voxel.is_dust() {
                let at = position(k);
                if let Some(dust) = self.node(at) {
                    self.visit_dust_sources(at, dust, &mut ops);
                }
            }
            proof {
                let step = cell_sources(self.grid(), n as nat, entries@[i as int]);
                assert(ops@ == before + step);
                assert(links + sources_plan(self.grid(), n as nat, entries@.take(i + 1)) == (links
                    + sources_plan(self.grid(), n as nat, entries@.take(i as int))) + step);
            }
            i += 1;
        }
        assert(entries@.take(entries.len() as int) == entries@);
        Ok(ops)
    }
}

/// The nodes that a walk from `seed` visits.
pub open spec fn reach(g: Seq<Wiring>, seed: usize) -> Set<usize> {
    walk(g, seq![seed], Set::empty()).to_set()
}

/// One node of each connected part of the circuit: from `from` on, every
/// node that no walk from an earlier one has visited.
pub open spec fn component_seeds(g: Seq<Wiring>, from: nat, seen: Set<usize>) -> Seq<usize>
    decreases g.len() - from,
{
    if from >= g.len() {
        Seq::empty()
    } else if seen.contains(from as usize) {
        component_seeds(g, from + 1, seen)
    } else {
        seq![from as usize] + component_seeds(g, from + 1, seen.union(reach(g, from as usize)))
    }
}

/// The work lists of the connected parts of a circuit, each collected
/// from the seed of its part.
pub open spec fn works(g: Seq<Wiring>, seeds: Seq<usize>) -> Seq<Seq<Constraint>> {
    Seq::new(seeds.len(), |j: int| collected(g, seeds[j]))
}

/// The states after the work lists were solved one after the other,
/// each for at most `max` steps, and whether all of them came to rest.
/// Solving stops at the first that does not.
pub open spec fn solved_all(g: Seq<Wiring>, st: Seq<Redstate>, lists: Seq<Seq<Constraint>>, max: nat) -> (
    Seq<Redstate>,
    bool,
)
    decreases lists.len(),
{
    if lists.len() == 0 {
        (st, true)
    } else {
        let before = solved_all(g, st, lists.drop_last(), max);
        if before.1 {
            let end = Solving::start(before.0, lists.last()).run(g, max);
            (end.states, end.done())
        } else {
            before
        }
    }
}

/// Marks the nodes that a walk from `seed` visits.
pub fn mark_reach(nodes: &Vec<Redstone>, seed: usize, seen: &mut Vec<bool>)
    requires
        well_formed(wirings(nodes@)),
        seed < nodes.len(),
        old(seen).len() == nodes.len(),
    ensures
        final(seen).len() == nodes.len(),
        forall|i: int|
            0 <= i < nodes.len() ==> final(seen)[i] == (old(seen)[i] || reach(wirings(nodes@), seed).contains(
                i as usize,
            )),
{
    let ghost g = wirings(nodes@);
    let ghost full = walk(g, seq![seed], Set::empty());
    let ghost mut order: Seq<usize> = Seq::empty();
    proof {
        lemma_well_formed_ranged(g);
    }
    let mut iter = RedstoneIter::new(nodes, seed);
    loop
        invariant
            g == wirings(nodes@),
            iter.fits(g),
            seen.len() == nodes.len(),
            full == order + walk(g, iter.queue(), iter.visited()),
            forall|i: int| 0 <= i < nodes.len() ==> seen[i] == (old(seen)[i] || order.contains(i as usize)),
        ensures
            seen.len() == nodes.len(),
            forall|i: int| 0 <= i < nodes.len() ==> seen[i] == (old(seen)[i] || full.contains(i as usize)),
        decreases unvisited(g.len(), iter.visited()),
    {
        let ghost was = iter.visited();
        proof {
            lemma_pending(iter.queue(), iter.visited(), g.len());
        }
        match iter.next(nodes) {
            None => {
                assert(order + Seq::<usize>::empty() == order);
                break ;
            },
            Some(current) => {
                let ghost marked = seen@;
                seen.set(current, true);
                proof {
                    lemma_unvisited_insert(g.len(), was, current);
                    let next = order.push(current);
                    assert(next + walk(g, iter.queue(), iter.visited()) == order + (seq![current] + walk(
                        g,
                        iter.queue(),
                        iter.visited(),
                    )));
                    assert forall|i: int| 0 <= i < nodes.len() implies seen[i] == (old(seen)[i]
                        || next.contains(i as usize)) by {
                        if i == current {
                            assert(next[order.len() as int] == current);
                        } else if order.contains(i as usize) {
                            let j = choose|j: int| 0 <= j < order.len() && order[j] == i as usize;
                            assert(next[j] == i as usize);
                        } else if next.contains(i as usize) {
                            let j = choose|j: int| 0 <= j < next.len() && next[j] == i as usize;
                            assert(order[j] == i as usize);
                        }
                    }
                    order = next;
                }
            },
        }
    }
}

/// One work list for each connected part of the circuit, collected from
/// the node of the part with the least index.
pub fn collect_components(nodes: &Vec<Redstone>) -> (cgs: Vec<ConstraintGraph>)
    requires
        well_formed(wirings(nodes@)),
    ensures
        ({
            let lists = works(wirings(nodes@), component_seeds(wirings(nodes@), 0, Set::empty()));
            &&& cgs@.len() == lists.len()
            &&& forall|j: int| 0 <= j < cgs@.len() ==> (#[trigger] cgs@[j])@ == lists[j]
        }),
        forall|j: int| 0 <= j < cgs@.len() ==> (#[trigger] cgs@[j]).log() == Seq::<SolveEvent>::empty(),
        forall|j: int, k: int|
            0 <= j < cgs@.len() && 0 <= k < cgs@[j]@.len() ==> (#[trigger] cgs@[j]@[k]).redstone < nodes.len(),
{
    let ghost g = wirings(nodes@);
    let ghost all = component_seeds(g, 0, Set::empty());
    let ghost mut seeds: Seq<usize> = Seq::empty();
    let ghost mut marked: Set<usize> = Set::empty();
    let mut seen: Vec<bool> = vec![false; nodes.len()];
    let mut cgs: Vec<ConstraintGraph> = Vec::new();
    let mut id: usize = 0;
    assert(seeds + all == all);
    while id < nodes.len()
        invariant
            id <= nodes.len(),
            g == wirings(nodes@),
            well_formed(g),
            seen.len() == nodes.len(),
            forall|i: int| 0 <= i < nodes.len() ==> seen[i] == marked.contains(i as usize),
            all == seeds + component_seeds(g, id as nat, marked),
            cgs@.len() == seeds.len(),
            forall|j: int| 0 <= j < cgs@.len() ==> (#[trigger] cgs@[j])@ == collected(g, seeds[j]),
            forall|j: int| 0 <= j < cgs@.len() ==> (#[trigger] cgs@[j]).log() == Seq::<SolveEvent>::empty(),
            forall|j: int, k: int|
                0 <= j < cgs@.len() && 0 <= k < cgs@[j]@.len() ==> (#[trigger] cgs@[j]@[k]).redstone
                    < nodes.len(),
        decreases nodes.len() - id,
    {
        if !seen[id] {
            mark_reach(nodes, id, &mut seen);
            let cg = ConstraintGraph::collect_in(nodes, id);
            let ghost before = cgs@;
            cgs.push(cg);
            proof {
                let rest = component_seeds(g, (id + 1) as nat, marked.union(reach(g, id)));
                assert(seeds.push(id) + rest == seeds + (seq![id] + rest));
                assert forall|j: int| 0 <= j < cgs@.len() implies (#[trigger] cgs@[j])@ == collected(
                    g,
                    seeds.push(id)[j],
                ) by {
                    if j < before.len() {
                        assert(cgs@[j] == before[j]);
                    }
                }
                assert forall|j: int, k: int|
                    0 <= j < cgs@.len() && 0 <= k < cgs@[j]@.len() implies (#[trigger] cgs@[j]@[k]).redstone
                    < nodes.len() by {
                    if j < before.len() {
                        assert(cgs@[j] == before[j]);
                    }
                }
                assert forall|j: int| 0 <= j < cgs@.len() implies (#[trigger] cgs@[j]).log() == Seq::<
                    SolveEvent,
                >::empty() by {
                    if j < before.len() {
                        assert(cgs@[j] == before[j]);
                    }
                }
                seeds = seeds.push(id);
                marked = marked.union(reach(g, id));
            }
        }
        id += 1;
    }
    proof {
        assert(seeds + Seq::<usize>::empty() == seeds);
        let lists = works(g, all);
        assert(cgs@.len() == lists.len());
    }
    cgs
}

/// Solves the work lists one after the other on a table of nodes, each
/// for at most `max_steps` steps, and stops at the first that does not
/// come to rest.
pub fn solve_components(nodes: &mut Vec<Redstone>, cgs: &Vec<ConstraintGraph>, max_steps: u64) -> (ok: bool)
    requires
        well_formed(wirings(old(nodes)@)),
        forall|j: int, k: int|
            0 <= j < cgs@.len() && 0 <= k < cgs@[j]@.len() ==> (#[trigger] cgs@[j]@[k]).redstone < old(
                nodes,
            ).len(),
    ensures
        wirings(final(nodes)@) == wirings(old(nodes)@),
        final(nodes).len() == old(nodes).len(),
        forall|i: int| 0 <= i < old(nodes).len() ==> final(nodes)[i].label() == old(nodes)[i].label(),
        (states(final(nodes)@), ok) == solved_all(
            wirings(old(nodes)@),
            states(old(nodes)@),
            Seq::new(cgs@.len(), |j: int| cgs@[j]@),
            max_steps as nat,
        ),
        bounded(states(old(nodes)@)) ==> bounded(states(final(nodes)@)),
{
    let ghost g = wirings(nodes@);
    let ghost st = states(nodes@);
    let ghost lists = Seq::new(cgs@.len(), |j: int| cgs@[j]@);
    let mut i: usize = 0;
    while i < cgs.len()
        invariant
            i <= cgs.len(),
            g == wirings(nodes@),
            g == wirings(old(nodes)@),
            st == states(old(nodes)@),
            well_formed(g),
            nodes.len() == old(nodes).len(),
            forall|j: int| 0 <= j < old(nodes).len() ==> nodes[j].label() == old(nodes)[j].label(),
            forall|j: int, k: int|
                0 <= j < cgs@.len() && 0 <= k < cgs@[j]@.len() ==> (#[trigger] cgs@[j]@[k]).redstone
                    < nodes.len(),
            lists == Seq::new(cgs@.len(), |j: int| cgs@[j]@),
            (states(nodes@), true) == solved_all(g, st, lists.take(i as int), max_steps as nat),
            bounded(st) ==> bounded(states(nodes@)),
        decreases cgs.len() - i,
    {
        proof {
            assert(lists.take(i + 1).drop_last() == lists.take(i as int));
            assert(lists.take(i + 1).last() == cgs@[i as int]@);
            if bounded(st) {
                crate::laws::law_power_stays_bounded(
                    g,
                    Solving::start(states(nodes@), cgs@[i as int]@),
                    max_steps as nat,
                );
            }
        }
        let r = cgs[i].solve_in(nodes, max_steps);
        if r.is_err() {
            proof {
                assert(solved_all(g, st, lists.take(i + 1), max_steps as nat) == (states(nodes@), false));
                lemma_solved_all_stops(g, st, lists, i + 1, max_steps as nat);
            }
            return false;
        }
        i += 1;
    }
    assert(lists.take(cgs.len() as int) == lists);
    true
}

/// Once a work list has not come to rest, the lists behind it are not solved.
pub proof fn lemma_solved_all_stops(g: Seq<Wiring>, st: Seq<Redstate>, lists: Seq<Seq<Constraint>>, n: int, max: nat)
    requires
        0 <= n <= lists.len(),
        !solved_all(g, st, lists.take(n), max).1,
    ensures
        solved_all(g, st, lists, max) == solved_all(g, st, lists.take(n), max),
    decreases lists.len(),
{
    if n == lists.len() {
        assert(lists.take(n) == lists);
    } else {
        assert(lists.drop_last().take(n) == lists.take(n));
        lemma_solved_all_stops(g, st, lists.drop_last(), n, max);
    }
}

/// The grid after a node was made for every cell of `entries` that is
/// not air and had none, numbered from `base` in the order of `entries`.
pub open spec fn made_grid(grid: Grid, base: nat, entries: Seq<(u128, Voxel)>) -> Grid {
    Grid { cells: grid.cells, nodes: with_nodes(grid.nodes, base, fresh(grid, entries)) }
}

/// The wiring of a world of `n` nodes from its cells in the order of
/// `entries`: the links of every torch and every dust, then the weighted
/// sources of every dust.
pub open spec fn world_plan(grid: Grid, n: nat, entries: Seq<(u128, Voxel)>) -> Seq<Op> {
    links_plan(grid, entries) + sources_plan(grid, n, entries)
}

/// Every dust of `entries` is placed on a stone.
pub open spec fn all_grounded(grid: Grid, entries: Seq<(u128, Voxel)>) -> bool {
    forall|i: int| 0 <= i < entries.len() ==> grounded(grid, #[trigger] entries[i])
}

/// The dust at `at` is the first of `entries` that is not placed on a stone.
pub open spec fn first_afloat(grid: Grid, entries: Seq<(u128, Voxel)>, at: Vec3) -> bool {
    exists|i: int|
        0 <= i < entries.len() && !grounded(grid, #[trigger] entries[i]) && at == vec3_of(entries[i].0)
            && forall|j: int| 0 <= j < i ==> grounded(grid, #[trigger] entries[j])
}

/// The step `op` is the first of `plan` that may not be taken in the
/// circuit `g`, and `h` is the circuit when its turn comes.
pub open spec fn first_refused(g: Seq<Wiring>, plan: Seq<Op>, op: Op, h: Seq<Wiring>) -> bool {
    exists|i: int|
        0 <= i < plan.len() && op == #[trigger] plan[i] && ops_allowed(g, plan.take(i)) && !op.allowed(
            ops_applied(g, plan.take(i)),
        ) && h == ops_applied(g, plan.take(i))
}

impl World {
    /// What wiring the world `before` from its cells, taken in the order
    /// of `entries`, makes of it.  A node is made for every cell that is
    /// not air and has none; then the wiring that is planned for the cells
    /// is carried out, unless a dust is not placed on a stone.  It stops at
    /// the first step that is refused.
    pub open spec fn wired(before: World, entries: Seq<(u128, Voxel)>, after: World, r: Result<(), WorldError>) -> bool {
        let base = before.arena()@.len();
        let made = fresh(before.grid(), entries);
        let grid = made_grid(before.grid(), base, entries);
        let g = before.arena().wiring() + wires(made);
        let plan = world_plan(grid, g.len(), entries);
        &&& after.wf()
        &&& after.grid() == grid
        &&& after.arena().state() == before.arena().state() + blanks(made.len())
        &&& forall|i: int| 0 <= i < base ==> (#[trigger] after.arena()@[i]).label() == before.arena()@[i].label()
        &&& forall|j: int|
            0 <= j < made.len() ==> (#[trigger] after.arena()@[base + j]).label() == kind_text(made[j].1)
                + vec3_text(vec3_of(made[j].0))
        &&& r is Ok <==> all_grounded(grid, entries) && ops_allowed(g, plan)
        &&& match r {
            Ok(_) => after.arena().wiring() == ops_applied(g, plan),
            Err(WorldError::DustNotOnStone(at)) => first_afloat(grid, entries, at) && after.arena().wiring()
                == g,
            Err(WorldError::Refused(op)) => all_grounded(grid, entries) && first_refused(
                g,
                plan,
                op,
                after.arena().wiring(),
            ),
            Err(WorldError::NonConvergent) => false,
        }
    }

    /// What running the world `before` with its cells taken in the order
    /// of `entries` makes of it.  The world is wired; then each connected
    /// part of the circuit, in the order of the least index of its nodes,
    /// has its work collected and solved for at most `max_steps` steps.
    pub open spec fn ran(
        before: World,
        entries: Seq<(u128, Voxel)>,
        max_steps: u64,
        after: World,
        r: Result<(), WorldError>,
    ) -> bool {
        let base = before.arena()@.len();
        let made = fresh(before.grid(), entries);
        let grid = made_grid(before.grid(), base, entries);
        let g = before.arena().wiring() + wires(made);
        let plan = world_plan(grid, g.len(), entries);
        if all_grounded(grid, entries) && ops_allowed(g, plan) {
            let h = ops_applied(g, plan);
            let end = solved_all(
                h,
                before.arena().state() + blanks(made.len()),
                works(h, component_seeds(h, 0, Set::empty())),
                max_steps as nat,
            );
            &&& after.wf()
            &&& after.grid() == grid
            &&& after.arena().wiring() == h
            &&& after.arena().state() == end.0
            &&& r is Ok <==> end.1
            &&& r is Err ==> r == Err::<(), WorldError>(WorldError::NonConvergent)
        } else {
            World::wired(before, entries, after, r)
        }
    }

    /// Makes the missing nodes and wires the world from its cells in the
    /// order of `entries`.
    pub fn wire(&mut self, entries: &Vec<(u128, Voxel)>) -> (r: Result<(), WorldError>)
        requires
            old(self).wf(),
            lists(old(self).grid().cells, entries@),
        ensures
            World::wired(*old(self), entries@, *final(self), r),
    {
        self.materialize(entries);
        let ghost g = self.arena().wiring();
        let ghost mid = self.arena()@;
        let ops = match self.plan(entries) {
            Ok(ops) => ops,
            Err(e) => {
                return Err(e);
            },
        };
        let mut nodes = self.redstone_arena.take();
        let r = apply_ops(&mut nodes, &ops);
        let refused = match r {
            Ok(_) => None,
            Err(i) => Some(ops[i]),
        };
        self.redstone_arena.put(nodes);
        proof {
            assert(self.arena().wiring().len() == self.arena()@.len());
            assert(g.len() == mid.len());
        }
        match refused {
            None => Ok(()),
            Some(op) => Err(WorldError::Refused(op)),
        }
    }

    /// Wires the world from its cells in the order of `entries` and
    /// collects the work of every connected part of the circuit.
    pub fn get_constraint_graphs(&mut self, entries: &Vec<(u128, Voxel)>) -> (r: Result<
        Vec<ConstraintGraph>,
        WorldError,
    >)
        requires
            old(self).wf(),
            lists(old(self).grid().cells, entries@),
        ensures
            World::wired(
                *old(self),
                entries@,
                *final(self),
                match r {
                    Ok(_) => Ok(()),
                    Err(e) => Err(e),
                },
            ),
            r matches Ok(cgs) ==> {
                let g = final(self).arena().wiring();
                let lists = works(g, component_seeds(g, 0, Set::empty()));
                &&& cgs@.len() == lists.len()
                &&& forall|j: int| 0 <= j < cgs@.len() ==> (#[trigger] cgs@[j])@ == lists[j]
                &&& forall|j: int|
                    0 <= j < cgs@.len() ==> (#[trigger] cgs@[j]).log() == Seq::<SolveEvent>::empty()
                &&& forall|j: int, k: int|
                    0 <= j < cgs@.len() && 0 <= k < cgs@[j]@.len() ==> (#[trigger] cgs@[j]@[k]).redstone
                        < final(self).arena()@.len()
            },
    {
        match self.wire(entries) {
            Ok(_) => {},
            Err(e) => {
                return Err(e);
            },
        }
        let nodes = self.redstone_arena.take();
        let cgs = collect_components(&nodes);
        self.redstone_arena.put(nodes);
        Ok(cgs)
    }

    /// Runs the world with its cells taken in the order of `entries`.
    pub fn run_in_order(&mut self, entries: &Vec<(u128, Voxel)>, max_steps: u64) -> (r: Result<
        (),
        WorldError,
    >)
        requires
            old(self).wf(),
            lists(old(self).grid().cells, entries@),
        ensures
            World::ran(*old(self), entries@, max_steps, *final(self), r),
    {
        let cgs = match self.get_constraint_graphs(entries) {
            Ok(cgs) => cgs,
            Err(e) => {
                return Err(e);
            },
        };
        let ghost h = self.arena().wiring();
        let mut nodes = self.redstone_arena.take();
        let ok = solve_components(&mut nodes, &cgs, max_steps);
        self.redstone_arena.put(nodes);
        proof {
            assert(Seq::new(cgs@.len(), |j: int| cgs@[j]@) == works(
                h,
                component_seeds(h, 0, Set::empty()),
            ));
        }
        if ok {
            Ok(())
        } else {
            Err(WorldError::NonConvergent)
        }
    }

    /// Wires the circuit of the world from its cells and solves it, each
    /// connected part for at most `max_steps` steps.  The order in which
    /// the cells are taken is that in which the map of cells hands them
    /// out.
    pub fn run(&mut self, max_steps: u64) -> (r: Result<(), WorldError>)
        requires
            old(self).wf(),
        ensures
            exists|entries: Seq<(u128, Voxel)>|
                lists(old(self).grid().cells, entries) && #[trigger] World::ran(
                    *old(self),
                    entries,
                    max_steps,
                    *final(self),
                    r,
                ),
    {
        let entries = fnv_map_entries(&self.voxels);
        self.run_in_order(&entries, max_steps)
    }

    /// The name of node `id`.
    pub fn name(&mut self, id: usize) -> (name: String)
        requires
            id < old(self).arena()@.len(),
        ensures
            final(self).arena()@ == old(self).arena()@,
            final(self).grid() == old(self).grid(),
            name@ == old(self).arena()@[id as int].label(),
    {
        self.redstone_arena.name(id)
    }

    /// The state of node `id`.
    pub fn redstate(&mut self, id: usize) -> (state: Redstate)
        requires
            id < old(self).arena()@.len(),
        ensures
            final(self).arena()@ == old(self).arena()@,
            final(self).grid() == old(self).grid(),
            state == old(self).arena().state()[id as int],
    {
        self.redstone_arena.redstate(id)
    }
}

} // verus!
