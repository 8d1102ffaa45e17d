//! The work list of one connected part of a circuit, and its solver.

use vstd::prelude::*;
use crate::arena::RedstoneArena;
use crate::dispatch::Constraint;
use crate::redstone::{Redstone, states, wirings};
use crate::circuit::well_formed;
use crate::solver::{solve, NonConvergent, SolveEvent, SolveStats, Solving};
use crate::walk::{collect_from, collected, lemma_collected, lemma_well_formed_ranged};

verus! {

/// The initial work of the part of a circuit that is connected to a seed
/// node: one work item for each torch.  It keeps a log of what the solver
/// did with it.
pub struct ConstraintGraph {
    constraints: Vec<Constraint>,
    events: Vec<SolveEvent>,
}

impl View for ConstraintGraph {
    type V = Seq<Constraint>;

    closed spec fn view(&self) -> Seq<Constraint> {
        self.constraints@
    }
}

impl ConstraintGraph {
    /// The events of the solves so far, in order.
    pub closed spec fn log(&self) -> Seq<SolveEvent> {
        self.events@
    }

    /// The events of the solves so far, in order.
    pub fn events(&self) -> (events: &Vec<SolveEvent>)
        ensures
            events@ == self.log(),
    {
        &self.events
    }

    /// Every work item is for a node of `arena`.
    pub open spec fn fits(&self, arena: &RedstoneArena) -> bool {
        forall|k: int| 0 <= k < self@.len() ==> (#[trigger] self@[k]).redstone < arena@.len()
    }

    /// Walks the circuit breadth first from `seed` and seeds the work
    /// list with one item per torch, in the order of the walk.
    pub fn collect(arena: &mut RedstoneArena, seed: usize) -> (cg: ConstraintGraph)
        requires
            old(arena).wf(),
            seed < old(arena)@.len(),
        ensures
            final(arena)@ == old(arena)@,
            cg@ == collected(old(arena).wiring(), seed),
            cg.fits(old(arena)),
            cg.log() == Seq::<SolveEvent>::empty(),
    {
        let nodes = arena.take();
        let cg = ConstraintGraph::collect_in(&nodes, seed);
        arena.put(nodes);
        cg
    }

    /// As [`ConstraintGraph::collect`], on a table of nodes.
    pub fn collect_in(nodes: &Vec<Redstone>, seed: usize) -> (cg: ConstraintGraph)
        requires
            well_formed(wirings(nodes@)),
            seed < nodes.len(),
        ensures
            cg@ == collected(wirings(nodes@), seed),
            forall|k: int| 0 <= k < cg@.len() ==> (#[trigger] cg@[k]).redstone < nodes.len(),
            cg.log() == Seq::<SolveEvent>::empty(),
    {
        proof {
            lemma_well_formed_ranged(wirings(nodes@));
            lemma_collected(wirings(nodes@), seed);
        }
        ConstraintGraph { constraints: collect_from(nodes, seed), events: Vec::new() }
    }

    /// As [`ConstraintGraph::solve_constraints`], on a table of nodes and
    /// without a log.
    pub fn solve_in(&self, nodes: &mut Vec<Redstone>, max_steps: u64) -> (r: Result<
        SolveStats,
        NonConvergent,
    >)
        requires
            well_formed(wirings(old(nodes)@)),
            forall|k: int| 0 <= k < self@.len() ==> (#[trigger] self@[k]).redstone < old(nodes).len(),
        ensures
            wirings(final(nodes)@) == wirings(old(nodes)@),
            final(nodes).len() == old(nodes).len(),
            forall|i: int|
                0 <= i < old(nodes).len() ==> final(nodes)[i].label() == old(nodes)[i].label(),
            ({
                let end = Solving::start(states(old(nodes)@), self@).run(
                    wirings(old(nodes)@),
                    max_steps as nat,
                );
                &&& states(final(nodes)@) == end.states
                &&& r is Ok <==> end.done()
                &&& r matches Ok(stats) ==> stats.changes == end.changes && stats.frame == end.frame
                &&& r matches Err(e) ==> e.changes == end.changes && e.frame == end.frame
            }),
    {
        let mut unused: Vec<SolveEvent> = Vec::new();
        solve(nodes, &self.constraints, max_steps, &mut unused, false)
    }

    /// The number of initial work items.
    pub fn len(&self) -> (n: usize)
        ensures
            n == self@.len(),
    {
        self.constraints.len()
    }

    /// Runs the solver from the initial work for at most `max_steps`
    /// steps.  The nodes end in the states that the solver's machine
    /// reaches in that many steps; the result is `Ok` exactly when the
    /// machine has come to rest by then.  The events of the run are
    /// appended to the log.
    pub fn solve_constraints(&mut self, arena: &mut RedstoneArena, max_steps: u64) -> (r: Result<
        SolveStats,
        NonConvergent,
    >)
        requires
            old(arena).wf(),
            old(self).fits(old(arena)),
        ensures
            final(self)@ == old(self)@,
            final(arena).wf(),
            final(arena).wiring() == old(arena).wiring(),
            final(arena).same_names(old(arena)),
            ({
                let end = Solving::start(old(arena).state(), old(self)@).run(
                    old(arena).wiring(),
                    max_steps as nat,
                );
                &&& final(arena).state() == end.states
                &&& r is Ok <==> end.done()
                &&& r matches Ok(stats) ==> stats.changes == end.changes && stats.frame == end.frame
                &&& r matches Err(e) ==> e.changes == end.changes && e.frame == end.frame
                &&& final(self).log() == old(self).log() + end.log
            }),
    {
        let mut nodes = arena.take();
        let r = solve(&mut nodes, &self.constraints, max_steps, &mut self.events, true);
        arena.put(nodes);
        proof {
            crate::laws::law_power_stays_bounded(
                old(arena).wiring(),
                Solving::start(old(arena).state(), old(self)@),
                max_steps as nat,
            );
        }
        r
    }
}

} // verus!
