//! The work list of a circuit, gathered with the circuit's iterator.

use vstd::prelude::*;
use crate::arena::RedstoneArena;
use crate::dispatch::Constraint;
use crate::solver::{solve, NonConvergent, SolveEvent, SolveStats, Solving};
use crate::walk::{collect_with_iter, collected, lemma_collected, lemma_well_formed_ranged};

verus! {

/// The initial work of the part of a circuit that is connected to a seed
/// node, gathered by iterating over that part.  It keeps a log of what the
/// solver did with it.
pub struct RedstoneGraph {
    dispatch_ctxts: Vec<Constraint>,
    snapshots: Vec<SolveEvent>,
}

impl View for RedstoneGraph {
    type V = Seq<Constraint>;

    closed spec fn view(&self) -> Seq<Constraint> {
        self.dispatch_ctxts@
    }
}

impl RedstoneGraph {
    /// The events of the runs so far, in order.
    pub closed spec fn log(&self) -> Seq<SolveEvent> {
        self.snapshots@
    }

    /// The events of the runs so far, in order.
    pub fn snapshots(&self) -> (events: &Vec<SolveEvent>)
        ensures
            events@ == self.log(),
    {
        &self.snapshots
    }

    /// Every work item is for a node of `arena`.
    pub open spec fn fits(&self, arena: &RedstoneArena) -> bool {
        forall|k: int| 0 <= k < self@.len() ==> (#[trigger] self@[k]).redstone < arena@.len()
    }

    /// Iterates breadth first over the nodes that are connected to
    /// `redstone` and seeds the work list with one item per torch.
    pub fn collect(arena: &mut RedstoneArena, redstone: usize) -> (rg: RedstoneGraph)
        requires
            old(arena).wf(),
            redstone < old(arena)@.len(),
        ensures
            final(arena)@ == old(arena)@,
            rg@ == collected(old(arena).wiring(), redstone),
            rg.fits(old(arena)),
            rg.log() == Seq::<SolveEvent>::empty(),
    {
        let nodes = arena.take();
        proof {
            lemma_well_formed_ranged(old(arena).wiring());
            lemma_collected(old(arena).wiring(), redstone);
        }
        let dispatch_ctxts = collect_with_iter(&nodes, redstone);
        arena.put(nodes);
        RedstoneGraph { dispatch_ctxts, snapshots: Vec::new() }
    }

    /// The number of initial work items.
    pub fn len(&self) -> (n: usize)
        ensures
            n == self@.len(),
    {
        self.dispatch_ctxts.len()
    }

    /// Runs the solver from the initial work for at most `max_steps`
    /// steps.  The nodes end in the states that the solver's machine
    /// reaches in that many steps; the result is `Ok` exactly when the
    /// machine has come to rest by then.  The events of the run are
    /// appended to the log.
    pub fn run(&mut self, arena: &mut RedstoneArena, max_steps: u64) -> (r: Result<
        SolveStats,
        NonConvergent,
    >)
        requires
            old(arena).wf(),
            old(self).fits(old(arena)),
        ensures
            final(self)@ == old(self)@,
            final(arena).wf(),
            final(arena).wiring() == old(arena).wiring(),
            final(arena).same_names(old(arena)),
            ({
                let end = Solving::start(old(arena).state(), old(self)@).run(
                    old(arena).wiring(),
                    max_steps as nat,
                );
                &&& final(arena).state() == end.states
                &&& r is Ok <==> end.done()
                &&& r matches Ok(stats) ==> stats.changes == end.changes && stats.frame == end.frame
                &&& r matches Err(e) ==> e.changes == end.changes && e.frame == end.frame
                &&& final(self).log() == old(self).log() + end.log
            }),
    {
        let mut nodes = arena.take();
        let r = solve(&mut nodes, &self.dispatch_ctxts, max_steps, &mut self.snapshots, true);
        arena.put(nodes);
        proof {
            crate::laws::law_power_stays_bounded(
                old(arena).wiring(),
                Solving::start(old(arena).state(), old(self)@),
                max_steps as nat,
            );
        }
        r
    }
}

} // verus!
