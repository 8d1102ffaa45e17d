//! Wiring a circuit from a list of operations.

use vstd::prelude::*;
use crate::redstone::{Redstone, Wiring, states, wirings};
use crate::circuit::well_formed;
use crate::linking::{
    add_source_to, can_add_source_to, can_link_nodes, lemma_linked_well_formed, lemma_with_source_well_formed,
    link_nodes, linked, may_add_weighted_edge, may_link,
};

verus! {

/// One step of wiring: a link from one node to another, or a weighted
/// source for a dust.
#[derive(Clone, Copy, Debug, PartialEq, Eq, Structural)]
pub enum Op {
    Link { here: usize, there: usize },
    Source { dust: usize, source: usize, weight: u8 },
}

impl Op {
    /// Whether the step may be taken in the circuit `g`.
    pub open spec fn allowed(self, g: Seq<Wiring>) -> bool {
        match self {
            Op::Link { here, there } => may_link(g, here, there),
            Op::Source { dust, source, .. } => may_add_weighted_edge(g, dust, source),
        }
    }

    /// The circuit `g` after the step.
    pub open spec fn applied(self, g: Seq<Wiring>) -> Seq<Wiring> {
        match self {
            Op::Link { here, there } => linked(g, here, there),
            Op::Source { dust, source, weight } => g.update(
                dust as int,
                g[dust as int].with_source(weight, source),
            ),
        }
    }
}

/// The circuit `g` after the steps `ops`, taken in order.
pub open spec fn ops_applied(g: Seq<Wiring>, ops: Seq<Op>) -> Seq<Wiring>
    decreases ops.len(),
{
    if ops.len() == 0 {
        g
    } else {
        ops.last().applied(ops_applied(g, ops.drop_last()))
    }
}

/// Whether each of the steps `ops` may be taken when its turn comes.
pub open spec fn ops_allowed(g: Seq<Wiring>, ops: Seq<Op>) -> bool
    decreases ops.len(),
{
    if ops.len() == 0 {
        true
    } else {
        ops_allowed(g, ops.drop_last()) && ops.last().allowed(ops_applied(g, ops.drop_last()))
    }
}

/// If every step may be taken, every step of a part from the start may.
pub proof fn lemma_ops_allowed_prefix(g: Seq<Wiring>, ops: Seq<Op>, n: int)
    requires
        0 <= n <= ops.len(),
        ops_allowed(g, ops),
    ensures
        ops_allowed(g, ops.take(n)),
    decreases ops.len(),
{
    if n == ops.len() {
        assert(ops.take(n) == ops);
    } else {
        lemma_ops_allowed_prefix(g, ops.drop_last(), n);
        assert(ops.drop_last().take(n) == ops.take(n));
    }
}

/// Takes the steps in order until one of them may not be taken.  The
/// result is the place of that step, or `Ok` if all of them were taken.
pub fn apply_ops(nodes: &mut Vec<Redstone>, ops: &Vec<Op>) -> (r: Result<(), usize>)
    requires
        well_formed(wirings(old(nodes)@)),
    ensures
        well_formed(wirings(final(nodes)@)),
        states(final(nodes)@) == states(old(nodes)@),
        final(nodes).len() == old(nodes).len(),
        forall|i: int| 0 <= i < old(nodes).len() ==> final(nodes)[i].label() == old(nodes)[i].label(),
        r is Ok <==> ops_allowed(wirings(old(nodes)@), ops@),
        match r {
            Ok(_) => wirings(final(nodes)@) == ops_applied(wirings(old(nodes)@), ops@),
            Err(i) => {
                &&& i < ops.len()
                &&& ops_allowed(wirings(old(nodes)@), ops@.take(i as int))
                &&& !ops@[i as int].allowed(ops_applied(wirings(old(nodes)@), ops@.take(i as int)))
                &&& wirings(final(nodes)@) == ops_applied(wirings(old(nodes)@), ops@.take(i as int))
            },
        },
{
    let ghost g = wirings(nodes@);
    let mut i: usize = 0;
    while i < ops.len()
        invariant
            i <= ops.len(),
            well_formed(wirings(nodes@)),
            states(nodes@) == states(old(nodes)@),
            nodes.len() == old(nodes).len(),
            forall|j: int| 0 <= j < old(nodes).len() ==> nodes[j].label() == old(nodes)[j].label(),
            g == wirings(old(nodes)@),
            ops_allowed(g, ops@.take(i as int)),
            wirings(nodes@) == ops_applied(g, ops@.take(i as int)),
        decreases ops.len() - i,
    {
        let ghost before = wirings(nodes@);
        proof {
            assert(ops@.take(i + 1).drop_last() == ops@.take(i as int));
            assert(ops@.take(i + 1).last() == ops@[i as int]);
        }
        let allowed = match ops[i] {
            Op::Link { here, there } => can_link_nodes(nodes, here, there),
            Op::Source { dust, source, .. } => can_add_source_to(nodes, dust, source),
        };
        if !allowed {
            proof {
                if ops_allowed(g, ops@) {
                    lemma_ops_allowed_prefix(g, ops@, i + 1);
                }
            }
            return Err(i);
        }
        match ops[i] {
            Op::Link { here, there } => {
                proof {
                    lemma_linked_well_formed(before, here, there);
                }
                link_nodes(nodes, here, there);
            },
            Op::Source { dust, source, weight } => {
                proof {
                    lemma_with_source_well_formed(before, dust, source, weight);
                }
                add_source_to(nodes, dust, source, weight);
            },
        }
        i += 1;
    }
    assert(ops@.take(ops.len() as int) == ops@);
    Ok(())
}

} // verus!
