use ruststone::dispatch::ConstraintCtxt;
use ruststone::solver::SolveEvent;
use ruststone::linking::{add_source_to, link_nodes};
use ruststone::{
    add_weighted_edge, can_add_weighted_edge, can_lock, lock, Constraint, ConstraintGraph, Frame, Redpower,
    Redstate, Redstone, RedstoneArena, RedstoneGraph, RedstoneIter,
};

const MAX_STEPS: u64 = 100_000;

#[test]
fn a_single_torch_converges_in_one_frame() {
    let mut arena = RedstoneArena::new();
    let torch = arena.make_torch("torch");

    let mut cg = ConstraintGraph::collect(&mut arena, torch);
    assert_eq!(cg.len(), 1);
    let stats = cg.solve_constraints(&mut arena, MAX_STEPS).unwrap();

    assert_eq!(stats.frame, Frame { tick: 1 });
    assert_eq!(stats.changes, 1);
    assert_eq!(arena.redstate(torch).get_power(), 16);
    assert!(arena.redstate(torch).is_on());
    assert_eq!(arena.redstate(torch).updated_frame(), Some(Frame { tick: 1 }));
}

#[test]
fn solving_a_settled_circuit_changes_nothing() {
    let mut arena = RedstoneArena::new();
    let torch = arena.make_torch("torch");
    let dust = arena.make_dust("dust");
    let block = arena.make_block("block");
    let output = arena.make_torch("output");
    arena.link(torch, dust);
    arena.link(dust, block);
    arena.link(block, output);
    add_weighted_edge(&mut arena, dust, torch, 1);

    let mut cg = ConstraintGraph::collect(&mut arena, torch);
    let first = cg.solve_constraints(&mut arena, MAX_STEPS).unwrap();
    assert!(first.changes > 0);
    let before: Vec<Redstate> = vec![torch, dust, block, output].into_iter().map(|n| arena.redstate(n)).collect();

    let second = cg.solve_constraints(&mut arena, MAX_STEPS).unwrap();

    assert_eq!(second.changes, 0);
    let after: Vec<Redstate> = vec![torch, dust, block, output].into_iter().map(|n| arena.redstate(n)).collect();
    assert_eq!(before, after);
}

#[test]
fn a_ring_of_three_inverters_does_not_converge() {
    let mut arena = RedstoneArena::new();
    let torches: Vec<usize> = (0..3).map(|i| arena.make_torch(&format!("torch{i}"))).collect();
    let blocks: Vec<usize> = (0..3).map(|i| arena.make_block(&format!("block{i}"))).collect();
    for i in 0..3 {
        arena.link(torches[i], blocks[i]);
        arena.link(blocks[i], torches[(i + 1) % 3]);
    }

    let mut cg = ConstraintGraph::collect(&mut arena, torches[0]);
    assert_eq!(cg.len(), 3);
    let error = cg.solve_constraints(&mut arena, 10_000).unwrap_err();

    assert!(error.changes > 100);
    assert!(error.frame.tick > 100);
}

#[test]
fn the_step_cap_is_exact() {
    // one torch: a deferral, a frame advance and a dispatch
    for (cap, converged) in [(0u64, false), (1, false), (2, false), (3, true), (4, true)] {
        let mut arena = RedstoneArena::new();
        let torch = arena.make_torch("torch");
        let mut rg = RedstoneGraph::collect(&mut arena, torch);
        assert_eq!(rg.run(&mut arena, cap).is_ok(), converged);
        assert_eq!(arena.redstate(torch).get_power(), if converged { 16 } else { 0 });
    }
}

#[test]
fn a_torch_and_a_dust_that_feed_each_other_stay_on() {
    let mut arena = RedstoneArena::new();
    let torch = arena.make_torch("torch");
    let dust = arena.make_dust("dust");
    arena.link(dust, torch);
    arena.link(torch, dust);
    add_weighted_edge(&mut arena, dust, torch, 1);

    let mut cg = ConstraintGraph::collect(&mut arena, torch);
    assert!(cg.solve_constraints(&mut arena, MAX_STEPS).is_ok());

    // the dust does not schedule the torch that asked for its dispatch
    assert_eq!(arena.redstate(torch).get_power(), 16);
    assert_eq!(arena.redstate(dust).get_power(), 15);
}

#[test]
fn both_graphs_collect_the_same_work_and_solve_alike() {
    let build = || {
        let mut arena = RedstoneArena::new();
        let block_a = arena.make_block("block_a");
        let torch_a = arena.make_torch("torch_a");
        let dust_a = arena.make_dust("dust_a");
        let block_b = arena.make_block("block_b");
        let torch_b = arena.make_torch("torch_b");
        let dust_b = arena.make_dust("dust_b");
        arena.link(block_a, torch_a);
        arena.link(torch_a, dust_a);
        arena.link(dust_a, block_b);
        add_weighted_edge(&mut arena, dust_a, torch_a, 1);
        arena.link(block_b, torch_b);
        arena.link(torch_b, dust_b);
        arena.link(dust_b, block_a);
        add_weighted_edge(&mut arena, dust_b, torch_b, 1);
        (arena, vec![block_a, torch_a, dust_a, block_b, torch_b, dust_b])
    };
    let (mut one, nodes) = build();
    let (mut two, _) = build();

    let mut cg = ConstraintGraph::collect(&mut one, nodes[0]);
    let mut rg = RedstoneGraph::collect(&mut two, nodes[0]);
    assert_eq!(cg.len(), 2);
    assert_eq!(rg.len(), 2);
    let a = cg.solve_constraints(&mut one, MAX_STEPS).unwrap();
    let b = rg.run(&mut two, MAX_STEPS).unwrap();

    assert_eq!(a.changes, b.changes);
    assert_eq!(a.frame, b.frame);
    for &n in &nodes {
        assert_eq!(one.redstate(n), two.redstate(n));
    }
    assert!(one.redstate(nodes[1]).is_on());
    assert!(one.redstate(nodes[4]).is_off());
}

#[test]
fn collect_seeds_one_item_per_connected_torch() {
    let mut arena = RedstoneArena::new();
    let torch = arena.make_torch("torch");
    let dust = arena.make_dust("dust");
    let other = arena.make_torch("other");
    let apart = arena.make_torch("apart");
    arena.link(torch, dust);
    arena.link(other, dust);

    // a link from a torch is not registered on the dust: the walk stops there
    assert_eq!(ConstraintGraph::collect(&mut arena, dust).len(), 0);
    assert_eq!(ConstraintGraph::collect(&mut arena, torch).len(), 1);
    add_weighted_edge(&mut arena, dust, torch, 1);
    add_weighted_edge(&mut arena, dust, other, 1);
    assert_eq!(ConstraintGraph::collect(&mut arena, dust).len(), 2);
    assert_eq!(ConstraintGraph::collect(&mut arena, apart).len(), 1);
    assert_eq!(RedstoneGraph::collect(&mut arena, torch).len(), 2);
    assert_eq!(arena.len(), 4);
}

#[test]
fn the_walk_visits_each_node_once_in_breadth_first_order() {
    let mut nodes = vec![
        Redstone::torch("t"),
        Redstone::dust("a"),
        Redstone::dust("b"),
        Redstone::block("c"),
    ];
    link_nodes(&mut nodes, 0, 1);
    link_nodes(&mut nodes, 0, 2);
    link_nodes(&mut nodes, 1, 2);
    link_nodes(&mut nodes, 2, 3);

    let mut iter = RedstoneIter::new(&nodes, 0);
    let mut order = Vec::new();
    while let Some(node) = iter.next(&nodes) {
        order.push(node);
    }

    assert_eq!(order, vec![0, 1, 2, 3]);
    assert_eq!(iter.next(&nodes), None);
}

#[test]
fn a_dust_ignores_sources_that_were_not_written_in_the_frame() {
    let mut nodes = vec![Redstone::torch("torch"), Redstone::dust("dust"), Redstone::dust("next")];
    link_nodes(&mut nodes, 0, 1);
    link_nodes(&mut nodes, 1, 2);
    add_source_to(&mut nodes, 1, 0, 3);
    let torch = Constraint::new(0, Frame::zero());
    assert!(!torch.dispatchable(&nodes, Frame { tick: 0 }));
    assert!(torch.dispatchable(&nodes, Frame { tick: 1 }));
    let out = torch.dispatch(&mut nodes, Frame { tick: 1 });
    assert_eq!(out.len(), 1);
    assert_eq!((out[0].redstone, out[0].creator, out[0].next_dispatch_frame), (1, Some(0), Frame { tick: 1 }));

    // in a later frame the torch does not count
    let late = Constraint { next_dispatch_frame: Frame { tick: 2 }, redstone: 1, creator: Some(0) };
    assert!(late.dispatch(&mut nodes, Frame { tick: 2 }).is_empty());
    assert_eq!(nodes[1].redstate().get_power(), 0);
    assert_eq!(nodes[1].redstate().updated_frame(), None);

    // in the frame of the write it does, and the creator is not scheduled
    let now = Constraint { next_dispatch_frame: Frame { tick: 1 }, redstone: 1, creator: Some(2) };
    let out = now.dispatch(&mut nodes, Frame { tick: 1 });
    assert_eq!(nodes[1].redstate().get_power(), 13);
    assert!(out.is_empty());
    let out = out_of(&nodes, 1, None);
    assert_eq!(out, vec![2]);
}

fn out_of(nodes: &Vec<Redstone>, node: usize, creator: Option<usize>) -> Vec<usize> {
    let ctxt = ConstraintCtxt { current_frame: Frame { tick: 1 }, redstone: node, creator };
    nodes[node].dispatch(nodes, ctxt).1.iter().map(|c| c.redstone).collect()
}

#[test]
fn attenuation_stops_at_zero_and_starts_at_full_power() {
    let mut arena = RedstoneArena::new();
    let torch = arena.make_torch("torch");
    let near = arena.make_dust("near");
    let far = arena.make_dust("far");
    let best = arena.make_dust("best");
    arena.link(torch, near);
    arena.link(torch, far);
    arena.link(torch, best);
    add_weighted_edge(&mut arena, near, torch, 0);
    add_weighted_edge(&mut arena, far, torch, 200);
    add_weighted_edge(&mut arena, best, torch, 9);
    add_weighted_edge(&mut arena, best, torch, 4);
    add_weighted_edge(&mut arena, best, torch, 6);

    let mut cg = ConstraintGraph::collect(&mut arena, torch);
    assert!(cg.solve_constraints(&mut arena, MAX_STEPS).is_ok());

    assert_eq!(arena.redstate(near).get_power(), 16);
    assert_eq!(arena.redstate(far).get_power(), 0);
    assert_eq!(arena.redstate(best).get_power(), 12);
    assert_eq!(arena.redpower(best), Redpower::new(12));
}

#[test]
fn a_block_relays_hard_power_only() {
    let mut arena = RedstoneArena::new();
    let torch = arena.make_torch("torch");
    let dust = arena.make_dust("dust");
    let soft = arena.make_block("soft");
    let repeater = arena.make_repeater("repeater", 3);
    let hard = arena.make_block("hard");
    arena.link(torch, dust);
    arena.link(dust, soft);
    arena.link(soft, repeater);
    arena.link(repeater, hard);
    add_weighted_edge(&mut arena, dust, torch, 1);

    let mut cg = ConstraintGraph::collect(&mut arena, torch);
    let stats = cg.solve_constraints(&mut arena, MAX_STEPS).unwrap();

    assert_eq!((arena.redstate(soft).get_power(), arena.redstate(soft).is_forced()), (0, true));
    assert_eq!((arena.redstate(repeater).get_power(), arena.redstate(repeater).is_forced()), (16, true));
    assert_eq!((arena.redstate(hard).get_power(), arena.redstate(hard).is_forced()), (16, true));
    // the torch fires in frame 1, the repeater three frames later
    assert_eq!(stats.frame, Frame { tick: 4 });
    assert_eq!(arena.redstate(repeater).updated_frame(), Some(Frame { tick: 4 }));
    // the dust keeps what the torch gave it in frame 1, though no source of
    // it was written in the frame in which the solve ended
    assert_eq!(arena.redstate(dust).get_power(), 15);
    assert_eq!(arena.redstate(dust).updated_frame(), Some(Frame { tick: 1 }));
    assert_eq!(arena.redstate(torch).updated_frame(), Some(Frame { tick: 1 }));
}

#[test]
fn linking_respects_slots_and_caps() {
    let mut arena = RedstoneArena::new();
    let torch = arena.make_torch("torch");
    let other = arena.make_torch("other");
    let dust = arena.make_dust("dust");
    let repeater = arena.make_repeater("repeater", 1);
    let block = arena.make_block("block");

    // a torch has one input
    assert!(arena.can_link(dust, torch));
    arena.link(dust, torch);
    assert!(!arena.can_link(dust, torch));
    assert!(!arena.can_link(block, torch));

    // a repeater has one output and one input
    assert!(arena.can_link(repeater, block));
    arena.link(repeater, block);
    assert!(!arena.can_link(repeater, dust));
    arena.link(block, repeater);
    assert!(!arena.can_link(dust, repeater));
    // a link from a directed node does not claim the input
    assert!(arena.can_link(other, repeater));

    // a torch takes a seventh outgoing link but not an eighth
    for _ in 0..7 {
        assert!(arena.can_link(other, block) || !arena.can_link(other, dust));
        let sink = arena.make_dust("sink");
        if arena.can_link(other, sink) {
            arena.link(other, sink);
        }
    }
    let sink = arena.make_dust("sink");
    assert!(!arena.can_link(other, sink));

    // nodes that do not exist
    assert!(!arena.can_link(torch, 1000));
    assert!(!arena.can_link(1000, torch));
}

#[test]
fn a_torch_has_room_for_six_outgoing_links() {
    let mut arena = RedstoneArena::new();
    let torch = arena.make_torch("torch");
    let mut made = 0;
    loop {
        let sink = arena.make_dust("sink");
        if !arena.can_link(torch, sink) {
            break;
        }
        arena.link(torch, sink);
        made += 1;
    }
    assert_eq!(made, 6);

    let dust = arena.make_dust("dust");
    let mut made = 0;
    loop {
        let sink = arena.make_block("sink");
        if !arena.can_link(dust, sink) {
            break;
        }
        arena.link(dust, sink);
        made += 1;
    }
    assert_eq!(made, 7);
}

#[test]
fn weighted_edges_lead_from_a_dust_to_something_else() {
    let mut arena = RedstoneArena::new();
    let torch = arena.make_torch("torch");
    let dust = arena.make_dust("dust");
    let other = arena.make_dust("other");
    let block = arena.make_block("block");

    assert!(can_add_weighted_edge(&mut arena, dust, torch));
    assert!(can_add_weighted_edge(&mut arena, dust, block));
    assert!(!can_add_weighted_edge(&mut arena, dust, other));
    assert!(!can_add_weighted_edge(&mut arena, torch, block));
    assert!(!can_add_weighted_edge(&mut arena, dust, 99));
}

#[test]
fn a_repeater_takes_three_locks_from_repeaters() {
    let mut arena = RedstoneArena::new();
    let repeater = arena.make_repeater("repeater", 1);
    let locker = arena.make_repeater("locker", 4);
    let torch = arena.make_torch("torch");

    assert!(!can_lock(&mut arena, repeater, torch));
    assert!(!can_lock(&mut arena, torch, repeater));
    for _ in 0..3 {
        assert!(can_lock(&mut arena, repeater, locker));
        lock(&mut arena, repeater, locker);
    }
    assert!(!can_lock(&mut arena, repeater, locker));
}

#[test]
fn names_and_states_survive_in_the_arena() {
    let mut arena = RedstoneArena::new();
    let torch = arena.make_torch("the torch");
    let dust = arena.make_dust("the dust");
    let block = arena.make_block("the block");
    let repeater = arena.make_repeater("the repeater", 2);

    assert_eq!((torch, dust, block, repeater), (0, 1, 2, 3));
    assert_eq!(arena.len(), 4);
    assert_eq!(arena.name(torch), "the torch");
    assert_eq!(arena.name(dust), "the dust");
    assert_eq!(arena.name(block), "the block");
    assert_eq!(arena.name(repeater), "the repeater");
    assert_eq!(arena.redstate(repeater), Redstate::zero());
    assert_eq!(arena.redstate(torch).updated_frame(), None);
}

#[test]
fn the_log_tells_what_the_solver_did() {
    let mut arena = RedstoneArena::new();
    let torch = arena.make_torch("torch");
    let dust = arena.make_dust("dust");
    arena.link(torch, dust);
    add_weighted_edge(&mut arena, dust, torch, 1);

    let mut cg = ConstraintGraph::collect(&mut arena, torch);
    assert!(cg.events().is_empty());
    assert!(cg.solve_constraints(&mut arena, MAX_STEPS).is_ok());

    assert_eq!(
        cg.events(),
        &vec![
            SolveEvent::Deferred { node: torch },
            SolveEvent::Advanced { to: Frame { tick: 1 } },
            SolveEvent::Dispatched { node: torch, was_on: false, now_on: true },
            SolveEvent::Queued { count: 1 },
            SolveEvent::Dispatched { node: dust, was_on: false, now_on: true },
            SolveEvent::Queued { count: 0 },
        ]
    );

    // a second solve appends to the log and queues nothing
    assert!(cg.solve_constraints(&mut arena, MAX_STEPS).is_ok());
    assert_eq!(cg.events().len(), 9);
    assert_eq!(cg.events()[8], SolveEvent::Dispatched { node: torch, was_on: true, now_on: true });

    let mut rg = RedstoneGraph::collect(&mut arena, torch);
    assert!(rg.run(&mut arena, 2).is_err());
    assert_eq!(
        rg.snapshots(),
        &vec![SolveEvent::Deferred { node: torch }, SolveEvent::Advanced { to: Frame { tick: 1 } }]
    );
}

#[test]
fn what_a_dispatch_schedules_is_dispatched_but_not_the_node_that_asked() {
    let mut arena = RedstoneArena::new();
    let torch = arena.make_torch("torch");
    let dust1 = arena.make_dust("dust1");
    let dust2 = arena.make_dust("dust2");
    let dust3 = arena.make_dust("dust3");
    arena.link(torch, dust1);
    arena.link(dust1, dust2);
    arena.link(dust2, dust3);
    add_weighted_edge(&mut arena, dust1, torch, 1);
    add_weighted_edge(&mut arena, dust2, torch, 2);
    add_weighted_edge(&mut arena, dust3, torch, 3);

    let mut cg = ConstraintGraph::collect(&mut arena, torch);
    assert!(cg.solve_constraints(&mut arena, MAX_STEPS).is_ok());

    let dispatched: Vec<usize> = cg
        .events()
        .iter()
        .filter_map(|event| match event {
            SolveEvent::Dispatched { node, .. } => Some(*node),
            _ => None,
        })
        .collect();
    // each dust lists the dust before it, and none goes back to it
    assert_eq!(dispatched, vec![torch, dust1, dust2, dust3]);
    let queued: Vec<usize> = cg
        .events()
        .iter()
        .filter_map(|event| match event {
            SolveEvent::Queued { count } => Some(*count),
            _ => None,
        })
        .collect();
    assert_eq!(queued, vec![1, 1, 1, 0]);
}

#[test]
fn linked_dusts_settle_within_the_steps_that_their_weight_allows() {
    // a torch and two dusts that list each other: three dispatches, one
    // deferral and one advance of the frame
    let build = || {
        let mut arena = RedstoneArena::new();
        let torch = arena.make_torch("torch");
        let dust1 = arena.make_dust("dust1");
        let dust2 = arena.make_dust("dust2");
        arena.link(torch, dust1);
        arena.link(dust1, dust2);
        add_weighted_edge(&mut arena, dust1, torch, 1);
        add_weighted_edge(&mut arena, dust2, torch, 2);
        (arena, torch)
    };
    for (steps, settled) in [(4u64, false), (5, true), (6, true), (1000, true)] {
        let (mut arena, torch) = build();
        let mut cg = ConstraintGraph::collect(&mut arena, torch);
        assert_eq!(cg.solve_constraints(&mut arena, steps).is_ok(), settled);
    }
}

#[test]
fn the_walk_takes_the_input_the_output_and_then_the_locks_of_a_repeater() {
    let mut arena = RedstoneArena::new();
    let repeater = arena.make_repeater("repeater", 1);
    let locker = arena.make_repeater("locker", 1);
    let block = arena.make_block("block");
    let torch = arena.make_torch("torch");
    let output = arena.make_torch("output");
    let behind = arena.make_torch("behind");
    lock(&mut arena, repeater, locker);
    arena.link(block, repeater);
    arena.link(repeater, output);
    arena.link(torch, block);
    arena.link(locker, behind);

    // from the repeater: the block, the output, the locker; then the torch
    // before the block and the torch behind the locker
    let mut nodes = Vec::new();
    for (name, delay) in [("repeater", Some(1)), ("locker", Some(1))] {
        nodes.push(Redstone::repeater(name, delay.unwrap()));
    }
    nodes.push(Redstone::block("block"));
    for name in ["torch", "output", "behind"] {
        nodes.push(Redstone::torch(name));
    }
    ruststone::linking::add_lock_to(&mut nodes, repeater, locker);
    link_nodes(&mut nodes, block, repeater);
    link_nodes(&mut nodes, repeater, output);
    link_nodes(&mut nodes, torch, block);
    link_nodes(&mut nodes, locker, behind);
    let mut iter = RedstoneIter::new(&nodes, repeater);
    let mut order = Vec::new();
    while let Some(node) = iter.next(&nodes) {
        order.push(node);
    }
    assert_eq!(order, vec![repeater, block, output, locker, torch, behind]);

    // the work is seeded in the order of the walk
    let mut cg = ConstraintGraph::collect(&mut arena, repeater);
    assert!(cg.solve_constraints(&mut arena, MAX_STEPS).is_ok());
    let first_three: Vec<SolveEvent> = cg.events().iter().take(3).copied().collect();
    assert_eq!(
        first_three,
        vec![
            SolveEvent::Deferred { node: output },
            SolveEvent::Deferred { node: torch },
            SolveEvent::Deferred { node: behind },
        ]
    );
}
