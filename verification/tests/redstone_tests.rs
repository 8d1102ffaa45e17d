use ruststone::{RedstoneArena, RedstoneGraph};

const MAX_STEPS: u64 = 100_000;

#[test]
fn redstone_tests_torch_and_dust() {
    let mut arena = RedstoneArena::new();

    let torch = arena.make_torch("torch");
    let dust = arena.make_dust("dust");

    arena.link(torch, dust);

    ruststone::add_weighted_edge(&mut arena, dust, torch, 1);

    let mut rg = RedstoneGraph::collect(&mut arena, torch);
    assert!(rg.run(&mut arena, MAX_STEPS).is_ok());

    assert_eq!(arena.redstate(torch).get_power(), 16);
    assert_eq!(arena.redstate(dust).get_power(), 15);
}

#[test]
fn redstone_tests_torch_and_dust_and_dust_and_dust() {
    let mut arena = RedstoneArena::new();

    let torch = arena.make_torch("torch");
    let dust1 = arena.make_dust("dust1");
    let dust2 = arena.make_dust("dust2");
    let dust3 = arena.make_dust("dust3");

    arena.link(torch, dust1);
    arena.link(dust1, dust2);
    arena.link(dust2, dust3);

    ruststone::add_weighted_edge(&mut arena, dust1, torch, 1);
    ruststone::add_weighted_edge(&mut arena, dust2, torch, 2);
    ruststone::add_weighted_edge(&mut arena, dust3, torch, 3);

    let mut rg = RedstoneGraph::collect(&mut arena, torch);
    assert!(rg.run(&mut arena, MAX_STEPS).is_ok());

    assert_eq!(arena.redstate(torch).get_power(), 16);
    assert_eq!(arena.redstate(dust1).get_power(), 15);
    assert_eq!(arena.redstate(dust2).get_power(), 14);
    assert_eq!(arena.redstate(dust3).get_power(), 13);
}

#[test]
fn redstone_tests_torch_and_dust_until_it_runs_out_of_redpower() {
    let mut arena = RedstoneArena::new();

    let torch = arena.make_torch("torch");
    let dust1 = arena.make_dust("dust1");
    let dust2 = arena.make_dust("dust2");
    let dust3 = arena.make_dust("dust3");
    let dust4 = arena.make_dust("dust4");
    let dust5 = arena.make_dust("dust5");
    let dust6 = arena.make_dust("dust6");
    let dust7 = arena.make_dust("dust7");
    let dust8 = arena.make_dust("dust8");
    let dust9 = arena.make_dust("dust9");
    let dust10 = arena.make_dust("dust10");
    let dust11 = arena.make_dust("dust11");
    let dust12 = arena.make_dust("dust12");
    let dust13 = arena.make_dust("dust13");
    let dust14 = arena.make_dust("dust14");
    let dust15 = arena.make_dust("dust15");
    let dust16 = arena.make_dust("dust16");
    let dust17 = arena.make_dust("dust17");

    arena.link(torch, dust1);
    arena.link(dust1, dust2);
    arena.link(dust2, dust3);
    arena.link(dust3, dust4);
    arena.link(dust4, dust5);
    arena.link(dust5, dust6);
    arena.link(dust6, dust7);
    arena.link(dust7, dust8);
    arena.link(dust8, dust9);
    arena.link(dust9, dust10);
    arena.link(dust10, dust11);
    arena.link(dust11, dust12);
    arena.link(dust12, dust13);
    arena.link(dust13, dust14);
    arena.link(dust14, dust15);
    arena.link(dust15, dust16);
    arena.link(dust16, dust17);

    ruststone::add_weighted_edge(&mut arena, dust1, torch, 1);
    ruststone::add_weighted_edge(&mut arena, dust2, torch, 2);
    ruststone::add_weighted_edge(&mut arena, dust3, torch, 3);
    ruststone::add_weighted_edge(&mut arena, dust4, torch, 4);
    ruststone::add_weighted_edge(&mut arena, dust5, torch, 5);
    ruststone::add_weighted_edge(&mut arena, dust6, torch, 6);
    ruststone::add_weighted_edge(&mut arena, dust7, torch, 7);
    ruststone::add_weighted_edge(&mut arena, dust8, torch, 8);
    ruststone::add_weighted_edge(&mut arena, dust9, torch, 9);
    ruststone::add_weighted_edge(&mut arena, dust10, torch, 10);
    ruststone::add_weighted_edge(&mut arena, dust11, torch, 11);
    ruststone::add_weighted_edge(&mut arena, dust12, torch, 12);
    ruststone::add_weighted_edge(&mut arena, dust13, torch, 13);
    ruststone::add_weighted_edge(&mut arena, dust14, torch, 14);
    ruststone::add_weighted_edge(&mut arena, dust15, torch, 15);
    ruststone::add_weighted_edge(&mut arena, dust16, torch, 16);
    ruststone::add_weighted_edge(&mut arena, dust17, torch, 17);

    let mut rg = RedstoneGraph::collect(&mut arena, torch);
    assert!(rg.run(&mut arena, MAX_STEPS).is_ok());

    assert_eq!(arena.redstate(torch).get_power(), 16);
    assert_eq!(arena.redstate(dust15).get_power(), 1);
    assert_eq!(arena.redstate(dust16).get_power(), 0);
    assert_eq!(arena.redstate(dust17).get_power(), 0);
}

#[test]
fn redstone_tests_dust_in_the_middle_of_two_torches() {
    let mut arena = RedstoneArena::new();

    let torch_l = arena.make_torch("torch_l");
    let dust1 = arena.make_dust("dust1");
    let dust2 = arena.make_dust("dust2");
    let dust3 = arena.make_dust("dust3");
    let dust4 = arena.make_dust("dust4");
    let dust5 = arena.make_dust("dust5");
    let torch_r = arena.make_torch("torch_r");

    arena.link(torch_l, dust1);
    arena.link(dust1, dust2);
    arena.link(dust2, dust3);
    arena.link(dust3, dust4);
    arena.link(dust4, dust5);
    arena.link(torch_r, dust5);

    ruststone::add_weighted_edge(&mut arena, dust1, torch_l, 1);
    ruststone::add_weighted_edge(&mut arena, dust2, torch_l, 2);
    ruststone::add_weighted_edge(&mut arena, dust3, torch_l, 3);
    ruststone::add_weighted_edge(&mut arena, dust4, torch_l, 4);
    ruststone::add_weighted_edge(&mut arena, dust5, torch_l, 5);

    ruststone::add_weighted_edge(&mut arena, dust5, torch_r, 1);
    ruststone::add_weighted_edge(&mut arena, dust4, torch_r, 2);
    ruststone::add_weighted_edge(&mut arena, dust3, torch_r, 3);
    ruststone::add_weighted_edge(&mut arena, dust2, torch_r, 4);
    ruststone::add_weighted_edge(&mut arena, dust1, torch_r, 5);

    let mut rg = RedstoneGraph::collect(&mut arena, torch_l);
    assert!(rg.run(&mut arena, MAX_STEPS).is_ok());

    assert_eq!(arena.redstate(torch_l).get_power(), 16);
    assert_eq!(arena.redstate(dust1).get_power(), 15);
    assert_eq!(arena.redstate(dust2).get_power(), 14);
    assert_eq!(arena.redstate(dust3).get_power(), 13);
    assert_eq!(arena.redstate(dust4).get_power(), 14);
    assert_eq!(arena.redstate(dust5).get_power(), 15);
    assert_eq!(arena.redstate(torch_r).get_power(), 16);
}

#[test]
fn redstone_tests_torch_is_off_if_its_incoming_edge_is_on() {
    let mut arena = RedstoneArena::new();

    let torch = arena.make_torch("torch");
    let dust = arena.make_dust("dust");
    let normal_block = arena.make_block("normal_block");
    let output = arena.make_torch("output");

    arena.link(torch, dust);
    arena.link(dust, normal_block);
    arena.link(normal_block, output);

    ruststone::add_weighted_edge(&mut arena, dust, torch, 1);

    let mut rg = RedstoneGraph::collect(&mut arena, torch);
    assert!(rg.run(&mut arena, MAX_STEPS).is_ok());

    assert_eq!(arena.redstate(torch).get_power(), 16);
    assert_eq!(arena.redstate(dust).get_power(), 15);
    assert_eq!(arena.redstate(normal_block).get_power(), 0);
    assert!(arena.redstate(normal_block).is_forced());
    assert_eq!(arena.redstate(output).get_power(), 0);
}

#[test]
fn torch_and_dust_and_block_and_dust() {
    let mut arena = RedstoneArena::new();

    let torch = arena.make_torch("torch");
    let dust1 = arena.make_dust("dust1");
    let normal_block = arena.make_block("normal_block");
    let dust2 = arena.make_dust("dust2");

    arena.link(torch, dust1);
    arena.link(dust1, normal_block);
    arena.link(normal_block, dust2);

    ruststone::add_weighted_edge(&mut arena, dust1, torch, 1);

    let mut rg = RedstoneGraph::collect(&mut arena, torch);
    assert!(rg.run(&mut arena, MAX_STEPS).is_ok());

    assert_eq!(arena.redstate(torch).get_power(), 16);
    assert_eq!(arena.redstate(dust1).get_power(), 15);
    assert_eq!(arena.redstate(normal_block).get_power(), 0);
    assert!(arena.redstate(normal_block).is_forced());
    assert_eq!(arena.redstate(dust2).get_power(), 0);
}

#[test]
fn redstone_tests_and_gate() {
    let mut arena = RedstoneArena::new();

    let input_l = arena.make_torch("input_l");
    let input_r = arena.make_torch("input_r");
    let and_l = arena.make_torch("and_l");
    let and_r = arena.make_torch("and_r");
    let output = arena.make_torch("output");

    let dust_l = arena.make_dust("dust_l");
    let dust_m = arena.make_dust("dust_m");
    let dust_r = arena.make_dust("dust_r");

    let block_l = arena.make_block("block_l");
    let block_m = arena.make_block("block_m");
    let block_r = arena.make_block("block_r");

    arena.link(input_l, dust_l);
    arena.link(dust_l, block_l);
    arena.link(block_l, and_l);

    arena.link(input_r, dust_r);
    arena.link(dust_r, block_r);
    arena.link(block_r, and_r);

    arena.link(and_l, dust_m);
    arena.link(and_r, dust_m);
    arena.link(dust_m, block_m);

    arena.link(block_m, output);

    ruststone::add_weighted_edge(&mut arena, dust_l, input_l, 1);
    ruststone::add_weighted_edge(&mut arena, dust_r, input_r, 1);
    ruststone::add_weighted_edge(&mut arena, dust_m, and_l, 1);
    ruststone::add_weighted_edge(&mut arena, dust_m, and_r, 1);

    let mut rg = RedstoneGraph::collect(&mut arena, output);
    assert!(rg.run(&mut arena, MAX_STEPS).is_ok());

    assert!(arena.redstate(input_l).is_on());
    assert!(arena.redstate(input_r).is_on());
    assert!(arena.redstate(and_l).is_off());
    assert!(arena.redstate(and_r).is_off());
    assert!(arena.redstate(output).is_on());
}

#[test]
fn and_gate_with_both_arms_off() {
    let mut arena = RedstoneArena::new();

    let and_l = arena.make_torch("and_l");
    let and_r = arena.make_torch("and_r");
    let output = arena.make_torch("output");

    let dust_l = arena.make_dust("dust_l");
    let dust_m = arena.make_dust("dust_m");
    let dust_r = arena.make_dust("dust_r");

    let block_l = arena.make_block("block_l");
    let block_m = arena.make_block("block_m");
    let block_r = arena.make_block("block_r");

    arena.link(dust_l, block_l);
    arena.link(block_l, and_l);

    arena.link(dust_r, block_r);
    arena.link(block_r, and_r);

    arena.link(and_l, dust_m);
    arena.link(and_r, dust_m);
    arena.link(dust_m, block_m);

    arena.link(block_m, output);

    ruststone::add_weighted_edge(&mut arena, dust_m, and_l, 1);
    ruststone::add_weighted_edge(&mut arena, dust_m, and_r, 1);

    let mut rg = RedstoneGraph::collect(&mut arena, output);
    assert!(rg.run(&mut arena, MAX_STEPS).is_ok());

    assert!(arena.redstate(and_l).is_on());
    assert!(arena.redstate(and_r).is_on());
    assert!(arena.redstate(output).is_off());
}

#[test]
fn xor_gate() {
    let mut arena = RedstoneArena::new();

    let input_l = arena.make_torch("input_l");
    let input_dust_l = arena.make_dust("input_dust_l");
    let dust_block_l = arena.make_block("dust_block_l");
    let torch_on_top_block_l = arena.make_torch("torch_on_top_block_l");
    let torch_in_front_block_l = arena.make_torch("torch_in_front_block_l");
    let dust_after_inversion_l = arena.make_dust("dust_after_inversion_l");
    let dust_after_inversion_l2 = arena.make_dust("dust_after_inversion_l2");
    let block_after_inversion_l = arena.make_block("block_after_inversion_l");
    let torch_after_dust_inversion_l = arena.make_torch("torch_after_dust_inversion_l");

    arena.link(input_l, input_dust_l);
    arena.link(input_dust_l, dust_block_l);
    arena.link(dust_block_l, torch_on_top_block_l);
    arena.link(dust_block_l, torch_in_front_block_l);
    arena.link(torch_in_front_block_l, dust_after_inversion_l);
    arena.link(dust_after_inversion_l, dust_after_inversion_l2);
    arena.link(dust_after_inversion_l2, block_after_inversion_l);
    arena.link(block_after_inversion_l, torch_after_dust_inversion_l);

    ruststone::add_weighted_edge(&mut arena, input_dust_l, input_l, 1);
    ruststone::add_weighted_edge(&mut arena, dust_after_inversion_l, torch_in_front_block_l, 1);
    ruststone::add_weighted_edge(&mut arena, dust_after_inversion_l2, torch_in_front_block_l, 2);

    let input_r = arena.make_torch("input_r");
    let input_dust_r = arena.make_dust("input_dust_r");
    let dust_block_r = arena.make_block("dust_block_r");
    let torch_on_top_block_r = arena.make_torch("torch_on_top_block_r");
    let torch_in_front_block_r = arena.make_torch("torch_in_front_block_r");
    let dust_after_inversion_r = arena.make_dust("dust_after_inversion_r");
    let dust_after_inversion_r2 = arena.make_dust("dust_after_inversion_r2");
    let block_after_inversion_r = arena.make_block("block_after_inversion_r");
    let torch_after_dust_inversion_r = arena.make_torch("torch_after_dust_inversion_r");

    arena.link(input_r, input_dust_r);
    arena.link(input_dust_r, dust_block_r);
    arena.link(dust_block_r, torch_on_top_block_r);
    arena.link(dust_block_r, torch_in_front_block_r);
    arena.link(torch_in_front_block_r, dust_after_inversion_r);
    arena.link(dust_after_inversion_r, dust_after_inversion_r2);
    arena.link(dust_after_inversion_r2, block_after_inversion_r);
    arena.link(block_after_inversion_r, torch_after_dust_inversion_r);

    ruststone::add_weighted_edge(&mut arena, input_dust_r, input_r, 1);
    ruststone::add_weighted_edge(&mut arena, dust_after_inversion_r, torch_in_front_block_r, 1);
    ruststone::add_weighted_edge(&mut arena, dust_after_inversion_r2, torch_in_front_block_r, 2);

    let and_dust_1 = arena.make_dust("and_dust_1");
    let and_dust_2 = arena.make_dust("and_dust_2");
    let and_block = arena.make_block("and_block");
    let inversion_of_and = arena.make_torch("inversion_of_and");

    arena.link(torch_on_top_block_l, and_dust_1);
    arena.link(torch_on_top_block_r, and_dust_1);
    arena.link(and_dust_1, and_dust_2);
    arena.link(and_dust_2, and_block);
    arena.link(and_block, inversion_of_and);

    ruststone::add_weighted_edge(&mut arena, and_dust_1, torch_in_front_block_l, 1);
    ruststone::add_weighted_edge(&mut arena, and_dust_1, torch_in_front_block_r, 1);
    ruststone::add_weighted_edge(&mut arena, and_dust_2, torch_in_front_block_l, 2);
    ruststone::add_weighted_edge(&mut arena, and_dust_2, torch_in_front_block_r, 2);

    arena.link(inversion_of_and, dust_after_inversion_l);
    arena.link(inversion_of_and, dust_after_inversion_r);

    ruststone::add_weighted_edge(&mut arena, dust_after_inversion_l, inversion_of_and, 1);
    ruststone::add_weighted_edge(&mut arena, dust_after_inversion_l2, inversion_of_and, 2);
    ruststone::add_weighted_edge(&mut arena, dust_after_inversion_r, inversion_of_and, 1);
    ruststone::add_weighted_edge(&mut arena, dust_after_inversion_r2, inversion_of_and, 2);

    let output = arena.make_dust("output");

    arena.link(torch_after_dust_inversion_l, output);
    arena.link(torch_after_dust_inversion_r, output);

    ruststone::add_weighted_edge(&mut arena, output, torch_after_dust_inversion_l, 1);
    ruststone::add_weighted_edge(&mut arena, output, torch_after_dust_inversion_r, 1);

    let mut rg = RedstoneGraph::collect(&mut arena, output);
    assert!(rg.run(&mut arena, MAX_STEPS).is_ok());

    assert!(arena.redstate(input_l).is_on());
    assert!(arena.redstate(input_r).is_on());
    assert!(arena.redstate(torch_on_top_block_l).is_off());
    assert!(arena.redstate(torch_on_top_block_r).is_off());
    assert!(arena.redstate(torch_in_front_block_l).is_off());
    assert!(arena.redstate(torch_in_front_block_r).is_off());
    assert!(arena.redstate(inversion_of_and).is_on());
    assert!(arena.redstate(torch_after_dust_inversion_l).is_off());
    assert!(arena.redstate(torch_after_dust_inversion_r).is_off());
    assert!(arena.redstate(output).is_off());
}

#[test]
fn memory_cell() {
    let mut arena = RedstoneArena::new();

    let block_a = arena.make_block("block_a");
    let torch_a = arena.make_torch("torch_a");
    let dust_a1 = arena.make_dust("dust_a1");
    let dust_a2 = arena.make_dust("dust_a2");

    let block_b = arena.make_block("block_b");
    let torch_b = arena.make_torch("torch_b");
    let dust_b1 = arena.make_dust("dust_b1");
    let dust_b2 = arena.make_dust("dust_b2");

    arena.link(block_a, torch_a);
    arena.link(torch_a, dust_a1);
    arena.link(dust_a1, dust_a2);
    arena.link(dust_a2, block_b);

    ruststone::add_weighted_edge(&mut arena, dust_a1, torch_a, 1);
    ruststone::add_weighted_edge(&mut arena, dust_a2, torch_a, 2);

    arena.link(block_b, torch_b);
    arena.link(torch_b, dust_b1);
    arena.link(dust_b1, dust_b2);
    arena.link(dust_b2, block_a);

    ruststone::add_weighted_edge(&mut arena, dust_b1, torch_b, 1);
    ruststone::add_weighted_edge(&mut arena, dust_b2, torch_b, 2);

    let mut rg = RedstoneGraph::collect(&mut arena, block_a);
    assert!(rg.run(&mut arena, MAX_STEPS).is_ok());

    assert!(arena.redstate(torch_a).is_on());
    assert!(arena.redstate(torch_b).is_off());
}

#[test]
fn memory_cell_alt() {
    let mut arena = RedstoneArena::new();

    let block_a = arena.make_block("block_a");
    let torch_a = arena.make_torch("torch_a");
    let dust_a1 = arena.make_dust("dust_a1");
    let dust_a2 = arena.make_dust("dust_a2");

    let block_b = arena.make_block("block_b");
    let torch_b = arena.make_torch("torch_b");
    let dust_b1 = arena.make_dust("dust_b1");
    let dust_b2 = arena.make_dust("dust_b2");

    arena.link(block_a, torch_a);
    arena.link(torch_a, dust_a1);
    arena.link(dust_a1, dust_a2);
    arena.link(dust_a2, block_b);

    ruststone::add_weighted_edge(&mut arena, dust_a1, torch_a, 1);
    ruststone::add_weighted_edge(&mut arena, dust_a2, torch_a, 2);

    arena.link(block_b, torch_b);
    arena.link(torch_b, dust_b1);
    arena.link(dust_b1, dust_b2);
    arena.link(dust_b2, block_a);

    ruststone::add_weighted_edge(&mut arena, dust_b1, torch_b, 1);
    ruststone::add_weighted_edge(&mut arena, dust_b2, torch_b, 2);

    let mut rg = RedstoneGraph::collect(&mut arena, block_b);
    assert!(rg.run(&mut arena, MAX_STEPS).is_ok());

    assert!(arena.redstate(torch_a).is_off());
    assert!(arena.redstate(torch_b).is_on());
}

#[test]
fn torch_and_dust_and_block_and_repeater() {
    let mut arena = RedstoneArena::new();

    let torch = arena.make_torch("torch");
    let dust = arena.make_dust("dust");
    let block = arena.make_block("block");
    let repeater = arena.make_repeater("repeater", 1);

    arena.link(torch, dust);
    arena.link(dust, block);
    arena.link(block, repeater);

    ruststone::add_weighted_edge(&mut arena, dust, torch, 1);

    let mut rg = RedstoneGraph::collect(&mut arena, torch);
    assert!(rg.run(&mut arena, MAX_STEPS).is_ok());

    assert_eq!(arena.redstate(torch).get_power(), 16);
    assert_eq!(arena.redstate(dust).get_power(), 15);
    assert_eq!(arena.redstate(block).get_power(), 0);
    assert!(arena.redstate(block).is_forced());
    assert_eq!(arena.redstate(repeater).get_power(), 16);
}

#[test]
fn torch_and_dust_and_block_and_repeater_and_block_and_dust() {
    let mut arena = RedstoneArena::new();

    let torch = arena.make_torch("torch");
    let dust1 = arena.make_dust("dust1");
    let block1 = arena.make_block("block1");
    let repeater = arena.make_repeater("repeater", 1);
    let block2 = arena.make_block("block2");
    let dust2 = arena.make_dust("dust2");

    arena.link(torch, dust1);
    arena.link(dust1, block1);
    arena.link(block1, repeater);
    arena.link(repeater, block2);
    arena.link(block2, dust2);

    ruststone::add_weighted_edge(&mut arena, dust1, torch, 1);
    ruststone::add_weighted_edge(&mut arena, dust2, block2, 1);

    let mut rg = RedstoneGraph::collect(&mut arena, torch);
    assert!(rg.run(&mut arena, MAX_STEPS).is_ok());

    assert_eq!(arena.redstate(torch).get_power(), 16);
    assert_eq!(arena.redstate(dust1).get_power(), 15);
    assert_eq!(arena.redstate(block1).get_power(), 0);
    assert!(arena.redstate(block1).is_forced());
    assert_eq!(arena.redstate(repeater).get_power(), 16);
    assert_eq!(arena.redstate(block2).get_power(), 16);
    assert!(arena.redstate(block2).is_forced());
    assert_eq!(arena.redstate(dust2).get_power(), 15);
}

#[test]
fn repeater_locked_by_its_neighbor() {
    let mut arena = RedstoneArena::new();

    let torch = arena.make_torch("torch");
    let dust1 = arena.make_dust("dust1");
    let dust2 = arena.make_dust("dust2");
    let dust3 = arena.make_dust("dust3");
    let dust4 = arena.make_dust("dust4");
    let throughput = arena.make_repeater("throughput", 2);
    let locker = arena.make_repeater("locker", 1);
    let output = arena.make_dust("output");

    // |
    // ^<+
    // +++
    //  *
    arena.link(torch, dust1);
    arena.link(dust1, dust2);
    arena.link(dust1, dust3);
    arena.link(dust3, dust4);

    arena.link(dust2, throughput);
    arena.link(dust4, locker);

    arena.link(throughput, output);

    ruststone::add_weighted_edge(&mut arena, dust1, torch, 1);
    ruststone::add_weighted_edge(&mut arena, dust2, torch, 2);
    ruststone::add_weighted_edge(&mut arena, dust3, torch, 2);
    ruststone::add_weighted_edge(&mut arena, dust4, torch, 3);

    ruststone::add_weighted_edge(&mut arena, output, throughput, 1);

    ruststone::lock(&mut arena, throughput, locker);

    let mut rg = RedstoneGraph::collect(&mut arena, output);
    assert!(rg.run(&mut arena, MAX_STEPS).is_ok());

    assert!(arena.redstate(torch).is_on());
    assert_eq!(arena.redstate(dust1).get_power(), 15);
    assert_eq!(arena.redstate(dust2).get_power(), 14);
    assert_eq!(arena.redstate(dust3).get_power(), 14);
    assert_eq!(arena.redstate(dust4).get_power(), 13);
    assert!(arena.redstate(locker).is_on());
    assert!(arena.redstate(throughput).is_off());
    assert_eq!(arena.redstate(output).get_power(), 0);
}

#[test]
fn repeater_locked_by_its_slower_neighbor() {
    let mut arena = RedstoneArena::new();

    let torch = arena.make_torch("torch");
    let dust1 = arena.make_dust("dust1");
    let dust2 = arena.make_dust("dust2");
    let dust3 = arena.make_dust("dust3");
    let dust4 = arena.make_dust("dust4");
    let throughput = arena.make_repeater("throughput", 1);
    let locker = arena.make_repeater("locker", 2);
    let output = arena.make_dust("output");

    // |
    // ^<+
    // +++
    //  *
    arena.link(torch, dust1);
    arena.link(dust1, dust2);
    arena.link(dust1, dust3);
    arena.link(dust3, dust4);

    arena.link(dust2, throughput);
    arena.link(dust4, locker);

    arena.link(throughput, output);

    ruststone::add_weighted_edge(&mut arena, dust1, torch, 1);
    ruststone::add_weighted_edge(&mut arena, dust2, torch, 2);
    ruststone::add_weighted_edge(&mut arena, dust3, torch, 2);
    ruststone::add_weighted_edge(&mut arena, dust4, torch, 3);

    ruststone::add_weighted_edge(&mut arena, output, throughput, 1);

    ruststone::lock(&mut arena, throughput, locker);

    let mut rg = RedstoneGraph::collect(&mut arena, output);
    assert!(rg.run(&mut arena, MAX_STEPS).is_ok());

    assert!(arena.redstate(torch).is_on());
    assert_eq!(arena.redstate(dust1).get_power(), 15);
    assert_eq!(arena.redstate(dust2).get_power(), 14);
    assert_eq!(arena.redstate(dust3).get_power(), 14);
    assert_eq!(arena.redstate(dust4).get_power(), 13);
    assert!(arena.redstate(locker).is_on());
    assert!(arena.redstate(throughput).is_on());
    assert_eq!(arena.redstate(output).get_power(), 15);
}

#[test]
fn repeater_locked_simultaneously_by_its_neighbors() {
    let mut arena = RedstoneArena::new();

    let torch = arena.make_torch("torch");
    let dust1 = arena.make_dust("dust1");
    let dust2 = arena.make_dust("dust2");
    let dust3 = arena.make_dust("dust3");
    let dust4 = arena.make_dust("dust4");
    let throughput = arena.make_repeater("throughput", 1);
    let locker = arena.make_repeater("locker", 1);
    let output = arena.make_dust("output");

    // |
    // ^<+
    // +++
    //  *
    arena.link(torch, dust1);
    arena.link(dust1, dust2);
    arena.link(dust1, dust3);
    arena.link(dust3, dust4);

    arena.link(dust2, throughput);
    arena.link(dust4, locker);

    arena.link(throughput, output);

    ruststone::add_weighted_edge(&mut arena, dust1, torch, 1);
    ruststone::add_weighted_edge(&mut arena, dust2, torch, 2);
    ruststone::add_weighted_edge(&mut arena, dust3, torch, 2);
    ruststone::add_weighted_edge(&mut arena, dust4, torch, 3);

    ruststone::add_weighted_edge(&mut arena, output, throughput, 1);

    ruststone::lock(&mut arena, throughput, locker);

    let mut rg = RedstoneGraph::collect(&mut arena, output);
    assert!(rg.run(&mut arena, MAX_STEPS).is_ok());

    assert!(arena.redstate(torch).is_on());
    assert_eq!(arena.redstate(dust1).get_power(), 15);
    assert_eq!(arena.redstate(dust2).get_power(), 14);
    assert_eq!(arena.redstate(dust3).get_power(), 14);
    assert_eq!(arena.redstate(dust4).get_power(), 13);
    assert!(arena.redstate(locker).is_on());
    assert!(arena.redstate(throughput).is_off());
    assert_eq!(arena.redstate(output).get_power(), 0);
}

#[test]
fn and_gate_with_one_arm_off() {
    let mut arena = RedstoneArena::new();

    let input_r = arena.make_torch("input_r");
    let and_l = arena.make_torch("and_l");
    let and_r = arena.make_torch("and_r");
    let output = arena.make_torch("output");

    let dust_l = arena.make_dust("dust_l");
    let dust_m = arena.make_dust("dust_m");
    let dust_r = arena.make_dust("dust_r");

    let block_l = arena.make_block("block_l");
    let block_m = arena.make_block("block_m");
    let block_r = arena.make_block("block_r");

    arena.link(dust_l, block_l);
    arena.link(block_l, and_l);

    arena.link(input_r, dust_r);
    arena.link(dust_r, block_r);
    arena.link(block_r, and_r);

    arena.link(and_l, dust_m);
    arena.link(and_r, dust_m);
    arena.link(dust_m, block_m);

    arena.link(block_m, output);

    ruststone::add_weighted_edge(&mut arena, dust_r, input_r, 1);
    ruststone::add_weighted_edge(&mut arena, dust_m, and_l, 1);
    ruststone::add_weighted_edge(&mut arena, dust_m, and_r, 1);

    let mut rg = RedstoneGraph::collect(&mut arena, output);
    assert!(rg.run(&mut arena, MAX_STEPS).is_ok());

    assert!(arena.redstate(input_r).is_on());
    assert!(arena.redstate(and_l).is_on());
    assert!(arena.redstate(and_r).is_off());
    assert!(arena.redstate(output).is_on());

    // `dust_m` is dispatched once more in the frame in which `and_r` goes
    // out.  Of its sources only `and_r` was written in that frame, so the
    // dust loses the power that the lit `and_l` gave it, and the torch
    // behind it stays on.
    assert_eq!(arena.redstate(dust_m).get_power(), 0);
}

#[test]
fn xor_gate_with_left_off() {
    let mut arena = RedstoneArena::new();

    let input_dust_l = arena.make_dust("input_dust_l");
    let dust_block_l = arena.make_block("dust_block_l");
    let torch_on_top_block_l = arena.make_torch("torch_on_top_block_l");
    let torch_in_front_block_l = arena.make_torch("torch_in_front_block_l");
    let dust_after_inversion_l = arena.make_dust("dust_after_inversion_l");
    let dust_after_inversion_l2 = arena.make_dust("dust_after_inversion_l2");
    let block_after_inversion_l = arena.make_block("block_after_inversion_l");
    let torch_after_dust_inversion_l = arena.make_torch("torch_after_dust_inversion_l");

    arena.link(input_dust_l, dust_block_l);
    arena.link(dust_block_l, torch_on_top_block_l);
    arena.link(dust_block_l, torch_in_front_block_l);
    arena.link(torch_in_front_block_l, dust_after_inversion_l);
    arena.link(dust_after_inversion_l, dust_after_inversion_l2);
    arena.link(dust_after_inversion_l2, block_after_inversion_l);
    arena.link(block_after_inversion_l, torch_after_dust_inversion_l);

    ruststone::add_weighted_edge(&mut arena, dust_after_inversion_l, torch_in_front_block_l, 1);
    ruststone::add_weighted_edge(&mut arena, dust_after_inversion_l2, torch_in_front_block_l, 2);

    let input_r = arena.make_torch("input_r");
    let input_dust_r = arena.make_dust("input_dust_r");
    let dust_block_r = arena.make_block("dust_block_r");
    let torch_on_top_block_r = arena.make_torch("torch_on_top_block_r");
    let torch_in_front_block_r = arena.make_torch("torch_in_front_block_r");
    let dust_after_inversion_r = arena.make_dust("dust_after_inversion_r");
    let dust_after_inversion_r2 = arena.make_dust("dust_after_inversion_r2");
    let block_after_inversion_r = arena.make_block("block_after_inversion_r");
    let torch_after_dust_inversion_r = arena.make_torch("torch_after_dust_inversion_r");

    arena.link(input_r, input_dust_r);
    arena.link(input_dust_r, dust_block_r);
    arena.link(dust_block_r, torch_on_top_block_r);
    arena.link(dust_block_r, torch_in_front_block_r);
    arena.link(torch_in_front_block_r, dust_after_inversion_r);
    arena.link(dust_after_inversion_r, dust_after_inversion_r2);
    arena.link(dust_after_inversion_r2, block_after_inversion_r);
    arena.link(block_after_inversion_r, torch_after_dust_inversion_r);

    ruststone::add_weighted_edge(&mut arena, input_dust_r, input_r, 1);
    ruststone::add_weighted_edge(&mut arena, dust_after_inversion_r, torch_in_front_block_r, 1);
    ruststone::add_weighted_edge(&mut arena, dust_after_inversion_r2, torch_in_front_block_r, 2);

    let and_dust_1 = arena.make_dust("and_dust_1");
    let and_dust_2 = arena.make_dust("and_dust_2");
    let and_block = arena.make_block("and_block");
    let inversion_of_and = arena.make_torch("inversion_of_and");

    arena.link(torch_on_top_block_l, and_dust_1);
    arena.link(torch_on_top_block_r, and_dust_1);
    arena.link(and_dust_1, and_dust_2);
    arena.link(and_dust_2, and_block);
    arena.link(and_block, inversion_of_and);

    ruststone::add_weighted_edge(&mut arena, and_dust_1, torch_in_front_block_l, 1);
    ruststone::add_weighted_edge(&mut arena, and_dust_1, torch_in_front_block_r, 1);
    ruststone::add_weighted_edge(&mut arena, and_dust_2, torch_in_front_block_l, 2);
    ruststone::add_weighted_edge(&mut arena, and_dust_2, torch_in_front_block_r, 2);

    arena.link(inversion_of_and, dust_after_inversion_l);
    arena.link(inversion_of_and, dust_after_inversion_r);

    ruststone::add_weighted_edge(&mut arena, dust_after_inversion_l, inversion_of_and, 1);
    ruststone::add_weighted_edge(&mut arena, dust_after_inversion_l2, inversion_of_and, 2);
    ruststone::add_weighted_edge(&mut arena, dust_after_inversion_r, inversion_of_and, 1);
    ruststone::add_weighted_edge(&mut arena, dust_after_inversion_r2, inversion_of_and, 2);

    let output = arena.make_dust("output");

    arena.link(torch_after_dust_inversion_l, output);
    arena.link(torch_after_dust_inversion_r, output);

    ruststone::add_weighted_edge(&mut arena, output, torch_after_dust_inversion_l, 1);
    ruststone::add_weighted_edge(&mut arena, output, torch_after_dust_inversion_r, 1);

    let mut rg = RedstoneGraph::collect(&mut arena, output);
    assert!(rg.run(&mut arena, MAX_STEPS).is_ok());

    assert!(arena.redstate(input_r).is_on());
    assert!(arena.redstate(torch_on_top_block_l).is_on());
    assert!(arena.redstate(torch_on_top_block_r).is_off());
    assert!(arena.redstate(torch_in_front_block_l).is_on());
    assert!(arena.redstate(torch_in_front_block_r).is_off());
    assert!(arena.redstate(inversion_of_and).is_on());
    assert!(arena.redstate(torch_after_dust_inversion_l).is_off());
    assert!(arena.redstate(torch_after_dust_inversion_r).is_off());
    assert!(arena.redstate(output).is_off());

    // `and_dust_1` is dispatched once more in the frame in which
    // `torch_on_top_block_r` goes out.  Only that torch was written in that
    // frame, so the dust loses the power of the lit torch on the left, the
    // inversion behind it comes on and feeds both arms.
    assert_eq!(arena.redstate(and_dust_1).get_power(), 0);
}

#[test]
fn xor_gate_with_right_off() {
    let mut arena = RedstoneArena::new();

    let input_l = arena.make_torch("input_l");
    let input_dust_l = arena.make_dust("input_dust_l");
    let dust_block_l = arena.make_block("dust_block_l");
    let torch_on_top_block_l = arena.make_torch("torch_on_top_block_l");
    let torch_in_front_block_l = arena.make_torch("torch_in_front_block_l");
    let dust_after_inversion_l = arena.make_dust("dust_after_inversion_l");
    let dust_after_inversion_l2 = arena.make_dust("dust_after_inversion_l2");
    let block_after_inversion_l = arena.make_block("block_after_inversion_l");
    let torch_after_dust_inversion_l = arena.make_torch("torch_after_dust_inversion_l");

    arena.link(input_l, input_dust_l);
    arena.link(input_dust_l, dust_block_l);
    arena.link(dust_block_l, torch_on_top_block_l);
    arena.link(dust_block_l, torch_in_front_block_l);
    arena.link(torch_in_front_block_l, dust_after_inversion_l);
    arena.link(dust_after_inversion_l, dust_after_inversion_l2);
    arena.link(dust_after_inversion_l2, block_after_inversion_l);
    arena.link(block_after_inversion_l, torch_after_dust_inversion_l);

    ruststone::add_weighted_edge(&mut arena, input_dust_l, input_l, 1);
    ruststone::add_weighted_edge(&mut arena, dust_after_inversion_l, torch_in_front_block_l, 1);
    ruststone::add_weighted_edge(&mut arena, dust_after_inversion_l2, torch_in_front_block_l, 2);

    let input_dust_r = arena.make_dust("input_dust_r");
    let dust_block_r = arena.make_block("dust_block_r");
    let torch_on_top_block_r = arena.make_torch("torch_on_top_block_r");
    let torch_in_front_block_r = arena.make_torch("torch_in_front_block_r");
    let dust_after_inversion_r = arena.make_dust("dust_after_inversion_r");
    let dust_after_inversion_r2 = arena.make_dust("dust_after_inversion_r2");
    let block_after_inversion_r = arena.make_block("block_after_inversion_r");
    let torch_after_dust_inversion_r = arena.make_torch("torch_after_dust_inversion_r");

    arena.link(input_dust_r, dust_block_r);
    arena.link(dust_block_r, torch_on_top_block_r);
    arena.link(dust_block_r, torch_in_front_block_r);
    arena.link(torch_in_front_block_r, dust_after_inversion_r);
    arena.link(dust_after_inversion_r, dust_after_inversion_r2);
    arena.link(dust_after_inversion_r2, block_after_inversion_r);
    arena.link(block_after_inversion_r, torch_after_dust_inversion_r);

    ruststone::add_weighted_edge(&mut arena, dust_after_inversion_r, torch_in_front_block_r, 1);
    ruststone::add_weighted_edge(&mut arena, dust_after_inversion_r2, torch_in_front_block_r, 2);

    let and_dust_1 = arena.make_dust("and_dust_1");
    let and_dust_2 = arena.make_dust("and_dust_2");
    let and_block = arena.make_block("and_block");
    let inversion_of_and = arena.make_torch("inversion_of_and");

    arena.link(torch_on_top_block_l, and_dust_1);
    arena.link(torch_on_top_block_r, and_dust_1);
    arena.link(and_dust_1, and_dust_2);
    arena.link(and_dust_2, and_block);
    arena.link(and_block, inversion_of_and);

    ruststone::add_weighted_edge(&mut arena, and_dust_1, torch_in_front_block_l, 1);
    ruststone::add_weighted_edge(&mut arena, and_dust_1, torch_in_front_block_r, 1);
    ruststone::add_weighted_edge(&mut arena, and_dust_2, torch_in_front_block_l, 2);
    ruststone::add_weighted_edge(&mut arena, and_dust_2, torch_in_front_block_r, 2);

    arena.link(inversion_of_and, dust_after_inversion_l);
    arena.link(inversion_of_and, dust_after_inversion_r);

    ruststone::add_weighted_edge(&mut arena, dust_after_inversion_l, inversion_of_and, 1);
    ruststone::add_weighted_edge(&mut arena, dust_after_inversion_l2, inversion_of_and, 2);
    ruststone::add_weighted_edge(&mut arena, dust_after_inversion_r, inversion_of_and, 1);
    ruststone::add_weighted_edge(&mut arena, dust_after_inversion_r2, inversion_of_and, 2);

    let output = arena.make_dust("output");

    arena.link(torch_after_dust_inversion_l, output);
    arena.link(torch_after_dust_inversion_r, output);

    ruststone::add_weighted_edge(&mut arena, output, torch_after_dust_inversion_l, 1);
    ruststone::add_weighted_edge(&mut arena, output, torch_after_dust_inversion_r, 1);

    let mut rg = RedstoneGraph::collect(&mut arena, output);
    assert!(rg.run(&mut arena, MAX_STEPS).is_ok());

    assert!(arena.redstate(input_l).is_on());
    assert!(arena.redstate(torch_on_top_block_l).is_off());
    assert!(arena.redstate(torch_on_top_block_r).is_on());
    assert!(arena.redstate(torch_in_front_block_l).is_off());
    assert!(arena.redstate(torch_in_front_block_r).is_on());
    assert!(arena.redstate(inversion_of_and).is_on());
    assert!(arena.redstate(torch_after_dust_inversion_l).is_off());
    assert!(arena.redstate(torch_after_dust_inversion_r).is_off());
    assert!(arena.redstate(output).is_off());

    // `and_dust_1` is dispatched once more in the frame in which
    // `torch_on_top_block_l` goes out.  Only that torch was written in that
    // frame, so the dust loses the power of the lit torch on the right, the
    // inversion behind it comes on and feeds both arms.
    assert_eq!(arena.redstate(and_dust_1).get_power(), 0);
}

#[test]
fn xor_gate_with_both_off() {
    let mut arena = RedstoneArena::new();

    let input_dust_l = arena.make_dust("input_dust_l");
    let dust_block_l = arena.make_block("dust_block_l");
    let torch_on_top_block_l = arena.make_torch("torch_on_top_block_l");
    let torch_in_front_block_l = arena.make_torch("torch_in_front_block_l");
    let dust_after_inversion_l = arena.make_dust("dust_after_inversion_l");
    let dust_after_inversion_l2 = arena.make_dust("dust_after_inversion_l2");
    let block_after_inversion_l = arena.make_block("block_after_inversion_l");
    let torch_after_dust_inversion_l = arena.make_torch("torch_after_dust_inversion_l");

    arena.link(input_dust_l, dust_block_l);
    arena.link(dust_block_l, torch_on_top_block_l);
    arena.link(dust_block_l, torch_in_front_block_l);
    arena.link(torch_in_front_block_l, dust_after_inversion_l);
    arena.link(dust_after_inversion_l, dust_after_inversion_l2);
    arena.link(dust_after_inversion_l2, block_after_inversion_l);
    arena.link(block_after_inversion_l, torch_after_dust_inversion_l);

    ruststone::add_weighted_edge(&mut arena, dust_after_inversion_l, torch_in_front_block_l, 1);
    ruststone::add_weighted_edge(&mut arena, dust_after_inversion_l2, torch_in_front_block_l, 2);

    let input_dust_r = arena.make_dust("input_dust_r");
    let dust_block_r = arena.make_block("dust_block_r");
    let torch_on_top_block_r = arena.make_torch("torch_on_top_block_r");
    let torch_in_front_block_r = arena.make_torch("torch_in_front_block_r");
    let dust_after_inversion_r = arena.make_dust("dust_after_inversion_r");
    let dust_after_inversion_r2 = arena.make_dust("dust_after_inversion_r2");
    let block_after_inversion_r = arena.make_block("block_after_inversion_r");
    let torch_after_dust_inversion_r = arena.make_torch("torch_after_dust_inversion_r");

    arena.link(input_dust_r, dust_block_r);
    arena.link(dust_block_r, torch_on_top_block_r);
    arena.link(dust_block_r, torch_in_front_block_r);
    arena.link(torch_in_front_block_r, dust_after_inversion_r);
    arena.link(dust_after_inversion_r, dust_after_inversion_r2);
    arena.link(dust_after_inversion_r2, block_after_inversion_r);
    arena.link(block_after_inversion_r, torch_after_dust_inversion_r);

    ruststone::add_weighted_edge(&mut arena, dust_after_inversion_r, torch_in_front_block_r, 1);
    ruststone::add_weighted_edge(&mut arena, dust_after_inversion_r2, torch_in_front_block_r, 2);

    let and_dust_1 = arena.make_dust("and_dust_1");
    let and_dust_2 = arena.make_dust("and_dust_2");
    let and_block = arena.make_block("and_block");
    let inversion_of_and = arena.make_torch("inversion_of_and");

    arena.link(torch_on_top_block_l, and_dust_1);
    arena.link(torch_on_top_block_r, and_dust_1);
    arena.link(and_dust_1, and_dust_2);
    arena.link(and_dust_2, and_block);
    arena.link(and_block, inversion_of_and);

    ruststone::add_weighted_edge(&mut arena, and_dust_1, torch_in_front_block_l, 1);
    ruststone::add_weighted_edge(&mut arena, and_dust_1, torch_in_front_block_r, 1);
    ruststone::add_weighted_edge(&mut arena, and_dust_2, torch_in_front_block_l, 2);
    ruststone::add_weighted_edge(&mut arena, and_dust_2, torch_in_front_block_r, 2);

    arena.link(inversion_of_and, dust_after_inversion_l);
    arena.link(inversion_of_and, dust_after_inversion_r);

    ruststone::add_weighted_edge(&mut arena, dust_after_inversion_l, inversion_of_and, 1);
    ruststone::add_weighted_edge(&mut arena, dust_after_inversion_l2, inversion_of_and, 2);
    ruststone::add_weighted_edge(&mut arena, dust_after_inversion_r, inversion_of_and, 1);
    ruststone::add_weighted_edge(&mut arena, dust_after_inversion_r2, inversion_of_and, 2);

    let output = arena.make_dust("output");

    arena.link(torch_after_dust_inversion_l, output);
    arena.link(torch_after_dust_inversion_r, output);

    ruststone::add_weighted_edge(&mut arena, output, torch_after_dust_inversion_l, 1);
    ruststone::add_weighted_edge(&mut arena, output, torch_after_dust_inversion_r, 1);

    let mut rg = RedstoneGraph::collect(&mut arena, output);
    assert!(rg.run(&mut arena, MAX_STEPS).is_ok());

    assert!(arena.redstate(torch_on_top_block_l).is_on());
    assert!(arena.redstate(torch_on_top_block_r).is_on());
    assert!(arena.redstate(torch_in_front_block_l).is_on());
    assert!(arena.redstate(torch_in_front_block_r).is_on());
    assert!(arena.redstate(inversion_of_and).is_off());
    assert!(arena.redstate(torch_after_dust_inversion_l).is_on());
    assert!(arena.redstate(torch_after_dust_inversion_r).is_on());
    assert!(arena.redstate(output).is_on());

    // The dusts behind the two torches in front are dispatched once more in
    // the frame in which `inversion_of_and` goes out.  Only that torch was
    // written in that frame, so they lose the power of the lit torches in
    // front, and the torches behind them come on.
    assert_eq!(arena.redstate(dust_after_inversion_l).get_power(), 0);
    assert_eq!(arena.redstate(dust_after_inversion_r).get_power(), 0);
    assert_eq!(arena.redstate(output).get_power(), 15);
}
