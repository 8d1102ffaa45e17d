use ruststone::plan::{apply_ops, Op};
use ruststone::vec3::Vec3;
use ruststone::voxels::Voxel;
use ruststone::world::{
    is_linkable_from_dust, is_linkable_from_torch, key, position, vec3_neighbors, World, WorldError,
};
use ruststone::Redstone;

const MAX_STEPS: u64 = 100_000;

#[test]
fn keys_and_positions_correspond() {
    for at in [Vec3(0, 0, 0), Vec3(1, -2, 3), Vec3(i32::MIN, i32::MAX, -1), Vec3(i32::MAX, i32::MIN, 0)] {
        assert_eq!(position(key(at)), at);
    }
    assert_eq!(key(Vec3(i32::MIN, i32::MIN, i32::MIN)), 0);
    assert_eq!(key(Vec3(0, 0, 1)) - key(Vec3(0, 0, 0)), 1);
    assert_eq!(key(Vec3(0, 1, 0)) - key(Vec3(0, 0, 0)), 1 << 32);
    assert_eq!(key(Vec3(1, 0, 0)) - key(Vec3(0, 0, 0)), 1 << 64);
}

#[test]
fn neighbors_come_up_down_west_east_north_south() {
    let around = vec3_neighbors(Vec3(10, 20, 30));
    assert_eq!(
        around.components,
        [Vec3(10, 21, 30), Vec3(10, 19, 30), Vec3(9, 20, 30), Vec3(11, 20, 30), Vec3(10, 20, 29), Vec3(10, 20, 31)]
    );
    assert_eq!(*around.up(), Vec3(10, 21, 30));
    assert_eq!(*around.down(), Vec3(10, 19, 30));
    assert_eq!(*around.left(), Vec3(9, 20, 30));
    assert_eq!(*around.right(), Vec3(11, 20, 30));
    assert_eq!(*around.front(), Vec3(10, 20, 29));
    assert_eq!(*around.back(), Vec3(10, 20, 31));
}

#[test]
fn a_torch_links_to_dusts_and_to_the_stone_below_but_not_to_its_own_block() {
    let at = Vec3(0, 1, 0);
    let standing = Voxel::torch();
    let on_the_wall = Voxel::torch().facing_east();
    let stone = Voxel::stone().voxel();
    let dust = Voxel::dust().voxel();
    let torch = Voxel::torch().voxel();
    let air = Voxel::air().voxel();

    // the block below carries a standing torch
    assert!(!is_linkable_from_torch((at, &standing), (at.down(), &stone)));
    assert!(!is_linkable_from_torch((at, &standing), (at.down(), &dust)));
    // a torch on the wall powers the stone below
    assert!(is_linkable_from_torch((at, &on_the_wall), (at.down(), &stone)));
    assert!(!is_linkable_from_torch((at, &on_the_wall), (at.east(), &stone)));
    assert!(!is_linkable_from_torch((at, &on_the_wall), (at.east(), &dust)));
    // stones elsewhere are left alone
    assert!(!is_linkable_from_torch((at, &standing), (at.up(), &stone)));
    assert!(!is_linkable_from_torch((at, &standing), (at.west(), &stone)));
    // dusts all around are linked
    assert!(is_linkable_from_torch((at, &standing), (at.up(), &dust)));
    assert!(is_linkable_from_torch((at, &standing), (at.north(), &dust)));
    // torches and air never
    assert!(!is_linkable_from_torch((at, &standing), (at.south(), &torch)));
    assert!(!is_linkable_from_torch((at, &standing), (at.up(), &torch)));
    assert!(!is_linkable_from_torch((at, &standing), (at.south(), &air)));
}

#[test]
fn a_dust_links_to_the_dusts_next_to_it() {
    let at = Vec3(5, 5, 5);
    let me = Voxel::dust();
    let dust = Voxel::dust().voxel();
    let stone = Voxel::stone().voxel();

    for other in [at.up(), at.down(), at.west(), at.east(), at.north(), at.south()] {
        assert!(is_linkable_from_dust((at, &me), (other, &dust)));
        assert!(!is_linkable_from_dust((at, &me), (other, &stone)));
    }
    assert!(!is_linkable_from_dust((at, &me), (Vec3(6, 6, 5), &dust)));
    assert!(!is_linkable_from_dust((at, &me), (Vec3(5, 5, 7), &dust)));
}

#[test]
fn nodes_are_made_once_and_named_after_their_cell() {
    let mut world = World::new();
    world.set(Vec3(0, 0, 0), Voxel::stone().voxel());
    world.set(Vec3(0, 1, 0), Voxel::torch().voxel());
    world.set(Vec3(7, -3, 2), Voxel::dust().voxel());

    assert_eq!(world.node(Vec3(0, 1, 0)), None);
    let torch = world.get(Vec3(0, 1, 0)).unwrap();
    let dust = world.get(Vec3(7, -3, 2)).unwrap();
    let stone = world.get(Vec3(0, 0, 0)).unwrap();

    assert_eq!((torch, dust, stone), (0, 1, 2));
    assert_eq!(world.get(Vec3(0, 1, 0)), Some(torch));
    assert_eq!(world.node(Vec3(7, -3, 2)), Some(dust));
    assert_eq!(world.get(Vec3(1, 1, 1)), None);
    assert_eq!(world.name(torch), "torch (0, 1, 0)");
    assert_eq!(world.name(dust), "dust (7, -3, 2)");
    assert_eq!(world.name(stone), "stone (0, 0, 0)");
}

#[test]
fn a_cell_that_is_set_again_is_replaced() {
    let mut world = World::new();
    world.set(Vec3(1, 1, 1), Voxel::stone().voxel());
    world.set(Vec3(1, 1, 1), Voxel::dust().voxel());
    world.set(Vec3(1, 1, 2), Voxel::torch().facing_south().voxel());

    assert!(world.voxel(Vec3(1, 1, 1)).is_dust());
    assert_eq!(world.voxel(Vec3(1, 1, 2)), Voxel::torch().facing_south().voxel());
    assert!(world.voxel(Vec3(2, 1, 1)).is_air());
}

#[test]
fn a_dust_in_the_air_stops_the_run() {
    let mut world = World::new();
    world.set(Vec3(0, 0, 0), Voxel::stone().voxel());
    world.set(Vec3(0, 1, 0), Voxel::torch().voxel());
    world.set(Vec3(0, 1, 1), Voxel::dust().voxel());

    assert_eq!(world.run(MAX_STEPS), Err(WorldError::DustNotOnStone(Vec3(0, 1, 1))));
    // nodes were made, nothing was wired or solved
    let torch = world.get(Vec3(0, 1, 0)).unwrap();
    assert!(world.redstate(torch).is_off());
}

#[test]
fn a_crossing_of_dusts_has_more_links_than_a_dust_can_take() {
    let mut world = World::new();
    for at in [Vec3(0, 1, 0), Vec3(1, 1, 0), Vec3(-1, 1, 0), Vec3(0, 1, 1), Vec3(0, 1, -1)] {
        world.set(at.down(), Voxel::stone().voxel());
        world.set(at, Voxel::dust().voxel());
    }

    match world.run(MAX_STEPS) {
        Err(WorldError::Refused(Op::Link { .. })) => {}
        other => panic!("{other:?}"),
    }
}

#[test]
fn a_line_of_dusts_loses_one_power_per_step() {
    let mut world = World::new();
    world.set(Vec3(0, 0, 0), Voxel::stone().voxel());
    world.set(Vec3(0, 1, 0), Voxel::torch().voxel());
    for z in 1..=17 {
        world.set(Vec3(0, 0, z), Voxel::stone().voxel());
        world.set(Vec3(0, 1, z), Voxel::dust().voxel());
    }

    assert_eq!(world.run(MAX_STEPS), Ok(()));

    for z in 1..=17 {
        let dust = world.get(Vec3(0, 1, z)).unwrap();
        assert_eq!(world.redstate(dust).get_power() as i32, (16 - z).max(0));
    }
    let torch = world.get(Vec3(0, 1, 0)).unwrap();
    assert_eq!(world.redstate(torch).get_power(), 16);
}

#[test]
fn the_wiring_stops_at_the_first_step_that_is_refused() {
    let mut nodes = vec![Redstone::torch("torch"), Redstone::dust("dust"), Redstone::block("block")];
    let ops = vec![
        Op::Link { here: 1, there: 0 },
        Op::Source { dust: 1, source: 0, weight: 2 },
        Op::Link { here: 2, there: 0 },
        Op::Link { here: 0, there: 1 },
    ];

    assert_eq!(apply_ops(&mut nodes, &ops), Err(2));
    assert!(nodes[0].can_link_from());
    assert!(!nodes[0].can_link_into(false));

    let mut nodes = vec![Redstone::torch("torch"), Redstone::dust("dust")];
    assert_eq!(apply_ops(&mut nodes, &vec![Op::Source { dust: 0, source: 1, weight: 1 }]), Err(0));
    assert_eq!(apply_ops(&mut nodes, &vec![Op::Link { here: 0, there: 5 }]), Err(0));
    assert_eq!(apply_ops(&mut nodes, &ops[..2].to_vec()), Ok(()));
}

#[test]
fn stone_and_air_may_lie_at_the_edge_of_the_world() {
    let mut world = World::new();
    let corner = Vec3(i32::MAX, i32::MIN, i32::MAX);
    world.set(corner, Voxel::stone().voxel());
    world.set(Vec3(i32::MIN, 0, 0), Voxel::air().voxel());
    world.set(Vec3(0, 0, 0), Voxel::stone().voxel());
    world.set(Vec3(0, 1, 0), Voxel::torch().voxel());

    assert_eq!(world.run(MAX_STEPS), Ok(()));

    assert!(world.voxel(corner).is_stone());
    let block = world.get(corner).unwrap();
    assert_eq!(world.name(block), format!("stone ({}, {}, {})", i32::MAX, i32::MIN, i32::MAX));
    assert!(world.redstate(block).is_off());
    assert_eq!(world.get(Vec3(i32::MIN, 0, 0)), None);
    let torch = world.get(Vec3(0, 1, 0)).unwrap();
    assert_eq!(world.redstate(torch).get_power(), 16);
}
