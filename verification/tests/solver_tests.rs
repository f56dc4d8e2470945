use cubecode::catalog::{Block, BlockCatalog, Mesh};
use cubecode::chunk::LayerChunkGenerator;
use cubecode::light_map::{G_CHANNEL, R_CHANNEL};
use cubecode::light_solver::LightSolver;
use cubecode::world::World;

fn entry(id: u16, mesh: Mesh) -> Block {
    Block { id, light_r: 0, light_g: 0, light_b: 0, mesh }
}

fn catalog() -> BlockCatalog {
    BlockCatalog::load(vec![
        entry(0, Mesh::Custom),
        entry(1, Mesh::Cube),
        entry(2, Mesh::Cube),
    ])
    .unwrap()
}

fn empty_world() -> World {
    let catalog = catalog();
    let generator = LayerChunkGenerator::new();
    World::new(&generator, &catalog).unwrap()
}

#[test]
fn neighbor_positions_respect_the_world_bounds() {
    assert_eq!(LightSolver::get_neighbor_pos(&[0, 0, 0], &[-1, 0, 0]), None);
    assert_eq!(LightSolver::get_neighbor_pos(&[255, 255, 255], &[1, 1, 1]), None);
    assert_eq!(
        LightSolver::get_neighbor_pos(&[1, 1, 1], &[-1, 0, 0]),
        Some([0, 1, 1])
    );
    assert_eq!(
        LightSolver::get_neighbor_pos(&[255, 0, 7], &[0, 0, 1]),
        Some([255, 0, 8])
    );
    assert_eq!(LightSolver::get_neighbor_pos(&[0, 9, 0], &[0, -1, 0]), Some([0, 8, 0]));
}

#[test]
fn add_writes_the_level_and_low_levels_are_no_ops() {
    let mut world = empty_world();
    let mut solver = LightSolver::new(R_CHANNEL);
    solver.add(&mut world, &[50, 50, 50], 1);
    assert_eq!(world.get_light_level(&[50, 50, 50], R_CHANNEL), 0);
    solver.add(&mut world, &[50, 50, 50], 9);
    assert_eq!(world.get_light_level(&[50, 50, 50], R_CHANNEL), 9);
}

#[test]
fn add_last_requeues_the_stored_level() {
    let catalog = catalog();
    let mut world = empty_world();
    let mut solver = LightSolver::new(R_CHANNEL);
    world.set_light_level(&[50, 50, 50], R_CHANNEL, 9);
    solver.add_last(&mut world, &[50, 50, 50]);
    assert_eq!(world.get_light_level(&[50, 50, 50], R_CHANNEL), 9);
    solver.solve(&mut world, &catalog);
    assert_eq!(world.get_light_level(&[51, 50, 50], R_CHANNEL), 8);
    assert_eq!(world.get_light_level(&[53, 50, 50], R_CHANNEL), 6);
}

#[test]
fn remove_zeroes_the_level_and_zero_is_a_no_op() {
    let mut world = empty_world();
    let mut solver = LightSolver::new(R_CHANNEL);
    solver.remove(&mut world, &[50, 50, 50]);
    assert_eq!(world.get_light_level(&[50, 50, 50], R_CHANNEL), 0);
    solver.add(&mut world, &[50, 50, 50], 9);
    solver.remove(&mut world, &[50, 50, 50]);
    assert_eq!(world.get_light_level(&[50, 50, 50], R_CHANNEL), 0);
}

#[test]
fn solve_spreads_with_levels_falling_by_one_per_hop() {
    let catalog = catalog();
    let mut world = empty_world();
    let mut solver = LightSolver::new(R_CHANNEL);
    solver.add(&mut world, &[50, 50, 50], 15);
    solver.solve(&mut world, &catalog);
    for d in 0..20u8 {
        let expected = if d < 15 { 15 - d } else { 0 };
        assert_eq!(world.get_light_level(&[50 + d, 50, 50], R_CHANNEL), expected);
    }
    // the fall-off is the same along every axis
    assert_eq!(world.get_light_level(&[50, 50, 57], R_CHANNEL), 8);
    assert_eq!(world.get_light_level(&[50, 44, 50], R_CHANNEL), 9);
    // and diagonal distances add up
    assert_eq!(world.get_light_level(&[52, 52, 50], R_CHANNEL), 11);
}

#[test]
fn depropagation_darkens_the_whole_corridor() {
    let catalog = catalog();
    let mut world = empty_world();
    let mut solver = LightSolver::new(R_CHANNEL);
    solver.add(&mut world, &[50, 50, 50], 15);
    solver.solve(&mut world, &catalog);
    assert_eq!(world.get_light_level(&[55, 50, 50], R_CHANNEL), 10);
    solver.remove(&mut world, &[50, 50, 50]);
    solver.solve(&mut world, &catalog);
    for d in 0..20u8 {
        assert_eq!(world.get_light_level(&[50 + d, 50, 50], R_CHANNEL), 0);
        assert_eq!(world.get_light_level(&[50, 50 + d, 50], R_CHANNEL), 0);
        assert_eq!(world.get_light_level(&[50, 50, 50 + d], R_CHANNEL), 0);
    }
}

#[test]
fn removing_one_of_two_sources_lets_the_other_reclaim() {
    let catalog = catalog();
    let mut world = empty_world();
    let mut solver = LightSolver::new(R_CHANNEL);
    solver.add(&mut world, &[50, 50, 50], 15);
    solver.add(&mut world, &[58, 50, 50], 15);
    solver.solve(&mut world, &catalog);
    assert_eq!(world.get_light_level(&[54, 50, 50], R_CHANNEL), 11);
    solver.remove(&mut world, &[58, 50, 50]);
    solver.solve(&mut world, &catalog);
    // the surviving source keeps its own gradient
    assert_eq!(world.get_light_level(&[54, 50, 50], R_CHANNEL), 11);
    assert_eq!(world.get_light_level(&[58, 50, 50], R_CHANNEL), 7);
}

#[test]
fn adjacent_equal_source_refloods_a_removed_one() {
    let catalog = catalog();
    let mut world = empty_world();
    let mut solver = LightSolver::new(R_CHANNEL);
    solver.add(&mut world, &[50, 50, 50], 15);
    solver.add(&mut world, &[51, 50, 50], 15);
    solver.solve(&mut world, &catalog);
    solver.remove(&mut world, &[50, 50, 50]);
    solver.solve(&mut world, &catalog);
    // the surviving neighbor sits at the same level as the erased one, so
    // the at-or-above rule re-queues it and it reclaims the erased voxel
    assert_eq!(world.get_light_level(&[51, 50, 50], R_CHANNEL), 15);
    assert_eq!(world.get_light_level(&[50, 50, 50], R_CHANNEL), 14);
    assert_eq!(world.get_light_level(&[49, 50, 50], R_CHANNEL), 13);
}

#[test]
fn opaque_block_stays_dark_and_shadows_the_straight_path() {
    let catalog = catalog();
    let mut world = empty_world();
    let mut solver = LightSolver::new(R_CHANNEL);
    // a full cube directly beside the emitter
    world.set_block(&[51, 50, 50], 1);
    solver.add(&mut world, &[50, 50, 50], 15);
    solver.solve(&mut world, &catalog);
    // no light enters the opaque voxel
    assert_eq!(world.get_light_level(&[51, 50, 50], R_CHANNEL), 0);
    // behind it light only arrives around the block: four hops instead of two
    assert_eq!(world.get_light_level(&[52, 50, 50], R_CHANNEL), 11);
    // an unobstructed direction still gets the straight-line level
    assert_eq!(world.get_light_level(&[48, 50, 50], R_CHANNEL), 13);
}

#[test]
fn channels_do_not_interact() {
    let catalog = catalog();
    let mut world = empty_world();
    let mut solver_r = LightSolver::new(R_CHANNEL);
    let mut solver_g = LightSolver::new(G_CHANNEL);
    solver_r.add(&mut world, &[50, 50, 50], 15);
    solver_r.solve(&mut world, &catalog);
    solver_g.add(&mut world, &[53, 50, 50], 7);
    solver_g.solve(&mut world, &catalog);
    assert_eq!(world.get_light_level(&[50, 50, 50], R_CHANNEL), 15);
    assert_eq!(world.get_light_level(&[53, 50, 50], R_CHANNEL), 12);
    assert_eq!(world.get_light_level(&[53, 50, 50], G_CHANNEL), 7);
    assert_eq!(world.get_light_level(&[50, 50, 50], G_CHANNEL), 4);
    solver_g.remove(&mut world, &[53, 50, 50]);
    solver_g.solve(&mut world, &catalog);
    assert_eq!(world.get_light_level(&[53, 50, 50], R_CHANNEL), 12);
    assert_eq!(world.get_light_level(&[53, 50, 50], G_CHANNEL), 0);
}

#[test]
fn resolving_without_new_work_changes_nothing() {
    let catalog = catalog();
    let mut world = empty_world();
    let mut solver = LightSolver::new(R_CHANNEL);
    solver.add(&mut world, &[50, 50, 50], 15);
    world.set_block(&[52, 50, 50], 1);
    solver.solve(&mut world, &catalog);
    let mut snapshot = Vec::new();
    for x in 30..70u8 {
        for y in 30..70u8 {
            snapshot.push(world.get_light_level(&[x, y, 50], R_CHANNEL));
        }
    }
    solver.solve(&mut world, &catalog);
    let mut k = 0;
    for x in 30..70u8 {
        for y in 30..70u8 {
            assert_eq!(world.get_light_level(&[x, y, 50], R_CHANNEL), snapshot[k]);
            k += 1;
        }
    }
}

#[test]
fn converged_light_is_monotonic_between_neighbors() {
    let catalog = catalog();
    let mut world = empty_world();
    let mut solver = LightSolver::new(R_CHANNEL);
    world.set_block(&[52, 50, 50], 1);
    world.set_block(&[52, 51, 50], 1);
    solver.add(&mut world, &[50, 50, 50], 15);
    solver.add(&mut world, &[56, 53, 50], 12);
    solver.solve(&mut world, &catalog);
    let offsets: [(i16, i16, i16); 6] =
        [(1, 0, 0), (-1, 0, 0), (0, 1, 0), (0, -1, 0), (0, 0, 1), (0, 0, -1)];
    for x in 35..70u8 {
        for y in 35..70u8 {
            for z in 35..70u8 {
                let pos = [x, y, z];
                if catalog.is_cube(world.get_block(&pos)) {
                    continue;
                }
                let level = world.get_light_level(&pos, R_CHANNEL);
                if level == 0 {
                    continue;
                }
                for (dx, dy, dz) in offsets {
                    let nx = x as i16 + dx;
                    let ny = y as i16 + dy;
                    let nz = z as i16 + dz;
                    if !(0..=255).contains(&nx) || !(0..=255).contains(&ny)
                        || !(0..=255).contains(&nz)
                    {
                        continue;
                    }
                    let npos = [nx as u8, ny as u8, nz as u8];
                    if catalog.is_cube(world.get_block(&npos)) {
                        continue;
                    }
                    // every open neighbor is at most one level darker
                    assert!(world.get_light_level(&npos, R_CHANNEL) + 1 >= level);
                }
            }
        }
    }
}
