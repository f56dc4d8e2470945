use cubecode::catalog::{Block, BlockCatalog, Mesh};
use cubecode::chunk::LayerChunkGenerator;
use cubecode::light_map::S_CHANNEL;
use cubecode::light_solver::LightSolver;
use cubecode::sun::seed_sunlight;
use cubecode::world::World;

fn entry(id: u16, mesh: Mesh) -> Block {
    Block { id, light_r: 0, light_g: 0, light_b: 0, mesh }
}

fn catalog() -> BlockCatalog {
    BlockCatalog::load(vec![
        entry(0, Mesh::Custom),
        entry(1, Mesh::Cube),
        entry(2, Mesh::Cube),
    ])
    .unwrap()
}

/// A world whose whole top layer is opaque, except for one open shaft.
fn roofed_world_with_shaft() -> World {
    let catalog = catalog();
    let generator = LayerChunkGenerator::from_top_layers(&[2]);
    let mut world = World::new(&generator, &catalog).unwrap();
    world.set_block(&[100, 255, 100], 0);
    world
}

#[test]
fn sunlight_fills_open_columns_down_to_the_first_cube() {
    let catalog = catalog();
    let mut world = roofed_world_with_shaft();
    let mut solver = LightSolver::new(S_CHANNEL);
    seed_sunlight(&mut world, &catalog, &mut solver);
    // the open shaft is fully lit, top to bottom, without attenuation
    for y in [0u8, 1, 100, 254, 255] {
        assert_eq!(world.get_light_level(&[100, y, 100], S_CHANNEL), 15);
    }
    // the roof itself and everything under it stay dark before solving
    assert_eq!(world.get_light_level(&[101, 255, 100], S_CHANNEL), 0);
    assert_eq!(world.get_light_level(&[101, 100, 100], S_CHANNEL), 0);
}

#[test]
fn sunlight_spreads_sideways_from_the_shaft_after_solving() {
    let catalog = catalog();
    let mut world = roofed_world_with_shaft();
    let mut solver = LightSolver::new(S_CHANNEL);
    seed_sunlight(&mut world, &catalog, &mut solver);
    solver.solve(&mut world, &catalog);
    assert_eq!(world.get_light_level(&[100, 100, 100], S_CHANNEL), 15);
    for d in 1..15u8 {
        assert_eq!(
            world.get_light_level(&[100 + d, 100, 100], S_CHANNEL),
            15 - d
        );
    }
    assert_eq!(world.get_light_level(&[115, 100, 100], S_CHANNEL), 0);
    // the opaque roof never lights up
    assert_eq!(world.get_light_level(&[101, 255, 100], S_CHANNEL), 0);
}

#[test]
fn fully_roofed_world_stays_dark() {
    let catalog = catalog();
    let generator = LayerChunkGenerator::from_top_layers(&[2]);
    let mut world = World::new(&generator, &catalog).unwrap();
    let mut solver = LightSolver::new(S_CHANNEL);
    seed_sunlight(&mut world, &catalog, &mut solver);
    solver.solve(&mut world, &catalog);
    for y in [0u8, 64, 254] {
        assert_eq!(world.get_light_level(&[40, y, 40], S_CHANNEL), 0);
    }
}
