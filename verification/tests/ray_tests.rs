use cubecode::catalog::{Block, BlockCatalog, Mesh};
use cubecode::chunk::LayerChunkGenerator;
use cubecode::ray::RAY_SCALE;
use cubecode::world::World;

fn entry(id: u16, mesh: Mesh) -> Block {
    Block { id, light_r: 0, light_g: 0, light_b: 0, mesh }
}

fn empty_world() -> World {
    let catalog = BlockCatalog::load(vec![
        entry(0, Mesh::Custom),
        entry(1, Mesh::Cube),
        entry(2, Mesh::Cube),
    ])
    .unwrap();
    let generator = LayerChunkGenerator::new();
    World::new(&generator, &catalog).unwrap()
}

fn fx(halves: i64) -> i64 {
    // a value counted in halves of a voxel, exact in fixed point
    halves * RAY_SCALE / 2
}

#[test]
fn ray_hits_the_first_block_on_its_line() {
    let mut world = empty_world();
    world.set_block(&[5, 0, 0], 2);
    let mut pdist = [0i64; 2];
    let mut norm = [0i8; 3];
    let mut iend = [0u8; 3];
    let hit = world.ray_get(
        &[fx(1), fx(1), fx(1)],
        &[RAY_SCALE, 0, 0],
        10 * RAY_SCALE,
        &mut pdist,
        &mut norm,
        &mut iend,
    );
    assert_eq!(hit, Some(2));
    assert_eq!(iend, [5, 0, 0]);
    assert_eq!(norm, [-1, 0, 0]);
    // the hit face sits 4.5 units from the origin
    assert_eq!(pdist[0] * 2, 9 * pdist[1]);
}

#[test]
fn ray_misses_when_the_reach_is_too_short() {
    let mut world = empty_world();
    world.set_block(&[5, 0, 0], 2);
    let mut pdist = [0i64; 2];
    let mut norm = [0i8; 3];
    let mut iend = [0u8; 3];
    let hit = world.ray_get(
        &[fx(1), fx(1), fx(1)],
        &[RAY_SCALE, 0, 0],
        4 * RAY_SCALE,
        &mut pdist,
        &mut norm,
        &mut iend,
    );
    assert_eq!(hit, None);
    assert_eq!(norm, [0, 0, 0]);
}

#[test]
fn ray_starting_inside_a_block_reports_it_with_a_zero_normal() {
    let mut world = empty_world();
    world.set_block(&[3, 4, 5], 1);
    let mut pdist = [0i64; 2];
    let mut norm = [0i8; 3];
    let mut iend = [0u8; 3];
    let hit = world.ray_get(
        &[fx(7), fx(9), fx(11)],
        &[0, RAY_SCALE, 0],
        RAY_SCALE,
        &mut pdist,
        &mut norm,
        &mut iend,
    );
    assert_eq!(hit, Some(1));
    assert_eq!(iend, [3, 4, 5]);
    assert_eq!(norm, [0, 0, 0]);
    assert_eq!(pdist, [0, 1]);
}

#[test]
fn ray_walking_down_reports_the_top_face() {
    let mut world = empty_world();
    world.set_block(&[10, 2, 10], 2);
    let mut pdist = [0i64; 2];
    let mut norm = [0i8; 3];
    let mut iend = [0u8; 3];
    let hit = world.ray_get(
        &[fx(21), fx(13), fx(21)],
        &[0, -RAY_SCALE, 0],
        20 * RAY_SCALE,
        &mut pdist,
        &mut norm,
        &mut iend,
    );
    assert_eq!(hit, Some(2));
    assert_eq!(iend, [10, 2, 10]);
    assert_eq!(norm, [0, 1, 0]);
}

#[test]
fn ray_leaving_the_world_reports_no_hit() {
    let world = empty_world();
    let mut pdist = [0i64; 2];
    let mut norm = [0i8; 3];
    let mut iend = [0u8; 3];
    let hit = world.ray_get(
        &[fx(1), fx(1), fx(1)],
        &[-RAY_SCALE, 0, 0],
        100 * RAY_SCALE,
        &mut pdist,
        &mut norm,
        &mut iend,
    );
    assert_eq!(hit, None);
    assert_eq!(norm, [0, 0, 0]);
}

#[test]
fn axis_ties_prefer_z_over_y_over_x() {
    let mut world = empty_world();
    // a diagonal ray from a voxel corner crosses all three boundaries at once;
    // the z axis must be stepped first, then y, then x
    world.set_block(&[1, 0, 0], 2);
    world.set_block(&[0, 1, 0], 2);
    world.set_block(&[0, 0, 1], 2);
    let mut pdist = [0i64; 2];
    let mut norm = [0i8; 3];
    let mut iend = [0u8; 3];
    let hit = world.ray_get(
        &[fx(1), fx(1), fx(1)],
        &[RAY_SCALE, RAY_SCALE, RAY_SCALE],
        10 * RAY_SCALE,
        &mut pdist,
        &mut norm,
        &mut iend,
    );
    assert_eq!(hit, Some(2));
    assert_eq!(iend, [0, 0, 1]);
    assert_eq!(norm, [0, 0, -1]);
}
