use cubecode::catalog::{Block, BlockCatalog, Mesh};
use cubecode::chunk::LayerChunkGenerator;
use cubecode::light_map::{B_CHANNEL, G_CHANNEL, R_CHANNEL, S_CHANNEL};
use cubecode::world::{World, WorldLoadingError, WORLD_BYTES};

fn entry(id: u16, mesh: Mesh) -> Block {
    Block { id, light_r: 0, light_g: 0, light_b: 0, mesh }
}

fn catalog() -> BlockCatalog {
    BlockCatalog::load(vec![
        entry(0, Mesh::Custom),
        entry(1, Mesh::Cube),
        entry(2, Mesh::Cube),
    ])
    .unwrap()
}

fn empty_world() -> World {
    let catalog = catalog();
    let generator = LayerChunkGenerator::new();
    World::new(&generator, &catalog).unwrap()
}

fn unit_index(cx: usize, cy: usize, cz: usize) -> usize {
    (cx * 16 + cz) * 16 + cy
}

fn clear_dirty(world: &mut World) {
    for unit in world.chunks.iter_mut() {
        unit.is_changed = false;
    }
}

#[test]
fn set_block_then_get_block() {
    let mut world = empty_world();
    assert_eq!(world.get_block(&[10, 20, 30]), 0);
    world.set_block(&[10, 20, 30], 2);
    assert_eq!(world.get_block(&[10, 20, 30]), 2);
    assert_eq!(world.get_block(&[10, 20, 31]), 0);
    assert_eq!(world.get_block(&[10, 21, 30]), 0);
    assert_eq!(world.get_block(&[11, 20, 30]), 0);
}

#[test]
fn set_block_marks_the_owning_unit_dirty() {
    let mut world = empty_world();
    clear_dirty(&mut world);
    world.set_block(&[10, 20, 30], 2);
    assert!(world.chunks[unit_index(0, 1, 1)].is_changed);
    assert!(!world.chunks[unit_index(0, 0, 1)].is_changed);
    assert!(!world.chunks[unit_index(1, 1, 1)].is_changed);
}

#[test]
fn set_block_at_a_face_marks_the_adjacent_unit_dirty() {
    let mut world = empty_world();
    clear_dirty(&mut world);
    // local x is 15, so the unit one step along x is marked too
    world.set_block(&[31, 20, 30], 2);
    assert!(world.chunks[unit_index(1, 1, 1)].is_changed);
    assert!(world.chunks[unit_index(2, 1, 1)].is_changed);
    assert!(!world.chunks[unit_index(0, 1, 1)].is_changed);

    clear_dirty(&mut world);
    // local y is 0, so the unit one step down is marked too
    world.set_block(&[31, 16, 30], 2);
    assert!(world.chunks[unit_index(1, 1, 1)].is_changed);
    assert!(world.chunks[unit_index(1, 0, 1)].is_changed);

    clear_dirty(&mut world);
    // at the world edge there is no further unit to mark
    world.set_block(&[255, 0, 0], 2);
    assert!(world.chunks[unit_index(15, 0, 0)].is_changed);
}

#[test]
fn set_light_level_is_per_channel_and_per_voxel() {
    let mut world = empty_world();
    world.set_light_level(&[100, 50, 200], R_CHANNEL, 13);
    world.set_light_level(&[100, 50, 200], S_CHANNEL, 4);
    assert_eq!(world.get_light_level(&[100, 50, 200], R_CHANNEL), 13);
    assert_eq!(world.get_light_level(&[100, 50, 200], G_CHANNEL), 0);
    assert_eq!(world.get_light_level(&[100, 50, 200], B_CHANNEL), 0);
    assert_eq!(world.get_light_level(&[100, 50, 200], S_CHANNEL), 4);
    assert_eq!(world.get_light_level(&[100, 50, 201], R_CHANNEL), 0);
}

#[test]
fn set_light_level_marks_only_the_owning_unit_dirty() {
    let mut world = empty_world();
    clear_dirty(&mut world);
    world.set_light_level(&[31, 20, 30], R_CHANNEL, 9);
    assert!(world.chunks[unit_index(1, 1, 1)].is_changed);
    assert!(!world.chunks[unit_index(2, 1, 1)].is_changed);
}

#[test]
fn world_store_then_load_round_trips_blocks_only() {
    let catalog = catalog();
    let mut world = empty_world();
    world.set_block(&[0, 0, 0], 1);
    world.set_block(&[255, 255, 255], 2);
    world.set_block(&[17, 140, 3], 2);
    world.set_light_level(&[17, 140, 3], G_CHANNEL, 7);
    let bytes = world.store(&catalog).unwrap();
    assert_eq!(bytes.len(), WORLD_BYTES);
    // stream layout: container column (x-major, then z), unit height, then
    // plane, row, column inside the unit, two big-endian bytes per voxel
    let si = (1 * 16 + 0) * 16 + 8; // container (1, 0), unit height 8
    let li = 12 * 256 + 3 * 16 + 1; // local position (1, 12, 3)
    let byte = (si * 4096 + li) * 2;
    assert_eq!(bytes[byte], 0x00);
    assert_eq!(bytes[byte + 1], 0x02);

    let mut other = empty_world();
    other.set_light_level(&[9, 9, 9], B_CHANNEL, 5);
    other.load(&catalog, &bytes).unwrap();
    assert_eq!(other.get_block(&[0, 0, 0]), 1);
    assert_eq!(other.get_block(&[255, 255, 255]), 2);
    assert_eq!(other.get_block(&[17, 140, 3]), 2);
    assert_eq!(other.get_block(&[17, 140, 4]), 0);
    // light is never persisted: the loading world keeps its own light
    assert_eq!(other.get_light_level(&[9, 9, 9], B_CHANNEL), 5);
    assert_eq!(other.get_light_level(&[17, 140, 3], G_CHANNEL), 0);
    // every storage unit is marked dirty by a load
    assert!(other.chunks.iter().all(|unit| unit.is_changed));
}

#[test]
fn world_load_rejects_a_short_stream_and_keeps_the_world() {
    let catalog = catalog();
    let mut world = empty_world();
    world.set_block(&[1, 1, 1], 2);
    let bytes = vec![0u8; 100];
    assert_eq!(
        world.load(&catalog, &bytes),
        Err(WorldLoadingError::InvalidChunkSizeError)
    );
    assert_eq!(world.get_block(&[1, 1, 1]), 2);
}

#[test]
fn world_load_rejects_an_unknown_identifier() {
    let catalog = catalog();
    let mut world = empty_world();
    let mut bytes = vec![0u8; WORLD_BYTES];
    bytes[0] = 0x99;
    bytes[1] = 0x98;
    assert_eq!(
        world.load(&catalog, &bytes),
        Err(WorldLoadingError::BlockNotFoundError)
    );
}
