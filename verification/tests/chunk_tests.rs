use cubecode::catalog::{Block, BlockCatalog, BlockUsingError, Mesh};
use cubecode::chunk::{Chunk, ChunkLoadingError, LayerChunkGenerator, SubChunk, CHUNK_BYTES};

fn entry(id: u16, mesh: Mesh) -> Block {
    Block { id, light_r: 0, light_g: 0, light_b: 0, mesh }
}

fn catalog() -> BlockCatalog {
    BlockCatalog::load(vec![
        entry(0, Mesh::Custom),
        entry(1, Mesh::Cube),
        entry(2, Mesh::Cube),
        entry(700, Mesh::Cube),
    ])
    .unwrap()
}

fn chunk_block(chunk: &Chunk, s: usize, ly: usize, lz: usize, lx: usize) -> u16 {
    chunk.subchunks[s].data[ly * 256 + lz * 16 + lx]
}

#[test]
fn layer_generator_from_bottom_layers_fills_upward() {
    let generator = LayerChunkGenerator::from_bottom_layers(&[700, 2, 2]);
    assert_eq!(generator.layers[0], 700);
    assert_eq!(generator.layers[1], 2);
    assert_eq!(generator.layers[2], 2);
    assert_eq!(generator.layers[3], 0);
    assert_eq!(generator.layers[255], 0);
}

#[test]
fn layer_generator_from_top_layers_fills_downward() {
    let generator = LayerChunkGenerator::from_top_layers(&[700, 2]);
    assert_eq!(generator.layers[255], 700);
    assert_eq!(generator.layers[254], 2);
    assert_eq!(generator.layers[253], 0);
    assert_eq!(generator.layers[0], 0);
}

#[test]
fn layer_generator_new_is_empty() {
    let generator = LayerChunkGenerator::new();
    for y in 0..256 {
        assert_eq!(generator.layers[y], 0);
    }
}

#[test]
fn generated_chunk_translates_layer_ids_to_lids() {
    let catalog = catalog();
    let generator = LayerChunkGenerator::from_bottom_layers(&[700, 2]);
    let chunk = Chunk::new(&generator, &catalog).unwrap();
    // identifier 700 sits at lid 3, identifier 2 at lid 2
    assert_eq!(chunk_block(&chunk, 0, 0, 4, 9), 3);
    assert_eq!(chunk_block(&chunk, 0, 1, 0, 0), 2);
    assert_eq!(chunk_block(&chunk, 0, 2, 0, 0), 0);
    assert_eq!(chunk_block(&chunk, 15, 15, 15, 15), 0);
    assert!(chunk.subchunks.iter().all(|s| s.is_changed));
}

#[test]
fn generated_chunk_rejects_an_unknown_layer_id() {
    let catalog = catalog();
    let generator = LayerChunkGenerator::from_bottom_layers(&[700, 999]);
    assert!(matches!(
        Chunk::new(&generator, &catalog),
        Err(BlockUsingError::BlockNotFoundError)
    ));
}

#[test]
fn chunk_store_writes_big_endian_identifiers() {
    let catalog = catalog();
    let generator = LayerChunkGenerator::from_bottom_layers(&[700]);
    let chunk = Chunk::new(&generator, &catalog).unwrap();
    let bytes = chunk.store(&catalog).unwrap();
    assert_eq!(bytes.len(), CHUNK_BYTES);
    // the bottom plane holds identifier 700 = 0x02bc
    assert_eq!(bytes[0], 0x02);
    assert_eq!(bytes[1], 0xbc);
    // the plane above holds air
    assert_eq!(bytes[2 * 256], 0x00);
    assert_eq!(bytes[2 * 256 + 1], 0x00);
}

#[test]
fn chunk_store_then_load_round_trips() {
    let catalog = catalog();
    let generator = LayerChunkGenerator::from_bottom_layers(&[700, 2, 0, 2]);
    let chunk = Chunk::new(&generator, &catalog).unwrap();
    let bytes = chunk.store(&catalog).unwrap();
    let reloaded = Chunk::load(&catalog, &bytes).unwrap();
    for s in 0..16 {
        for i in 0..4096 {
            assert_eq!(reloaded.subchunks[s].data[i], chunk.subchunks[s].data[i]);
        }
    }
}

#[test]
fn chunk_load_rejects_a_short_stream() {
    let catalog = catalog();
    let bytes = vec![0u8; CHUNK_BYTES - 1];
    assert!(matches!(
        Chunk::load(&catalog, &bytes),
        Err(ChunkLoadingError::IdConstructError)
    ));
}

#[test]
fn chunk_load_rejects_an_unknown_identifier() {
    let catalog = catalog();
    let mut bytes = vec![0u8; CHUNK_BYTES];
    bytes[0] = 0x99;
    bytes[1] = 0x99;
    assert!(matches!(
        Chunk::load(&catalog, &bytes),
        Err(ChunkLoadingError::BlockNotFoundError)
    ));
}

#[test]
fn subchunk_new_is_dark_and_dirty() {
    let unit = SubChunk::new(vec![0u16; 4096]);
    assert!(unit.is_changed);
    assert_eq!(unit.light_map.get(&[1, 2, 3], 0), 0);
    assert_eq!(unit.data.len(), 4096);
}

#[test]
fn mesh_is_cube_distinguishes_the_variants() {
    assert!(Mesh::Cube.is_cube());
    assert!(!Mesh::Custom.is_cube());
}
