use cubecode::catalog::{
    Block, BlockCatalog, BlocksLoadingError, Mesh, AIR_BLOCK_ID, UNKNOWN_BLOCK_ID,
};

fn entry(id: u16, r: u8, g: u8, b: u8, mesh: Mesh) -> Block {
    Block { id, light_r: r, light_g: g, light_b: b, mesh }
}

fn default_entries() -> Vec<Block> {
    vec![
        entry(0, 0, 0, 0, Mesh::Custom),
        entry(1, 0, 0, 0, Mesh::Cube),
        entry(2, 0, 0, 0, Mesh::Cube),
        entry(3, 15, 10, 5, Mesh::Custom),
    ]
}

#[test]
fn load_accepts_a_valid_list() {
    let catalog = BlockCatalog::load(default_entries()).unwrap();
    assert_eq!(catalog.len(), 4);
    assert_eq!(catalog.get_block(3).light_r, 15);
    assert!(catalog.is_cube(2));
    assert!(!catalog.is_cube(0));
    assert!(!catalog.is_cube(3));
}

#[test]
fn unknown_lid_falls_back_to_the_unknown_entry() {
    let catalog = BlockCatalog::load(default_entries()).unwrap();
    let fallback = catalog.get_block(999);
    assert_eq!(fallback.id, catalog.get_block(UNKNOWN_BLOCK_ID).id);
    assert!(catalog.is_cube(999));
}

#[test]
fn load_rejects_a_missing_air_entry() {
    let mut entries = default_entries();
    entries[0].id = 7;
    assert!(matches!(
        BlockCatalog::load(entries),
        Err(BlocksLoadingError::DefaultBlockNotFoundError)
    ));
    assert!(matches!(
        BlockCatalog::load(vec![entry(AIR_BLOCK_ID, 0, 0, 0, Mesh::Custom)]),
        Err(BlocksLoadingError::DefaultBlockNotFoundError)
    ));
}

#[test]
fn load_rejects_a_repeated_identifier() {
    let mut entries = default_entries();
    entries[3].id = 2;
    assert!(matches!(
        BlockCatalog::load(entries),
        Err(BlocksLoadingError::RedefinitionError)
    ));
}

#[test]
fn load_rejects_an_emission_above_fifteen() {
    let mut entries = default_entries();
    entries[3].light_g = 16;
    assert!(matches!(
        BlockCatalog::load(entries),
        Err(BlocksLoadingError::EmissionRangeError)
    ));
}

#[test]
fn lid_and_id_translate_both_ways() {
    let entries = vec![
        entry(0, 0, 0, 0, Mesh::Custom),
        entry(1, 0, 0, 0, Mesh::Cube),
        entry(40, 0, 0, 0, Mesh::Cube),
    ];
    let catalog = BlockCatalog::load(entries).unwrap();
    assert_eq!(catalog.lid_of(40), Some(2));
    assert_eq!(catalog.lid_of(41), None);
    assert_eq!(catalog.id_of(2), Some(40));
    assert_eq!(catalog.id_of(3), None);
}
