use worldsync::world::{
    block_exists, destroy_block, BiomeType, Block, BlockType, Chunk, DestroyBlockError, Terrain,
    CHUNK_HEIGHT, CHUNK_WIDTH,
};

fn solid_chunk(number: u64, block_type: BlockType) -> Chunk {
    Chunk {
        blocks: [[Some(Block::new(block_type)); CHUNK_WIDTH]; CHUNK_HEIGHT],
        rendered: false,
        chunk_number: number,
    }
}

#[test]
fn a_chunk_has_64_rows_of_128_cells() {
    assert_eq!(CHUNK_HEIGHT, 64);
    assert_eq!(CHUNK_WIDTH, 128);
}

#[test]
fn every_biome_has_its_primary_block_and_its_ore() {
    let expected = [
        (BiomeType::Sand, BlockType::Sand, BlockType::Clay),
        (BiomeType::Sedimentary, BlockType::Limestone, BlockType::Coal),
        (BiomeType::Basalt, BlockType::Basalt, BlockType::Iron),
        (BiomeType::Felsic, BlockType::Granite, BlockType::Quartz),
        (BiomeType::Mafic, BlockType::Diabase, BlockType::Labradorite),
        (BiomeType::Ultramafic, BlockType::Gabbro, BlockType::Peridot),
    ];
    for (biome, primary, ore) in expected {
        assert_eq!(biome.primary_block(), primary);
        assert_eq!(biome.ore_block(), ore);
    }
}

#[test]
fn an_empty_terrain_has_no_chunks() {
    assert_eq!(Terrain::empty(), Terrain { chunks: vec![] });
    assert_eq!(Terrain::empty().find_chunk(0), None);
}

#[test]
fn chunks_are_found_by_their_number_not_their_place() {
    let terrain = Terrain {
        chunks: vec![
            solid_chunk(4, BlockType::Sand),
            solid_chunk(0, BlockType::Coal),
            solid_chunk(4, BlockType::Iron),
        ],
    };
    assert_eq!(terrain.find_chunk(0), Some(1));
    assert_eq!(terrain.find_chunk(4), Some(0));
    assert_eq!(terrain.find_chunk(1), None);
}

#[test]
fn clearing_a_cell_outside_the_grid_changes_nothing() {
    let mut chunk = solid_chunk(0, BlockType::Sand);
    chunk.clear_cell(CHUNK_WIDTH, 0);
    chunk.clear_cell(0, CHUNK_HEIGHT);
    assert_eq!(chunk, solid_chunk(0, BlockType::Sand));
    chunk.clear_cell(CHUNK_WIDTH - 1, CHUNK_HEIGHT - 1);
    assert_eq!(chunk.blocks[CHUNK_HEIGHT - 1][CHUNK_WIDTH - 1], None);
    assert_eq!(chunk.blocks[CHUNK_HEIGHT - 1][CHUNK_WIDTH - 2], Some(Block::new(BlockType::Sand)));
}

#[test]
fn a_destroyed_block_is_handed_back_and_gone() {
    let mut terrain = Terrain {
        chunks: vec![solid_chunk(0, BlockType::Sand), solid_chunk(1, BlockType::Coal)],
    };
    assert!(block_exists(5, 70, &terrain));
    assert_eq!(destroy_block(5, 70, &mut terrain), Ok(Block::new(BlockType::Coal)));
    assert!(!block_exists(5, 70, &terrain));
    assert_eq!(terrain.chunks[1].blocks[6][5], None);
    assert_eq!(terrain.chunks[0], solid_chunk(0, BlockType::Sand));
    assert_eq!(destroy_block(5, 70, &mut terrain), Err(DestroyBlockError::BlockDoesntExist));
}

#[test]
fn a_block_outside_the_world_cannot_be_destroyed() {
    let mut terrain = Terrain { chunks: vec![solid_chunk(0, BlockType::Sand)] };
    assert_eq!(destroy_block(CHUNK_WIDTH, 0, &mut terrain), Err(DestroyBlockError::InvalidX));
    assert_eq!(destroy_block(CHUNK_WIDTH, 999, &mut terrain), Err(DestroyBlockError::InvalidX));
    assert_eq!(
        destroy_block(0, CHUNK_HEIGHT, &mut terrain),
        Err(DestroyBlockError::ChunkNotLoaded)
    );
    assert_eq!(destroy_block(127, 63, &mut terrain), Ok(Block::new(BlockType::Sand)));
    assert!(!block_exists(CHUNK_WIDTH, 0, &terrain));
    assert!(!block_exists(0, CHUNK_HEIGHT, &terrain));
    assert!(block_exists(0, 0, &terrain));
}

#[test]
fn every_block_type_but_the_void_has_an_image() {
    assert_eq!(BlockType::Sand.image_file_path(), "Sand.png");
    assert_eq!(BlockType::Limestone.image_file_path(), "Limestone.png");
    assert_eq!(BlockType::PalmTreeBlock.image_file_path(), "PalmTreeBlock.png");
    assert_eq!(BlockType::Trunk.image_file_path(), "Trunk.png");
    assert_eq!(BlockType::CaveVoid.image_file_path(), "");
}

#[test]
fn a_crown_needs_room_left_and_right_of_the_trunk() {
    let mut chunk = Chunk {
        blocks: [[None; CHUNK_WIDTH]; CHUNK_HEIGHT],
        rendered: false,
        chunk_number: 0,
    };
    assert!(worldsync::world::structure_fit(&chunk, 10, 20));
    // the five leftmost columns and what lies outside the grid never fit
    assert!(!worldsync::world::structure_fit(&chunk, 4, 20));
    assert!(!worldsync::world::structure_fit(&chunk, CHUNK_WIDTH, 20));
    assert!(!worldsync::world::structure_fit(&chunk, 3, 63));
    assert!(worldsync::world::structure_fit(&chunk, 5, 61));
    // the trunk's own column does not matter
    chunk.blocks[20][8] = Some(Block::new(BlockType::Trunk));
    chunk.blocks[21][8] = Some(Block::new(BlockType::Trunk));
    assert!(worldsync::world::structure_fit(&chunk, 10, 20));
    for (x, y) in [(7, 20), (9, 20), (9, 21), (7, 21), (9, 22), (7, 22)] {
        let mut blocked = chunk.clone();
        blocked.blocks[y][x] = Some(Block::new(BlockType::Leaves));
        assert!(!worldsync::world::structure_fit(&blocked, 10, 20));
    }
    let mut elsewhere = chunk.clone();
    elsewhere.blocks[23][9] = Some(Block::new(BlockType::Leaves));
    elsewhere.blocks[19][7] = Some(Block::new(BlockType::Leaves));
    assert!(worldsync::world::structure_fit(&elsewhere, 10, 20));
}
