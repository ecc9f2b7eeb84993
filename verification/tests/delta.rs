use worldsync::delta::{clone_deltas, BlockDelete, WorldDelta};
use worldsync::engine::{
    compute_deltas, first_relevant_chunk, last_relevant_chunk, DeltaError, RELEVANT_CHUNK_RADIUS,
};
use worldsync::world::{Block, BlockType, Chunk, Terrain, CHUNK_HEIGHT, CHUNK_WIDTH};

fn solid_chunk(number: u64, block_type: BlockType) -> Chunk {
    Chunk {
        blocks: [[Some(Block::new(block_type)); CHUNK_WIDTH]; CHUNK_HEIGHT],
        rendered: false,
        chunk_number: number,
    }
}

fn world(chunks: u64) -> Terrain {
    let mut terrain = Terrain::empty();
    for number in 0..chunks {
        terrain.chunks.push(solid_chunk(number, BlockType::Limestone));
    }
    terrain
}

fn delete(chunk_number: u64, x: usize, y: usize) -> WorldDelta {
    WorldDelta::BlockDelete(BlockDelete { chunk_number, x, y })
}

#[test]
fn new_chunks_replace_the_chunk_with_their_number() {
    let mut baseline = Terrain { chunks: vec![solid_chunk(7, BlockType::Sand)] };
    let update = WorldDelta::NewChunks(Terrain {
        chunks: vec![solid_chunk(3, BlockType::Coal), solid_chunk(7, BlockType::Iron)],
    });
    baseline.apply_delta(&update);
    assert_eq!(
        baseline,
        Terrain { chunks: vec![solid_chunk(7, BlockType::Iron), solid_chunk(3, BlockType::Coal)] }
    );
}

#[test]
fn a_later_copy_of_a_chunk_wins() {
    let mut baseline = Terrain::empty();
    baseline.apply_delta(&WorldDelta::NewChunks(Terrain {
        chunks: vec![solid_chunk(1, BlockType::Coal), solid_chunk(1, BlockType::Iron)],
    }));
    assert_eq!(baseline, Terrain { chunks: vec![solid_chunk(1, BlockType::Iron)] });
}

#[test]
fn a_block_delete_clears_exactly_one_cell() {
    let mut baseline = world(2);
    baseline.apply_delta(&delete(1, 5, 6));
    let mut expected = world(2);
    expected.chunks[1].blocks[6][5] = None;
    assert_eq!(baseline, expected);
    // deleting what is already gone is no failure and changes nothing
    baseline.apply_delta(&delete(1, 5, 6));
    assert_eq!(baseline, expected);
}

#[test]
fn a_block_delete_for_an_unknown_chunk_or_cell_changes_nothing() {
    let mut baseline = world(2);
    baseline.apply_delta(&delete(9, 5, 6));
    baseline.apply_delta(&delete(1, CHUNK_WIDTH, 0));
    baseline.apply_delta(&delete(1, 0, CHUNK_HEIGHT));
    baseline.apply_delta(&delete(1, usize::MAX, usize::MAX));
    assert_eq!(baseline, world(2));
}

#[test]
fn replay_order_matters() {
    let fresh = WorldDelta::NewChunks(Terrain { chunks: vec![solid_chunk(0, BlockType::Coal)] });
    let mut first = Terrain::empty();
    first.replay(&vec![fresh.clone(), delete(0, 1, 1)]);
    let mut expected = Terrain { chunks: vec![solid_chunk(0, BlockType::Coal)] };
    expected.chunks[0].blocks[1][1] = None;
    assert_eq!(first, expected);

    let mut second = Terrain::empty();
    second.replay(&vec![delete(0, 1, 1), fresh]);
    assert_eq!(second, Terrain { chunks: vec![solid_chunk(0, BlockType::Coal)] });
}

#[test]
fn replaying_an_applied_list_again_changes_nothing() {
    let deltas = vec![
        delete(0, 1, 1),
        WorldDelta::NewChunks(Terrain {
            chunks: vec![solid_chunk(2, BlockType::Coal), solid_chunk(5, BlockType::Iron)],
        }),
        delete(2, 3, 4),
        delete(0, 7, 7),
        delete(8, 0, 0),
        WorldDelta::NewChunks(Terrain { chunks: vec![solid_chunk(5, BlockType::Clay)] }),
        delete(5, 127, 63),
    ];
    let mut baseline = world(3);
    baseline.replay(&deltas);
    let once = baseline.clone();
    baseline.replay(&deltas);
    assert_eq!(baseline, once);
    assert_eq!(once.chunks.len(), 4);
    assert_eq!(once.chunks[0].blocks[1][1], None);
    assert_eq!(once.chunks[2].blocks[4][3], None);
    assert_eq!(once.chunks[3].chunk_number, 5);
    assert_eq!(once.chunks[3].blocks[63][127], None);
    assert_eq!(once.chunks[3].blocks[0][0], Some(Block::new(BlockType::Clay)));
}

#[test]
fn cloned_deltas_equal_their_source() {
    let deltas = vec![
        delete(0, 1, 1),
        WorldDelta::NewChunks(Terrain { chunks: vec![solid_chunk(2, BlockType::Coal)] }),
    ];
    assert_eq!(clone_deltas(&deltas), deltas);
}

#[test]
fn the_window_is_the_players_chunk_and_its_neighbours() {
    assert_eq!(RELEVANT_CHUNK_RADIUS, 1);
    assert_eq!((first_relevant_chunk(0), last_relevant_chunk(0)), (0, 1));
    assert_eq!((first_relevant_chunk(1), last_relevant_chunk(1)), (0, 2));
    assert_eq!((first_relevant_chunk(7), last_relevant_chunk(7)), (6, 8));
    assert_eq!(
        (first_relevant_chunk(u64::MAX), last_relevant_chunk(u64::MAX)),
        (u64::MAX - 1, u64::MAX)
    );
}

#[test]
fn a_peer_that_lacks_a_relevant_chunk_gets_the_whole_window() {
    let canonical = world(5);
    let baseline = Terrain { chunks: vec![solid_chunk(2, BlockType::Limestone)] };
    let deltas = compute_deltas(&canonical, &baseline, 2).unwrap();
    assert_eq!(
        deltas,
        vec![WorldDelta::NewChunks(Terrain {
            chunks: vec![
                solid_chunk(1, BlockType::Limestone),
                solid_chunk(2, BlockType::Limestone),
                solid_chunk(3, BlockType::Limestone),
            ],
        })]
    );
    let at_the_top = compute_deltas(&canonical, &Terrain::empty(), 0).unwrap();
    assert_eq!(
        at_the_top,
        vec![WorldDelta::NewChunks(Terrain {
            chunks: vec![
                solid_chunk(0, BlockType::Limestone),
                solid_chunk(1, BlockType::Limestone),
            ],
        })]
    );
}

#[test]
fn a_missing_canonical_chunk_is_an_error() {
    let canonical = world(2);
    assert_eq!(
        compute_deltas(&canonical, &Terrain::empty(), 1),
        Err(DeltaError::MissingChunk(2))
    );
    assert_eq!(
        compute_deltas(&canonical, &Terrain::empty(), 9),
        Err(DeltaError::MissingChunk(8))
    );
    assert_eq!(
        compute_deltas(&Terrain::empty(), &Terrain::empty(), 0),
        Err(DeltaError::MissingChunk(0))
    );
}

#[test]
fn a_peer_that_has_its_window_gets_the_deletions_row_by_row() {
    let mut canonical = world(3);
    canonical.chunks[1].blocks[2][9] = None;
    canonical.chunks[1].blocks[2][3] = None;
    canonical.chunks[1].blocks[0][100] = None;
    canonical.chunks[0].blocks[63][127] = None;
    let baseline = Terrain {
        chunks: vec![
            solid_chunk(1, BlockType::Limestone),
            solid_chunk(0, BlockType::Limestone),
            solid_chunk(2, BlockType::Limestone),
        ],
    };
    let deltas = compute_deltas(&canonical, &baseline, 1).unwrap();
    assert_eq!(
        deltas,
        vec![delete(1, 100, 0), delete(1, 3, 2), delete(1, 9, 2), delete(0, 127, 63)]
    );
}

#[test]
fn blocks_that_only_the_canonical_world_has_are_not_sent() {
    let canonical = world(2);
    let mut baseline = world(2);
    baseline.chunks[0].blocks[0][0] = None;
    assert_eq!(compute_deltas(&canonical, &baseline, 0), Ok(vec![]));
}

#[test]
fn a_baseline_chunk_that_the_world_lacks_is_passed_over() {
    let canonical = world(2);
    let mut baseline = world(2);
    baseline.chunks.push(solid_chunk(40, BlockType::Coal));
    assert_eq!(compute_deltas(&canonical, &baseline, 0), Ok(vec![]));
}

#[test]
fn an_up_to_date_peer_gets_an_empty_list() {
    let canonical = world(3);
    assert_eq!(compute_deltas(&canonical, &world(3), 1), Ok(vec![]));
}

#[test]
fn one_exchange_brings_the_baseline_up_to_date() {
    let mut canonical = world(4);
    let mut baseline = Terrain::empty();
    // first contact: the whole window
    let deltas = compute_deltas(&canonical, &baseline, 1).unwrap();
    baseline.replay(&deltas);
    assert_eq!(baseline, world(3));
    // the world loses blocks
    canonical.chunks[0].blocks[3][3] = None;
    canonical.chunks[2].blocks[10][20] = None;
    canonical.chunks[3].blocks[1][1] = None;
    let deltas = compute_deltas(&canonical, &baseline, 1).unwrap();
    assert_eq!(deltas.len(), 2);
    baseline.replay(&deltas);
    for number in 0..3 {
        assert_eq!(baseline.chunks[number], canonical.chunks[number]);
    }
    // the player moves down: chunk 3 is missing, the window is sent whole
    let deltas = compute_deltas(&canonical, &baseline, 2).unwrap();
    assert_eq!(deltas.len(), 1);
    baseline.replay(&deltas);
    assert_eq!(baseline, canonical);
}

#[test]
fn lists_that_were_never_delivered_do_no_harm() {
    let mut canonical = world(3);
    let mut baseline = world(3);
    // three ticks, three lists, all computed against the same baseline
    canonical.chunks[0].blocks[0][0] = None;
    let first = compute_deltas(&canonical, &baseline, 1).unwrap();
    canonical.chunks[1].blocks[1][1] = None;
    let second = compute_deltas(&canonical, &baseline, 1).unwrap();
    let after_second = canonical.clone();
    canonical.chunks[2].blocks[2][2] = None;
    let third = compute_deltas(&canonical, &baseline, 1).unwrap();
    // the first is lost, the second arrives
    assert_eq!(first.len(), 1);
    baseline.replay(&second);
    assert_eq!(baseline, after_second);
    // the third arrives although it was computed before the second was confirmed
    baseline.replay(&third);
    assert_eq!(baseline, canonical);
}
