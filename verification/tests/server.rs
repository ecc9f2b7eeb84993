use worldsync::delta::{BlockDelete, WorldDelta};
use worldsync::engine::DeltaError;
use worldsync::message::{
    ClientBodyElem, ClientHeader, ClientToServer, ServerBodyElem, ServerHeader, ServerToClient,
    FRAME_DIFFERENCE_BEFORE_DISCONNECT,
};
use worldsync::player::PlayerInput;
use worldsync::server::{
    age, enqueue_terrain, is_newer, process_client_message, take_outgoing, Acknowledgment,
    ConnectedClientInfo, MESSAGE_QUEUE_SIZE,
};
use worldsync::world::{Block, BlockType, Chunk, Terrain, CHUNK_HEIGHT, CHUNK_WIDTH};

fn solid_chunk(number: u64, block_type: BlockType) -> Chunk {
    Chunk {
        blocks: [[Some(Block::new(block_type)); CHUNK_WIDTH]; CHUNK_HEIGHT],
        rendered: false,
        chunk_number: number,
    }
}

fn world(chunks: u64) -> Terrain {
    let mut terrain = Terrain::empty();
    for number in 0..chunks {
        terrain.chunks.push(solid_chunk(number, BlockType::Limestone));
    }
    terrain
}

fn message(current: u64, ack: u64, bodies: Vec<ClientBodyElem>) -> ClientToServer {
    ClientToServer {
        header: ClientHeader { current_sequence: current, last_received_sequence: ack },
        bodies,
    }
}

fn walking_left() -> PlayerInput {
    PlayerInput { left: true, right: false, jump: false, mine: false, block_x: 0, block_y: 0 }
}

fn mining(block_x: usize, block_y: usize) -> PlayerInput {
    PlayerInput { left: false, right: false, jump: false, mine: true, block_x, block_y }
}

fn pending_keys(client: &ConnectedClientInfo) -> Vec<u64> {
    let mut keys: Vec<u64> = client.deltas.keys().copied().collect();
    keys.sort();
    keys
}

#[test]
fn a_fresh_connection_has_nothing_confirmed() {
    let client = ConnectedClientInfo::default();
    assert_eq!(client.last_ack, 0);
    assert!(client.bodies.is_empty());
    assert_eq!(client.until_drop, FRAME_DIFFERENCE_BEFORE_DISCONNECT);
    assert_eq!(client.last_confirmed_terrain, Terrain::empty());
    assert!(client.deltas.is_empty());
    assert_eq!(MESSAGE_QUEUE_SIZE, 20);
}

#[test]
fn an_acknowledgment_of_nothing_is_answered_all_the_same() {
    // the client sends current_sequence=5, last_received_sequence=0;
    // nothing is recorded under 0
    let mut client = ConnectedClientInfo::default();
    let mut input = PlayerInput::default();
    let status = process_client_message(
        &mut client,
        &message(5, 0, vec![ClientBodyElem::Ping, ClientBodyElem::Input(walking_left())]),
        &mut input,
    );
    assert_eq!(status, Acknowledgment::OutOfOrder);
    assert_eq!(client.last_ack, 0);
    assert_eq!(client.last_confirmed_terrain, Terrain::empty());
    assert!(client.deltas.is_empty());
    assert_eq!(client.bodies, vec![ServerBodyElem::Pong(5)]);
    assert_eq!(input, PlayerInput::default());
    // the server still answers with the current deltas at its new sequence
    let canonical = world(3);
    assert_eq!(enqueue_terrain(&canonical, 1, &mut client, 0), Ok(()));
    let expected = vec![WorldDelta::NewChunks(Terrain {
        chunks: vec![
            solid_chunk(0, BlockType::Limestone),
            solid_chunk(1, BlockType::Limestone),
        ],
    })];
    assert_eq!(pending_keys(&client), vec![1]);
    assert_eq!(client.deltas[&1], expected);
    assert_eq!(
        take_outgoing(&mut client, 1),
        ServerToClient {
            header: ServerHeader { sequence: 1 },
            bodies: vec![ServerBodyElem::Pong(5), ServerBodyElem::WorldDeltas(expected)],
        }
    );
}

#[test]
fn an_acknowledged_delta_list_becomes_part_of_the_baseline() {
    // the server emits NewChunks([chunk 3]) at sequence 10
    let canonical_chunk = solid_chunk(3, BlockType::Granite);
    let mut client = ConnectedClientInfo::default();
    client.deltas.insert(
        10,
        vec![WorldDelta::NewChunks(Terrain { chunks: vec![canonical_chunk.clone()] })],
    );
    // the client acknowledges 10 in its next packet
    let mut input = PlayerInput::default();
    let status = process_client_message(&mut client, &message(11, 10, vec![]), &mut input);
    assert_eq!(status, Acknowledgment::InOrder);
    assert_eq!(client.last_ack, 10);
    let place = client.last_confirmed_terrain.find_chunk(3).unwrap();
    assert_eq!(client.last_confirmed_terrain.chunks[place], canonical_chunk);
    assert!(!client.deltas.contains_key(&10));
}

#[test]
fn an_acknowledgment_prunes_everything_up_to_it() {
    let mut client = ConnectedClientInfo::default();
    client.last_confirmed_terrain = world(2);
    for sequence in [3u64, 5, 7, 9] {
        client.deltas.insert(
            sequence,
            vec![WorldDelta::BlockDelete(BlockDelete {
                chunk_number: 0,
                x: sequence as usize,
                y: 0,
            })],
        );
    }
    client.until_drop = 4;
    let mut input = PlayerInput::default();
    let status = process_client_message(&mut client, &message(1, 5, vec![]), &mut input);
    assert_eq!(status, Acknowledgment::InOrder);
    assert_eq!(pending_keys(&client), vec![7, 9]);
    assert_eq!(client.last_ack, 5);
    assert_eq!(client.until_drop, FRAME_DIFFERENCE_BEFORE_DISCONNECT);
    // only the list sent under 5 was replayed
    let mut expected = world(2);
    expected.chunks[0].blocks[0][5] = None;
    assert_eq!(client.last_confirmed_terrain, expected);
}

#[test]
fn an_acknowledgment_without_a_record_leaves_the_baseline_alone() {
    let mut client = ConnectedClientInfo::default();
    client.last_confirmed_terrain = world(1);
    client.deltas.insert(
        3,
        vec![WorldDelta::BlockDelete(BlockDelete { chunk_number: 0, x: 1, y: 1 })],
    );
    client.deltas.insert(8, vec![]);
    client.until_drop = 1;
    let mut input = PlayerInput::default();
    let status = process_client_message(
        &mut client,
        &message(1, 4, vec![ClientBodyElem::Input(walking_left())]),
        &mut input,
    );
    assert_eq!(status, Acknowledgment::StaleAcknowledgment);
    assert_eq!(client.last_confirmed_terrain, world(1));
    assert_eq!(client.last_ack, 4);
    assert_eq!(pending_keys(&client), vec![8]);
    assert_eq!(client.until_drop, FRAME_DIFFERENCE_BEFORE_DISCONNECT);
    assert_eq!(input, walking_left());
}

#[test]
fn the_acknowledged_sequence_never_goes_back() {
    let mut client = ConnectedClientInfo::default();
    client.last_confirmed_terrain = world(1);
    client.last_ack = 6;
    client.until_drop = 7;
    client.deltas.insert(
        6,
        vec![WorldDelta::BlockDelete(BlockDelete { chunk_number: 0, x: 1, y: 1 })],
    );
    client.deltas.insert(
        4,
        vec![WorldDelta::BlockDelete(BlockDelete { chunk_number: 0, x: 2, y: 2 })],
    );
    client.deltas.insert(9, vec![]);
    let mut input = mining(1, 1);
    for ack in [6u64, 4, 0, 5] {
        let status = process_client_message(
            &mut client,
            &message(20, ack, vec![ClientBodyElem::Input(walking_left())]),
            &mut input,
        );
        assert_eq!(status, Acknowledgment::OutOfOrder);
        assert_eq!(client.last_ack, 6);
        assert_eq!(client.last_confirmed_terrain, world(1));
        assert_eq!(pending_keys(&client), vec![4, 6, 9]);
        assert_eq!(client.until_drop, 7);
        // stale input never overwrites newer state
        assert_eq!(input, mining(1, 1));
    }
    let status = process_client_message(&mut client, &message(20, 7, vec![]), &mut input);
    assert_eq!(status, Acknowledgment::StaleAcknowledgment);
    assert_eq!(client.last_ack, 7);
}

#[test]
fn the_last_input_of_an_in_order_message_is_committed() {
    let mut client = ConnectedClientInfo::default();
    let mut input = PlayerInput::default();
    process_client_message(
        &mut client,
        &message(
            3,
            1,
            vec![
                ClientBodyElem::Input(walking_left()),
                ClientBodyElem::Ping,
                ClientBodyElem::Input(mining(4, 5)),
                ClientBodyElem::Ping,
            ],
        ),
        &mut input,
    );
    assert_eq!(input, mining(4, 5));
    assert_eq!(client.bodies, vec![ServerBodyElem::Pong(3), ServerBodyElem::Pong(3)]);
}

#[test]
fn pongs_for_pings_older_than_the_acknowledged_sequence_are_dropped() {
    let mut client = ConnectedClientInfo::default();
    client.last_ack = 10;
    client.bodies = vec![
        ServerBodyElem::Pong(3),
        ServerBodyElem::PlayerInfo(vec![]),
        ServerBodyElem::Pong(12),
        ServerBodyElem::Pong(10),
        ServerBodyElem::WorldDeltas(vec![]),
        ServerBodyElem::Pong(9),
    ];
    let mut input = PlayerInput::default();
    // out of order: what waits stays, but for the old pongs
    process_client_message(&mut client, &message(8, 10, vec![ClientBodyElem::Ping]), &mut input);
    assert_eq!(
        client.bodies,
        vec![
            ServerBodyElem::PlayerInfo(vec![]),
            ServerBodyElem::Pong(12),
            ServerBodyElem::Pong(10),
            ServerBodyElem::WorldDeltas(vec![]),
        ]
    );
    // in order: what waits is cleared first
    process_client_message(&mut client, &message(14, 11, vec![ClientBodyElem::Ping]), &mut input);
    assert_eq!(client.bodies, vec![ServerBodyElem::Pong(14)]);
    process_client_message(&mut client, &message(10, 11, vec![ClientBodyElem::Ping]), &mut input);
    assert_eq!(client.bodies, vec![ServerBodyElem::Pong(14)]);
}

#[test]
fn what_is_sent_is_recorded_as_pending_first() {
    let mut canonical = world(3);
    let mut client = ConnectedClientInfo::default();
    client.last_confirmed_terrain = world(3);
    canonical.chunks[1].blocks[4][4] = None;
    assert_eq!(enqueue_terrain(&canonical, 17, &mut client, 1), Ok(()));
    let expected = vec![WorldDelta::BlockDelete(BlockDelete { chunk_number: 1, x: 4, y: 4 })];
    assert_eq!(client.deltas[&17], expected);
    assert_eq!(client.bodies, vec![ServerBodyElem::WorldDeltas(expected)]);
    // the baseline only moves when the client confirms
    assert_eq!(client.last_confirmed_terrain, world(3));
}

#[test]
fn a_missing_canonical_chunk_stops_the_tick_for_that_peer() {
    let canonical = world(1);
    let mut client = ConnectedClientInfo::default();
    client.bodies = vec![ServerBodyElem::Pong(1)];
    assert_eq!(enqueue_terrain(&canonical, 3, &mut client, 0), Err(DeltaError::MissingChunk(1)));
    assert!(client.deltas.is_empty());
    assert_eq!(client.bodies, vec![ServerBodyElem::Pong(1)]);
}

#[test]
fn the_pending_log_grows_by_one_entry_per_tick_at_most() {
    let canonical = world(3);
    let mut client = ConnectedClientInfo::default();
    let mut input = PlayerInput::default();
    for sequence in 1..=15u64 {
        assert_eq!(enqueue_terrain(&canonical, sequence, &mut client, 1), Ok(()));
        assert!(client.deltas.len() as u64 <= sequence - client.last_ack);
        if sequence % 4 == 0 {
            // the client confirms what it got two ticks ago
            process_client_message(&mut client, &message(sequence, sequence - 2, vec![]), &mut input);
            assert_eq!(client.deltas.len(), 2);
        }
        assert!(client.deltas.len() as u64 <= sequence - client.last_ack);
    }
    // recording twice under one number keeps one entry
    assert_eq!(pending_keys(&client), vec![11, 12, 13, 14, 15]);
    assert_eq!(enqueue_terrain(&canonical, 15, &mut client, 1), Ok(()));
    assert_eq!(pending_keys(&client), vec![11, 12, 13, 14, 15]);
}

#[test]
fn only_pongs_are_repeated() {
    let mut client = ConnectedClientInfo::default();
    client.bodies = vec![
        ServerBodyElem::PlayerInfo(vec![]),
        ServerBodyElem::Pong(12),
        ServerBodyElem::WorldDeltas(vec![]),
        ServerBodyElem::Pong(10),
    ];
    let packet = take_outgoing(&mut client, 40);
    assert_eq!(packet.header, ServerHeader { sequence: 40 });
    assert_eq!(
        packet.bodies,
        vec![
            ServerBodyElem::PlayerInfo(vec![]),
            ServerBodyElem::Pong(12),
            ServerBodyElem::WorldDeltas(vec![]),
            ServerBodyElem::Pong(10),
        ]
    );
    assert_eq!(client.bodies, vec![ServerBodyElem::Pong(12), ServerBodyElem::Pong(10)]);
    let again = take_outgoing(&mut client, 41);
    assert_eq!(again.bodies, vec![ServerBodyElem::Pong(12), ServerBodyElem::Pong(10)]);
}

#[test]
fn a_connection_ages_until_its_time_runs_out() {
    let mut client = ConnectedClientInfo::default();
    for left in (0..FRAME_DIFFERENCE_BEFORE_DISCONNECT).rev() {
        assert!(!age(&mut client));
        assert_eq!(client.until_drop, left);
    }
    assert!(age(&mut client));
    assert_eq!(client.until_drop, 0);
    assert!(age(&mut client));
}

#[test]
fn newer_means_strictly_greater() {
    assert!(is_newer(6, 5));
    assert!(!is_newer(5, 5));
    assert!(!is_newer(4, 5));
    assert!(is_newer(u64::MAX, 0));
}

#[test]
fn acknowledged_lists_converge_whatever_was_lost() {
    let mut canonical = world(3);
    let mut client = ConnectedClientInfo::default();
    let mut input = PlayerInput::default();
    let mut worlds = vec![Terrain::empty()];
    for sequence in 1..=12u64 {
        // the world loses a block every tick
        canonical.chunks[(sequence % 3) as usize].blocks[sequence as usize][2 * sequence as usize] =
            None;
        assert_eq!(enqueue_terrain(&canonical, sequence, &mut client, 1), Ok(()));
        worlds.push(canonical.clone());
        // only every fifth packet is delivered and confirmed, two ticks late
        if sequence % 5 == 2 {
            let confirmed = sequence - 1;
            let status =
                process_client_message(&mut client, &message(sequence, confirmed, vec![]), &mut input);
            assert_eq!(status, Acknowledgment::InOrder);
            assert_eq!(client.last_confirmed_terrain, worlds[confirmed as usize]);
        }
    }
    let status = process_client_message(&mut client, &message(13, 12, vec![]), &mut input);
    assert_eq!(status, Acknowledgment::InOrder);
    assert_eq!(client.last_confirmed_terrain, canonical);
    assert!(client.deltas.is_empty());
}
