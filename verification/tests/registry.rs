use worldsync::delta::WorldDelta;
use worldsync::engine::DeltaError;
use worldsync::message::{
    ClientAddress, ClientBodyElem, ClientHeader, ClientToServer, ServerBodyElem, ServerHeader,
    SingleNetPlayerInfo, SocketAddress, FRAME_DIFFERENCE_BEFORE_DISCONNECT,
};
use worldsync::player::{PlayerInput, PlayerPosition};
use worldsync::queue::Messages;
use worldsync::registry::Server;
use worldsync::server::MESSAGE_QUEUE_SIZE;
use worldsync::world::{Block, BlockType, Chunk, Terrain, CHUNK_HEIGHT, CHUNK_WIDTH};

fn address(last_octet: u32, port: u16) -> ClientAddress {
    ClientAddress { addr: SocketAddress::V4 { ip: 0x0a00_0000 + last_octet, port } }
}

fn packet(current: u64, ack: u64, bodies: Vec<ClientBodyElem>) -> ClientToServer {
    ClientToServer {
        header: ClientHeader { current_sequence: current, last_received_sequence: ack },
        bodies,
    }
}

fn solid_chunk(number: u64) -> Chunk {
    Chunk {
        blocks: [[Some(Block::new(BlockType::Limestone)); CHUNK_WIDTH]; CHUNK_HEIGHT],
        rendered: false,
        chunk_number: number,
    }
}

fn world(chunks: u64) -> Terrain {
    let mut terrain = Terrain::empty();
    for number in 0..chunks {
        terrain.chunks.push(solid_chunk(number));
    }
    terrain
}

fn mining(block_x: usize, block_y: usize) -> PlayerInput {
    PlayerInput { left: false, right: false, jump: false, mine: true, block_x, block_y }
}

fn inbound() -> Messages<(ClientAddress, ClientToServer)> {
    Messages::new(MESSAGE_QUEUE_SIZE)
}

#[test]
fn the_server_starts_at_sequence_one_without_players() {
    let mut server = Server::new();
    assert_eq!(server.sequence(), 1);
    assert_eq!(server.player_count(), 0);
    server.increase_network_tick();
    assert_eq!(server.sequence(), 2);
}

#[test]
fn two_datagrams_from_one_new_address_make_one_connection() {
    let mut server = Server::new();
    let mut queue = inbound();
    let newcomer = address(1, 4000);
    queue.push((newcomer, packet(1, 0, vec![ClientBodyElem::Ping])));
    queue.push((newcomer, packet(2, 0, vec![ClientBodyElem::Input(mining(3, 4))])));
    let arrivals = server.handle_messages(&mut queue);
    assert_eq!(queue.len(), 0);
    assert_eq!(arrivals.connected, vec![newcomer]);
    assert_eq!(arrivals.reconnected, vec![]);
    assert_eq!(server.player_count(), 1);
    let player = server.player(0).unwrap();
    assert_eq!(player.addr, newcomer);
    assert_eq!(player.position, PlayerPosition::default());
    assert_eq!(player.chunk_number, 0);
    // neither message was in order, so no input was committed, but the ping is answered
    assert_eq!(player.input, PlayerInput::default());
    let connection = player.connection.as_ref().unwrap();
    assert_eq!(connection.last_ack, 0);
    assert_eq!(connection.bodies, vec![ServerBodyElem::Pong(1)]);
    assert_eq!(connection.until_drop, FRAME_DIFFERENCE_BEFORE_DISCONNECT);
}

#[test]
fn messages_are_sorted_by_address() {
    let mut server = Server::new();
    let mut queue = inbound();
    let first = address(1, 4000);
    let second = address(2, 4000);
    let third = address(1, 4001);
    queue.push((first, packet(1, 0, vec![ClientBodyElem::Ping])));
    queue.push((second, packet(7, 0, vec![ClientBodyElem::Ping])));
    queue.push((first, packet(2, 0, vec![ClientBodyElem::Ping])));
    queue.push((third, packet(9, 3, vec![ClientBodyElem::Input(mining(1, 2))])));
    let arrivals = server.handle_messages(&mut queue);
    assert_eq!(arrivals.connected, vec![first, second, third]);
    assert_eq!(server.player_count(), 3);
    assert_eq!(server.find(first), Some(0));
    assert_eq!(server.find(second), Some(1));
    assert_eq!(server.find(third), Some(2));
    assert_eq!(server.find(address(9, 9)), None);
    assert_eq!(
        server.player(0).unwrap().connection.as_ref().unwrap().bodies,
        vec![ServerBodyElem::Pong(1), ServerBodyElem::Pong(2)]
    );
    assert_eq!(
        server.player(1).unwrap().connection.as_ref().unwrap().bodies,
        vec![ServerBodyElem::Pong(7)]
    );
    assert_eq!(server.player(2).unwrap().input, mining(1, 2));
    assert_eq!(server.player(2).unwrap().connection.as_ref().unwrap().last_ack, 3);

    // the next tick the addresses are known
    queue.push((second, packet(8, 1, vec![ClientBodyElem::Input(mining(5, 5))])));
    let arrivals = server.handle_messages(&mut queue);
    assert_eq!(arrivals.connected, vec![]);
    assert_eq!(arrivals.reconnected, vec![]);
    assert_eq!(server.player_count(), 3);
    assert_eq!(server.player(1).unwrap().input, mining(5, 5));
}

#[test]
fn a_silent_peer_is_dropped_and_may_come_back() {
    let mut server = Server::new();
    let mut queue = inbound();
    let peer = address(1, 4000);
    let canonical = world(3);
    queue.push((peer, packet(1, 0, vec![])));
    server.handle_messages(&mut queue);
    assert!(server.set_position(
        0,
        PlayerPosition { x: 3.0f32.to_bits(), y: (-70.0f32).to_bits() },
        1
    ));
    assert!(!server.set_position(1, PlayerPosition::default(), 1));
    assert!(server.player(1).is_none());
    // the peer gets its baseline and confirms it
    assert_eq!(server.enqueue_terrain(&canonical), vec![]);
    let sent = server.sequence();
    server.send_all_messages();
    queue.push((peer, packet(2, sent, vec![ClientBodyElem::Input(mining(7, 7))])));
    server.handle_messages(&mut queue);
    assert_eq!(server.player(0).unwrap().connection.as_ref().unwrap().last_confirmed_terrain, canonical);

    // then it stops sending for the whole threshold
    for _ in 0..FRAME_DIFFERENCE_BEFORE_DISCONNECT {
        assert_eq!(server.drop_disconnected_clients(), vec![]);
        assert!(server.player(0).unwrap().connection.is_some());
    }
    assert_eq!(server.drop_disconnected_clients(), vec![peer]);
    // the connection is gone, the player stays
    assert_eq!(server.player_count(), 1);
    assert!(server.player(0).unwrap().connection.is_none());
    assert_eq!(server.player(0).unwrap().input, mining(7, 7));
    assert_eq!(server.player(0).unwrap().chunk_number, 1);
    assert_eq!(server.drop_disconnected_clients(), vec![]);
    // nothing is computed or sent for it
    assert_eq!(server.enqueue_terrain(&canonical), vec![]);
    assert_eq!(server.send_all_messages().len(), 0);

    // a later datagram from the same address makes a fresh connection
    queue.push((peer, packet(90, sent, vec![])));
    let arrivals = server.handle_messages(&mut queue);
    assert_eq!(arrivals.connected, vec![]);
    assert_eq!(arrivals.reconnected, vec![peer]);
    assert_eq!(server.player_count(), 1);
    assert_eq!(server.player(0).unwrap().input, mining(7, 7));
    {
        let connection = server.player(0).unwrap().connection.as_ref().unwrap();
        assert_eq!(connection.last_confirmed_terrain, Terrain::empty());
        assert!(connection.deltas.is_empty());
        assert_eq!(connection.last_ack, sent);
        assert_eq!(connection.until_drop, FRAME_DIFFERENCE_BEFORE_DISCONNECT);
    }
    // and the first outbound tick after resends the whole baseline
    server.increase_network_tick();
    assert_eq!(server.enqueue_terrain(&canonical), vec![]);
    let packets = server.send_all_messages();
    assert_eq!(packets.len(), 1);
    assert_eq!(packets[0].addr, peer);
    assert_eq!(packets[0].message.header, ServerHeader { sequence: 2 });
    assert_eq!(
        packets[0].message.bodies,
        vec![ServerBodyElem::WorldDeltas(vec![WorldDelta::NewChunks(canonical)])]
    );
}

#[test]
fn an_in_order_message_resets_the_countdown() {
    let mut server = Server::new();
    let mut queue = inbound();
    let peer = address(1, 4000);
    queue.push((peer, packet(1, 0, vec![])));
    server.handle_messages(&mut queue);
    for _ in 0..5 {
        server.drop_disconnected_clients();
    }
    assert_eq!(
        server.player(0).unwrap().connection.as_ref().unwrap().until_drop,
        FRAME_DIFFERENCE_BEFORE_DISCONNECT - 5
    );
    // a duplicate does not count
    queue.push((peer, packet(2, 0, vec![])));
    server.handle_messages(&mut queue);
    assert_eq!(
        server.player(0).unwrap().connection.as_ref().unwrap().until_drop,
        FRAME_DIFFERENCE_BEFORE_DISCONNECT - 5
    );
    queue.push((peer, packet(3, 1, vec![])));
    server.handle_messages(&mut queue);
    assert_eq!(
        server.player(0).unwrap().connection.as_ref().unwrap().until_drop,
        FRAME_DIFFERENCE_BEFORE_DISCONNECT
    );
}

#[test]
fn every_connected_player_is_told_where_the_connected_players_stand() {
    let mut server = Server::new();
    let mut queue = inbound();
    let a = address(1, 4000);
    let b = address(2, 4000);
    let c = address(3, 4000);
    assert!(server.restore_player(c, PlayerPosition { x: 9, y: 9 }, 0));
    assert!(!server.restore_player(c, PlayerPosition { x: 1, y: 1 }, 0));
    queue.push((a, packet(1, 0, vec![])));
    queue.push((b, packet(1, 0, vec![])));
    server.handle_messages(&mut queue);
    server.set_position(1, PlayerPosition { x: 11, y: 12 }, 0);
    server.set_position(2, PlayerPosition { x: 21, y: 22 }, 0);
    server.enqueue_player_info();
    let info_a = SingleNetPlayerInfo { addr: a, position: PlayerPosition { x: 11, y: 12 } };
    let info_b = SingleNetPlayerInfo { addr: b, position: PlayerPosition { x: 21, y: 22 } };
    // c is known but not connected: it is neither told nor told about
    assert!(server.player(0).unwrap().connection.is_none());
    assert_eq!(
        server.player(1).unwrap().connection.as_ref().unwrap().bodies,
        vec![ServerBodyElem::PlayerInfo(vec![info_a, info_b])]
    );
    assert_eq!(
        server.player(2).unwrap().connection.as_ref().unwrap().bodies,
        vec![ServerBodyElem::PlayerInfo(vec![info_b, info_a])]
    );
    let packets = server.send_all_messages();
    assert_eq!(packets.len(), 2);
    assert_eq!(packets[0].addr, a);
    assert_eq!(packets[1].addr, b);
    assert_eq!(packets[1].message.bodies, vec![ServerBodyElem::PlayerInfo(vec![info_b, info_a])]);
    assert!(server.player(1).unwrap().connection.as_ref().unwrap().bodies.is_empty());
}

#[test]
fn a_peer_that_needs_a_missing_chunk_is_reported() {
    let mut server = Server::new();
    let mut queue = inbound();
    let a = address(1, 4000);
    let b = address(2, 4000);
    queue.push((a, packet(1, 0, vec![])));
    queue.push((b, packet(1, 0, vec![])));
    server.handle_messages(&mut queue);
    server.set_position(1, PlayerPosition::default(), 5);
    let canonical = world(3);
    assert_eq!(server.enqueue_terrain(&canonical), vec![(b, DeltaError::MissingChunk(4))]);
    assert_eq!(server.player(0).unwrap().connection.as_ref().unwrap().deltas.len(), 1);
    assert!(server.player(1).unwrap().connection.as_ref().unwrap().deltas.is_empty());
    assert!(server.player(1).unwrap().connection.as_ref().unwrap().bodies.is_empty());
}

#[test]
fn mining_players_destroy_the_block_they_point_at() {
    let mut server = Server::new();
    let mut queue = inbound();
    queue.push((address(1, 1), packet(1, 1, vec![ClientBodyElem::Input(mining(5, 70))])));
    queue.push((address(2, 1), packet(1, 1, vec![ClientBodyElem::Input(mining(5, 70))])));
    queue.push((address(3, 1), packet(1, 1, vec![ClientBodyElem::Input(mining(500, 0))])));
    queue.push((
        address(4, 1),
        packet(
            1,
            1,
            vec![ClientBodyElem::Input(PlayerInput {
                left: true,
                right: false,
                jump: true,
                mine: false,
                block_x: 9,
                block_y: 9,
            })],
        ),
    ));
    server.handle_messages(&mut queue);
    let mut terrain = world(2);
    server.process_player_mining(&mut terrain);
    let mut expected = world(2);
    expected.chunks[1].blocks[6][5] = None;
    assert_eq!(terrain, expected);
}

#[test]
fn a_network_tick_runs_its_phases_in_order() {
    let mut server = Server::new();
    let mut queue = inbound();
    let mut terrain = world(3);
    let peer = address(1, 4000);

    // first tick: the peer arrives and is sent its window
    queue.push((peer, packet(1, 0, vec![ClientBodyElem::Ping])));
    let tick = server.network_tick(&mut queue, &mut terrain);
    assert_eq!(server.sequence(), 2);
    assert_eq!(queue.len(), 0);
    assert_eq!(tick.arrivals.connected, vec![peer]);
    assert_eq!(tick.failures, vec![]);
    assert_eq!(tick.dropped, vec![]);
    assert_eq!(tick.outgoing.len(), 1);
    assert_eq!(tick.outgoing[0].addr, peer);
    assert_eq!(tick.outgoing[0].message.header, ServerHeader { sequence: 2 });
    assert_eq!(
        tick.outgoing[0].message.bodies,
        vec![
            ServerBodyElem::Pong(1),
            ServerBodyElem::PlayerInfo(vec![SingleNetPlayerInfo {
                addr: peer,
                position: PlayerPosition::default(),
            }]),
            ServerBodyElem::WorldDeltas(vec![WorldDelta::NewChunks(Terrain {
                chunks: vec![solid_chunk(0), solid_chunk(1)],
            })]),
        ]
    );
    {
        let connection = server.player(0).unwrap().connection.as_ref().unwrap();
        // the countdown has started, the pong is kept for the next packet
        assert_eq!(connection.until_drop, FRAME_DIFFERENCE_BEFORE_DISCONNECT - 1);
        assert_eq!(connection.bodies, vec![ServerBodyElem::Pong(1)]);
        assert_eq!(connection.deltas.len(), 1);
        assert!(connection.deltas.contains_key(&2));
    }

    // second tick: the peer confirms and mines; the acknowledgment is taken
    // before the deltas are computed, so the deletion is sent at once
    queue.push((peer, packet(2, 2, vec![ClientBodyElem::Input(mining(5, 70))])));
    let tick = server.network_tick(&mut queue, &mut terrain);
    assert_eq!(server.sequence(), 3);
    assert_eq!(terrain.chunks[1].blocks[6][5], None);
    assert_eq!(tick.outgoing.len(), 1);
    assert_eq!(
        tick.outgoing[0].message.bodies,
        vec![
            ServerBodyElem::PlayerInfo(vec![SingleNetPlayerInfo {
                addr: peer,
                position: PlayerPosition::default(),
            }]),
            ServerBodyElem::WorldDeltas(vec![WorldDelta::BlockDelete(
                worldsync::delta::BlockDelete { chunk_number: 1, x: 5, y: 6 }
            )]),
        ]
    );
    let connection = server.player(0).unwrap().connection.as_ref().unwrap();
    assert_eq!(connection.last_ack, 2);
    assert_eq!(
        connection.last_confirmed_terrain,
        Terrain { chunks: vec![solid_chunk(0), solid_chunk(1)] }
    );
    assert_eq!(connection.until_drop, FRAME_DIFFERENCE_BEFORE_DISCONNECT - 1);
}
