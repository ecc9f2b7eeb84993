use worldsync::client::{handle_messages, Client, MESSAGE_QUEUE_SIZE};
use worldsync::codec::encode_to_vec;
use worldsync::delta::{BlockDelete, WorldDelta};
use worldsync::message::{
    ClientAddress, ClientBodyElem, ClientHeader, ClientToServer, ReceiveError, ServerBodyElem,
    ServerHeader, ServerToClient, SocketAddress, FRAME_DIFFERENCE_BEFORE_DISCONNECT,
};
use worldsync::player::PlayerInput;
use worldsync::queue::Messages;
use worldsync::wire::DecodeFailure;
use worldsync::world::{Block, BlockType, Chunk, Terrain, CHUNK_HEIGHT, CHUNK_WIDTH};

fn server_address() -> ClientAddress {
    ClientAddress { addr: SocketAddress::V4 { ip: 0x7f00_0001, port: 8888 } }
}

fn from_server(sequence: u64, bodies: Vec<ServerBodyElem>) -> ServerToClient {
    ServerToClient { header: ServerHeader { sequence }, bodies }
}

fn solid_chunk(number: u64) -> Chunk {
    Chunk {
        blocks: [[Some(Block::new(BlockType::Limestone)); CHUNK_WIDTH]; CHUNK_HEIGHT],
        rendered: false,
        chunk_number: number,
    }
}

fn jumping() -> PlayerInput {
    PlayerInput { left: false, right: false, jump: true, mine: false, block_x: 0, block_y: 0 }
}

fn drain(queue: &mut Messages<ServerBodyElem>) -> Vec<ServerBodyElem> {
    let mut bodies = Vec::new();
    while let Some(body) = queue.pop() {
        bodies.push(body);
    }
    bodies
}

#[test]
fn a_new_client_has_sent_and_received_nothing() {
    let client = Client::new(server_address());
    assert_eq!(client.current_sequence(), 0);
    assert_eq!(client.last_received_sequence(), 0);
    assert!(!client.is_paused());
    assert_eq!(MESSAGE_QUEUE_SIZE, 10);
}

#[test]
fn a_packet_carries_both_sequence_numbers_and_all_that_waits() {
    let mut client = Client::new(server_address());
    client.increase_tick();
    client.increase_tick();
    assert!(client.p_queues_ping());
    client.queue_inputs(jumping());
    // one ping per packet
    assert!(!client.p_queues_ping());
    let packet = client.send_bodies().unwrap();
    assert_eq!(
        packet,
        ClientToServer {
            header: ClientHeader { current_sequence: 2, last_received_sequence: 0 },
            bodies: vec![ClientBodyElem::Ping, ClientBodyElem::Input(jumping())],
        }
    );
    // the client never repeats what it sent
    assert_eq!(client.send_bodies().unwrap().bodies, vec![]);
    assert!(client.p_queues_ping());
}

#[test]
fn a_newer_message_moves_the_client_to_the_servers_sequence() {
    let mut client = Client::new(server_address());
    let mut queue = Messages::new(MESSAGE_QUEUE_SIZE);
    client.increase_tick();
    assert!(client.fetch_message(&mut queue, from_server(40, vec![ServerBodyElem::Pong(1)])));
    assert_eq!(client.current_sequence(), 40);
    assert_eq!(client.last_received_sequence(), 40);
    client.increase_tick();
    assert_eq!(client.current_sequence(), 41);
    // duplicates and older messages are ignored
    assert!(!client.fetch_message(&mut queue, from_server(40, vec![ServerBodyElem::Pong(2)])));
    assert!(!client.fetch_message(&mut queue, from_server(39, vec![ServerBodyElem::Pong(3)])));
    assert_eq!(client.current_sequence(), 41);
    assert_eq!(client.last_received_sequence(), 40);
    assert!(client.fetch_message(&mut queue, from_server(41, vec![ServerBodyElem::Pong(4)])));
    assert_eq!(drain(&mut queue), vec![ServerBodyElem::Pong(1), ServerBodyElem::Pong(4)]);
    let packet = client.send_bodies().unwrap();
    assert_eq!(packet.header, ClientHeader { current_sequence: 41, last_received_sequence: 41 });
}

#[test]
fn a_burst_of_bodies_pushes_the_oldest_out() {
    let mut client = Client::new(server_address());
    let mut queue = Messages::new(3);
    let bodies: Vec<ServerBodyElem> = (0..5).map(ServerBodyElem::Pong).collect();
    assert!(client.fetch_message(&mut queue, from_server(1, bodies)));
    assert_eq!(queue.len(), 3);
    assert!(client.fetch_message(&mut queue, from_server(2, vec![ServerBodyElem::Pong(9)])));
    assert_eq!(
        drain(&mut queue),
        vec![ServerBodyElem::Pong(3), ServerBodyElem::Pong(4), ServerBodyElem::Pong(9)]
    );
}

#[test]
fn only_the_server_is_listened_to() {
    let client = Client::new(server_address());
    let message = from_server(3, vec![ServerBodyElem::Pong(1)]);
    let bytes = encode_to_vec(&message);
    let stranger = ClientAddress { addr: SocketAddress::V4 { ip: 0x7f00_0001, port: 8889 } };
    assert_eq!(client.get_one_message(stranger, &bytes), Err(ReceiveError::UnknownSender));
    assert_eq!(client.get_one_message(stranger, &[]), Err(ReceiveError::UnknownSender));
    assert_eq!(client.get_one_message(server_address(), &bytes), Ok(message));
    assert_eq!(
        client.get_one_message(server_address(), &bytes[..2]),
        Err(ReceiveError::DecodeError(DecodeFailure::UnexpectedEnd))
    );
}

#[test]
fn a_paused_client_neither_sends_nor_listens() {
    let mut client = Client::new(server_address());
    let mut queue = Messages::new(MESSAGE_QUEUE_SIZE);
    client.queue_inputs(jumping());
    assert!(client.o_pause_client());
    assert!(client.is_paused());
    client.increase_tick();
    assert_eq!(client.current_sequence(), 0);
    assert!(!client.p_queues_ping());
    client.queue_inputs(jumping());
    assert_eq!(client.send_bodies(), None);
    assert!(!client.fetch_message(&mut queue, from_server(5, vec![ServerBodyElem::Pong(1)])));
    assert_eq!(queue.len(), 0);
    assert!(!client.client_timeout());
    assert!(!client.o_pause_client());
    assert_eq!(client.send_bodies().unwrap().bodies, vec![ClientBodyElem::Input(jumping())]);
}

#[test]
fn a_silent_server_times_the_client_out() {
    let mut client = Client::new(server_address());
    let mut queue = Messages::new(MESSAGE_QUEUE_SIZE);
    assert!(client.fetch_message(&mut queue, from_server(100, vec![])));
    for _ in 1..FRAME_DIFFERENCE_BEFORE_DISCONNECT {
        client.increase_tick();
        assert!(!client.client_timeout());
    }
    client.queue_inputs(jumping());
    client.increase_tick();
    assert_eq!(client.current_sequence(), 100 + FRAME_DIFFERENCE_BEFORE_DISCONNECT);
    assert!(client.client_timeout());
    // what waited is dropped
    assert_eq!(client.send_bodies().unwrap().bodies, vec![]);
    // a message from the server ends the silence
    assert!(client.fetch_message(&mut queue, from_server(130, vec![])));
    assert!(!client.client_timeout());
}

#[test]
fn world_deltas_are_replayed_and_the_rest_is_handed_back() {
    let mut queue = Messages::new(MESSAGE_QUEUE_SIZE);
    queue.push(ServerBodyElem::Pong(4));
    queue.push(ServerBodyElem::WorldDeltas(vec![WorldDelta::NewChunks(Terrain {
        chunks: vec![solid_chunk(0), solid_chunk(1)],
    })]));
    queue.push(ServerBodyElem::PlayerInfo(vec![]));
    queue.push(ServerBodyElem::WorldDeltas(vec![
        WorldDelta::BlockDelete(BlockDelete { chunk_number: 1, x: 2, y: 3 }),
        WorldDelta::BlockDelete(BlockDelete { chunk_number: 1, x: 2, y: 3 }),
        WorldDelta::BlockDelete(BlockDelete { chunk_number: 5, x: 0, y: 0 }),
    ]));
    let mut terrain = Terrain::empty();
    let others = handle_messages(&mut queue, &mut terrain);
    assert_eq!(others, vec![ServerBodyElem::Pong(4), ServerBodyElem::PlayerInfo(vec![])]);
    assert_eq!(queue.len(), 0);
    let mut expected = Terrain { chunks: vec![solid_chunk(0), solid_chunk(1)] };
    expected.chunks[1].blocks[3][2] = None;
    assert_eq!(terrain, expected);
}

#[test]
fn a_network_tick_of_the_client_runs_its_phases_in_order() {
    let mut client = Client::new(server_address());
    let mut queue = Messages::new(MESSAGE_QUEUE_SIZE);
    let mut terrain = Terrain::empty();
    assert!(client.fetch_message(
        &mut queue,
        from_server(
            7,
            vec![
                ServerBodyElem::WorldDeltas(vec![WorldDelta::NewChunks(Terrain {
                    chunks: vec![solid_chunk(0)],
                })]),
                ServerBodyElem::Pong(3),
            ]
        )
    ));
    let tick = client.network_tick(&mut queue, &mut terrain, jumping());
    assert_eq!(tick.others, vec![ServerBodyElem::Pong(3)]);
    assert_eq!(terrain, Terrain { chunks: vec![solid_chunk(0)] });
    assert_eq!(
        tick.packet,
        Some(ClientToServer {
            header: ClientHeader { current_sequence: 8, last_received_sequence: 7 },
            bodies: vec![ClientBodyElem::Input(jumping())],
        })
    );
    assert!(!tick.timeout);
    assert_eq!(queue.len(), 0);

    // the server falls silent
    for tick_number in 1..FRAME_DIFFERENCE_BEFORE_DISCONNECT {
        let tick = client.network_tick(&mut queue, &mut terrain, jumping());
        assert_eq!(tick.timeout, tick_number + 1 >= FRAME_DIFFERENCE_BEFORE_DISCONNECT);
        assert!(tick.packet.is_some());
    }
}

#[test]
fn the_clients_own_sequence_never_goes_back() {
    let mut client = Client::new(server_address());
    let mut queue = Messages::new(MESSAGE_QUEUE_SIZE);
    assert!(client.fetch_message(&mut queue, from_server(100, vec![])));
    for _ in 0..3 {
        client.increase_tick();
    }
    // a delayed packet: newer than the last received, older than the client's own count
    assert!(client.fetch_message(&mut queue, from_server(101, vec![])));
    assert_eq!(client.current_sequence(), 103);
    assert_eq!(client.last_received_sequence(), 101);
    client.increase_tick();
    let packet = client.send_bodies().unwrap();
    assert_eq!(packet.header, ClientHeader { current_sequence: 104, last_received_sequence: 101 });
    // a client that has fallen behind catches up
    assert!(client.fetch_message(&mut queue, from_server(500, vec![])));
    assert_eq!(client.current_sequence(), 500);
    assert_eq!(client.last_received_sequence(), 500);
}
