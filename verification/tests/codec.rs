use worldsync::codec::{encode_to_vec, receive_message, send_message};
use worldsync::delta::{BlockDelete, WorldDelta};
use worldsync::message::{
    ClientAddress, ClientBodyElem, ClientHeader, ClientToServer, ReceiveError, SendError,
    ServerBodyElem, ServerHeader, ServerToClient, SingleNetPlayerInfo, SocketAddress,
    BUFFER_SIZE,
};
use worldsync::player::{PlayerInput, PlayerPosition};
use worldsync::wire::{DecodeFailure, EncodeFailure, Wire};
use worldsync::world::{Block, BlockType, Chunk, Terrain, CHUNK_HEIGHT, CHUNK_WIDTH};

fn client_message(current: u64, last: u64, bodies: Vec<ClientBodyElem>) -> ClientToServer {
    ClientToServer {
        header: ClientHeader { current_sequence: current, last_received_sequence: last },
        bodies,
    }
}

fn striped_chunk(number: u64) -> Chunk {
    let mut chunk = Chunk {
        blocks: [[None; CHUNK_WIDTH]; CHUNK_HEIGHT],
        rendered: false,
        chunk_number: number,
    };
    for y in 0..CHUNK_HEIGHT {
        for x in 0..CHUNK_WIDTH {
            if (x + y) % 3 != 0 {
                let block_type = if y % 2 == 0 { BlockType::Limestone } else { BlockType::Trunk };
                chunk.blocks[y][x] = Some(Block::new(block_type));
            }
        }
    }
    chunk
}

fn decode_client(bytes: &[u8]) -> Result<ClientToServer, ReceiveError> {
    receive_message::<ClientToServer>(bytes)
}

fn decode_server(bytes: &[u8]) -> Result<ServerToClient, ReceiveError> {
    receive_message::<ServerToClient>(bytes)
}

#[test]
fn small_integers_take_one_byte() {
    let message = client_message(5, 0, vec![ClientBodyElem::Ping]);
    assert_eq!(encode_to_vec(&message), vec![5u8, 0, 1, 0]);
}

#[test]
fn the_largest_single_byte_value_is_250() {
    let message = client_message(250, 251, vec![]);
    assert_eq!(encode_to_vec(&message), vec![250u8, 251, 251, 0, 0]);
}

#[test]
fn wider_integers_carry_a_marker_and_little_endian_bytes() {
    let message = client_message(300, 70000, vec![]);
    assert_eq!(encode_to_vec(&message), vec![251u8, 44, 1, 252, 0x70, 0x11, 0x01, 0x00, 0]);
    let message = client_message(1 << 40, u64::MAX, vec![]);
    assert_eq!(
        encode_to_vec(&message),
        vec![253u8, 0, 0, 0, 0, 0, 1, 0, 0, 253, 255, 255, 255, 255, 255, 255, 255, 255, 0]
    );
}

#[test]
fn input_bodies_are_sent_field_by_field() {
    let input = PlayerInput {
        left: true,
        right: false,
        jump: true,
        mine: false,
        block_x: 3,
        block_y: 260,
    };
    let message = client_message(1, 2, vec![ClientBodyElem::Input(input), ClientBodyElem::Ping]);
    assert_eq!(encode_to_vec(&message), vec![1u8, 2, 2, 1, 1, 0, 1, 0, 3, 251, 4, 1, 0]);
}

#[test]
fn client_messages_match_the_reference_encoder() {
    let input = PlayerInput {
        left: false,
        right: true,
        jump: false,
        mine: true,
        block_x: 70000,
        block_y: 12,
    };
    let message =
        client_message(123456789, 987, vec![ClientBodyElem::Ping, ClientBodyElem::Input(input)]);
    let expected = bincode::encode_to_vec(
        (
            123456789u64,
            987u64,
            2usize,
            0u32,
            (1u32, false, true, false, true, 70000usize, 12usize),
        ),
        bincode::config::standard()
            .with_little_endian()
            .with_variable_int_encoding()
            .write_fixed_array_length(),
    )
    .unwrap();
    assert_eq!(encode_to_vec(&message), expected);
}

#[test]
fn server_messages_are_sent_as_expected() {
    let message = ServerToClient {
        header: ServerHeader { sequence: 10 },
        bodies: vec![
            ServerBodyElem::Pong(7),
            ServerBodyElem::PlayerInfo(vec![SingleNetPlayerInfo {
                addr: ClientAddress {
                    addr: SocketAddress::V4 { ip: 0x7f00_0001, port: 8888 },
                },
                position: PlayerPosition { x: 1.5f32.to_bits(), y: (-2.0f32).to_bits() },
            }]),
            ServerBodyElem::WorldDeltas(vec![WorldDelta::BlockDelete(BlockDelete {
                chunk_number: 3,
                x: 5,
                y: 6,
            })]),
        ],
    };
    let mut expected = vec![10u8, 3, 0, 7, 2, 1, 0, 127, 0, 0, 1, 251, 0xB8, 0x22];
    expected.extend_from_slice(&1.5f32.to_le_bytes());
    expected.extend_from_slice(&(-2.0f32).to_le_bytes());
    expected.extend_from_slice(&[1, 1, 1, 3, 5, 6]);
    assert_eq!(encode_to_vec(&message), expected);
    let reference = bincode::encode_to_vec(
        (
            10u64,
            3usize,
            (0u32, 7u64),
            (2u32, 1usize, 0u32, 127u8, 0u8, 0u8, 1u8, 8888u16, 1.5f32, -2.0f32),
            (1u32, 1usize, 1u32, 3u64, 5usize, 6usize),
        ),
        bincode::config::standard(),
    )
    .unwrap();
    assert_eq!(expected, reference);
    assert_eq!(decode_server(&expected), Ok(message));
}

#[test]
fn addresses_of_sixteen_octets_are_sent_in_network_order() {
    let ip: u128 = 0x2001_0db8_0000_0000_0000_0000_0000_0001;
    let address = ClientAddress { addr: SocketAddress::V6 { ip, port: 80 } };
    let mut bytes = Vec::new();
    address.encode(&mut bytes);
    let mut expected = vec![1u8];
    expected.extend_from_slice(&ip.to_be_bytes());
    expected.push(80);
    assert_eq!(bytes, expected);
    assert_eq!(ClientAddress::decode(&bytes, 0), Ok((address, bytes.len())));
}

#[test]
fn chunks_match_the_reference_encoder() {
    let chunk = striped_chunk(3);
    let mut mirror = [[None::<u32>; CHUNK_WIDTH]; CHUNK_HEIGHT];
    for y in 0..CHUNK_HEIGHT {
        for x in 0..CHUNK_WIDTH {
            mirror[y][x] = match chunk.blocks[y][x] {
                Some(block) => Some(match block.block_type {
                    BlockType::Limestone => 1u32,
                    BlockType::Trunk => 15u32,
                    _ => unreachable!(),
                }),
                None => None,
            };
        }
    }
    let expected = bincode::encode_to_vec(
        (mirror, false, 3u64),
        bincode::config::standard()
            .with_little_endian()
            .with_variable_int_encoding()
            .write_fixed_array_length(),
    )
    .unwrap();
    let mut bytes = Vec::new();
    chunk.encode(&mut bytes);
    assert_eq!(bytes, expected);
    assert_eq!(bytes[0], 64);
    assert_eq!(bytes[1], 128);
}

#[test]
fn every_block_type_has_its_own_index() {
    let all = [
        BlockType::Sand,
        BlockType::Limestone,
        BlockType::Basalt,
        BlockType::Granite,
        BlockType::Diabase,
        BlockType::Gabbro,
        BlockType::Clay,
        BlockType::Coal,
        BlockType::Iron,
        BlockType::Quartz,
        BlockType::Labradorite,
        BlockType::Peridot,
        BlockType::CaveVoid,
        BlockType::PalmTreeBlock,
        BlockType::Leaves,
        BlockType::Trunk,
    ];
    for (index, block_type) in all.iter().enumerate() {
        let mut bytes = Vec::new();
        block_type.encode(&mut bytes);
        assert_eq!(bytes, vec![index as u8]);
        assert_eq!(BlockType::decode(&bytes, 0), Ok((*block_type, 1)));
    }
    assert_eq!(BlockType::decode(&[16], 0), Err(DecodeFailure::UnexpectedVariant));
}

#[test]
fn encode_decode_block() {
    let written = Block::new(BlockType::Limestone);
    let mut encoded = Vec::new();
    written.encode(&mut encoded);
    let decoded = Block::decode(&encoded, 0).unwrap().0;
    assert_eq!(written, decoded);
}

#[test]
fn encode_decode_chunk() {
    let written = {
        let mut chunk = striped_chunk(0);
        chunk.blocks[1][1] = Some(Block::new(BlockType::Limestone));
        chunk
    };
    let mut encoded = Vec::new();
    written.encode(&mut encoded);
    let decoded = Chunk::decode(&encoded, 0).unwrap().0;
    assert_eq!(written, decoded);
}

#[test]
fn encode_decode_terrain() {
    let written = {
        let mut terrain = Terrain { chunks: vec![striped_chunk(0), striped_chunk(1)] };
        terrain.chunks[1].blocks[1][1] = Some(Block::new(BlockType::Limestone));
        terrain
    };
    let mut encoded = Vec::new();
    written.encode(&mut encoded);
    let decoded = Terrain::decode(&encoded, 0).unwrap().0;
    assert_eq!(written, decoded);
}

#[test]
fn size_sanity_check() {
    let mut block = Vec::new();
    Block::new(BlockType::Limestone).encode(&mut block);
    let mut chunk = Vec::new();
    striped_chunk(0).encode(&mut chunk);
    let mut terrain = Vec::new();
    Terrain { chunks: vec![striped_chunk(0)] }.encode(&mut terrain);
    assert!(terrain.len() > chunk.len());
    assert!(terrain.len() > block.len());
    assert!(chunk.len() > block.len());
}

#[test]
fn a_window_of_three_chunks_fits_one_datagram() {
    let message = ServerToClient {
        header: ServerHeader { sequence: 1 },
        bodies: vec![ServerBodyElem::WorldDeltas(vec![WorldDelta::NewChunks(Terrain {
            chunks: vec![striped_chunk(0), striped_chunk(1), striped_chunk(2)],
        })])],
    };
    let mut buffer = vec![0u8; BUFFER_SIZE];
    let size = send_message(&message, &mut buffer).unwrap();
    assert_eq!(size, encode_to_vec(&message).len());
    assert!(size < BUFFER_SIZE);
    assert_eq!(decode_server(&buffer), Ok(message));
}

#[test]
fn sending_fills_the_front_of_the_buffer_only() {
    let message = client_message(5, 0, vec![ClientBodyElem::Ping]);
    let mut buffer = vec![9u8; 6];
    assert_eq!(send_message(&message, &mut buffer), Ok(4));
    assert_eq!(buffer, vec![5u8, 0, 1, 0, 9, 9]);
}

#[test]
fn a_message_that_does_not_fit_is_refused() {
    let message = client_message(5, 0, vec![ClientBodyElem::Ping]);
    let mut buffer = vec![9u8; 3];
    assert_eq!(
        send_message(&message, &mut buffer),
        Err(SendError::EncodeError(EncodeFailure::UnexpectedEnd))
    );
    assert_eq!(buffer, vec![9u8; 3]);
    let mut exact = vec![9u8; 4];
    assert_eq!(send_message(&message, &mut exact), Ok(4));
}

#[test]
fn four_chunks_do_not_fit_one_datagram() {
    let message = ServerToClient {
        header: ServerHeader { sequence: 1 },
        bodies: vec![ServerBodyElem::WorldDeltas(vec![WorldDelta::NewChunks(Terrain {
            chunks: vec![
                striped_chunk(0),
                striped_chunk(1),
                striped_chunk(2),
                striped_chunk(3),
                striped_chunk(4),
            ],
        })])],
    };
    let mut buffer = vec![0u8; BUFFER_SIZE];
    assert_eq!(
        send_message(&message, &mut buffer),
        Err(SendError::EncodeError(EncodeFailure::UnexpectedEnd))
    );
}

#[test]
fn decoding_undoes_encoding() {
    let input = PlayerInput {
        left: true,
        right: true,
        jump: false,
        mine: true,
        block_x: usize::MAX,
        block_y: 0,
    };
    let message = client_message(
        u64::MAX,
        65536,
        vec![ClientBodyElem::Input(input), ClientBodyElem::Ping, ClientBodyElem::Input(input)],
    );
    let bytes = encode_to_vec(&message);
    assert_eq!(decode_client(&bytes), Ok(message));
}

#[test]
fn bytes_behind_a_message_are_ignored() {
    let mut bytes = vec![5u8, 0, 1, 0];
    bytes.extend_from_slice(&[255, 255, 255]);
    assert_eq!(decode_client(&bytes), Ok(client_message(5, 0, vec![ClientBodyElem::Ping])));
}

#[test]
fn integers_need_not_be_written_in_their_shortest_form() {
    assert_eq!(
        decode_client(&[251, 5, 0, 252, 7, 0, 0, 0, 0]),
        Ok(client_message(5, 7, vec![]))
    );
    assert_eq!(
        bincode::decode_from_slice::<(u64, u64, u64), _>(
            &[251, 5, 0, 252, 7, 0, 0, 0, 0],
            bincode::config::standard()
        )
        .unwrap(),
        ((5, 7, 0), 9)
    );
}

#[test]
fn truncated_input_is_refused() {
    let expected = Err(ReceiveError::DecodeError(DecodeFailure::UnexpectedEnd));
    assert_eq!(decode_client(&[]), expected);
    assert_eq!(decode_client(&[5]), expected);
    assert_eq!(decode_client(&[5, 0]), expected);
    assert_eq!(decode_client(&[5, 0, 1]), expected);
    assert_eq!(decode_client(&[5, 0, 2, 0]), expected);
    assert_eq!(decode_client(&[251, 5]), expected);
    assert_eq!(decode_client(&[253, 1, 2, 3, 4, 5, 6, 7]), expected);
    assert_eq!(decode_client(&[5, 0, 1, 1, 1, 0, 1, 0, 3]), expected);
    let message = client_message(300, 70000, vec![ClientBodyElem::Ping]);
    let bytes = encode_to_vec(&message);
    for cut in 0..bytes.len() {
        assert_eq!(decode_client(&bytes[..cut]), expected);
    }
}

#[test]
fn a_huge_announced_length_is_refused_without_the_data() {
    assert_eq!(
        decode_client(&[5, 0, 253, 255, 255, 255, 255, 255, 255, 255, 127]),
        Err(ReceiveError::DecodeError(DecodeFailure::UnexpectedEnd))
    );
}

#[test]
fn malformed_input_is_refused() {
    assert_eq!(
        decode_client(&[5, 0, 1, 9]),
        Err(ReceiveError::DecodeError(DecodeFailure::UnexpectedVariant))
    );
    assert_eq!(
        decode_client(&[5, 0, 1, 1, 2, 0, 1, 0, 3, 4]),
        Err(ReceiveError::DecodeError(DecodeFailure::InvalidBooleanValue))
    );
    assert_eq!(
        decode_client(&[254, 0, 0]),
        Err(ReceiveError::DecodeError(DecodeFailure::InvalidIntegerType))
    );
    assert_eq!(
        decode_client(&[255, 0, 0]),
        Err(ReceiveError::DecodeError(DecodeFailure::InvalidIntegerType))
    );
    assert_eq!(
        decode_server(&[10, 1, 3]),
        Err(ReceiveError::DecodeError(DecodeFailure::UnexpectedVariant))
    );
}

#[test]
fn an_integer_marked_wider_than_its_type_is_refused() {
    // a variant index is read as a 32-bit number
    assert_eq!(
        decode_client(&[5, 0, 1, 253, 0, 0, 0, 0, 0, 0, 0, 0]),
        Err(ReceiveError::DecodeError(DecodeFailure::InvalidIntegerType))
    );
    assert_eq!(decode_client(&[5, 0, 1, 252, 0, 0, 0, 0]), decode_client(&[5, 0, 1, 0]));
    // a port is read as a 16-bit number
    let prefix = [10u8, 1, 2, 1, 0, 127, 0, 0, 1];
    let mut narrow = prefix.to_vec();
    narrow.extend_from_slice(&[251, 0xB8, 0x22, 0, 0, 0, 0, 0, 0, 0, 0]);
    assert!(decode_server(&narrow).is_ok());
    let mut wide = prefix.to_vec();
    wide.extend_from_slice(&[252, 0xB8, 0x22, 0, 0, 0, 0, 0, 0, 0, 0, 0, 0]);
    assert_eq!(
        decode_server(&wide),
        Err(ReceiveError::DecodeError(DecodeFailure::InvalidIntegerType))
    );
}

#[test]
fn an_array_of_another_length_is_refused() {
    let mut bytes = Vec::new();
    striped_chunk(0).encode(&mut bytes);
    assert!(Chunk::decode(&bytes, 0).is_ok());
    let mut short_grid = bytes.clone();
    short_grid[0] = 63;
    assert_eq!(Chunk::decode(&short_grid, 0), Err(DecodeFailure::ArrayLengthMismatch));
    let mut long_row = bytes.clone();
    long_row[1] = 129;
    assert_eq!(Chunk::decode(&long_row, 0), Err(DecodeFailure::ArrayLengthMismatch));
}

#[test]
fn an_option_tag_other_than_0_or_1_is_refused() {
    let mut bytes = Vec::new();
    striped_chunk(0).encode(&mut bytes);
    bytes[2] = 2;
    assert_eq!(Chunk::decode(&bytes, 0), Err(DecodeFailure::UnexpectedVariant));
}

#[test]
fn decoding_starts_where_it_is_told_to() {
    let bytes = [99u8, 99, 251, 44, 1, 7];
    assert_eq!(u64::decode(&bytes, 2), Ok((300, 5)));
    assert_eq!(u64::decode(&bytes, 5), Ok((7, 6)));
    assert_eq!(u64::decode(&bytes, 6), Err(DecodeFailure::UnexpectedEnd));
    assert_eq!(u16::decode(&bytes, 2), Ok((300, 5)));
    assert_eq!(u32::decode(&bytes, 2), Ok((300, 5)));
    assert_eq!(bool::decode(&[0, 1, 2], 1), Ok((true, 2)));
}
