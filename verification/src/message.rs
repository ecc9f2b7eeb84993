//! The messages that clients and the server exchange.

use crate::delta::{DeltaView, WorldDelta};
use crate::player::{PlayerInput, PlayerPosition};
use crate::wire::{DecodeFailure, EncodeFailure};
use vstd::prelude::*;

verus! {

/// Largest datagram the transport carries, and the size of the buffers that
/// messages are encoded into and decoded from.
pub const BUFFER_SIZE: usize = 65536;

/// Capacity reserved for a fresh list of body elements.
pub const DEFAULT_BODIES_VEC_CAPACITY: usize = 10;

/// How many times per second the network tick occurs.
pub const NETWORK_TICK_HZ: u64 = 10;

/// How many times per second the simulation tick occurs.
pub const GAME_TICK_HZ: u64 = 60;

/// How many network ticks a peer may stay silent before it is taken for
/// dead.
pub const FRAME_DIFFERENCE_BEFORE_DISCONNECT: u64 = NETWORK_TICK_HZ * 2;

/// Port the server listens on unless told otherwise.
pub const DEFAULT_SERVER_PORT: u16 = 8888;

/// A transport address: an internet address, as a number in network order,
/// and a port.
#[allow(inconsistent_fields)]
#[derive(Copy, Clone, Debug, PartialEq, Eq, Hash, Structural)]
pub enum SocketAddress {
    V4 { ip: u32, port: u16 },
    V6 { ip: u128, port: u16 },
}

/// Address the server binds to unless told otherwise: 127.0.0.1.
pub const DEFAULT_SERVER_IP: u32 = 0x7f00_0001;

/// The identity of a peer: the address its datagrams come from.
#[derive(Copy, Clone, Debug, PartialEq, Eq, Hash, Structural)]
pub struct ClientAddress {
    pub addr: SocketAddress,
}

/// Header of a message from the server.
#[derive(Copy, Clone, Debug, PartialEq, Eq, Structural)]
pub struct ServerHeader {
    /// The server's sequence number, one per network tick.
    pub sequence: u64,
}

/// Where one player stands.
#[derive(Copy, Clone, Debug, PartialEq, Eq, Structural)]
pub struct SingleNetPlayerInfo {
    pub addr: ClientAddress,
    pub position: PlayerPosition,
}

/// One element of the body of a message from the server.
#[derive(Debug, PartialEq)]
pub enum ServerBodyElem {
    /// Answer to a ping; carries the sequence number of the packet that
    /// held the ping.
    Pong(u64),
    /// Changes to the world, to be replayed in list order.
    WorldDeltas(Vec<WorldDelta>),
    /// Positions of the connected players, the receiving client's own
    /// first.
    PlayerInfo(Vec<SingleNetPlayerInfo>),
}

/// The mathematical content of a `ServerBodyElem`.
pub enum ServerBodyView {
    Pong(u64),
    WorldDeltas(Seq<DeltaView>),
    PlayerInfo(Seq<SingleNetPlayerInfo>),
}

impl View for ServerBodyElem {
    type V = ServerBodyView;

    open spec fn view(&self) -> ServerBodyView {
        match self {
            ServerBodyElem::Pong(sequence) => ServerBodyView::Pong(*sequence),
            ServerBodyElem::WorldDeltas(deltas) => ServerBodyView::WorldDeltas(deltas.deep_view()),
            ServerBodyElem::PlayerInfo(players) => ServerBodyView::PlayerInfo(players@),
        }
    }
}

impl DeepView for ServerBodyElem {
    type V = ServerBodyView;

    open spec fn deep_view(&self) -> ServerBodyView {
        self@
    }
}

impl Clone for ServerBodyElem {
    fn clone(&self) -> (copy: Self)
        ensures
            copy@ == self@,
    {
        match self {
            ServerBodyElem::Pong(sequence) => ServerBodyElem::Pong(*sequence),
            ServerBodyElem::WorldDeltas(deltas) => ServerBodyElem::WorldDeltas(
                crate::delta::clone_deltas(deltas),
            ),
            ServerBodyElem::PlayerInfo(players) => {
                let mut copy: Vec<SingleNetPlayerInfo> = Vec::new();
                let mut i: usize = 0;
                while i < players.len()
                    invariant
                        i <= players.len(),
                        copy@ == players@.take(i as int),
                    decreases players.len() - i,
                {
                    copy.push(players[i]);
                    i += 1;
                }
                assert(players@.take(i as int) =~= players@);
                ServerBodyElem::PlayerInfo(copy)
            },
        }
    }
}

/// A deep copy of a list of body elements.
pub fn clone_bodies(bodies: &Vec<ServerBodyElem>) -> (copy: Vec<ServerBodyElem>)
    ensures
        copy.deep_view() == bodies.deep_view(),
{
    let mut copy: Vec<ServerBodyElem> = Vec::new();
    let mut i: usize = 0;
    while i < bodies.len()
        invariant
            i <= bodies.len(),
            copy.len() == i,
            forall|j: int| 0 <= j < i ==> copy@[j]@ == bodies@[j]@,
        decreases bodies.len() - i,
    {
        copy.push(bodies[i].clone());
        i += 1;
    }
    copy
}

/// A message from the server to a client.
#[derive(Debug, PartialEq)]
pub struct ServerToClient {
    pub header: ServerHeader,
    pub bodies: Vec<ServerBodyElem>,
}

/// The mathematical content of a `ServerToClient`.
pub struct ServerMessageView {
    pub header: ServerHeader,
    pub bodies: Seq<ServerBodyView>,
}

impl View for ServerToClient {
    type V = ServerMessageView;

    open spec fn view(&self) -> ServerMessageView {
        ServerMessageView { header: self.header, bodies: self.bodies.deep_view() }
    }
}

/// Header of a message from a client. It doubles as a cumulative
/// acknowledgment.
#[derive(Copy, Clone, Debug, PartialEq, Eq, Structural)]
pub struct ClientHeader {
    /// The client's own sequence number.
    pub current_sequence: u64,
    /// The highest server sequence number that the client has decoded.
    pub last_received_sequence: u64,
}

/// One element of the body of a message from a client.
#[derive(Copy, Clone, Debug, PartialEq, Eq, Structural)]
pub enum ClientBodyElem {
    /// Asks the server for a pong that names this packet.
    Ping,
    /// The player's whole input.
    Input(PlayerInput),
}

/// A message from a client to the server.
#[derive(Debug, PartialEq)]
pub struct ClientToServer {
    pub header: ClientHeader,
    pub bodies: Vec<ClientBodyElem>,
}

/// The mathematical content of a `ClientToServer`.
pub struct ClientMessageView {
    pub header: ClientHeader,
    pub bodies: Seq<ClientBodyElem>,
}

impl View for ClientToServer {
    type V = ClientMessageView;

    open spec fn view(&self) -> ClientMessageView {
        ClientMessageView { header: self.header, bodies: self.bodies@ }
    }
}

impl Clone for ClientToServer {
    fn clone(&self) -> (copy: Self)
        ensures
            copy@ == self@,
    {
        ClientToServer { header: self.header, bodies: self.bodies.clone() }
    }
}

/// What went wrong at the socket.
#[derive(Copy, Clone, Debug, PartialEq, Eq, Structural)]
pub enum IoFailure {
    /// Nothing is queued and the socket would have had to wait.
    WouldBlock,
    /// The platform reports a reset on a connectionless socket.
    ConnectionReset,
    /// Any other failure.
    Other,
}

/// Why a message was not sent.
#[derive(Copy, Clone, Debug, PartialEq, Eq, Structural)]
pub enum SendError {
    IoError(IoFailure),
    EncodeError(EncodeFailure),
}

/// Why no message was received.
#[derive(Copy, Clone, Debug, PartialEq, Eq, Structural)]
pub enum ReceiveError {
    IoError(IoFailure),
    DecodeError(DecodeFailure),
    /// A datagram came from an address that is not the peer's.
    UnknownSender,
    /// Nothing is queued: the normal answer of an idle socket.
    NoMessage,
}

/// What a failed read of the socket means for the caller: nothing queued is
/// `NoMessage`, a reset of the connectionless socket is noise and means
/// nothing at all, and anything else is a real failure.
pub open spec fn receive_failure_of(failure: IoFailure) -> Option<ReceiveError> {
    match failure {
        IoFailure::WouldBlock => Some(ReceiveError::NoMessage),
        IoFailure::ConnectionReset => None,
        IoFailure::Other => Some(ReceiveError::IoError(IoFailure::Other)),
    }
}

/// Classifies a failed read of the socket: see `receive_failure_of`.
pub fn receive_failure(failure: IoFailure) -> (error: Option<ReceiveError>)
    ensures
        error == receive_failure_of(failure),
{
    match failure {
        IoFailure::WouldBlock => Some(ReceiveError::NoMessage),
        IoFailure::ConnectionReset => None,
        IoFailure::Other => Some(ReceiveError::IoError(IoFailure::Other)),
    }
}

} // verus!
