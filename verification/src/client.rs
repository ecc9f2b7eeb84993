//! The client's side of the connection to its one server.

use crate::codec::receive_message;
use crate::delta::replayed;
use crate::message::{
    ClientAddress, ClientBodyElem, ClientHeader, ClientMessageView, ClientToServer,
    ReceiveError, ServerBodyElem, ServerBodyView, ServerToClient, DEFAULT_BODIES_VEC_CAPACITY,
    FRAME_DIFFERENCE_BEFORE_DISCONNECT,
};
use crate::player::PlayerInput;
use crate::queue::{pushed, Messages};
use crate::wire::Wire;
use crate::world::{Chunk, Terrain};
use vstd::prelude::*;

verus! {

/// Capacity of the client's inbound queue.
pub const MESSAGE_QUEUE_SIZE: usize = 10;

/// The state of a client. Its own sequence number never falls behind the
/// last one it received from the server.
#[derive(Debug)]
pub struct Client {
    server: ClientAddress,
    current_sequence: u64,
    last_received_sequence: u64,
    bodies: Vec<ClientBodyElem>,
    debug_paused: bool,
}

/// The mathematical content of a `Client`.
pub struct ClientView {
    /// The one server the client talks to.
    pub server: ClientAddress,
    /// The client's own sequence number.
    pub current_sequence: u64,
    /// The last sequence number received from the server.
    pub last_received_sequence: u64,
    /// What goes into the next packet.
    pub bodies: Seq<ClientBodyElem>,
    /// While paused the client drops all packets, in and out.
    pub debug_paused: bool,
}

impl View for Client {
    type V = ClientView;

    closed spec fn view(&self) -> ClientView {
        ClientView {
            server: self.server,
            current_sequence: self.current_sequence,
            last_received_sequence: self.last_received_sequence,
            bodies: self.bodies@,
            debug_paused: self.debug_paused,
        }
    }
}

/// Whether a ping waits among `bodies`.
pub open spec fn has_ping(bodies: Seq<ClientBodyElem>) -> bool {
    exists|i: int| 0 <= i < bodies.len() && #[trigger] bodies[i] == ClientBodyElem::Ping
}

/// The queue after each of `bodies` was pushed, in order.
pub open spec fn pushed_all<T>(queue: Seq<T>, capacity: usize, bodies: Seq<T>) -> Seq<T>
    decreases bodies.len(),
{
    if bodies.len() == 0 {
        queue
    } else {
        pushed(pushed_all(queue, capacity, bodies.drop_last()), capacity, bodies.last())
    }
}

/// Whether a message with sequence number `sequence` is newer than
/// anything the client has received, and the client is listening.
pub open spec fn accepts(client: ClientView, sequence: u64) -> bool {
    !client.debug_paused && sequence > client.last_received_sequence
}

/// The client after it received a message with sequence number
/// `sequence`. A newer one is remembered as the last received, and a
/// client that has fallen behind the server moves its own sequence number
/// up to the server's; its own sequence number never goes back. An older
/// message or a duplicate changes nothing.
pub open spec fn received(client: ClientView, sequence: u64) -> ClientView {
    if accepts(client, sequence) {
        ClientView {
            current_sequence: if sequence > client.current_sequence {
                sequence
            } else {
                client.current_sequence
            },
            last_received_sequence: sequence,
            ..client
        }
    } else {
        client
    }
}

/// Whether the server has been silent for too long.
pub open spec fn timed_out(client: ClientView) -> bool {
    !client.debug_paused && client.current_sequence - client.last_received_sequence
        >= FRAME_DIFFERENCE_BEFORE_DISCONNECT
}

/// The world after the deltas among `bodies` were replayed, body by body.
pub open spec fn world_after(chunks: Seq<Chunk>, bodies: Seq<ServerBodyView>) -> Seq<Chunk>
    decreases bodies.len(),
{
    if bodies.len() == 0 {
        chunks
    } else {
        let before = world_after(chunks, bodies.drop_last());
        match bodies.last() {
            ServerBodyView::WorldDeltas(deltas) => replayed(before, deltas),
            _ => before,
        }
    }
}

/// Those of `bodies` that do not change the world, in order.
pub open spec fn other_bodies(bodies: Seq<ServerBodyView>) -> Seq<ServerBodyView>
    decreases bodies.len(),
{
    if bodies.len() == 0 {
        Seq::empty()
    } else {
        let before = other_bodies(bodies.drop_last());
        match bodies.last() {
            ServerBodyView::WorldDeltas(_) => before,
            _ => before.push(bodies.last()),
        }
    }
}

/// The contents of a queue of body elements.
pub open spec fn body_views(bodies: Seq<ServerBodyElem>) -> Seq<ServerBodyView> {
    Seq::new(bodies.len(), |i: int| bodies[i]@)
}

impl Client {
    #[verifier::type_invariant]
    closed spec fn wf(&self) -> bool {
        self.last_received_sequence <= self.current_sequence
    }

    /// A client that has neither sent nor received anything.
    pub fn new(server_address: ClientAddress) -> (client: Client)
        ensures
            client@ == (ClientView {
                server: server_address,
                current_sequence: 0,
                last_received_sequence: 0,
                bodies: Seq::empty(),
                debug_paused: false,
            }),
    {
        Client {
            server: server_address,
            current_sequence: 0,
            last_received_sequence: 0,
            bodies: Vec::with_capacity(DEFAULT_BODIES_VEC_CAPACITY),
            debug_paused: false,
        }
    }

    /// The client's own sequence number.
    pub fn current_sequence(&self) -> (sequence: u64)
        ensures
            sequence == self@.current_sequence,
            sequence >= self@.last_received_sequence,
    {
        proof {
            use_type_invariant(self);
        }
        self.current_sequence
    }

    /// The last sequence number received from the server.
    pub fn last_received_sequence(&self) -> (sequence: u64)
        ensures
            sequence == self@.last_received_sequence,
    {
        self.last_received_sequence
    }

    /// Whether the client is paused.
    pub fn is_paused(&self) -> (paused: bool)
        ensures
            paused == self@.debug_paused,
    {
        self.debug_paused
    }

    /// Moves on to the next sequence number, unless the client is paused.
    pub fn increase_tick(&mut self)
        requires
            old(self)@.current_sequence < u64::MAX,
        ensures
            final(self)@ == if old(self)@.debug_paused {
                old(self)@
            } else {
                ClientView {
                    current_sequence: (old(self)@.current_sequence + 1) as u64,
                    ..old(self)@
                }
            },
    {
        proof {
            use_type_invariant(&*self);
        }
        if !self.debug_paused {
            self.current_sequence += 1;
        }
    }

    /// Pauses a running client and resumes a paused one. Says whether the
    /// client is now paused.
    pub fn o_pause_client(&mut self) -> (paused: bool)
        ensures
            paused == !old(self)@.debug_paused,
            final(self)@ == (ClientView { debug_paused: paused, ..old(self)@ }),
    {
        proof {
            use_type_invariant(&*self);
        }
        self.debug_paused = !self.debug_paused;
        self.debug_paused
    }

    /// Puts `body` into the next packet.
    pub fn enqueue_body(&mut self, body: ClientBodyElem)
        ensures
            final(self)@ == (ClientView { bodies: old(self)@.bodies.push(body), ..old(self)@ }),
    {
        proof {
            use_type_invariant(&*self);
        }
        let mut bodies: Vec<ClientBodyElem> = Vec::new();
        std::mem::swap(&mut self.bodies, &mut bodies);
        bodies.push(body);
        std::mem::swap(&mut self.bodies, &mut bodies);
    }

    /// Puts a ping into the next packet, unless the client is paused or a
    /// ping already waits: one ping per packet is enough. Says whether a
    /// ping was added.
    pub fn p_queues_ping(&mut self) -> (queued: bool)
        ensures
            queued == (!old(self)@.debug_paused && !has_ping(old(self)@.bodies)),
            final(self)@ == if queued {
                ClientView {
                    bodies: old(self)@.bodies.push(ClientBodyElem::Ping),
                    ..old(self)@
                }
            } else {
                old(self)@
            },
    {
        if self.debug_paused {
            return false;
        }
        let mut i: usize = 0;
        while i < self.bodies.len()
            invariant
                i <= self.bodies.len(),
                forall|j: int| 0 <= j < i ==> #[trigger] self.bodies@[j] != ClientBodyElem::Ping,
            decreases self.bodies.len() - i,
        {
            match self.bodies[i] {
                ClientBodyElem::Ping => {
                    return false;
                },
                ClientBodyElem::Input(_) => {},
            }
            i += 1;
        }
        self.enqueue_body(ClientBodyElem::Ping);
        true
    }

    /// Puts the player's input into the next packet, unless the client is
    /// paused.
    pub fn queue_inputs(&mut self, input: PlayerInput)
        ensures
            final(self)@ == if old(self)@.debug_paused {
                old(self)@
            } else {
                ClientView {
                    bodies: old(self)@.bodies.push(ClientBodyElem::Input(input)),
                    ..old(self)@
                }
            },
    {
        if !self.debug_paused {
            self.enqueue_body(ClientBodyElem::Input(input));
        }
    }

    /// Decodes a datagram that came from `sender`. Only the server is
    /// listened to.
    pub fn get_one_message(&self, sender: ClientAddress, buffer: &[u8]) -> (received: Result<
        ServerToClient,
        ReceiveError,
    >)
        ensures
            sender != self@.server ==> received == Err::<ServerToClient, ReceiveError>(
                ReceiveError::UnknownSender,
            ),
            sender == self@.server ==> match ServerToClient::parse(buffer@) {
                Ok((m, _)) => received matches Ok(message) && message@ == m,
                Err(error) => received == Err::<ServerToClient, ReceiveError>(
                    ReceiveError::DecodeError(error),
                ),
            },
    {
        if sender != self.server {
            return Err(ReceiveError::UnknownSender);
        }
        receive_message::<ServerToClient>(buffer)
    }

    /// Takes in one message from the server. A message newer than any
    /// before has its body elements queued, the oldest queued ones giving
    /// way where the queue is full, and is remembered as the last received.
    /// An older message or a duplicate is ignored, and so is every message
    /// while the client is paused. Says whether the message was taken. The
    /// client's own sequence number never goes back.
    pub fn fetch_message(
        &mut self,
        messages: &mut Messages<ServerBodyElem>,
        message: ServerToClient,
    ) -> (taken: bool)
        ensures
            taken == accepts(old(self)@, message.header.sequence),
            final(self)@ == received(old(self)@, message.header.sequence),
            final(self)@.current_sequence >= old(self)@.current_sequence,
            final(messages).limit() == old(messages).limit(),
            final(messages)@ == if taken {
                pushed_all(old(messages)@, old(messages).limit(), message.bodies@)
            } else {
                old(messages)@
            },
    {
        proof {
            use_type_invariant(&*self);
        }
        if self.debug_paused || message.header.sequence <= self.last_received_sequence {
            return false;
        }
        let ghost all = message.bodies@;
        let mut bodies = message.bodies;
        let ghost mut done: int = 0;
        while bodies.len() > 0
            invariant
                0 <= done <= all.len(),
                bodies@ == all.skip(done),
                messages.limit() == old(messages).limit(),
                messages@ == pushed_all(old(messages)@, old(messages).limit(), all.take(done)),
            decreases all.len() - done,
        {
            let body = bodies.remove(0);
            assert(all.take(done + 1).drop_last() =~= all.take(done));
            let _ = messages.push(body);
            proof {
                done = done + 1;
            }
        }
        assert(all.take(done) =~= all);
        if message.header.sequence > self.current_sequence {
            self.current_sequence = message.header.sequence;
        }
        self.last_received_sequence = message.header.sequence;
        true
    }

    /// Forms the packet for this network tick and empties the list of
    /// waiting body elements: the client never repeats what it sent. A
    /// paused client sends nothing and keeps what waits.
    pub fn send_bodies(&mut self) -> (message: Option<ClientToServer>)
        ensures
            message is None <==> old(self)@.debug_paused,
            message is None ==> final(self)@ == old(self)@,
            message is Some ==> final(self)@ == (ClientView {
                bodies: Seq::empty(),
                ..old(self)@
            }),
            message matches Some(packet) ==> packet@ == (ClientMessageView {
                header: ClientHeader {
                    current_sequence: old(self)@.current_sequence,
                    last_received_sequence: old(self)@.last_received_sequence,
                },
                bodies: old(self)@.bodies,
            }),
    {
        proof {
            use_type_invariant(&*self);
        }
        if self.debug_paused {
            return None;
        }
        let mut bodies: Vec<ClientBodyElem> = Vec::with_capacity(DEFAULT_BODIES_VEC_CAPACITY);
        std::mem::swap(&mut self.bodies, &mut bodies);
        Some(
            ClientToServer {
                header: ClientHeader {
                    current_sequence: self.current_sequence,
                    last_received_sequence: self.last_received_sequence,
                },
                bodies,
            },
        )
    }

    /// Says whether the server has been silent for too long. If so, what
    /// waits to be sent is dropped; leaving the game is up to the caller.
    pub fn client_timeout(&mut self) -> (timeout: bool)
        ensures
            timeout == timed_out(old(self)@),
            final(self)@ == if timeout {
                ClientView { bodies: Seq::empty(), ..old(self)@ }
            } else {
                old(self)@
            },
    {
        proof {
            use_type_invariant(&*self);
        }
        if self.debug_paused {
            return false;
        }
        let timeout = self.current_sequence - self.last_received_sequence
            >= FRAME_DIFFERENCE_BEFORE_DISCONNECT;
        if timeout {
            let mut bodies: Vec<ClientBodyElem> = Vec::new();
            std::mem::swap(&mut self.bodies, &mut bodies);
        }
        timeout
    }
}

/// Works through the queued body elements, oldest first: world deltas are
/// replayed onto `terrain`, everything else is handed back in order for
/// the caller to act on. The queue is left empty.
pub fn handle_messages(messages: &mut Messages<ServerBodyElem>, terrain: &mut Terrain) -> (others:
    Vec<ServerBodyElem>)
    ensures
        final(messages)@.len() == 0,
        final(messages).limit() == old(messages).limit(),
        final(terrain)@ == world_after(old(terrain)@, body_views(old(messages)@)),
        others.deep_view() == other_bodies(body_views(old(messages)@)),
{
    let ghost queue = body_views(messages@);
    let ghost mut done: int = 0;
    let mut others: Vec<ServerBodyElem> = Vec::new();
    loop
        invariant
            0 <= done <= old(messages)@.len(),
            queue == body_views(old(messages)@),
            messages@ == old(messages)@.skip(done),
            messages.limit() == old(messages).limit(),
            terrain@ == world_after(old(terrain)@, queue.take(done)),
            others.deep_view() == other_bodies(queue.take(done)),
        ensures
            done == old(messages)@.len(),
        decreases old(messages)@.len() - done,
    {
        match messages.pop() {
            None => {
                break ;
            },
            Some(body) => {
                assert(queue.take(done + 1).drop_last() =~= queue.take(done));
                match body {
                    ServerBodyElem::WorldDeltas(deltas) => {
                        terrain.replay(&deltas);
                    },
                    other => {
                        others.push(other);
                    },
                }
                proof {
                    done = done + 1;
                }
            },
        }
    }
    assert(queue.take(done) =~= queue);
    others
}

/// What a network tick of the client asks the caller to do and to know.
#[derive(Debug)]
pub struct ClientTick {
    /// The body elements that did not change the world, for the caller to
    /// act on.
    pub others: Vec<ServerBodyElem>,
    /// The packet to send, unless the client is paused.
    pub packet: Option<ClientToServer>,
    /// Whether the server has been silent for too long and the game is to
    /// be left.
    pub timeout: bool,
}

impl Client {
    /// Runs one network tick: moves on to the next sequence number, queues
    /// the player's input, works through what the server sent, forms the
    /// packet, and checks for a timeout, in this order.
    pub fn network_tick(
        &mut self,
        messages: &mut Messages<ServerBodyElem>,
        terrain: &mut Terrain,
        input: PlayerInput,
    ) -> (tick: ClientTick)
        requires
            old(self)@.current_sequence < u64::MAX,
        ensures
            final(messages)@.len() == 0,
            final(messages).limit() == old(messages).limit(),
            final(terrain)@ == world_after(old(terrain)@, body_views(old(messages)@)),
            tick.others.deep_view() == other_bodies(body_views(old(messages)@)),
            old(self)@.debug_paused ==> tick.packet is None && !tick.timeout && final(self)@
                == old(self)@,
            !old(self)@.debug_paused ==> {
                &&& tick.packet is Some
                &&& tick.packet.unwrap()@ == (ClientMessageView {
                    header: ClientHeader {
                        current_sequence: (old(self)@.current_sequence + 1) as u64,
                        last_received_sequence: old(self)@.last_received_sequence,
                    },
                    bodies: old(self)@.bodies.push(ClientBodyElem::Input(input)),
                })
                &&& tick.timeout == (old(self)@.current_sequence + 1 - old(
                    self,
                )@.last_received_sequence >= FRAME_DIFFERENCE_BEFORE_DISCONNECT)
                &&& final(self)@ == (ClientView {
                    current_sequence: (old(self)@.current_sequence + 1) as u64,
                    bodies: Seq::empty(),
                    ..old(self)@
                })
            },
    {
        self.increase_tick();
        self.queue_inputs(input);
        let others = handle_messages(messages, terrain);
        let packet = self.send_bodies();
        let timeout = self.client_timeout();
        ClientTick { others, packet, timeout }
    }
}

} // verus!
