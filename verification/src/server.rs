//! The server's side of one connection: what a peer has acknowledged, what
//! it is believed to know of the world, and what has been sent to it and
//! not yet confirmed.

use crate::delta::{clone_deltas, replayed, DeltaView, WorldDelta};
use crate::engine::{compute_deltas, outbound_deltas, DeltaError};
use crate::message::{
    ClientBodyElem, ClientMessageView, ClientToServer, ServerBodyElem, ServerBodyView,
    ServerHeader, ServerMessageView, ServerToClient, DEFAULT_BODIES_VEC_CAPACITY,
    FRAME_DIFFERENCE_BEFORE_DISCONNECT,
};
use crate::player::PlayerInput;
use crate::world::{Chunk, Terrain};
use std::collections::HashMap;
use vstd::prelude::*;

verus! {

/// Capacity of the server's inbound queue.
pub const MESSAGE_QUEUE_SIZE: usize = 20;

/// Information about a client that is connected.
#[derive(Debug)]
pub struct ConnectedClientInfo {
    /// The last confirmed sequence number.
    pub last_ack: u64,
    /// Body elements built up for the next packet.
    pub bodies: Vec<ServerBodyElem>,
    /// How many network ticks until the client is dropped.
    pub until_drop: u64,
    /// Last confirmed world state: only the chunks that the client knows.
    pub last_confirmed_terrain: Terrain,
    /// Deltas sent and not yet confirmed, by the sequence number they were
    /// sent with.
    pub deltas: HashMap<u64, Vec<WorldDelta>>,
}

/// The mathematical content of a `ConnectedClientInfo`.
pub struct ConnectionView {
    pub last_ack: u64,
    pub bodies: Seq<ServerBodyView>,
    pub until_drop: u64,
    pub baseline: Seq<Chunk>,
    pub pending: Map<u64, Seq<DeltaView>>,
}

/// The delta lists of a pending log, by sequence number.
pub open spec fn pending_view(deltas: Map<u64, Vec<WorldDelta>>) -> Map<u64, Seq<DeltaView>> {
    Map::new(|k: u64| deltas.contains_key(k), |k: u64| deltas[k].deep_view())
}

impl View for ConnectedClientInfo {
    type V = ConnectionView;

    open spec fn view(&self) -> ConnectionView {
        ConnectionView {
            last_ack: self.last_ack,
            bodies: self.bodies.deep_view(),
            until_drop: self.until_drop,
            baseline: self.last_confirmed_terrain@,
            pending: pending_view(self.deltas@),
        }
    }
}

/// A connection on which nothing has happened yet.
pub open spec fn fresh_connection() -> ConnectionView {
    ConnectionView {
        last_ack: 0,
        bodies: Seq::empty(),
        until_drop: FRAME_DIFFERENCE_BEFORE_DISCONNECT,
        baseline: Seq::empty(),
        pending: Map::empty(),
    }
}

impl Default for ConnectedClientInfo {
    fn default() -> (client: ConnectedClientInfo)
        ensures
            client@ == fresh_connection(),
    {
        let client = ConnectedClientInfo {
            last_ack: 0,
            bodies: Vec::with_capacity(DEFAULT_BODIES_VEC_CAPACITY),
            until_drop: FRAME_DIFFERENCE_BEFORE_DISCONNECT,
            last_confirmed_terrain: Terrain::empty(),
            deltas: HashMap::new(),
        };
        assert(client@.bodies =~= Seq::<ServerBodyView>::empty());
        assert(client@.pending =~= Map::<u64, Seq<DeltaView>>::empty());
        client
    }
}

/// How a message's acknowledgment was taken.
#[derive(Copy, Clone, Debug, PartialEq, Eq, Structural)]
pub enum Acknowledgment {
    /// Newer than any before, and the delta list sent under that number
    /// was replayed onto the baseline.
    InOrder,
    /// Newer than any before, but no delta list is recorded under that
    /// number: the baseline was left as it was.
    StaleAcknowledgment,
    /// A duplicate, or older than one already taken.
    OutOfOrder,
}

/// Whether `sequence` is newer than acknowledgment `ack`.
pub fn is_newer(sequence: u64, ack: u64) -> (newer: bool)
    ensures
        newer == (sequence > ack),
{
    sequence > ack
}

/// The connection after the peer acknowledged `ack`, newer than any
/// before: the delta list recorded under `ack` is replayed onto the
/// baseline, every entry up to `ack` leaves the pending log, nothing waits
/// to be sent, and the countdown starts over.
pub open spec fn acknowledged(connection: ConnectionView, ack: u64) -> ConnectionView {
    ConnectionView {
        last_ack: ack,
        bodies: Seq::empty(),
        until_drop: FRAME_DIFFERENCE_BEFORE_DISCONNECT,
        baseline: if connection.pending.contains_key(ack) {
            replayed(connection.baseline, connection.pending[ack])
        } else {
            connection.baseline
        },
        pending: connection.pending.restrict(Set::new(|k: u64| k > ack)),
    }
}

/// One pong, naming `sequence`, for each ping among `bodies`.
pub open spec fn pongs(bodies: Seq<ClientBodyElem>, sequence: u64) -> Seq<ServerBodyView>
    decreases bodies.len(),
{
    if bodies.len() == 0 {
        Seq::empty()
    } else {
        let before = pongs(bodies.drop_last(), sequence);
        match bodies.last() {
            ClientBodyElem::Ping => before.push(ServerBodyView::Pong(sequence)),
            ClientBodyElem::Input(_) => before,
        }
    }
}

/// The last input among `bodies`, or `fallback` where they hold none.
pub open spec fn last_input(bodies: Seq<ClientBodyElem>, fallback: PlayerInput) -> PlayerInput
    decreases bodies.len(),
{
    if bodies.len() == 0 {
        fallback
    } else {
        match bodies.last() {
            ClientBodyElem::Ping => last_input(bodies.drop_last(), fallback),
            ClientBodyElem::Input(input) => input,
        }
    }
}

/// Whether a body element is still worth sending to a peer that has
/// acknowledged `last_ack`: everything but a pong for an older ping.
pub open spec fn is_current(body: ServerBodyView, last_ack: u64) -> bool {
    match body {
        ServerBodyView::Pong(sequence) => sequence >= last_ack,
        _ => true,
    }
}

/// Those of `bodies` that are still worth sending, in order.
pub open spec fn current_bodies(bodies: Seq<ServerBodyView>, last_ack: u64) -> Seq<ServerBodyView>
    decreases bodies.len(),
{
    if bodies.len() == 0 {
        Seq::empty()
    } else {
        let before = current_bodies(bodies.drop_last(), last_ack);
        if is_current(bodies.last(), last_ack) {
            before.push(bodies.last())
        } else {
            before
        }
    }
}

/// Whether `message` acknowledges more than the connection has seen
/// acknowledged.
pub open spec fn in_order(connection: ConnectionView, message: ClientMessageView) -> bool {
    message.header.last_received_sequence > connection.last_ack
}

/// The connection after `message` was processed.
pub open spec fn processed(connection: ConnectionView, message: ClientMessageView)
    -> ConnectionView {
    let after = if in_order(connection, message) {
        acknowledged(connection, message.header.last_received_sequence)
    } else {
        connection
    };
    ConnectionView {
        bodies: current_bodies(
            after.bodies + pongs(message.bodies, message.header.current_sequence),
            after.last_ack,
        ),
        ..after
    }
}

/// The player's input after `message` was processed: the last input the
/// message carries, if the message is in order; the input as it was
/// otherwise, for stale input never overwrites newer state.
pub open spec fn committed_input(
    connection: ConnectionView,
    message: ClientMessageView,
    input: PlayerInput,
) -> PlayerInput {
    if in_order(connection, message) {
        last_input(message.bodies, input)
    } else {
        input
    }
}

/// How the acknowledgment of `message` is taken.
pub open spec fn acknowledgment(connection: ConnectionView, message: ClientMessageView)
    -> Acknowledgment {
    if !in_order(connection, message) {
        Acknowledgment::OutOfOrder
    } else if connection.pending.contains_key(message.header.last_received_sequence) {
        Acknowledgment::InOrder
    } else {
        Acknowledgment::StaleAcknowledgment
    }
}

/// Calls `HashMap::retain`, which keeps exactly the entries for which the
/// closure answers true. The contract claims that afterwards the map holds
/// the entries with a key greater than `ack`, unchanged, and no others.
#[verifier::external_body]
fn prune_acknowledged(deltas: &mut HashMap<u64, Vec<WorldDelta>>, ack: u64)
    ensures
        final(deltas)@ == old(deltas)@.restrict(Set::new(|k: u64| k > ack)),
{
    deltas.retain(|sequence, _| is_newer(*sequence, ack));
}

/// Removes from `bodies` the pongs that answer a ping older than
/// `last_ack`.
fn retain_current(bodies: &mut Vec<ServerBodyElem>, last_ack: u64)
    ensures
        final(bodies).deep_view() == current_bodies(old(bodies).deep_view(), last_ack),
{
    let ghost all = bodies.deep_view();
    let ghost mut seen: int = 0;
    let mut i: usize = 0;
    while i < bodies.len()
        invariant
            0 <= seen <= all.len(),
            i == current_bodies(all.take(seen), last_ack).len(),
            bodies.deep_view() == current_bodies(all.take(seen), last_ack) + all.skip(seen),
        decreases all.len() - seen,
    {
        let ghost before = bodies.deep_view();
        assert(before[i as int] == all[seen]);
        assert(all.take(seen + 1).drop_last() =~= all.take(seen));
        let keep = match &bodies[i] {
            ServerBodyElem::Pong(sequence) => *sequence >= last_ack,
            _ => true,
        };
        if keep {
            i += 1;
        } else {
            bodies.remove(i);
            assert(bodies.deep_view() =~= before.remove(i as int));
        }
        proof {
            seen = seen + 1;
        }
    }
}

/// Processes one message from the connection's peer.
///
/// An acknowledgment newer than any before is taken as `acknowledged`
/// describes, and the last input that the message carries is committed.
/// Whatever the acknowledgment, each ping is answered with a pong, and
/// pongs for pings older than the acknowledged sequence are dropped. An
/// acknowledgment that is not newer never changes the baseline or the
/// pending log, and the acknowledged sequence never goes back.
pub fn process_client_message(
    client: &mut ConnectedClientInfo,
    message: &ClientToServer,
    input: &mut PlayerInput,
) -> (status: Acknowledgment)
    ensures
        final(client)@ == processed(old(client)@, message@),
        *final(input) == committed_input(old(client)@, message@, *old(input)),
        status == acknowledgment(old(client)@, message@),
        final(client)@.last_ack >= old(client)@.last_ack,
        message@.header.last_received_sequence <= old(client)@.last_ack ==> {
            &&& final(client)@.last_ack == old(client)@.last_ack
            &&& final(client)@.baseline == old(client)@.baseline
            &&& final(client)@.pending == old(client)@.pending
            &&& final(client)@.until_drop == old(client)@.until_drop
            &&& *final(input) == *old(input)
        },
{
    let ack = message.header.last_received_sequence;
    let mut status = Acknowledgment::OutOfOrder;
    let is_in_order = ack > client.last_ack;
    if is_in_order {
        client.last_ack = ack;
        client.bodies.clear();
        match client.deltas.get(&ack) {
            Some(changes) => {
                client.last_confirmed_terrain.replay(changes);
                status = Acknowledgment::InOrder;
            },
            None => {
                status = Acknowledgment::StaleAcknowledgment;
            },
        }
        prune_acknowledged(&mut client.deltas, ack);
        client.until_drop = FRAME_DIFFERENCE_BEFORE_DISCONNECT;
        assert(client@.pending =~= old(client)@.pending.restrict(Set::new(|k: u64| k > ack)));
    }
    let ghost after = client@;
    let mut i: usize = 0;
    while i < message.bodies.len()
        invariant
            i <= message.bodies.len(),
            client@ == (ConnectionView {
                bodies: after.bodies + pongs(
                    message.bodies@.take(i as int),
                    message.header.current_sequence,
                ),
                ..after
            }),
            *input == if is_in_order {
                last_input(message.bodies@.take(i as int), *old(input))
            } else {
                *old(input)
            },
        decreases message.bodies.len() - i,
    {
        assert(message.bodies@.take(i + 1).drop_last() =~= message.bodies@.take(i as int));
        let ghost before = client.bodies.deep_view();
        match message.bodies[i] {
            ClientBodyElem::Ping => {
                client.bodies.push(ServerBodyElem::Pong(message.header.current_sequence));
                assert(client.bodies.deep_view() =~= before.push(
                    ServerBodyView::Pong(message.header.current_sequence),
                ));
            },
            ClientBodyElem::Input(new_input) => {
                if is_in_order {
                    *input = new_input;
                }
            },
        }
        i += 1;
    }
    assert(message.bodies@.take(i as int) =~= message.bodies@);
    retain_current(&mut client.bodies, client.last_ack);
    status
}

/// The connection after `deltas` were sent to the peer with sequence
/// number `sequence`: they wait in the next packet's body and are recorded
/// as pending.
pub open spec fn recorded(connection: ConnectionView, sequence: u64, deltas: Seq<DeltaView>)
    -> ConnectionView {
    ConnectionView {
        bodies: connection.bodies.push(ServerBodyView::WorldDeltas(deltas)),
        pending: connection.pending.insert(sequence, deltas),
        ..connection
    }
}

/// Adds to the next packet the world changes owed to a peer that stands in
/// `player_chunk`, and records them as pending under `sequence`. Where the
/// canonical world lacks a chunk that the peer needs, nothing is sent or
/// recorded.
pub fn enqueue_terrain(
    terrain: &Terrain,
    sequence: u64,
    client: &mut ConnectedClientInfo,
    player_chunk: u64,
) -> (outcome: Result<(), DeltaError>)
    ensures
        match outbound_deltas(terrain@, old(client)@.baseline, player_chunk) {
            Ok(deltas) => outcome is Ok && final(client)@ == recorded(
                old(client)@,
                sequence,
                deltas,
            ),
            Err(error) => outcome == Err::<(), DeltaError>(error) && final(client)@ == old(
                client,
            )@,
        },
{
    match compute_deltas(terrain, &client.last_confirmed_terrain, player_chunk) {
        Ok(world_changes) => {
            let ghost before = client.bodies.deep_view();
            client.bodies.push(ServerBodyElem::WorldDeltas(clone_deltas(&world_changes)));
            assert(client.bodies.deep_view() =~= before.push(
                ServerBodyView::WorldDeltas(world_changes.deep_view()),
            ));
            client.deltas.insert(sequence, world_changes);
            assert(client@.pending =~= old(client)@.pending.insert(
                sequence,
                world_changes.deep_view(),
            ));
            Ok(())
        },
        Err(error) => Err(error),
    }
}

/// Those of `bodies` that are pongs, in order.
pub open spec fn pongs_only(bodies: Seq<ServerBodyView>) -> Seq<ServerBodyView>
    decreases bodies.len(),
{
    if bodies.len() == 0 {
        Seq::empty()
    } else {
        let before = pongs_only(bodies.drop_last());
        match bodies.last() {
            ServerBodyView::Pong(_) => before.push(bodies.last()),
            _ => before,
        }
    }
}

/// Forms the packet for this network tick and leaves in the connection
/// only the pongs, which are repeated until they are known to have arrived.
pub fn take_outgoing(client: &mut ConnectedClientInfo, sequence: u64) -> (message: ServerToClient)
    ensures
        message@ == (ServerMessageView {
            header: ServerHeader { sequence },
            bodies: old(client)@.bodies,
        }),
        final(client)@ == (ConnectionView {
            bodies: pongs_only(old(client)@.bodies),
            ..old(client)@
        }),
{
    let mut kept: Vec<ServerBodyElem> = Vec::new();
    let mut i: usize = 0;
    while i < client.bodies.len()
        invariant
            i <= client.bodies.len(),
            kept.deep_view() == pongs_only(client.bodies.deep_view().take(i as int)),
        decreases client.bodies.len() - i,
    {
        assert(client.bodies.deep_view().take(i + 1).drop_last() =~= client.bodies.deep_view().take(
            i as int,
        ));
        match &client.bodies[i] {
            ServerBodyElem::Pong(answered) => {
                kept.push(ServerBodyElem::Pong(*answered));
            },
            _ => {},
        }
        i += 1;
    }
    assert(client.bodies.deep_view().take(i as int) =~= client.bodies.deep_view());
    std::mem::swap(&mut client.bodies, &mut kept);
    ServerToClient { header: ServerHeader { sequence }, bodies: kept }
}

/// Whether a connection has run out of time.
pub open spec fn expired(connection: ConnectionView) -> bool {
    connection.until_drop == 0
}

/// Ages the connection by one network tick and says whether its time had
/// already run out, in which case it is left as it was.
pub fn age(client: &mut ConnectedClientInfo) -> (dropped: bool)
    ensures
        dropped == expired(old(client)@),
        dropped ==> final(client)@ == old(client)@,
        !dropped ==> final(client)@ == (ConnectionView {
            until_drop: (old(client)@.until_drop - 1) as u64,
            ..old(client)@
        }),
{
    if client.until_drop == 0 {
        true
    } else {
        client.until_drop -= 1;
        false
    }
}

/// Whether the peer has acknowledged nothing beyond `sequence` and every
/// pending entry was sent after the acknowledged sequence number and no
/// later than `sequence`.
pub open spec fn pending_within(connection: ConnectionView, sequence: u64) -> bool {
    &&& connection.last_ack <= sequence
    &&& forall|k: u64| #[trigger]
        connection.pending.contains_key(k) ==> connection.last_ack < k <= sequence
}

/// The sequence numbers after `low` and up to `high`.
pub open spec fn sequence_span(low: u64, high: u64) -> Set<u64> {
    Set::new(|k: u64| low < k <= high)
}

/// There are `high - low` sequence numbers after `low` and up to `high`.
pub proof fn lemma_sequence_span(low: u64, high: u64)
    requires
        low <= high,
    ensures
        sequence_span(low, high).finite(),
        sequence_span(low, high).len() == high - low,
    decreases high - low,
{
    if low == high {
        assert(sequence_span(low, high) =~= Set::<u64>::empty());
    } else {
        let below = (high - 1) as u64;
        lemma_sequence_span(low, below);
        assert(sequence_span(low, high) =~= sequence_span(low, below).insert(high));
    }
}

/// A fresh connection has nothing pending.
pub proof fn lemma_fresh_pending_within(sequence: u64)
    ensures
        pending_within(fresh_connection(), sequence),
{
}

/// Processing a message keeps the pending log within its bounds, as long
/// as the peer acknowledges nothing that was not yet sent.
pub proof fn lemma_processed_pending_within(
    connection: ConnectionView,
    message: ClientMessageView,
    sequence: u64,
)
    requires
        pending_within(connection, sequence),
        message.header.last_received_sequence <= sequence,
    ensures
        pending_within(processed(connection, message), sequence),
{
}

/// Recording the deltas of a later tick keeps the pending log within its
/// bounds.
pub proof fn lemma_recorded_pending_within(
    connection: ConnectionView,
    sequence: u64,
    next: u64,
    deltas: Seq<DeltaView>,
)
    requires
        pending_within(connection, sequence),
        sequence < next,
    ensures
        pending_within(recorded(connection, next, deltas), next),
{
}

/// The pending log holds at most one entry for each network tick since
/// the one that the peer last acknowledged.
pub proof fn lemma_pending_bounded(connection: ConnectionView, sequence: u64)
    requires
        pending_within(connection, sequence),
    ensures
        connection.pending.dom().finite(),
        connection.pending.dom().len() <= sequence - connection.last_ack,
{
    let span = sequence_span(connection.last_ack, sequence);
    lemma_sequence_span(connection.last_ack, sequence);
    assert(connection.pending.dom().subset_of(span)) by {
        assert forall|k: u64| connection.pending.dom().contains(k) implies span.contains(k) by {
        }
    }
    vstd::set_lib::lemma_len_subset(connection.pending.dom(), span);
}

} // verus!
