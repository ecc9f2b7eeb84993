//! The server's registry of players: every peer that was ever heard from,
//! with its connection while it lasts, and the phases of a tick that walk
//! over all of them.

use crate::engine::{outbound_deltas, DeltaError};
use crate::message::{
    ClientAddress, ClientMessageView, ClientToServer, ServerBodyElem, ServerBodyView,
    ServerHeader, ServerMessageView, ServerToClient, SingleNetPlayerInfo,
};
use crate::player::{PlayerInput, PlayerPosition};
use crate::queue::Messages;
use crate::server::{
    age, committed_input, enqueue_terrain, expired, fresh_connection, pongs_only,
    process_client_message, processed, recorded, take_outgoing, ConnectedClientInfo,
    ConnectionView,
};
use crate::world::{destroy_block, destroyed, Chunk, Terrain};
use vstd::prelude::*;

verus! {

/// A player known to the server. The connection is present while the peer
/// is connected; the rest outlives it, so that a peer that comes back
/// finds its player as it left it.
#[derive(Debug)]
pub struct Player {
    pub addr: ClientAddress,
    pub position: PlayerPosition,
    /// The number of the chunk the player stands in.
    pub chunk_number: u64,
    pub input: PlayerInput,
    pub connection: Option<ConnectedClientInfo>,
}

/// The mathematical content of a `Player`.
pub struct PlayerView {
    pub addr: ClientAddress,
    pub position: PlayerPosition,
    pub chunk_number: u64,
    pub input: PlayerInput,
    pub connection: Option<ConnectionView>,
}

impl View for Player {
    type V = PlayerView;

    open spec fn view(&self) -> PlayerView {
        PlayerView {
            addr: self.addr,
            position: self.position,
            chunk_number: self.chunk_number,
            input: self.input,
            connection: match self.connection {
                Some(connection) => Some(connection@),
                None => None,
            },
        }
    }
}

impl DeepView for Player {
    type V = PlayerView;

    open spec fn deep_view(&self) -> PlayerView {
        self@
    }
}

/// Whether some player has address `addr`.
pub open spec fn knows(players: Seq<PlayerView>, addr: ClientAddress) -> bool {
    exists|i: int| 0 <= i < players.len() && (#[trigger] players[i]).addr == addr
}

/// The place of a player with address `addr`.
pub open spec fn place_of(players: Seq<PlayerView>, addr: ClientAddress) -> int
    recommends
        knows(players, addr),
{
    choose|i: int| 0 <= i < players.len() && (#[trigger] players[i]).addr == addr
}

/// No two players share an address.
pub open spec fn addresses_distinct(players: Seq<PlayerView>) -> bool {
    forall|i: int, j: int|
        0 <= i < j < players.len() ==> (#[trigger] players[i]).addr != (#[trigger] players[j]).addr
}

/// Among players with distinct addresses, the place of an address is the
/// one place that holds it.
pub proof fn lemma_place_of(players: Seq<PlayerView>, addr: ClientAddress, i: int)
    requires
        addresses_distinct(players),
        0 <= i < players.len(),
        players[i].addr == addr,
    ensures
        knows(players, addr),
        place_of(players, addr) == i,
{
}

/// A player after a message from its address was processed. A player
/// without connection gets a fresh one first: it has come back.
pub open spec fn delivered(player: PlayerView, message: ClientMessageView) -> PlayerView {
    let connection = match player.connection {
        Some(connection) => connection,
        None => fresh_connection(),
    };
    PlayerView {
        connection: Some(processed(connection, message)),
        input: committed_input(connection, message, player.input),
        ..player
    }
}

/// A player after each of `messages` was delivered to it, in order.
pub open spec fn delivered_all(player: PlayerView, messages: Seq<ClientMessageView>) -> PlayerView
    decreases messages.len(),
{
    if messages.len() == 0 {
        player
    } else {
        delivered(delivered_all(player, messages.drop_last()), messages.last())
    }
}

/// The messages of one tick that came from one address that no player has.
pub struct Newcomer {
    pub addr: ClientAddress,
    pub messages: Vec<ClientToServer>,
}

/// The mathematical content of a `Newcomer`.
pub struct NewcomerView {
    pub addr: ClientAddress,
    pub messages: Seq<ClientMessageView>,
}

/// The contents of a list of messages.
pub open spec fn message_views(messages: Seq<ClientToServer>) -> Seq<ClientMessageView> {
    Seq::new(messages.len(), |i: int| messages[i]@)
}

impl View for Newcomer {
    type V = NewcomerView;

    open spec fn view(&self) -> NewcomerView {
        NewcomerView { addr: self.addr, messages: message_views(self.messages@) }
    }
}

impl DeepView for Newcomer {
    type V = NewcomerView;

    open spec fn deep_view(&self) -> NewcomerView {
        self@
    }
}

/// Whether a message from `addr` is already staged.
pub open spec fn is_staged(staged: Seq<NewcomerView>, addr: ClientAddress) -> bool {
    exists|i: int| 0 <= i < staged.len() && (#[trigger] staged[i]).addr == addr
}

/// The place at which the messages from `addr` are staged.
pub open spec fn stage_of(staged: Seq<NewcomerView>, addr: ClientAddress) -> int
    recommends
        is_staged(staged, addr),
{
    choose|i: int| 0 <= i < staged.len() && (#[trigger] staged[i]).addr == addr
}

/// No two staged newcomers share an address.
pub open spec fn stages_distinct(staged: Seq<NewcomerView>) -> bool {
    forall|i: int, j: int|
        0 <= i < j < staged.len() ==> (#[trigger] staged[i]).addr != (#[trigger] staged[j]).addr
}

/// The staging list after a message from an unknown address was added:
/// behind the others from that address, or as the first of a new entry.
pub open spec fn staged_with(
    staged: Seq<NewcomerView>,
    addr: ClientAddress,
    message: ClientMessageView,
) -> Seq<NewcomerView> {
    if is_staged(staged, addr) {
        let place = stage_of(staged, addr);
        staged.update(
            place,
            NewcomerView { addr, messages: staged[place].messages.push(message) },
        )
    } else {
        staged.push(NewcomerView { addr, messages: seq![message] })
    }
}

/// Where the messages of a tick have gone so far.
pub struct Routing {
    /// The players, those with a known address having processed their
    /// messages.
    pub players: Seq<PlayerView>,
    /// The messages from addresses that no player has, by address, in the
    /// order in which each address was first heard.
    pub staged: Seq<NewcomerView>,
    /// The addresses of the players that came back, in the order in which
    /// they did.
    pub reconnected: Seq<ClientAddress>,
}

/// The routing after one more message, from `addr`.
pub open spec fn routed(routing: Routing, addr: ClientAddress, message: ClientMessageView)
    -> Routing {
    if knows(routing.players, addr) {
        let place = place_of(routing.players, addr);
        Routing {
            players: routing.players.update(place, delivered(routing.players[place], message)),
            staged: routing.staged,
            reconnected: if routing.players[place].connection is None {
                routing.reconnected.push(addr)
            } else {
                routing.reconnected
            },
        }
    } else {
        Routing { staged: staged_with(routing.staged, addr, message), ..routing }
    }
}

/// The routing after each of `queue`, oldest first.
pub open spec fn routed_all(
    players: Seq<PlayerView>,
    queue: Seq<(ClientAddress, ClientMessageView)>,
) -> Routing
    decreases queue.len(),
{
    if queue.len() == 0 {
        Routing { players, staged: Seq::empty(), reconnected: Seq::empty() }
    } else {
        routed(routed_all(players, queue.drop_last()), queue.last().0, queue.last().1)
    }
}

/// The player made for a newcomer: it starts at the origin with idle
/// input and a fresh connection, and has processed the newcomer's
/// messages.
pub open spec fn welcomed(newcomer: NewcomerView) -> PlayerView {
    delivered_all(
        PlayerView {
            addr: newcomer.addr,
            position: PlayerPosition { x: 0, y: 0 },
            chunk_number: 0,
            input: PlayerInput::idle(),
            connection: Some(fresh_connection()),
        },
        newcomer.messages,
    )
}

/// The players after each staged newcomer was given a player of its own.
pub open spec fn admitted(players: Seq<PlayerView>, staged: Seq<NewcomerView>) -> Seq<PlayerView> {
    players + Seq::new(staged.len(), |i: int| welcomed(staged[i]))
}

/// The addresses of the staged newcomers.
pub open spec fn staged_addresses(staged: Seq<NewcomerView>) -> Seq<ClientAddress> {
    Seq::new(staged.len(), |i: int| staged[i].addr)
}

/// The contents of a queue of received messages.
pub open spec fn inbound_view(queue: Seq<(ClientAddress, ClientToServer)>) -> Seq<
    (ClientAddress, ClientMessageView),
> {
    Seq::new(queue.len(), |i: int| (queue[i].0, queue[i].1@))
}

/// The players after a tick's messages were handled: each message from a
/// known address is delivered to its player at once; the messages from an
/// unknown address are gathered, and one player is made for the address
/// when all messages have been looked at.
pub open spec fn handled(players: Seq<PlayerView>, queue: Seq<(ClientAddress, ClientMessageView)>)
    -> Seq<PlayerView> {
    admitted(routed_all(players, queue).players, routed_all(players, queue).staged)
}

/// Who arrived while a tick's messages were handled.
#[derive(Debug)]
pub struct Arrivals {
    /// Addresses for which a player was made.
    pub connected: Vec<ClientAddress>,
    /// Addresses of players that had timed out and came back.
    pub reconnected: Vec<ClientAddress>,
}

/// The index of the player with address `addr`, if there is one.
fn find_player(players: &Vec<Player>, addr: ClientAddress) -> (place: Option<usize>)
    requires
        addresses_distinct(players.deep_view()),
    ensures
        place is Some <==> knows(players.deep_view(), addr),
        place matches Some(i) ==> i < players.len() && i == place_of(players.deep_view(), addr),
{
    let mut i: usize = 0;
    while i < players.len()
        invariant
            i <= players.len(),
            addresses_distinct(players.deep_view()),
            forall|j: int| 0 <= j < i ==> (#[trigger] players.deep_view()[j]).addr != addr,
        decreases players.len() - i,
    {
        if players[i].addr == addr {
            proof {
                lemma_place_of(players.deep_view(), addr, i as int);
            }
            return Some(i);
        }
        i += 1;
    }
    None
}

/// The index of the staged newcomer with address `addr`, if there is one.
fn find_staged(staged: &Vec<Newcomer>, addr: ClientAddress) -> (place: Option<usize>)
    requires
        stages_distinct(staged.deep_view()),
    ensures
        place is Some <==> is_staged(staged.deep_view(), addr),
        place matches Some(i) ==> i < staged.len() && i == stage_of(staged.deep_view(), addr),
{
    let mut i: usize = 0;
    while i < staged.len()
        invariant
            i <= staged.len(),
            stages_distinct(staged.deep_view()),
            forall|j: int| 0 <= j < i ==> (#[trigger] staged.deep_view()[j]).addr != addr,
        decreases staged.len() - i,
    {
        if staged[i].addr == addr {
            proof {
                let views = staged.deep_view();
                assert(views[i as int].addr == addr);
            }
            return Some(i);
        }
        i += 1;
    }
    None
}

/// The server: its sequence number and its registry of players, no two
/// of which share an address.
#[derive(Debug)]
pub struct Server {
    sequence: u64,
    players: Vec<Player>,
}

/// The mathematical content of a `Server`.
pub struct ServerView {
    pub sequence: u64,
    pub players: Seq<PlayerView>,
}

impl View for Server {
    type V = ServerView;

    closed spec fn view(&self) -> ServerView {
        ServerView { sequence: self.sequence, players: self.players.deep_view() }
    }
}

/// The player that a newcomer's first `count` messages have made so far.
spec fn welcoming(newcomer: NewcomerView, count: int) -> PlayerView {
    delivered_all(
        PlayerView {
            addr: newcomer.addr,
            position: PlayerPosition { x: 0, y: 0 },
            chunk_number: 0,
            input: PlayerInput::idle(),
            connection: Some(fresh_connection()),
        },
        newcomer.messages.take(count),
    )
}

/// Gives the newcomer a player of its own that has processed the
/// newcomer's messages.
fn welcome(newcomer: &Newcomer) -> (player: Player)
    ensures
        player@ == welcomed(newcomer@),
{
    let mut connection = ConnectedClientInfo::default();
    let mut input = PlayerInput::default();
    let mut m: usize = 0;
    while m < newcomer.messages.len()
        invariant
            m <= newcomer.messages.len(),
            welcoming(newcomer@, m as int) == (PlayerView {
                addr: newcomer.addr,
                position: PlayerPosition { x: 0, y: 0 },
                chunk_number: 0,
                input,
                connection: Some(connection@),
            }),
        decreases newcomer.messages.len() - m,
    {
        assert(newcomer@.messages.take(m + 1).drop_last() =~= newcomer@.messages.take(m as int));
        process_client_message(&mut connection, &newcomer.messages[m], &mut input);
        m += 1;
    }
    assert(newcomer@.messages.take(m as int) =~= newcomer@.messages);
    Player {
        addr: newcomer.addr,
        position: PlayerPosition::default(),
        chunk_number: 0,
        input,
        connection: Some(connection),
    }
}

impl Server {
    #[verifier::type_invariant]
    closed spec fn wf(&self) -> bool {
        addresses_distinct(self.players.deep_view())
    }

    /// A server at its first sequence number, with no players.
    pub fn new() -> (server: Server)
        ensures
            server@ == (ServerView { sequence: 1, players: Seq::empty() }),
    {
        let server = Server { sequence: 1, players: Vec::new() };
        assert(server.players.deep_view() =~= Seq::<PlayerView>::empty());
        server
    }

    /// The current sequence number.
    pub fn sequence(&self) -> (sequence: u64)
        ensures
            sequence == self@.sequence,
    {
        self.sequence
    }

    /// Handles the messages of a tick: see `handled`. The queue is left
    /// empty.
    pub fn handle_messages(&mut self, messages: &mut Messages<(ClientAddress, ClientToServer)>) -> (arrivals: Arrivals)
        ensures
            final(messages)@.len() == 0,
            final(messages).limit() == old(messages).limit(),
            final(self)@.sequence == old(self)@.sequence,
            final(self)@.players == handled(old(self)@.players, inbound_view(old(messages)@)),
            arrivals.connected@ == staged_addresses(
                routed_all(old(self)@.players, inbound_view(old(messages)@)).staged,
            ),
            arrivals.reconnected@ == routed_all(
                old(self)@.players,
                inbound_view(old(messages)@),
            ).reconnected,
    {
        proof {
            use_type_invariant(&*self);
        }
        let ghost before = self@.players;
        let ghost queue = inbound_view(messages@);
        let mut players: Vec<Player> = Vec::new();
        std::mem::swap(&mut self.players, &mut players);
        let mut staged: Vec<Newcomer> = Vec::new();
        let mut reconnected: Vec<ClientAddress> = Vec::new();
        let ghost mut done: int = 0;
        assert(staged.deep_view() =~= Seq::<NewcomerView>::empty());
        loop
            invariant
                0 <= done <= old(messages)@.len(),
                messages@ == old(messages)@.skip(done),
                messages.limit() == old(messages).limit(),
                queue == inbound_view(old(messages)@),
                before == old(self)@.players,
                self.sequence == old(self).sequence,
                self.players@.len() == 0,
                routed_all(before, queue.take(done)) == (Routing {
                    players: players.deep_view(),
                    staged: staged.deep_view(),
                    reconnected: reconnected@,
                }),
                addresses_distinct(players.deep_view()),
                stages_distinct(staged.deep_view()),
                forall|j: int|
                    0 <= j < staged.len() ==> !knows(
                        players.deep_view(),
                        (#[trigger] staged.deep_view()[j]).addr,
                    ),
            ensures
                done == old(messages)@.len(),
            decreases old(messages)@.len() - done,
        {
            match messages.pop() {
                None => {
                    break ;
                },
                Some((addr, message)) => {
                    assert(queue.take(done + 1).drop_last() =~= queue.take(done));
                    let ghost views = players.deep_view();
                    match find_player(&players, addr) {
                        Some(i) => {
                            let mut input = players[i].input;
                            let mut connection = match players[i].connection.take() {
                                Some(connection) => connection,
                                None => {
                                    reconnected.push(addr);
                                    ConnectedClientInfo::default()
                                },
                            };
                            process_client_message(&mut connection, &message, &mut input);
                            players[i].input = input;
                            players[i].connection = Some(connection);
                            assert(players.deep_view() =~= views.update(
                                i as int,
                                delivered(views[i as int], message@),
                            ));
                            assert forall|a: int, b: int|
                                0 <= a < b < players.len() implies (
                            #[trigger] players.deep_view()[a]).addr != (
                            #[trigger] players.deep_view()[b]).addr by {
                            }
                            assert forall|j: int| 0 <= j < staged.len() implies !knows(
                                players.deep_view(),
                                (#[trigger] staged.deep_view()[j]).addr,
                            ) by {
                            }
                        },
                        None => {
                            let ghost staged_views = staged.deep_view();
                            match find_staged(&staged, addr) {
                                Some(j) => {
                                    let ghost old_messages = staged[j as int]@.messages;
                                    staged[j].messages.push(message);
                                    assert(staged[j as int]@.messages =~= old_messages.push(
                                        message@,
                                    ));
                                    assert(staged.deep_view() =~= staged_with(
                                        staged_views,
                                        addr,
                                        message@,
                                    ));
                                    assert forall|a: int, b: int|
                                        0 <= a < b < staged.len() implies (
                                    #[trigger] staged.deep_view()[a]).addr != (
                                    #[trigger] staged.deep_view()[b]).addr by {
                                    }
                                    assert forall|k: int| 0 <= k < staged.len() implies !knows(
                                        players.deep_view(),
                                        (#[trigger] staged.deep_view()[k]).addr,
                                    ) by {
                                    }
                                },
                                None => {
                                    let mut first: Vec<ClientToServer> = Vec::new();
                                    first.push(message);
                                    staged.push(Newcomer { addr, messages: first });
                                    assert(message_views(first@) =~= seq![message@]);
                                    assert(staged.deep_view() =~= staged_with(
                                        staged_views,
                                        addr,
                                        message@,
                                    ));
                                    assert forall|a: int, b: int|
                                        0 <= a < b < staged.len() implies (
                                    #[trigger] staged.deep_view()[a]).addr != (
                                    #[trigger] staged.deep_view()[b]).addr by {
                                    }
                                    assert forall|k: int| 0 <= k < staged.len() implies !knows(
                                        players.deep_view(),
                                        (#[trigger] staged.deep_view()[k]).addr,
                                    ) by {
                                    }
                                },
                            }
                        },
                    }
                    proof {
                        done = done + 1;
                    }
                },
            }
        }
        assert(queue.take(done) =~= queue);
        let ghost routing = routed_all(before, queue);
        let mut connected: Vec<ClientAddress> = Vec::new();
        let mut k: usize = 0;
        while k < staged.len()
            invariant
                k <= staged.len(),
                routing.staged == staged.deep_view(),
                stages_distinct(staged.deep_view()),
                players.deep_view() == routing.players + Seq::new(
                    k as nat,
                    |i: int| welcomed(routing.staged[i]),
                ),
                connected@ == staged_addresses(routing.staged).take(k as int),
                addresses_distinct(players.deep_view()),
                forall|j: int|
                    k <= j < staged.len() ==> !knows(
                        players.deep_view(),
                        (#[trigger] staged.deep_view()[j]).addr,
                    ),
            decreases staged.len() - k,
        {
            let ghost views = players.deep_view();
            let player = welcome(&staged[k]);
            proof {
                lemma_delivered_all_keeps_address(
                    PlayerView {
                        addr: staged[k as int].addr,
                        position: PlayerPosition { x: 0, y: 0 },
                        chunk_number: 0,
                        input: PlayerInput::idle(),
                        connection: Some(fresh_connection()),
                    },
                    staged[k as int]@.messages,
                );
            }
            connected.push(staged[k].addr);
            players.push(player);
            assert(players.deep_view() =~= views.push(welcomed(routing.staged[k as int])));
            assert forall|a: int, b: int| 0 <= a < b < players.len() implies (
            #[trigger] players.deep_view()[a]).addr != (#[trigger] players.deep_view()[b]).addr by {
            }
            assert forall|j: int| k + 1 <= j < staged.len() implies !knows(
                players.deep_view(),
                (#[trigger] staged.deep_view()[j]).addr,
            ) by {
            }
            k += 1;
        }
        std::mem::swap(&mut self.players, &mut players);
        Arrivals { connected, reconnected }
    }
}

/// Two lists of players of which each player has the address of its
/// counterpart.
pub open spec fn same_addresses(a: Seq<PlayerView>, b: Seq<PlayerView>) -> bool {
    a.len() == b.len() && forall|i: int| 0 <= i < a.len() ==> (#[trigger] a[i]).addr == b[i].addr
}

/// Distinct addresses stay distinct while no player's address changes.
pub proof fn lemma_same_addresses(a: Seq<PlayerView>, b: Seq<PlayerView>)
    requires
        addresses_distinct(a),
        same_addresses(a, b),
    ensures
        addresses_distinct(b),
{
    assert forall|i: int, j: int| 0 <= i < j < b.len() implies (#[trigger] b[i]).addr != (
    #[trigger] b[j]).addr by {
        assert(a[i].addr == b[i].addr);
        assert(a[j].addr == b[j].addr);
    }
}

/// A player after the world changes owed to it were added to its next
/// packet and recorded as pending under `sequence`. A player without
/// connection, or one that needs a chunk the canonical world lacks, is
/// left as it is.
pub open spec fn informed(player: PlayerView, terrain: Seq<Chunk>, sequence: u64) -> PlayerView {
    match player.connection {
        Some(connection) => match outbound_deltas(
            terrain,
            connection.baseline,
            player.chunk_number,
        ) {
            Ok(deltas) => PlayerView {
                connection: Some(recorded(connection, sequence, deltas)),
                ..player
            },
            Err(_) => player,
        },
        None => player,
    }
}

/// The connected players that need a chunk the canonical world lacks, each
/// with the reason, in the order of `players`.
pub open spec fn delta_failures(players: Seq<PlayerView>, terrain: Seq<Chunk>) -> Seq<
    (ClientAddress, DeltaError),
>
    decreases players.len(),
{
    if players.len() == 0 {
        Seq::empty()
    } else {
        let before = delta_failures(players.drop_last(), terrain);
        match players.last().connection {
            Some(connection) => match outbound_deltas(
                terrain,
                connection.baseline,
                players.last().chunk_number,
            ) {
                Ok(_) => before,
                Err(error) => before.push((players.last().addr, error)),
            },
            None => before,
        }
    }
}

/// What a player looks like to the others.
pub open spec fn info_of(player: PlayerView) -> SingleNetPlayerInfo {
    SingleNetPlayerInfo { addr: player.addr, position: player.position }
}

/// The positions of the connected players as told to the player with
/// address `target`: its own first, the others behind it in the order of
/// `players`.
pub open spec fn roster(players: Seq<PlayerView>, target: ClientAddress) -> Seq<
    SingleNetPlayerInfo,
>
    decreases players.len(),
{
    if players.len() == 0 {
        Seq::empty()
    } else {
        let before = roster(players.drop_last(), target);
        if players.last().connection is None {
            before
        } else if players.last().addr == target {
            seq![info_of(players.last())] + before
        } else {
            before.push(info_of(players.last()))
        }
    }
}

/// A player after the roster of `all` was added to its next packet. A
/// player without connection is left as it is.
pub open spec fn briefed(player: PlayerView, all: Seq<PlayerView>) -> PlayerView {
    match player.connection {
        Some(connection) => PlayerView {
            connection: Some(
                ConnectionView {
                    bodies: connection.bodies.push(
                        ServerBodyView::PlayerInfo(roster(all, player.addr)),
                    ),
                    ..connection
                },
            ),
            ..player
        },
        None => player,
    }
}

/// A packet and the address it goes to.
#[derive(Debug)]
pub struct Outgoing {
    pub addr: ClientAddress,
    pub message: ServerToClient,
}

/// The mathematical content of an `Outgoing`.
pub struct OutgoingView {
    pub addr: ClientAddress,
    pub message: ServerMessageView,
}

impl View for Outgoing {
    type V = OutgoingView;

    open spec fn view(&self) -> OutgoingView {
        OutgoingView { addr: self.addr, message: self.message@ }
    }
}

impl DeepView for Outgoing {
    type V = OutgoingView;

    open spec fn deep_view(&self) -> OutgoingView {
        self@
    }
}

/// The packets of a network tick: one for each connected player, in the
/// order of `players`, holding all that waits to be sent to it.
pub open spec fn packets(players: Seq<PlayerView>, sequence: u64) -> Seq<OutgoingView>
    decreases players.len(),
{
    if players.len() == 0 {
        Seq::empty()
    } else {
        let before = packets(players.drop_last(), sequence);
        match players.last().connection {
            Some(connection) => before.push(
                OutgoingView {
                    addr: players.last().addr,
                    message: ServerMessageView {
                        header: ServerHeader { sequence },
                        bodies: connection.bodies,
                    },
                },
            ),
            None => before,
        }
    }
}

/// A player after its packet was formed: only the pongs still wait.
pub open spec fn emptied(player: PlayerView) -> PlayerView {
    match player.connection {
        Some(connection) => PlayerView {
            connection: Some(
                ConnectionView { bodies: pongs_only(connection.bodies), ..connection },
            ),
            ..player
        },
        None => player,
    }
}

/// A player after one more network tick: a connection whose time has run
/// out is removed, every other connection has one tick less to live. What
/// is not part of the connection stays.
pub open spec fn aged(player: PlayerView) -> PlayerView {
    match player.connection {
        Some(connection) => if expired(connection) {
            PlayerView { connection: None, ..player }
        } else {
            PlayerView {
                connection: Some(
                    ConnectionView {
                        until_drop: (connection.until_drop - 1) as u64,
                        ..connection
                    },
                ),
                ..player
            }
        },
        None => player,
    }
}

/// The addresses of the players whose connection has run out of time, in
/// the order of `players`.
pub open spec fn timed_out(players: Seq<PlayerView>) -> Seq<ClientAddress>
    decreases players.len(),
{
    if players.len() == 0 {
        Seq::empty()
    } else {
        let before = timed_out(players.drop_last());
        match players.last().connection {
            Some(connection) => if expired(connection) {
                before.push(players.last().addr)
            } else {
                before
            },
            None => before,
        }
    }
}

/// The world after each player that asks to mine has had the block it
/// points at destroyed, in the order of `players`.
pub open spec fn mined(chunks: Seq<Chunk>, players: Seq<PlayerView>) -> Seq<Chunk>
    decreases players.len(),
{
    if players.len() == 0 {
        chunks
    } else {
        let before = mined(chunks, players.drop_last());
        let input = players.last().input;
        if input.mine {
            destroyed(before, input.block_x, input.block_y)
        } else {
            before
        }
    }
}

/// The players after the world changes owed to each were added to its
/// next packet: see `informed`.
pub open spec fn informed_all(players: Seq<PlayerView>, terrain: Seq<Chunk>, sequence: u64) -> Seq<
    PlayerView,
> {
    Seq::new(players.len(), |i: int| informed(players[i], terrain, sequence))
}

/// The players after each connected one was told where all connected ones
/// stand: see `briefed`.
pub open spec fn briefed_all(players: Seq<PlayerView>) -> Seq<PlayerView> {
    Seq::new(players.len(), |i: int| briefed(players[i], players))
}

/// The players after their packets were formed: see `emptied`.
pub open spec fn emptied_all(players: Seq<PlayerView>) -> Seq<PlayerView> {
    Seq::new(players.len(), |i: int| emptied(players[i]))
}

/// The players after one more network tick: see `aged`.
pub open spec fn aged_all(players: Seq<PlayerView>) -> Seq<PlayerView> {
    Seq::new(players.len(), |i: int| aged(players[i]))
}

/// The roster told to the player with address `target`.
fn build_roster(players: &Vec<Player>, target: ClientAddress) -> (list: Vec<SingleNetPlayerInfo>)
    ensures
        list@ == roster(players.deep_view(), target),
{
    let mut list: Vec<SingleNetPlayerInfo> = Vec::new();
    let mut i: usize = 0;
    while i < players.len()
        invariant
            i <= players.len(),
            list@ == roster(players.deep_view().take(i as int), target),
        decreases players.len() - i,
    {
        assert(players.deep_view().take(i + 1).drop_last() =~= players.deep_view().take(i as int));
        if players[i].connection.is_some() {
            let info = SingleNetPlayerInfo { addr: players[i].addr, position: players[i].position };
            if players[i].addr == target {
                list.insert(0, info);
            } else {
                list.push(info);
            }
        }
        i += 1;
    }
    assert(players.deep_view().take(i as int) =~= players.deep_view());
    list
}

impl Server {
    /// Moves on to the next sequence number.
    pub fn increase_network_tick(&mut self)
        requires
            old(self)@.sequence < u64::MAX,
        ensures
            final(self)@ == (ServerView {
                sequence: (old(self)@.sequence + 1) as u64,
                ..old(self)@
            }),
    {
        proof {
            use_type_invariant(&*self);
        }
        self.sequence += 1;
    }

    /// Number of players.
    pub fn player_count(&self) -> (count: usize)
        ensures
            count == self@.players.len(),
    {
        self.players.len()
    }

    /// The player at place `index`, if there is one.
    pub fn player(&self, index: usize) -> (player: Option<&Player>)
        ensures
            player is Some <==> index < self@.players.len(),
            player matches Some(found) ==> found@ == self@.players[index as int],
    {
        if index < self.players.len() {
            Some(&self.players[index])
        } else {
            None
        }
    }

    /// The place of the player with address `addr`, if there is one.
    pub fn find(&self, addr: ClientAddress) -> (place: Option<usize>)
        ensures
            place is Some <==> knows(self@.players, addr),
            place matches Some(i) ==> i < self@.players.len() && self@.players[i as int].addr
                == addr,
    {
        proof {
            use_type_invariant(self);
        }
        let place = find_player(&self.players, addr);
        place
    }

    /// Records where the player at place `index` now stands. Says whether
    /// there is such a player; nothing changes where there is none.
    pub fn set_position(&mut self, index: usize, position: PlayerPosition, chunk_number: u64) -> (found:
        bool)
        ensures
            found == (index < old(self)@.players.len()),
            final(self)@.sequence == old(self)@.sequence,
            found ==> final(self)@.players == old(self)@.players.update(
                index as int,
                PlayerView { position, chunk_number, ..old(self)@.players[index as int] },
            ),
            !found ==> final(self)@.players == old(self)@.players,
    {
        proof {
            use_type_invariant(&*self);
        }
        if index >= self.players.len() {
            return false;
        }
        let mut players: Vec<Player> = Vec::new();
        std::mem::swap(&mut self.players, &mut players);
        let ghost before = players.deep_view();
        players[index].position = position;
        players[index].chunk_number = chunk_number;
        proof {
            lemma_same_addresses(before, players.deep_view());
        }
        std::mem::swap(&mut self.players, &mut players);
        true
    }

    /// Adds a player that is not connected, as one read back from a save
    /// file, unless its address is taken. Says whether it was added.
    pub fn restore_player(
        &mut self,
        addr: ClientAddress,
        position: PlayerPosition,
        chunk_number: u64,
    ) -> (added: bool)
        ensures
            final(self)@.sequence == old(self)@.sequence,
            added == !knows(old(self)@.players, addr),
            added ==> final(self)@.players == old(self)@.players.push(
                PlayerView {
                    addr,
                    position,
                    chunk_number,
                    input: PlayerInput::idle(),
                    connection: None,
                },
            ),
            !added ==> final(self)@.players == old(self)@.players,
    {
        proof {
            use_type_invariant(&*self);
        }
        if find_player(&self.players, addr).is_some() {
            return false;
        }
        let mut players: Vec<Player> = Vec::new();
        std::mem::swap(&mut self.players, &mut players);
        let ghost before = players.deep_view();
        players.push(
            Player { addr, position, chunk_number, input: PlayerInput::default(), connection: None },
        );
        assert(players.deep_view() =~= before.push(
            PlayerView {
                addr,
                position,
                chunk_number,
                input: PlayerInput::idle(),
                connection: None,
            },
        ));
        assert forall|a: int, b: int| 0 <= a < b < players.len() implies (
        #[trigger] players.deep_view()[a]).addr != (#[trigger] players.deep_view()[b]).addr by {
        }
        std::mem::swap(&mut self.players, &mut players);
        true
    }

    /// Destroys the block that each mining player points at: see `mined`.
    pub fn process_player_mining(&self, terrain: &mut Terrain)
        ensures
            final(terrain)@ == mined(old(terrain)@, self@.players),
    {
        let mut i: usize = 0;
        while i < self.players.len()
            invariant
                i <= self.players.len(),
                terrain@ == mined(old(terrain)@, self@.players.take(i as int)),
            decreases self.players.len() - i,
        {
            assert(self@.players.take(i + 1).drop_last() =~= self@.players.take(i as int));
            let input = self.players[i].input;
            if input.mine {
                let _ = destroy_block(input.block_x, input.block_y, terrain);
            }
            i += 1;
        }
        assert(self@.players.take(i as int) =~= self@.players);
    }

    /// Adds to each connected player's next packet the world changes owed
    /// to it and records them as pending under the current sequence number:
    /// see `informed`. Hands back the players for which this was not
    /// possible.
    pub fn enqueue_terrain(&mut self, terrain: &Terrain) -> (failures: Vec<
        (ClientAddress, DeltaError),
    >)
        ensures
            final(self)@.sequence == old(self)@.sequence,
            final(self)@.players == informed_all(
                old(self)@.players,
                terrain@,
                old(self)@.sequence,
            ),
            failures@ == delta_failures(old(self)@.players, terrain@),
    {
        proof {
            use_type_invariant(&*self);
        }
        let sequence = self.sequence;
        let mut players: Vec<Player> = Vec::new();
        std::mem::swap(&mut self.players, &mut players);
        let ghost before = players.deep_view();
        let mut failures: Vec<(ClientAddress, DeltaError)> = Vec::new();
        let mut i: usize = 0;
        while i < players.len()
            invariant
                i <= players.len(),
                players.len() == before.len(),
                forall|j: int|
                    0 <= j < i ==> (#[trigger] players.deep_view()[j]) == informed(
                        before[j],
                        terrain@,
                        sequence,
                    ),
                forall|j: int| i <= j < players.len() ==> (#[trigger] players.deep_view()[j]) == before[j],
                failures@ == delta_failures(before.take(i as int), terrain@),
            decreases players.len() - i,
        {
            assert(before.take(i + 1).drop_last() =~= before.take(i as int));
            assert(players.deep_view()[i as int] == before[i as int]);
            let ghost views = players.deep_view();
            let addr = players[i].addr;
            let player_chunk = players[i].chunk_number;
            match players[i].connection.take() {
                Some(mut connection) => {
                    match enqueue_terrain(terrain, sequence, &mut connection, player_chunk) {
                        Ok(()) => {},
                        Err(error) => {
                            failures.push((addr, error));
                        },
                    }
                    players[i].connection = Some(connection);
                },
                None => {},
            }
            assert(players.deep_view() =~= views.update(
                i as int,
                informed(before[i as int], terrain@, sequence),
            ));
            i += 1;
        }
        assert(before.take(i as int) =~= before);
        proof {
            assert forall|j: int| 0 <= j < before.len() implies (#[trigger] before[j]).addr
                == players.deep_view()[j].addr by {}
            lemma_same_addresses(before, players.deep_view());
        }
        std::mem::swap(&mut self.players, &mut players);
        failures
    }

    /// Adds to each connected player's next packet where all connected
    /// players stand: see `briefed`.
    pub fn enqueue_player_info(&mut self)
        ensures
            final(self)@.sequence == old(self)@.sequence,
            final(self)@.players == briefed_all(old(self)@.players),
    {
        proof {
            use_type_invariant(&*self);
        }
        let mut players: Vec<Player> = Vec::new();
        std::mem::swap(&mut self.players, &mut players);
        let ghost before = players.deep_view();
        let mut i: usize = 0;
        while i < players.len()
            invariant
                i <= players.len(),
                players.len() == before.len(),
                forall|j: int|
                    0 <= j < i ==> (#[trigger] players.deep_view()[j]) == briefed(before[j], before),
                forall|j: int| i <= j < players.len() ==> (#[trigger] players.deep_view()[j]) == before[j],
            decreases players.len() - i,
        {
            let ghost views = players.deep_view();
            assert(views[i as int] == before[i as int]);
            if players[i].connection.is_some() {
                let list = build_roster(&players, players[i].addr);
                proof {
                    lemma_roster_reads_little(views, before, before[i as int].addr);
                }
                match players[i].connection.take() {
                    Some(mut connection) => {
                        let ghost bodies = connection.bodies.deep_view();
                        connection.bodies.push(ServerBodyElem::PlayerInfo(list));
                        assert(connection.bodies.deep_view() =~= bodies.push(
                            ServerBodyView::PlayerInfo(list@),
                        ));
                        players[i].connection = Some(connection);
                    },
                    None => {},
                }
            }
            assert(players.deep_view() =~= views.update(
                i as int,
                briefed(before[i as int], before),
            ));
            i += 1;
        }
        proof {
            assert forall|j: int| 0 <= j < before.len() implies (#[trigger] before[j]).addr
                == players.deep_view()[j].addr by {}
            lemma_same_addresses(before, players.deep_view());
        }
        std::mem::swap(&mut self.players, &mut players);
    }

    /// Forms this network tick's packet for each connected player and
    /// leaves only the pongs waiting: see `packets` and `emptied`.
    pub fn send_all_messages(&mut self) -> (outgoing: Vec<Outgoing>)
        ensures
            final(self)@.sequence == old(self)@.sequence,
            outgoing.deep_view() == packets(old(self)@.players, old(self)@.sequence),
            final(self)@.players == emptied_all(old(self)@.players),
    {
        proof {
            use_type_invariant(&*self);
        }
        let sequence = self.sequence;
        let mut players: Vec<Player> = Vec::new();
        std::mem::swap(&mut self.players, &mut players);
        let ghost before = players.deep_view();
        let mut outgoing: Vec<Outgoing> = Vec::new();
        let mut i: usize = 0;
        while i < players.len()
            invariant
                i <= players.len(),
                players.len() == before.len(),
                forall|j: int| 0 <= j < i ==> (#[trigger] players.deep_view()[j]) == emptied(before[j]),
                forall|j: int| i <= j < players.len() ==> (#[trigger] players.deep_view()[j]) == before[j],
                outgoing.deep_view() == packets(before.take(i as int), sequence),
            decreases players.len() - i,
        {
            assert(before.take(i + 1).drop_last() =~= before.take(i as int));
            let ghost views = players.deep_view();
            assert(views[i as int] == before[i as int]);
            let addr = players[i].addr;
            match players[i].connection.take() {
                Some(mut connection) => {
                    let message = take_outgoing(&mut connection, sequence);
                    outgoing.push(Outgoing { addr, message });
                    players[i].connection = Some(connection);
                },
                None => {},
            }
            assert(players.deep_view() =~= views.update(i as int, emptied(before[i as int])));
            i += 1;
        }
        assert(before.take(i as int) =~= before);
        proof {
            assert forall|j: int| 0 <= j < before.len() implies (#[trigger] before[j]).addr
                == players.deep_view()[j].addr by {}
            lemma_same_addresses(before, players.deep_view());
        }
        std::mem::swap(&mut self.players, &mut players);
        outgoing
    }

    /// Ages every connection by one network tick and removes those whose
    /// time has run out: see `aged`. Hands back the addresses of the
    /// players that were disconnected.
    pub fn drop_disconnected_clients(&mut self) -> (dropped: Vec<ClientAddress>)
        ensures
            final(self)@.sequence == old(self)@.sequence,
            dropped@ == timed_out(old(self)@.players),
            final(self)@.players == aged_all(old(self)@.players),
    {
        proof {
            use_type_invariant(&*self);
        }
        let mut players: Vec<Player> = Vec::new();
        std::mem::swap(&mut self.players, &mut players);
        let ghost before = players.deep_view();
        let mut dropped: Vec<ClientAddress> = Vec::new();
        let mut i: usize = 0;
        while i < players.len()
            invariant
                i <= players.len(),
                players.len() == before.len(),
                forall|j: int| 0 <= j < i ==> (#[trigger] players.deep_view()[j]) == aged(before[j]),
                forall|j: int| i <= j < players.len() ==> (#[trigger] players.deep_view()[j]) == before[j],
                dropped@ == timed_out(before.take(i as int)),
            decreases players.len() - i,
        {
            assert(before.take(i + 1).drop_last() =~= before.take(i as int));
            let ghost views = players.deep_view();
            assert(views[i as int] == before[i as int]);
            let addr = players[i].addr;
            match players[i].connection.take() {
                Some(mut connection) => {
                    if age(&mut connection) {
                        dropped.push(addr);
                    } else {
                        players[i].connection = Some(connection);
                    }
                },
                None => {},
            }
            assert(players.deep_view() =~= views.update(i as int, aged(before[i as int])));
            i += 1;
        }
        assert(before.take(i as int) =~= before);
        proof {
            assert forall|j: int| 0 <= j < before.len() implies (#[trigger] before[j]).addr
                == players.deep_view()[j].addr by {}
            lemma_same_addresses(before, players.deep_view());
        }
        std::mem::swap(&mut self.players, &mut players);
        dropped
    }
}

/// What a network tick asks the caller to do and to know.
#[derive(Debug)]
pub struct NetworkTick {
    /// Who arrived.
    pub arrivals: Arrivals,
    /// The connected players for which no world changes could be computed.
    pub failures: Vec<(ClientAddress, DeltaError)>,
    /// The packets to send.
    pub outgoing: Vec<Outgoing>,
    /// The players whose connection was removed.
    pub dropped: Vec<ClientAddress>,
}

/// The players when a network tick forms its packets: the queued messages
/// have been handled, mining players have mined, and every connected player
/// has had the roster and the world changes owed to it added to its next
/// packet, in this order. Acknowledgments are thus taken before the deltas
/// of the same tick are computed.
pub open spec fn ready_to_send(
    players: Seq<PlayerView>,
    queue: Seq<(ClientAddress, ClientMessageView)>,
    terrain: Seq<Chunk>,
    sequence: u64,
) -> Seq<PlayerView> {
    let arrived = handled(players, queue);
    informed_all(briefed_all(arrived), mined(terrain, arrived), sequence)
}

impl Server {
    /// Runs one network tick: moves on to the next sequence number,
    /// handles the queued messages, lets mining players mine, tells every
    /// connected player where the players stand and what has changed in
    /// the world, forms the packets, and ages and prunes the connections.
    pub fn network_tick(
        &mut self,
        messages: &mut Messages<(ClientAddress, ClientToServer)>,
        terrain: &mut Terrain,
    ) -> (tick: NetworkTick)
        requires
            old(self)@.sequence < u64::MAX,
        ensures
            final(messages)@.len() == 0,
            final(messages).limit() == old(messages).limit(),
            final(self)@.sequence == old(self)@.sequence + 1,
            final(terrain)@ == mined(
                old(terrain)@,
                handled(old(self)@.players, inbound_view(old(messages)@)),
            ),
            final(self)@.players == aged_all(
                emptied_all(
                    ready_to_send(
                        old(self)@.players,
                        inbound_view(old(messages)@),
                        old(terrain)@,
                        final(self)@.sequence,
                    ),
                ),
            ),
            tick.arrivals.connected@ == staged_addresses(
                routed_all(old(self)@.players, inbound_view(old(messages)@)).staged,
            ),
            tick.arrivals.reconnected@ == routed_all(
                old(self)@.players,
                inbound_view(old(messages)@),
            ).reconnected,
            tick.failures@ == delta_failures(
                briefed_all(handled(old(self)@.players, inbound_view(old(messages)@))),
                final(terrain)@,
            ),
            tick.outgoing.deep_view() == packets(
                ready_to_send(
                    old(self)@.players,
                    inbound_view(old(messages)@),
                    old(terrain)@,
                    final(self)@.sequence,
                ),
                final(self)@.sequence,
            ),
            tick.dropped@ == timed_out(
                emptied_all(
                    ready_to_send(
                        old(self)@.players,
                        inbound_view(old(messages)@),
                        old(terrain)@,
                        final(self)@.sequence,
                    ),
                ),
            ),
    {
        self.increase_network_tick();
        let arrivals = self.handle_messages(messages);
        self.process_player_mining(terrain);
        self.enqueue_player_info();
        let failures = self.enqueue_terrain(terrain);
        let outgoing = self.send_all_messages();
        let dropped = self.drop_disconnected_clients();
        NetworkTick { arrivals, failures, outgoing, dropped }
    }
}

/// A roster depends only on who is connected, under which address, and
/// where they stand.
pub proof fn lemma_roster_reads_little(a: Seq<PlayerView>, b: Seq<PlayerView>, target: ClientAddress)
    requires
        a.len() == b.len(),
        forall|i: int|
            0 <= i < a.len() ==> (#[trigger] a[i]).addr == b[i].addr && a[i].position
                == b[i].position && (a[i].connection is Some <==> b[i].connection is Some),
    ensures
        roster(a, target) == roster(b, target),
    decreases a.len(),
{
    if a.len() > 0 {
        assert forall|i: int| 0 <= i < a.drop_last().len() implies (#[trigger] a.drop_last()[i]).addr
            == b.drop_last()[i].addr && a.drop_last()[i].position == b.drop_last()[i].position && (
        a.drop_last()[i].connection is Some <==> b.drop_last()[i].connection is Some) by {
        }
        lemma_roster_reads_little(a.drop_last(), b.drop_last(), target);
    }
}

/// Delivering messages to a player leaves its address as it is.
pub proof fn lemma_delivered_all_keeps_address(
    player: PlayerView,
    messages: Seq<ClientMessageView>,
)
    ensures
        delivered_all(player, messages).addr == player.addr,
    decreases messages.len(),
{
    if messages.len() > 0 {
        lemma_delivered_all_keeps_address(player, messages.drop_last());
    }
}

} // verus!
