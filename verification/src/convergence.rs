//! Why a peer's confirmed baseline converges to the canonical world,
//! whatever the network loses.
//!
//! The argument follows a connection through the three things that can
//! happen to it: a delta list is computed for it and recorded as pending,
//! the world loses blocks, and the peer acknowledges a pending list. An
//! invariant ties every pending list to the world it was computed for, its
//! target; it holds of a fresh connection and survives all three steps.
//! From it follows that each accepted acknowledgment leaves the baseline
//! equal to the target of the acknowledged list on the peer's window, no
//! matter which earlier lists were lost.

use crate::delta::{
    lemma_extends_holds, lemma_replayed_lookup, lemma_replayed_numbers, replayed,
    slot_replayed, DeltaView,
};
use crate::engine::{
    ahead_of, emptied_by, eroded_from, in_window, lacks_window_chunk, lemma_chunk_of_number,
    lemma_deletions, lemma_slot_after_deletions, lemma_window_copy_lookup, only_deletions,
    outbound_deltas, vanished, window_copy,
};
use crate::message::ClientMessageView;
use crate::server::{
    acknowledged, fresh_connection, in_order, processed, recorded, ConnectionView,
};
use crate::world::{chunk_of, has_chunk, Chunk, CHUNK_HEIGHT, CHUNK_WIDTH};
use vstd::prelude::*;

verus! {

/// What a delta list was computed for: the canonical world of its tick and
/// the chunk the player stood in.
pub struct Target {
    pub world: Seq<Chunk>,
    pub player_chunk: u64,
}

/// Whether `later` is `earlier` after blocks were lost and chunks were
/// added: it holds every chunk number of `earlier`, and each of those
/// chunks can be reached from its earlier state by emptying cells.
pub open spec fn world_eroded_from(later: Seq<Chunk>, earlier: Seq<Chunk>) -> bool {
    forall|id: u64| #[trigger]
        has_chunk(earlier, id) ==> has_chunk(later, id) && eroded_from(
            chunk_of(later, id).unwrap(),
            chunk_of(earlier, id).unwrap(),
        )
}

/// Whether `world` holds every chunk number that `base` holds.
pub open spec fn held_by(base: Seq<Chunk>, world: Seq<Chunk>) -> bool {
    forall|id: u64| #[trigger] has_chunk(base, id) ==> has_chunk(world, id)
}

/// Whether `deltas` empty only cells, inside the grid, that `world` lacks.
pub open spec fn harmless(deltas: Seq<DeltaView>, world: Seq<Chunk>) -> bool {
    forall|id: u64, x: int, y: int| #[trigger]
        emptied_by(deltas, id, x, y) ==> has_chunk(world, id) && 0 <= x < CHUNK_WIDTH && 0 <= y
            < CHUNK_HEIGHT && chunk_of(world, id).unwrap().cell(x, y) is None
}

/// Whether `deltas` empty every cell of the window around `player_chunk`
/// that holds a block in `base` and none in `world`.
pub open spec fn complete(
    deltas: Seq<DeltaView>,
    base: Seq<Chunk>,
    world: Seq<Chunk>,
    player_chunk: u64,
) -> bool {
    forall|id: u64, x: int, y: int|
        in_window(player_chunk, id) && has_chunk(base, id) && has_chunk(world, id) && 0 <= x
            < CHUNK_WIDTH && 0 <= y < CHUNK_HEIGHT && #[trigger] vanished(
            chunk_of(base, id).unwrap(),
            chunk_of(world, id).unwrap(),
            x,
            y,
        ) ==> emptied_by(deltas, id, x, y)
}

/// Whether replaying `deltas` onto `base` will bring the window of
/// `target` up to the world of `target`: either they are a full copy of
/// that window, or `base` holds the window and they are deletions that
/// empty what has vanished and nothing that has not.
pub open spec fn fits_target(base: Seq<Chunk>, deltas: Seq<DeltaView>, target: Target) -> bool {
    ||| {
        &&& deltas == seq![
            DeltaView::NewChunks(window_copy(target.world, target.player_chunk)),
        ]
        &&& !lacks_window_chunk(target.world, target.player_chunk)
    }
    ||| {
        &&& only_deletions(deltas)
        &&& harmless(deltas, target.world)
        &&& !lacks_window_chunk(base, target.player_chunk)
        &&& complete(deltas, base, target.world, target.player_chunk)
    }
}

/// The invariant of a connection in a world `now` that only loses blocks.
/// Every pending list has a target; the baseline holds no chunk that the
/// world lacks and none from which the world, now or at a target's tick,
/// cannot be reached by emptying cells; the targets have lost blocks in
/// the order of their sequence numbers and the world has gone on losing
/// blocks since; and every pending list fits its target.
pub open spec fn in_step(connection: ConnectionView, targets: Map<u64, Target>, now: Seq<Chunk>)
    -> bool {
    &&& forall|k: u64| #[trigger] targets.contains_key(k) <==> connection.pending.contains_key(k)
    &&& ahead_of(connection.baseline, now)
    &&& held_by(connection.baseline, now)
    &&& forall|k: u64| #[trigger]
        connection.pending.contains_key(k) ==> {
            &&& world_eroded_from(now, targets[k].world)
            &&& ahead_of(connection.baseline, targets[k].world)
            &&& fits_target(connection.baseline, connection.pending[k], targets[k])
        }
    &&& forall|j: u64, k: u64|
        j < k && #[trigger] connection.pending.contains_key(j)
            && #[trigger] connection.pending.contains_key(k) ==> world_eroded_from(
            targets[k].world,
            targets[j].world,
        )
}

/// Emptying cells twice over is emptying cells.
pub proof fn lemma_erosion_chains(last: Chunk, middle: Chunk, first: Chunk)
    requires
        eroded_from(last, middle),
        eroded_from(middle, first),
    ensures
        eroded_from(last, first),
{
    assert forall|x: int, y: int|
        0 <= x < CHUNK_WIDTH && 0 <= y < CHUNK_HEIGHT && last.cell(x, y) is Some implies #[trigger] last.cell(
        x,
        y,
    ) == first.cell(x, y) by {
    }
}

/// A world is itself after no block was lost.
pub proof fn lemma_world_eroded_from_itself(world: Seq<Chunk>)
    ensures
        world_eroded_from(world, world),
{
}

/// Losing blocks twice over is losing blocks.
pub proof fn lemma_world_erosion_chains(last: Seq<Chunk>, middle: Seq<Chunk>, first: Seq<Chunk>)
    requires
        world_eroded_from(last, middle),
        world_eroded_from(middle, first),
    ensures
        world_eroded_from(last, first),
{
    assert forall|id: u64| #[trigger] has_chunk(first, id) implies has_chunk(last, id)
        && eroded_from(chunk_of(last, id).unwrap(), chunk_of(first, id).unwrap()) by {
        lemma_erosion_chains(
            chunk_of(last, id).unwrap(),
            chunk_of(middle, id).unwrap(),
            chunk_of(first, id).unwrap(),
        );
    }
}

/// A baseline that is ahead of a world it holds no stranger to is ahead of
/// every world that comes of that world by losing blocks.
pub proof fn lemma_ahead_of_later(base: Seq<Chunk>, now: Seq<Chunk>, later: Seq<Chunk>)
    requires
        ahead_of(base, now),
        held_by(base, now),
        world_eroded_from(later, now),
    ensures
        ahead_of(base, later),
        held_by(base, later),
{
    assert forall|id: u64| has_chunk(base, id) && has_chunk(later, id) implies eroded_from(
        (#[trigger] chunk_of(later, id)).unwrap(),
        chunk_of(base, id).unwrap(),
    ) by {
        lemma_erosion_chains(
            chunk_of(later, id).unwrap(),
            chunk_of(now, id).unwrap(),
            chunk_of(base, id).unwrap(),
        );
    }
    assert forall|id: u64| #[trigger] has_chunk(base, id) implies has_chunk(later, id) by {
    }
}

/// The delta list that the engine computes for a baseline fits the world
/// it was computed for.
pub proof fn lemma_outbound_fits(canonical: Seq<Chunk>, base: Seq<Chunk>, player_chunk: u64)
    requires
        outbound_deltas(canonical, base, player_chunk) is Ok,
    ensures
        fits_target(
            base,
            outbound_deltas(canonical, base, player_chunk).unwrap(),
            Target { world: canonical, player_chunk },
        ),
{
    let deltas = outbound_deltas(canonical, base, player_chunk).unwrap();
    if !lacks_window_chunk(base, player_chunk) {
        lemma_deletions(base, canonical);
        assert forall|id: u64, x: int, y: int|
            in_window(player_chunk, id) && has_chunk(base, id) && has_chunk(canonical, id) && 0
                <= x < CHUNK_WIDTH && 0 <= y < CHUNK_HEIGHT && #[trigger] vanished(
                chunk_of(base, id).unwrap(),
                chunk_of(canonical, id).unwrap(),
                x,
                y,
            ) implies emptied_by(deltas, id, x, y) by {
            lemma_chunk_of_number(base, id);
        }
    }
}

/// A fresh connection is in step with every world.
pub proof fn lemma_fresh_in_step(now: Seq<Chunk>)
    ensures
        in_step(fresh_connection(), Map::empty(), now),
{
    assert forall|id: u64| !has_chunk(Seq::<Chunk>::empty(), id) by {}
}

/// Recording the delta list computed for the current world, under a
/// sequence number above all pending ones, keeps a connection in step.
pub proof fn lemma_recorded_in_step(
    connection: ConnectionView,
    targets: Map<u64, Target>,
    now: Seq<Chunk>,
    sequence: u64,
    player_chunk: u64,
)
    requires
        in_step(connection, targets, now),
        outbound_deltas(now, connection.baseline, player_chunk) is Ok,
        forall|k: u64| #[trigger] connection.pending.contains_key(k) ==> k < sequence,
    ensures
        in_step(
            recorded(
                connection,
                sequence,
                outbound_deltas(now, connection.baseline, player_chunk).unwrap(),
            ),
            targets.insert(sequence, Target { world: now, player_chunk }),
            now,
        ),
{
    let deltas = outbound_deltas(now, connection.baseline, player_chunk).unwrap();
    let after = recorded(connection, sequence, deltas);
    let aims = targets.insert(sequence, Target { world: now, player_chunk });
    lemma_outbound_fits(now, connection.baseline, player_chunk);
    lemma_world_eroded_from_itself(now);
    assert forall|k: u64| #[trigger] after.pending.contains_key(k) implies {
        &&& world_eroded_from(now, aims[k].world)
        &&& ahead_of(after.baseline, aims[k].world)
        &&& fits_target(after.baseline, after.pending[k], aims[k])
    } by {
    }
    assert forall|j: u64, k: u64|
        j < k && #[trigger] after.pending.contains_key(j) && #[trigger] after.pending.contains_key(
            k,
        ) implies world_eroded_from(aims[k].world, aims[j].world) by {
    }
    assert forall|k: u64| #[trigger] aims.contains_key(k) <==> after.pending.contains_key(k) by {
    }
}

/// A connection stays in step while the world loses blocks.
pub proof fn lemma_world_step_in_step(
    connection: ConnectionView,
    targets: Map<u64, Target>,
    now: Seq<Chunk>,
    later: Seq<Chunk>,
)
    requires
        in_step(connection, targets, now),
        world_eroded_from(later, now),
    ensures
        in_step(connection, targets, later),
{
    lemma_ahead_of_later(connection.baseline, now, later);
    assert forall|k: u64| #[trigger] connection.pending.contains_key(k) implies world_eroded_from(
        later,
        targets[k].world,
    ) by {
        lemma_world_erosion_chains(later, now, targets[k].world);
    }
}

/// Whether `after` is `before` with the cells emptied that `deltas` empty
/// in chunk number `id`.
pub open spec fn thinned(after: Chunk, before: Chunk, deltas: Seq<DeltaView>, id: u64) -> bool {
    &&& after.chunk_number == before.chunk_number
    &&& after.rendered == before.rendered
    &&& forall|x: int, y: int|
        0 <= x < CHUNK_WIDTH && 0 <= y < CHUNK_HEIGHT ==> #[trigger] after.cell(x, y)
            == if emptied_by(deltas, id, x, y) {
            None
        } else {
            before.cell(x, y)
        }
}

/// Deletions make no chunk out of nothing.
pub proof fn lemma_nothing_after_deletions(id: u64, deltas: Seq<DeltaView>)
    requires
        only_deletions(deltas),
    ensures
        slot_replayed(None, id, deltas) is None,
    decreases deltas.len(),
{
    if deltas.len() > 0 {
        let front = deltas.drop_last();
        assert forall|i: int| 0 <= i < front.len() implies (#[trigger] front[i]) is BlockDelete by {
        }
        lemma_nothing_after_deletions(id, front);
    }
}

/// What is found under a number after the full copy of a window was
/// replayed: the copied chunk for a number of the window, what was there
/// before for every other.
pub proof fn lemma_lookup_after_copy(
    base: Seq<Chunk>,
    world: Seq<Chunk>,
    player_chunk: u64,
    id: u64,
)
    requires
        !lacks_window_chunk(world, player_chunk),
    ensures
        chunk_of(
            replayed(base, seq![DeltaView::NewChunks(window_copy(world, player_chunk))]),
            id,
        ) == if in_window(player_chunk, id) {
            chunk_of(world, id)
        } else {
            chunk_of(base, id)
        },
        in_window(player_chunk, id) ==> has_chunk(world, id),
{
    let copy = window_copy(world, player_chunk);
    let deltas = seq![DeltaView::NewChunks(copy)];
    let slot = chunk_of(base, id);
    lemma_replayed_lookup(base, deltas, id);
    assert(slot_replayed(slot, id, deltas.drop_last()) == slot);
    lemma_window_copy_lookup(slot, world, player_chunk, id, copy.len() as int);
    assert(copy.take(copy.len() as int) =~= copy);
}

/// What is found under a number after deletions were replayed: nothing
/// where nothing was, and otherwise the chunk that was there, thinned.
pub proof fn lemma_lookup_after_deletions(base: Seq<Chunk>, deltas: Seq<DeltaView>, id: u64)
    requires
        only_deletions(deltas),
    ensures
        has_chunk(replayed(base, deltas), id) == has_chunk(base, id),
        has_chunk(base, id) ==> thinned(
            chunk_of(replayed(base, deltas), id).unwrap(),
            chunk_of(base, id).unwrap(),
            deltas,
            id,
        ),
{
    lemma_replayed_lookup(base, deltas, id);
    if has_chunk(base, id) {
        lemma_slot_after_deletions(chunk_of(base, id).unwrap(), id, deltas);
    } else {
        lemma_nothing_after_deletions(id, deltas);
    }
}

/// Replaying a list that fits its target leaves the baseline ahead of
/// every world that has come of the target by losing blocks.
pub proof fn lemma_replay_stays_ahead(
    base: Seq<Chunk>,
    deltas: Seq<DeltaView>,
    target: Target,
    world: Seq<Chunk>,
)
    requires
        fits_target(base, deltas, target),
        ahead_of(base, world),
        world_eroded_from(world, target.world),
    ensures
        ahead_of(replayed(base, deltas), world),
{
    let after = replayed(base, deltas);
    assert forall|id: u64| has_chunk(after, id) && has_chunk(world, id) implies eroded_from(
        (#[trigger] chunk_of(world, id)).unwrap(),
        chunk_of(after, id).unwrap(),
    ) by {
        let current = chunk_of(world, id).unwrap();
        if only_deletions(deltas) {
            lemma_lookup_after_deletions(base, deltas, id);
            let thin = chunk_of(after, id).unwrap();
            assert forall|x: int, y: int|
                0 <= x < CHUNK_WIDTH && 0 <= y < CHUNK_HEIGHT && current.cell(
                    x,
                    y,
                ) is Some implies #[trigger] current.cell(x, y) == thin.cell(x, y) by {
            }
        } else {
            lemma_lookup_after_copy(base, target.world, target.player_chunk, id);
        }
    }
}

/// Replaying a list that fits its target adds no chunk that the target's
/// world lacks.
pub proof fn lemma_replay_adds_known_chunks(
    base: Seq<Chunk>,
    deltas: Seq<DeltaView>,
    target: Target,
    id: u64,
)
    requires
        fits_target(base, deltas, target),
        has_chunk(replayed(base, deltas), id),
    ensures
        has_chunk(base, id) || has_chunk(target.world, id),
{
    if only_deletions(deltas) {
        lemma_lookup_after_deletions(base, deltas, id);
    } else {
        lemma_lookup_after_copy(base, target.world, target.player_chunk, id);
    }
}

/// A list that brings a full copy does not hold only deletions.
pub proof fn lemma_a_copy_is_no_deletion(copy: Seq<Chunk>)
    ensures
        !only_deletions(seq![DeltaView::NewChunks(copy)]),
{
    assert(seq![DeltaView::NewChunks(copy)][0] is NewChunks);
}

/// A pending list that fits its target goes on fitting it after an
/// earlier list was replayed onto the baseline.
pub proof fn lemma_later_list_still_fits(
    base: Seq<Chunk>,
    earlier: Seq<DeltaView>,
    earlier_target: Target,
    later: Seq<DeltaView>,
    later_target: Target,
)
    requires
        fits_target(base, earlier, earlier_target),
        fits_target(base, later, later_target),
        ahead_of(base, earlier_target.world),
        world_eroded_from(later_target.world, earlier_target.world),
    ensures
        fits_target(replayed(base, earlier), later, later_target),
{
    let after = replayed(base, earlier);
    let player_chunk = later_target.player_chunk;
    let world = later_target.world;
    lemma_a_copy_is_no_deletion(window_copy(world, player_chunk));
    lemma_a_copy_is_no_deletion(
        window_copy(earlier_target.world, earlier_target.player_chunk),
    );
    if only_deletions(later) {
        lemma_replayed_numbers(base, earlier);
        assert forall|id: u64| in_window(player_chunk, id) implies has_chunk(after, id) by {
            lemma_extends_holds(base, after, id);
        }
        assert forall|id: u64, x: int, y: int|
            in_window(player_chunk, id) && has_chunk(after, id) && has_chunk(world, id) && 0 <= x
                < CHUNK_WIDTH && 0 <= y < CHUNK_HEIGHT && #[trigger] vanished(
                chunk_of(after, id).unwrap(),
                chunk_of(world, id).unwrap(),
                x,
                y,
            ) implies emptied_by(later, id, x, y) by {
            let known = chunk_of(base, id).unwrap();
            let current = chunk_of(world, id).unwrap();
            if only_deletions(earlier) {
                lemma_lookup_after_deletions(base, earlier, id);
            } else {
                lemma_lookup_after_copy(
                    base,
                    earlier_target.world,
                    earlier_target.player_chunk,
                    id,
                );
            }
            assert(vanished(known, current, x, y));
        }
    }
}

/// An accepted acknowledgment brings the peer up to date. Where a
/// connection is in step and the peer acknowledges a pending list,
/// replaying the list leaves, under every chunk number of the window the
/// list was computed for, exactly the chunk that the canonical world held
/// at the tick of the list.
pub proof fn lemma_acknowledged_synchronises(
    connection: ConnectionView,
    targets: Map<u64, Target>,
    now: Seq<Chunk>,
    ack: u64,
    id: u64,
)
    requires
        in_step(connection, targets, now),
        connection.pending.contains_key(ack),
        in_window(targets[ack].player_chunk, id),
        has_chunk(targets[ack].world, id),
    ensures
        chunk_of(acknowledged(connection, ack).baseline, id) == chunk_of(targets[ack].world, id),
{
    let base = connection.baseline;
    let deltas = connection.pending[ack];
    let target = targets[ack];
    let after = replayed(base, deltas);
    if only_deletions(deltas) {
        lemma_lookup_after_deletions(base, deltas, id);
        let known = chunk_of(base, id).unwrap();
        let current = chunk_of(target.world, id).unwrap();
        let thin = chunk_of(after, id).unwrap();
        assert forall|x: int, y: int| 0 <= x < CHUNK_WIDTH && 0 <= y < CHUNK_HEIGHT implies thin.cell(
            x,
            y,
        ) == current.cell(x, y) by {
            if current.cell(x, y) is None && known.cell(x, y) is Some {
                assert(vanished(
                    chunk_of(base, id).unwrap(),
                    chunk_of(target.world, id).unwrap(),
                    x,
                    y,
                ));
            }
        }
        Chunk::lemma_ext(thin, current);
    } else {
        lemma_lookup_after_copy(base, target.world, target.player_chunk, id);
    }
}

/// A connection stays in step when the peer acknowledges a sequence
/// number, whether a list is pending under it or not. The targets of the
/// lists that leave the pending log leave with them.
pub proof fn lemma_acknowledged_in_step(
    connection: ConnectionView,
    targets: Map<u64, Target>,
    now: Seq<Chunk>,
    ack: u64,
)
    requires
        in_step(connection, targets, now),
    ensures
        in_step(
            acknowledged(connection, ack),
            targets.restrict(Set::new(|k: u64| k > ack)),
            now,
        ),
{
    let after = acknowledged(connection, ack);
    let aims = targets.restrict(Set::new(|k: u64| k > ack));
    let base = connection.baseline;
    assert forall|k: u64| #[trigger] aims.contains_key(k) <==> after.pending.contains_key(k) by {
    }
    if connection.pending.contains_key(ack) {
        let deltas = connection.pending[ack];
        let target = targets[ack];
        lemma_replay_stays_ahead(base, deltas, target, now);
        assert forall|id: u64| #[trigger] has_chunk(after.baseline, id) implies has_chunk(
            now,
            id,
        ) by {
            lemma_replay_adds_known_chunks(base, deltas, target, id);
        }
        assert forall|k: u64| #[trigger] after.pending.contains_key(k) implies {
            &&& world_eroded_from(now, aims[k].world)
            &&& ahead_of(after.baseline, aims[k].world)
            &&& fits_target(after.baseline, after.pending[k], aims[k])
        } by {
            lemma_replay_stays_ahead(base, deltas, target, targets[k].world);
            lemma_later_list_still_fits(base, deltas, target, connection.pending[k], targets[k]);
        }
    } else {
        assert forall|k: u64| #[trigger] after.pending.contains_key(k) implies {
            &&& world_eroded_from(now, aims[k].world)
            &&& ahead_of(after.baseline, aims[k].world)
            &&& fits_target(after.baseline, after.pending[k], aims[k])
        } by {
        }
    }
    assert forall|j: u64, k: u64|
        j < k && #[trigger] after.pending.contains_key(j) && #[trigger] after.pending.contains_key(
            k,
        ) implies world_eroded_from(aims[k].world, aims[j].world) by {
    }
}

/// The targets that remain after a message was processed: those of the
/// lists that are still pending.
pub open spec fn remaining_targets(
    connection: ConnectionView,
    targets: Map<u64, Target>,
    message: ClientMessageView,
) -> Map<u64, Target> {
    if in_order(connection, message) {
        targets.restrict(Set::new(|k: u64| k > message.header.last_received_sequence))
    } else {
        targets
    }
}

/// A connection stays in step whatever message is processed: in order or
/// not, acknowledging a pending list or not.
pub proof fn lemma_processed_in_step(
    connection: ConnectionView,
    targets: Map<u64, Target>,
    now: Seq<Chunk>,
    message: ClientMessageView,
)
    requires
        in_step(connection, targets, now),
    ensures
        in_step(
            processed(connection, message),
            remaining_targets(connection, targets, message),
            now,
        ),
        in_order(connection, message) && connection.pending.contains_key(
            message.header.last_received_sequence,
        ) ==> forall|id: u64|
            in_window(targets[message.header.last_received_sequence].player_chunk, id)
                && #[trigger] has_chunk(targets[message.header.last_received_sequence].world, id)
                ==> chunk_of(processed(connection, message).baseline, id) == chunk_of(
                targets[message.header.last_received_sequence].world,
                id,
            ),
{
    let ack = message.header.last_received_sequence;
    if in_order(connection, message) {
        lemma_acknowledged_in_step(connection, targets, now, ack);
        if connection.pending.contains_key(ack) {
            assert forall|id: u64|
                in_window(targets[ack].player_chunk, id) && #[trigger] has_chunk(
                    targets[ack].world,
                    id,
                ) implies chunk_of(processed(connection, message).baseline, id) == chunk_of(
                targets[ack].world,
                id,
            ) by {
                lemma_acknowledged_synchronises(connection, targets, now, ack, id);
            }
        }
    }
}

} // verus!
