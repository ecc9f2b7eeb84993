//! The delta engine: which chunks matter to a peer, and the minimal list of
//! changes that brings the peer's confirmed baseline up to the canonical
//! world.

use crate::delta::{
    lemma_replayed_lookup, replayed, slot_installed_all, slot_replayed, BlockDelete, DeltaView,
    WorldDelta,
};
use crate::world::{
    chunk_of, chunk_position, first_at, has_chunk, Chunk, Terrain, CHUNK_HEIGHT, CHUNK_WIDTH,
};
use vstd::prelude::*;

verus! {

/// How many chunks above and below the peer's own chunk matter to it.
pub const RELEVANT_CHUNK_RADIUS: u64 = 1;

/// Number of cells in a chunk.
pub const CHUNK_CELLS: usize = 8192;

/// Why no delta list could be produced for a peer this tick.
#[derive(Copy, Clone, Debug, PartialEq, Eq, Structural)]
pub enum DeltaError {
    /// The canonical world lacks a chunk that the peer needs.
    MissingChunk(u64),
}

/// The lowest chunk number that matters to a peer standing in `player_chunk`.
pub open spec fn window_first(player_chunk: u64) -> u64 {
    if player_chunk < RELEVANT_CHUNK_RADIUS {
        0
    } else {
        (player_chunk - RELEVANT_CHUNK_RADIUS) as u64
    }
}

/// The highest chunk number that matters to a peer standing in `player_chunk`.
pub open spec fn window_last(player_chunk: u64) -> u64 {
    if player_chunk > u64::MAX - RELEVANT_CHUNK_RADIUS {
        u64::MAX
    } else {
        (player_chunk + RELEVANT_CHUNK_RADIUS) as u64
    }
}

/// Whether chunk number `id` matters to a peer standing in `player_chunk`.
pub open spec fn in_window(player_chunk: u64, id: u64) -> bool {
    window_first(player_chunk) <= id <= window_last(player_chunk)
}

/// Whether `chunks` lacks a chunk of the window around `player_chunk`.
pub open spec fn lacks_window_chunk(chunks: Seq<Chunk>, player_chunk: u64) -> bool {
    exists|id: u64| in_window(player_chunk, id) && !has_chunk(chunks, id)
}

/// Whether `id` is the lowest chunk number of the window that `chunks` lacks.
pub open spec fn first_missing(chunks: Seq<Chunk>, player_chunk: u64, id: u64) -> bool {
    &&& in_window(player_chunk, id)
    &&& !has_chunk(chunks, id)
    &&& forall|k: u64| window_first(player_chunk) <= k < id ==> has_chunk(chunks, k)
}

/// The chunks of the window around `player_chunk`, lowest number first, as
/// `chunks` holds them.
pub open spec fn window_copy(chunks: Seq<Chunk>, player_chunk: u64) -> Seq<Chunk> {
    Seq::new(
        (window_last(player_chunk) - window_first(player_chunk) + 1) as nat,
        |k: int| chunk_of(chunks, (window_first(player_chunk) + k) as u64).unwrap(),
    )
}

/// Column of the `n`-th cell of a chunk, counting row by row.
pub open spec fn cell_x(n: int) -> usize {
    (n % CHUNK_WIDTH as int) as usize
}

/// Row of the `n`-th cell of a chunk, counting row by row.
pub open spec fn cell_y(n: int) -> usize {
    (n / CHUNK_WIDTH as int) as usize
}

/// Whether cell (`x`, `y`) holds a block in `known` and none in `current`.
pub open spec fn vanished(known: Chunk, current: Chunk, x: int, y: int) -> bool {
    known.cell(x, y) is Some && current.cell(x, y) is None
}

/// The deletions that take `known` to `current` among the first `n` cells,
/// row by row.
pub open spec fn chunk_deletions(known: Chunk, current: Chunk, n: nat) -> Seq<DeltaView>
    decreases n,
{
    if n == 0 {
        Seq::empty()
    } else {
        let before = chunk_deletions(known, current, (n - 1) as nat);
        let x = cell_x(n - 1);
        let y = cell_y(n - 1);
        if vanished(known, current, x as int, y as int) {
            before.push(
                DeltaView::BlockDelete(BlockDelete { chunk_number: known.chunk_number, x, y }),
            )
        } else {
            before
        }
    }
}

/// The deletions that take each chunk of `base` to its canonical
/// counterpart, chunk by chunk in the order of `base`. A chunk without
/// counterpart contributes nothing.
pub open spec fn deletions(base: Seq<Chunk>, canonical: Seq<Chunk>) -> Seq<DeltaView>
    decreases base.len(),
{
    if base.len() == 0 {
        Seq::empty()
    } else {
        deletions(base.drop_last(), canonical) + match chunk_of(
            canonical,
            base.last().chunk_number,
        ) {
            Some(current) => chunk_deletions(base.last(), current, CHUNK_CELLS as nat),
            None => Seq::empty(),
        }
    }
}

/// The delta list owed to a peer whose confirmed baseline is `base` and who
/// stands in `player_chunk`: a full copy of the window where the baseline
/// lacks one of its chunks, the deletions otherwise.
pub open spec fn outbound_deltas(canonical: Seq<Chunk>, base: Seq<Chunk>, player_chunk: u64)
    -> Result<Seq<DeltaView>, DeltaError> {
    if lacks_window_chunk(base, player_chunk) {
        if lacks_window_chunk(canonical, player_chunk) {
            Err(
                DeltaError::MissingChunk(
                    choose|id: u64| first_missing(canonical, player_chunk, id),
                ),
            )
        } else {
            Ok(seq![DeltaView::NewChunks(window_copy(canonical, player_chunk))])
        }
    } else {
        Ok(deletions(base, canonical))
    }
}

/// The lowest chunk number of the window around `player_chunk`.
pub fn first_relevant_chunk(player_chunk: u64) -> (first: u64)
    ensures
        first == window_first(player_chunk),
{
    if player_chunk < RELEVANT_CHUNK_RADIUS {
        0
    } else {
        player_chunk - RELEVANT_CHUNK_RADIUS
    }
}

/// The highest chunk number of the window around `player_chunk`.
pub fn last_relevant_chunk(player_chunk: u64) -> (last: u64)
    ensures
        last == window_last(player_chunk),
{
    if player_chunk > u64::MAX - RELEVANT_CHUNK_RADIUS {
        u64::MAX
    } else {
        player_chunk + RELEVANT_CHUNK_RADIUS
    }
}

/// The lowest chunk number of the window around `player_chunk` that
/// `terrain` lacks, if it lacks any.
pub fn find_missing(terrain: &Terrain, player_chunk: u64) -> (missing: Option<u64>)
    ensures
        missing is Some <==> lacks_window_chunk(terrain@, player_chunk),
        missing matches Some(id) ==> first_missing(terrain@, player_chunk, id),
{
    let first = first_relevant_chunk(player_chunk);
    let last = last_relevant_chunk(player_chunk);
    let mut id = first;
    loop
        invariant
            first == window_first(player_chunk),
            last == window_last(player_chunk),
            first <= id <= last,
            forall|k: u64| first <= k < id ==> has_chunk(terrain@, k),
        decreases last - id,
    {
        if terrain.find_chunk(id).is_none() {
            return Some(id);
        }
        if id == last {
            return None;
        }
        id += 1;
    }
}

/// Full copies of the chunks of the window around `player_chunk`.
fn copy_window(terrain: &Terrain, player_chunk: u64) -> (copy: Terrain)
    requires
        !lacks_window_chunk(terrain@, player_chunk),
    ensures
        copy@ == window_copy(terrain@, player_chunk),
{
    let first = first_relevant_chunk(player_chunk);
    let last = last_relevant_chunk(player_chunk);
    let mut copy = Terrain::empty();
    let mut id = first;
    loop
        invariant
            !lacks_window_chunk(terrain@, player_chunk),
            first == window_first(player_chunk),
            last == window_last(player_chunk),
            first <= id <= last,
            copy@ == window_copy(terrain@, player_chunk).take(id - first),
        decreases last - id,
    {
        match terrain.find_chunk(id) {
            Some(i) => {
                copy.chunks.push(terrain.chunks[i].clone());
            },
            None => {
                assert(false);
            },
        }
        if id == last {
            return copy;
        }
        id += 1;
    }
}

/// Appends to `out` the deletions that take `known` to `current`.
fn push_chunk_deletions(known: &Chunk, current: &Chunk, out: &mut Vec<WorldDelta>)
    ensures
        final(out).deep_view() == old(out).deep_view() + chunk_deletions(
            *known,
            *current,
            CHUNK_CELLS as nat,
        ),
{
    let mut y: usize = 0;
    while y < CHUNK_HEIGHT
        invariant
            y <= CHUNK_HEIGHT,
            out.deep_view() == old(out).deep_view() + chunk_deletions(
                *known,
                *current,
                (y * CHUNK_WIDTH) as nat,
            ),
        decreases CHUNK_HEIGHT - y,
    {
        let mut x: usize = 0;
        while x < CHUNK_WIDTH
            invariant
                y < CHUNK_HEIGHT,
                x <= CHUNK_WIDTH,
                out.deep_view() == old(out).deep_view() + chunk_deletions(
                    *known,
                    *current,
                    (y * CHUNK_WIDTH + x) as nat,
                ),
            decreases CHUNK_WIDTH - x,
        {
            let ghost before = out.deep_view();
            if known.blocks[y][x].is_some() && current.blocks[y][x].is_none() {
                out.push(
                    WorldDelta::BlockDelete(
                        BlockDelete { chunk_number: known.chunk_number, x, y },
                    ),
                );
                assert(out.deep_view() =~= before.push(
                    DeltaView::BlockDelete(
                        BlockDelete { chunk_number: known.chunk_number, x, y },
                    ),
                ));
            }
            x += 1;
        }
        y += 1;
    }
}

/// Computes the delta list owed to a peer: see `outbound_deltas`.
pub fn compute_deltas(canonical: &Terrain, base: &Terrain, player_chunk: u64) -> (outcome: Result<
    Vec<WorldDelta>,
    DeltaError,
>)
    ensures
        match outbound_deltas(canonical@, base@, player_chunk) {
            Ok(deltas) => outcome matches Ok(list) && list.deep_view() == deltas,
            Err(error) => outcome == Err::<Vec<WorldDelta>, DeltaError>(error),
        },
        outcome matches Err(DeltaError::MissingChunk(id)) ==> first_missing(
            canonical@,
            player_chunk,
            id,
        ),
{
    let mut world_changes: Vec<WorldDelta> = Vec::new();
    if find_missing(base, player_chunk).is_some() {
        match find_missing(canonical, player_chunk) {
            Some(id) => {
                proof {
                    lemma_first_missing_unique(canonical@, player_chunk);
                }
                return Err(DeltaError::MissingChunk(id));
            },
            None => {
                world_changes.push(WorldDelta::NewChunks(copy_window(canonical, player_chunk)));
            },
        }
    } else {
        let mut i: usize = 0;
        while i < base.chunks.len()
            invariant
                i <= base.chunks.len(),
                world_changes.deep_view() == deletions(base@.take(i as int), canonical@),
            decreases base.chunks.len() - i,
        {
            assert(base@.take(i + 1).drop_last() =~= base@.take(i as int));
            match canonical.find_chunk(base.chunks[i].chunk_number) {
                Some(place) => {
                    push_chunk_deletions(
                        &base.chunks[i],
                        &canonical.chunks[place],
                        &mut world_changes,
                    );
                },
                None => {
                },
            }
            i += 1;
        }
        assert(base@.take(i as int) =~= base@);
    }
    Ok(world_changes)
}

/// A window has at most one lowest missing chunk number.
pub proof fn lemma_first_missing_unique(chunks: Seq<Chunk>, player_chunk: u64)
    ensures
        forall|a: u64, b: u64|
            first_missing(chunks, player_chunk, a) && first_missing(chunks, player_chunk, b)
                ==> a == b,
{
    assert forall|a: u64, b: u64|
        first_missing(chunks, player_chunk, a) && first_missing(
            chunks,
            player_chunk,
            b,
        ) implies a == b by {
    }
}

/// Whether `current` can be reached from `known` by emptying cells: the
/// two carry the same number and flag, and every block of `current` stands
/// in `known` too.
pub open spec fn eroded_from(current: Chunk, known: Chunk) -> bool {
    &&& current.chunk_number == known.chunk_number
    &&& current.rendered == known.rendered
    &&& forall|x: int, y: int|
        0 <= x < CHUNK_WIDTH && 0 <= y < CHUNK_HEIGHT && current.cell(x, y) is Some
            ==> #[trigger] current.cell(x, y) == known.cell(x, y)
}

/// Whether every chunk of `base` that the canonical world also holds is
/// one from which the canonical chunk can be reached by emptying cells:
/// the world has only lost blocks since the baseline was taken.
pub open spec fn ahead_of(base: Seq<Chunk>, canonical: Seq<Chunk>) -> bool {
    forall|id: u64|
        has_chunk(base, id) && has_chunk(canonical, id) ==> eroded_from(
            (#[trigger] chunk_of(canonical, id)).unwrap(),
            chunk_of(base, id).unwrap(),
        )
}

/// Whether `delta` empties cell (`x`, `y`) of chunk number `id`.
pub open spec fn empties(delta: DeltaView, id: u64, x: int, y: int) -> bool {
    delta matches DeltaView::BlockDelete(delete) && delete.chunk_number == id && delete.x == x
        && delete.y == y
}

/// Whether one of `deltas` empties cell (`x`, `y`) of chunk number `id`.
pub open spec fn emptied_by(deltas: Seq<DeltaView>, id: u64, x: int, y: int) -> bool {
    exists|i: int| 0 <= i < deltas.len() && empties(#[trigger] deltas[i], id, x, y)
}

/// Whether `deltas` holds nothing but deletions.
pub open spec fn only_deletions(deltas: Seq<DeltaView>) -> bool {
    forall|i: int| 0 <= i < deltas.len() ==> (#[trigger] deltas[i]) is BlockDelete
}

/// The chunk found under a number carries that number.
pub proof fn lemma_chunk_of_number(chunks: Seq<Chunk>, id: u64)
    requires
        has_chunk(chunks, id),
    ensures
        chunk_of(chunks, id).unwrap().chunk_number == id,
        0 <= chunk_position(chunks, id) < chunks.len(),
        first_at(chunks, id, chunk_position(chunks, id)),
{
}

/// The `n`-th cell of a chunk lies inside the grid.
pub proof fn lemma_cell_in_grid(n: int)
    requires
        0 <= n < CHUNK_CELLS,
    ensures
        0 <= cell_x(n) < CHUNK_WIDTH,
        0 <= cell_y(n) < CHUNK_HEIGHT,
        cell_y(n) * CHUNK_WIDTH + cell_x(n) == n,
{
}

/// What the deletions between two chunks hold: only deletions, each of a
/// cell inside the grid that has vanished, and one for every vanished cell
/// among the cells looked at.
pub proof fn lemma_chunk_deletions(known: Chunk, current: Chunk, n: nat)
    requires
        n <= CHUNK_CELLS,
    ensures
        only_deletions(chunk_deletions(known, current, n)),
        forall|id: u64, x: int, y: int| #[trigger]
            emptied_by(chunk_deletions(known, current, n), id, x, y) ==> id == known.chunk_number
                && 0 <= x < CHUNK_WIDTH && 0 <= y < CHUNK_HEIGHT && vanished(known, current, x, y),
        forall|m: int|
            0 <= m < n && vanished(known, current, cell_x(m) as int, cell_y(m) as int)
                ==> #[trigger] emptied_by(
                chunk_deletions(known, current, n),
                known.chunk_number,
                cell_x(m) as int,
                cell_y(m) as int,
            ),
    decreases n,
{
    let list = chunk_deletions(known, current, n);
    if n > 0 {
        let before = chunk_deletions(known, current, (n - 1) as nat);
        lemma_chunk_deletions(known, current, (n - 1) as nat);
        lemma_cell_in_grid(n - 1);
        let x = cell_x(n - 1);
        let y = cell_y(n - 1);
        assert forall|i: int| 0 <= i < list.len() implies (#[trigger] list[i]) is BlockDelete by {
        }
        assert forall|id: u64, u: int, v: int| #[trigger]
            emptied_by(list, id, u, v) implies id == known.chunk_number && 0 <= u < CHUNK_WIDTH
            && 0 <= v < CHUNK_HEIGHT && vanished(known, current, u, v) by {
            let i = choose|i: int| 0 <= i < list.len() && empties(#[trigger] list[i], id, u, v);
            if i < before.len() {
                assert(emptied_by(before, id, u, v));
            }
        }
        assert forall|m: int|
            0 <= m < n && vanished(
                known,
                current,
                cell_x(m) as int,
                cell_y(m) as int,
            ) implies #[trigger] emptied_by(
            list,
            known.chunk_number,
            cell_x(m) as int,
            cell_y(m) as int,
        ) by {
            if m < n - 1 {
                assert(emptied_by(before, known.chunk_number, cell_x(m) as int, cell_y(m) as int));
                let i = choose|i: int|
                    0 <= i < before.len() && empties(
                        #[trigger] before[i],
                        known.chunk_number,
                        cell_x(m) as int,
                        cell_y(m) as int,
                    );
                assert(list[i] == before[i]);
            } else {
                assert(empties(list[list.len() - 1], known.chunk_number, x as int, y as int));
            }
        }
    }
}

/// What the deletions between a baseline and the canonical world hold:
/// only deletions, each of a cell inside the grid that the canonical chunk
/// of that number lacks, and one for every cell that has vanished from a
/// chunk of the baseline.
pub proof fn lemma_deletions(base: Seq<Chunk>, canonical: Seq<Chunk>)
    ensures
        only_deletions(deletions(base, canonical)),
        forall|id: u64, x: int, y: int| #[trigger]
            emptied_by(deletions(base, canonical), id, x, y) ==> has_chunk(canonical, id) && 0 <= x
                < CHUNK_WIDTH && 0 <= y < CHUNK_HEIGHT && chunk_of(canonical, id).unwrap().cell(
                x,
                y,
            ) is None,
        forall|i: int, x: int, y: int|
            0 <= i < base.len() && 0 <= x < CHUNK_WIDTH && 0 <= y < CHUNK_HEIGHT && has_chunk(
                canonical,
                base[i].chunk_number,
            ) && #[trigger] vanished(
                base[i],
                chunk_of(canonical, base[i].chunk_number).unwrap(),
                x,
                y,
            ) ==> emptied_by(deletions(base, canonical), base[i].chunk_number, x, y),
    decreases base.len(),
{
    let list = deletions(base, canonical);
    if base.len() > 0 {
        let front = base.drop_last();
        let before = deletions(front, canonical);
        let known = base.last();
        lemma_deletions(front, canonical);
        let tail = match chunk_of(canonical, known.chunk_number) {
            Some(current) => chunk_deletions(known, current, CHUNK_CELLS as nat),
            None => Seq::empty(),
        };
        if has_chunk(canonical, known.chunk_number) {
            lemma_chunk_deletions(
                known,
                chunk_of(canonical, known.chunk_number).unwrap(),
                CHUNK_CELLS as nat,
            );
        }
        assert forall|k: int| 0 <= k < list.len() implies (#[trigger] list[k]) is BlockDelete by {
        }
        assert forall|id: u64, x: int, y: int| #[trigger]
            emptied_by(list, id, x, y) implies has_chunk(canonical, id) && 0 <= x < CHUNK_WIDTH
            && 0 <= y < CHUNK_HEIGHT && chunk_of(canonical, id).unwrap().cell(x, y) is None by {
            let k = choose|k: int| 0 <= k < list.len() && empties(#[trigger] list[k], id, x, y);
            if k < before.len() {
                assert(emptied_by(before, id, x, y));
            } else {
                assert(emptied_by(tail, id, x, y));
            }
        }
        assert forall|i: int, x: int, y: int|
            0 <= i < base.len() && 0 <= x < CHUNK_WIDTH && 0 <= y < CHUNK_HEIGHT && has_chunk(
                canonical,
                base[i].chunk_number,
            ) && #[trigger] vanished(
                base[i],
                chunk_of(canonical, base[i].chunk_number).unwrap(),
                x,
                y,
            ) implies emptied_by(list, base[i].chunk_number, x, y) by {
            if i < front.len() {
                assert(front[i] == base[i]);
                let k = choose|k: int|
                    0 <= k < before.len() && empties(
                        #[trigger] before[k],
                        base[i].chunk_number,
                        x,
                        y,
                    );
                assert(list[k] == before[k]);
            } else {
                let m = y * CHUNK_WIDTH + x;
                assert(emptied_by(tail, known.chunk_number, cell_x(m) as int, cell_y(m) as int));
                let k = choose|k: int|
                    0 <= k < tail.len() && empties(#[trigger] tail[k], known.chunk_number, x, y);
                assert(list[before.len() + k] == tail[k]);
            }
        }
    }
}

/// Following a chunk through a list of deletions: it keeps its number and
/// flag, loses the cells that the list empties, and keeps the others.
pub proof fn lemma_slot_after_deletions(chunk: Chunk, id: u64, deltas: Seq<DeltaView>)
    requires
        only_deletions(deltas),
    ensures
        slot_replayed(Some(chunk), id, deltas) is Some,
        slot_replayed(Some(chunk), id, deltas).unwrap().chunk_number == chunk.chunk_number,
        slot_replayed(Some(chunk), id, deltas).unwrap().rendered == chunk.rendered,
        forall|x: int, y: int|
            0 <= x < CHUNK_WIDTH && 0 <= y < CHUNK_HEIGHT ==> #[trigger] slot_replayed(
                Some(chunk),
                id,
                deltas,
            ).unwrap().cell(x, y) == if emptied_by(deltas, id, x, y) {
                None
            } else {
                chunk.cell(x, y)
            },
    decreases deltas.len(),
{
    if deltas.len() > 0 {
        let front = deltas.drop_last();
        assert forall|i: int| 0 <= i < front.len() implies (#[trigger] front[i]) is BlockDelete by {
        }
        lemma_slot_after_deletions(chunk, id, front);
        let before = slot_replayed(Some(chunk), id, front).unwrap();
        let after = slot_replayed(Some(chunk), id, deltas).unwrap();
        let delete = deltas.last()->BlockDelete_0;
        assert forall|x: int, y: int| 0 <= x < CHUNK_WIDTH && 0 <= y < CHUNK_HEIGHT implies after.cell(
            x,
            y,
        ) == if emptied_by(deltas, id, x, y) {
            None
        } else {
            chunk.cell(x, y)
        } by {
            if delete.chunk_number == id {
                before.lemma_cleared_cell(delete.x, delete.y, x, y);
            }
            if emptied_by(deltas, id, x, y) {
                let i = choose|i: int|
                    0 <= i < deltas.len() && empties(#[trigger] deltas[i], id, x, y);
                if i < front.len() {
                    assert(front[i] == deltas[i]);
                }
            }
        }
        if delete.chunk_number == id {
            before.lemma_cleared_cell(delete.x, delete.y, 0, 0);
        }
    }
}

/// What is known of a number after the copy of a window was installed: the
/// canonical chunk, for a number of the window.
pub proof fn lemma_window_copy_lookup(
    slot: Option<Chunk>,
    canonical: Seq<Chunk>,
    player_chunk: u64,
    id: u64,
    count: int,
)
    requires
        !lacks_window_chunk(canonical, player_chunk),
        0 <= count <= window_copy(canonical, player_chunk).len(),
    ensures
        slot_installed_all(slot, id, window_copy(canonical, player_chunk).take(count)) == if window_first(
            player_chunk,
        ) <= id < window_first(player_chunk) + count {
            chunk_of(canonical, id)
        } else {
            slot
        },
    decreases count,
{
    let copy = window_copy(canonical, player_chunk);
    if count > 0 {
        lemma_window_copy_lookup(slot, canonical, player_chunk, id, count - 1);
        assert(copy.take(count).drop_last() =~= copy.take(count - 1));
        let number = (window_first(player_chunk) + count - 1) as u64;
        lemma_chunk_of_number(canonical, number);
    }
}

/// One exchange brings a peer up to date. Where the world has only lost
/// blocks since the peer's baseline was taken, replaying onto the baseline
/// the delta list that the engine computes for the peer leaves, under
/// every chunk number of the peer's window that the canonical world holds,
/// exactly the canonical chunk.
pub proof fn lemma_convergence(
    canonical: Seq<Chunk>,
    base: Seq<Chunk>,
    player_chunk: u64,
    id: u64,
)
    requires
        ahead_of(base, canonical),
        outbound_deltas(canonical, base, player_chunk) is Ok,
        in_window(player_chunk, id),
        has_chunk(canonical, id),
    ensures
        chunk_of(replayed(base, outbound_deltas(canonical, base, player_chunk).unwrap()), id)
            == chunk_of(canonical, id),
{
    let deltas = outbound_deltas(canonical, base, player_chunk).unwrap();
    lemma_replayed_lookup(base, deltas, id);
    if lacks_window_chunk(base, player_chunk) {
        let copy = window_copy(canonical, player_chunk);
        let slot = chunk_of(base, id);
        assert(slot_replayed(slot, id, deltas.drop_last()) == slot);
        lemma_window_copy_lookup(slot, canonical, player_chunk, id, copy.len() as int);
        assert(copy.take(copy.len() as int) =~= copy);
    } else {
        lemma_synchronised_by_deletions(canonical, base, id);
    }
}

/// Replaying the deletions between a baseline and the canonical world
/// leaves, under every number that both hold, exactly the canonical chunk,
/// where the world has only lost blocks since the baseline was taken.
pub proof fn lemma_synchronised_by_deletions(canonical: Seq<Chunk>, base: Seq<Chunk>, id: u64)
    requires
        ahead_of(base, canonical),
        has_chunk(base, id),
        has_chunk(canonical, id),
    ensures
        slot_replayed(chunk_of(base, id), id, deletions(base, canonical)) == chunk_of(
            canonical,
            id,
        ),
{
    let deltas = deletions(base, canonical);
    let known = chunk_of(base, id).unwrap();
    let current = chunk_of(canonical, id).unwrap();
    lemma_deletions(base, canonical);
    lemma_slot_after_deletions(known, id, deltas);
    lemma_chunk_of_number(base, id);
    lemma_chunk_of_number(canonical, id);
    let after = slot_replayed(Some(known), id, deltas).unwrap();
    let place = chunk_position(base, id);
    assert forall|x: int, y: int| 0 <= x < CHUNK_WIDTH && 0 <= y < CHUNK_HEIGHT implies after.cell(
        x,
        y,
    ) == current.cell(x, y) by {
        if current.cell(x, y) is None && known.cell(x, y) is Some {
            assert(vanished(
                base[place],
                chunk_of(canonical, base[place].chunk_number).unwrap(),
                x,
                y,
            ));
        }
    }
    Chunk::lemma_ext(after, current);
}

} // verus!
