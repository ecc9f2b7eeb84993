//! World deltas: the change records sent in place of full snapshots, and
//! their replay onto a terrain.

use crate::world::{
    chunk_of, chunk_position, distinct_numbers, first_at, has_chunk, lemma_first_at,
    lemma_has_chunk, lemma_no_chunk, Chunk, Terrain,
};
use vstd::prelude::*;

verus! {

/// Removal of the block in one cell of one chunk.
#[derive(Copy, Clone, Debug, PartialEq, Eq, Structural)]
pub struct BlockDelete {
    pub chunk_number: u64,
    pub x: usize,
    pub y: usize,
}

/// An incremental change to a terrain.
#[derive(Debug, PartialEq)]
pub enum WorldDelta {
    /// Full copies of one or more chunks, each replacing whatever was known
    /// of the chunk with its number.
    NewChunks(Terrain),
    /// A single cell to be emptied.
    BlockDelete(BlockDelete),
}

/// The mathematical content of a `WorldDelta`.
pub enum DeltaView {
    NewChunks(Seq<Chunk>),
    BlockDelete(BlockDelete),
}

impl View for WorldDelta {
    type V = DeltaView;

    open spec fn view(&self) -> DeltaView {
        match self {
            WorldDelta::NewChunks(terrain) => DeltaView::NewChunks(terrain@),
            WorldDelta::BlockDelete(delete) => DeltaView::BlockDelete(*delete),
        }
    }
}

impl DeepView for WorldDelta {
    type V = DeltaView;

    open spec fn deep_view(&self) -> DeltaView {
        self@
    }
}

impl Clone for WorldDelta {
    fn clone(&self) -> (copy: Self)
        ensures
            copy@ == self@,
    {
        match self {
            WorldDelta::NewChunks(terrain) => WorldDelta::NewChunks(terrain.clone()),
            WorldDelta::BlockDelete(delete) => WorldDelta::BlockDelete(*delete),
        }
    }
}

/// A deep copy of a list of deltas.
pub fn clone_deltas(deltas: &Vec<WorldDelta>) -> (copy: Vec<WorldDelta>)
    ensures
        copy.deep_view() == deltas.deep_view(),
{
    let mut copy: Vec<WorldDelta> = Vec::new();
    let mut i: usize = 0;
    while i < deltas.len()
        invariant
            i <= deltas.len(),
            copy.len() == i,
            forall|j: int| 0 <= j < i ==> copy@[j]@ == deltas@[j]@,
        decreases deltas.len() - i,
    {
        copy.push(deltas[i].clone());
        i += 1;
    }
    copy
}

/// `base` after `chunk` took the place of the chunk with its number, or was
/// added at the end where `base` held no such chunk.
pub open spec fn installed(base: Seq<Chunk>, chunk: Chunk) -> Seq<Chunk> {
    if has_chunk(base, chunk.chunk_number) {
        base.update(chunk_position(base, chunk.chunk_number), chunk)
    } else {
        base.push(chunk)
    }
}

/// `base` after each of `chunks` was installed, in order.
pub open spec fn installed_all(base: Seq<Chunk>, chunks: Seq<Chunk>) -> Seq<Chunk>
    decreases chunks.len(),
{
    if chunks.len() == 0 {
        base
    } else {
        installed(installed_all(base, chunks.drop_last()), chunks.last())
    }
}

/// `base` after the cell named by `delete` was emptied in every chunk that
/// carries the number.
pub open spec fn block_deleted(base: Seq<Chunk>, delete: BlockDelete) -> Seq<Chunk> {
    Seq::new(
        base.len(),
        |i: int|
            if base[i].chunk_number == delete.chunk_number {
                base[i].cleared(delete.x, delete.y)
            } else {
                base[i]
            },
    )
}

/// `base` after one delta.
pub open spec fn applied(base: Seq<Chunk>, delta: DeltaView) -> Seq<Chunk> {
    match delta {
        DeltaView::NewChunks(chunks) => installed_all(base, chunks),
        DeltaView::BlockDelete(delete) => block_deleted(base, delete),
    }
}

/// `base` after each of `deltas`, in list order.
pub open spec fn replayed(base: Seq<Chunk>, deltas: Seq<DeltaView>) -> Seq<Chunk>
    decreases deltas.len(),
{
    if deltas.len() == 0 {
        base
    } else {
        applied(replayed(base, deltas.drop_last()), deltas.last())
    }
}

impl Terrain {
    /// Puts `chunk` in the place of the chunk with its number, or adds it.
    pub fn install(&mut self, chunk: Chunk)
        ensures
            final(self)@ == installed(old(self)@, chunk),
    {
        match self.find_chunk(chunk.chunk_number) {
            Some(i) => {
                self.chunks[i] = chunk;
            },
            None => {
                self.chunks.push(chunk);
            },
        }
    }

    /// Empties the cell named by `delete` wherever its chunk is held.
    pub fn delete_block(&mut self, delete: BlockDelete)
        ensures
            final(self)@ == block_deleted(old(self)@, delete),
    {
        let mut i: usize = 0;
        while i < self.chunks.len()
            invariant
                i <= self.chunks.len(),
                self.chunks.len() == old(self).chunks.len(),
                forall|j: int| 0 <= j < i ==> self@[j] == block_deleted(old(self)@, delete)[j],
                forall|j: int| i <= j < self.chunks.len() ==> self@[j] == old(self)@[j],
            decreases self.chunks.len() - i,
        {
            let ghost before = self@;
            if self.chunks[i].chunk_number == delete.chunk_number {
                self.chunks[i].clear_cell(delete.x, delete.y);
            }
            i += 1;
        }
    }

    /// Applies one delta.
    pub fn apply_delta(&mut self, delta: &WorldDelta)
        ensures
            final(self)@ == applied(old(self)@, delta@),
    {
        match delta {
            WorldDelta::NewChunks(terrain) => {
                let mut i: usize = 0;
                while i < terrain.chunks.len()
                    invariant
                        i <= terrain.chunks.len(),
                        self@ == installed_all(old(self)@, terrain@.take(i as int)),
                    decreases terrain.chunks.len() - i,
                {
                    self.install(terrain.chunks[i].clone());
                    assert(terrain@.take(i + 1).drop_last() =~= terrain@.take(i as int));
                    i += 1;
                }
                assert(terrain@.take(i as int) =~= terrain@);
            },
            WorldDelta::BlockDelete(delete) => {
                self.delete_block(*delete);
            },
        }
    }

    /// Applies a list of deltas in list order.
    pub fn replay(&mut self, deltas: &Vec<WorldDelta>)
        ensures
            final(self)@ == replayed(old(self)@, deltas.deep_view()),
    {
        let mut i: usize = 0;
        while i < deltas.len()
            invariant
                i <= deltas.len(),
                self@ == replayed(old(self)@, deltas.deep_view().take(i as int)),
            decreases deltas.len() - i,
        {
            self.apply_delta(&deltas[i]);
            assert(deltas.deep_view().take(i + 1).drop_last() =~= deltas.deep_view().take(
                i as int,
            ));
            i += 1;
        }
        assert(deltas.deep_view().take(i as int) =~= deltas.deep_view());
    }
}

/// What is known of one chunk number after `chunks` were installed: the
/// last of them that carries the number, or what was known before.
pub open spec fn slot_installed_all(slot: Option<Chunk>, id: u64, chunks: Seq<Chunk>) -> Option<
    Chunk,
>
    decreases chunks.len(),
{
    if chunks.len() == 0 {
        slot
    } else if chunks.last().chunk_number == id {
        Some(chunks.last())
    } else {
        slot_installed_all(slot, id, chunks.drop_last())
    }
}

/// What is known of one chunk number after a cell was emptied in it.
pub open spec fn slot_cleared(slot: Option<Chunk>, x: usize, y: usize) -> Option<Chunk> {
    match slot {
        Some(chunk) => Some(chunk.cleared(x, y)),
        None => None,
    }
}

/// What is known of chunk number `id` after one delta.
pub open spec fn slot_applied(slot: Option<Chunk>, id: u64, delta: DeltaView) -> Option<Chunk> {
    match delta {
        DeltaView::NewChunks(chunks) => slot_installed_all(slot, id, chunks),
        DeltaView::BlockDelete(delete) => if delete.chunk_number == id {
            slot_cleared(slot, delete.x, delete.y)
        } else {
            slot
        },
    }
}

/// What is known of chunk number `id` after each of `deltas`, in list
/// order.
pub open spec fn slot_replayed(slot: Option<Chunk>, id: u64, deltas: Seq<DeltaView>) -> Option<
    Chunk,
>
    decreases deltas.len(),
{
    if deltas.len() == 0 {
        slot
    } else {
        slot_applied(slot_replayed(slot, id, deltas.drop_last()), id, deltas.last())
    }
}

/// Two lists of chunks that carry the same numbers in the same places.
pub open spec fn same_numbers(a: Seq<Chunk>, b: Seq<Chunk>) -> bool {
    a.len() == b.len() && forall|i: int|
        0 <= i < a.len() ==> (#[trigger] a[i]).chunk_number == b[i].chunk_number
}

/// Lists that carry the same numbers in the same places hold each number
/// at the same position.
pub proof fn lemma_same_numbers(a: Seq<Chunk>, b: Seq<Chunk>, id: u64)
    requires
        same_numbers(a, b),
    ensures
        has_chunk(a, id) == has_chunk(b, id),
        has_chunk(a, id) ==> chunk_position(a, id) == chunk_position(b, id) && 0
            <= chunk_position(a, id) < a.len(),
{
    if has_chunk(a, id) {
        let p = chunk_position(a, id);
        assert forall|j: int| 0 <= j < p implies (#[trigger] b[j]).chunk_number != id by {
            assert(a[j].chunk_number != id);
        }
        lemma_first_at(b, id, p);
    }
    if has_chunk(b, id) {
        let p = chunk_position(b, id);
        assert forall|j: int| 0 <= j < p implies (#[trigger] a[j]).chunk_number != id by {
        }
        lemma_first_at(a, id, p);
    }
}

/// A list that lacks a number holds it in no place.
pub proof fn lemma_lacks(chunks: Seq<Chunk>, id: u64)
    requires
        !has_chunk(chunks, id),
    ensures
        forall|j: int| 0 <= j < chunks.len() ==> (#[trigger] chunks[j]).chunk_number != id,
{
    assert forall|j: int| 0 <= j < chunks.len() implies (#[trigger] chunks[j]).chunk_number
        != id by {
        if chunks[j].chunk_number == id {
            lemma_has_chunk(chunks, id, j);
        }
    }
}

/// Looking a number up after a chunk was installed finds that chunk under
/// its own number and what was there before under every other.
pub proof fn lemma_installed_lookup(base: Seq<Chunk>, chunk: Chunk, id: u64)
    ensures
        chunk_of(installed(base, chunk), id) == if chunk.chunk_number == id {
            Some(chunk)
        } else {
            chunk_of(base, id)
        },
{
    let after = installed(base, chunk);
    if has_chunk(base, chunk.chunk_number) {
        lemma_same_numbers(base, after, id);
    } else {
        lemma_lacks(base, chunk.chunk_number);
        if chunk.chunk_number == id {
            assert forall|j: int| 0 <= j < base.len() implies (#[trigger] after[j]).chunk_number
                != id by {
            }
            lemma_first_at(after, id, base.len() as int);
        } else if has_chunk(base, id) {
            let q = chunk_position(base, id);
            assert forall|j: int| 0 <= j < q implies (#[trigger] after[j]).chunk_number != id by {
            }
            lemma_first_at(after, id, q);
        } else {
            lemma_lacks(base, id);
            assert forall|j: int| 0 <= j < after.len() implies (#[trigger] after[j]).chunk_number
                != id by {
            }
            lemma_no_chunk(after, id);
        }
    }
}

/// Looking a number up after a run of chunks was installed.
pub proof fn lemma_installed_all_lookup(base: Seq<Chunk>, chunks: Seq<Chunk>, id: u64)
    ensures
        chunk_of(installed_all(base, chunks), id) == slot_installed_all(
            chunk_of(base, id),
            id,
            chunks,
        ),
    decreases chunks.len(),
{
    if chunks.len() > 0 {
        lemma_installed_all_lookup(base, chunks.drop_last(), id);
        lemma_installed_lookup(installed_all(base, chunks.drop_last()), chunks.last(), id);
    }
}

/// Looking a number up after a cell was emptied.
pub proof fn lemma_block_deleted_lookup(base: Seq<Chunk>, delete: BlockDelete, id: u64)
    ensures
        chunk_of(block_deleted(base, delete), id) == slot_applied(
            chunk_of(base, id),
            id,
            DeltaView::BlockDelete(delete),
        ),
{
    let after = block_deleted(base, delete);
    lemma_same_numbers(base, after, id);
}

/// Looking a number up after a list of deltas was replayed comes to
/// following that one number through the list.
pub proof fn lemma_replayed_lookup(base: Seq<Chunk>, deltas: Seq<DeltaView>, id: u64)
    ensures
        chunk_of(replayed(base, deltas), id) == slot_replayed(chunk_of(base, id), id, deltas),
    decreases deltas.len(),
{
    if deltas.len() > 0 {
        lemma_replayed_lookup(base, deltas.drop_last(), id);
        let before = replayed(base, deltas.drop_last());
        match deltas.last() {
            DeltaView::NewChunks(chunks) => {
                lemma_installed_all_lookup(before, chunks, id);
            },
            DeltaView::BlockDelete(delete) => {
                lemma_block_deleted_lookup(before, delete, id);
            },
        }
    }
}

/// Whether one of `chunks` carries number `id`.
pub open spec fn mentions(chunks: Seq<Chunk>, id: u64) -> bool {
    exists|i: int| 0 <= i < chunks.len() && (#[trigger] chunks[i]).chunk_number == id
}

/// Whether one of `deltas` brings a full copy of chunk number `id`.
pub open spec fn resets(deltas: Seq<DeltaView>, id: u64) -> bool
    decreases deltas.len(),
{
    if deltas.len() == 0 {
        false
    } else {
        resets(deltas.drop_last(), id) || match deltas.last() {
            DeltaView::NewChunks(chunks) => mentions(chunks, id),
            DeltaView::BlockDelete(_) => false,
        }
    }
}

/// A run of chunks that carries a number decides what is known of it; one
/// that does not leaves it alone.
pub proof fn lemma_slot_installed_all(a: Option<Chunk>, b: Option<Chunk>, id: u64, chunks: Seq<Chunk>)
    ensures
        mentions(chunks, id) ==> slot_installed_all(a, id, chunks) == slot_installed_all(
            b,
            id,
            chunks,
        ) && slot_installed_all(a, id, chunks) is Some,
        !mentions(chunks, id) ==> slot_installed_all(a, id, chunks) == a,
    decreases chunks.len(),
{
    if chunks.len() > 0 {
        lemma_slot_installed_all(a, b, id, chunks.drop_last());
        if chunks.last().chunk_number != id && mentions(chunks, id) {
            let i = choose|i: int| 0 <= i < chunks.len() && (#[trigger] chunks[i]).chunk_number == id;
            assert(chunks.drop_last()[i].chunk_number == id);
        }
    }
}

/// A list of deltas that brings a full copy of a chunk decides what is
/// known of it, whatever was known before.
pub proof fn lemma_reset_decides(a: Option<Chunk>, b: Option<Chunk>, id: u64, deltas: Seq<DeltaView>)
    requires
        resets(deltas, id),
    ensures
        slot_replayed(a, id, deltas) == slot_replayed(b, id, deltas),
    decreases deltas.len(),
{
    let front = deltas.drop_last();
    match deltas.last() {
        DeltaView::NewChunks(chunks) => {
            lemma_slot_installed_all(
                slot_replayed(a, id, front),
                slot_replayed(b, id, front),
                id,
                chunks,
            );
            if !mentions(chunks, id) {
                lemma_reset_decides(a, b, id, front);
            }
        },
        DeltaView::BlockDelete(_) => {
            lemma_reset_decides(a, b, id, front);
        },
    }
}

/// Emptying a cell before or after a list of deltas that brings no full
/// copy of the chunk comes to the same.
pub proof fn lemma_clearing_commutes(
    slot: Option<Chunk>,
    id: u64,
    deltas: Seq<DeltaView>,
    x: usize,
    y: usize,
)
    requires
        !resets(deltas, id),
    ensures
        slot_replayed(slot_cleared(slot, x, y), id, deltas) == slot_cleared(
            slot_replayed(slot, id, deltas),
            x,
            y,
        ),
    decreases deltas.len(),
{
    if deltas.len() > 0 {
        let front = deltas.drop_last();
        lemma_clearing_commutes(slot, id, front, x, y);
        let cleared_first = slot_replayed(slot_cleared(slot, x, y), id, front);
        let plain = slot_replayed(slot, id, front);
        match deltas.last() {
            DeltaView::NewChunks(chunks) => {
                lemma_slot_installed_all(cleared_first, plain, id, chunks);
                lemma_slot_installed_all(plain, plain, id, chunks);
            },
            DeltaView::BlockDelete(delete) => {
                if delete.chunk_number == id {
                    if let Some(chunk) = plain {
                        chunk.lemma_cleared_commutes(x, y, delete.x, delete.y);
                    }
                }
            },
        }
    }
}

/// Following one chunk number through the same list of deltas a second
/// time changes nothing.
pub proof fn lemma_slot_replay_idempotent(slot: Option<Chunk>, id: u64, deltas: Seq<DeltaView>)
    ensures
        slot_replayed(slot_replayed(slot, id, deltas), id, deltas) == slot_replayed(
            slot,
            id,
            deltas,
        ),
    decreases deltas.len(),
{
    if resets(deltas, id) {
        lemma_reset_decides(slot_replayed(slot, id, deltas), slot, id, deltas);
    } else if deltas.len() > 0 {
        let front = deltas.drop_last();
        let once = slot_replayed(slot, id, front);
        lemma_slot_replay_idempotent(slot, id, front);
        match deltas.last() {
            DeltaView::NewChunks(chunks) => {
                lemma_slot_installed_all(once, once, id, chunks);
                lemma_slot_installed_all(
                    slot_replayed(slot_replayed(slot, id, deltas), id, front),
                    once,
                    id,
                    chunks,
                );
            },
            DeltaView::BlockDelete(delete) => {
                if delete.chunk_number == id {
                    lemma_clearing_commutes(once, id, front, delete.x, delete.y);
                    if let Some(chunk) = once {
                        chunk.lemma_cleared_twice(delete.x, delete.y);
                    }
                }
            },
        }
    }
}

/// Replaying a list of deltas that was already applied changes no chunk:
/// under every number the same chunk is found as before.
pub proof fn lemma_replay_idempotent_lookup(base: Seq<Chunk>, deltas: Seq<DeltaView>, id: u64)
    ensures
        chunk_of(replayed(replayed(base, deltas), deltas), id) == chunk_of(
            replayed(base, deltas),
            id,
        ),
{
    lemma_replayed_lookup(base, deltas, id);
    lemma_replayed_lookup(replayed(base, deltas), deltas, id);
    lemma_slot_replay_idempotent(chunk_of(base, id), id, deltas);
}

/// Whether `longer` starts with chunks that carry the numbers of `shorter`,
/// place by place.
pub open spec fn extends(shorter: Seq<Chunk>, longer: Seq<Chunk>) -> bool {
    shorter.len() <= longer.len() && forall|i: int|
        0 <= i < shorter.len() ==> (#[trigger] shorter[i]).chunk_number == longer[i].chunk_number
}

/// A number held by a list is held by every list that extends it.
pub proof fn lemma_extends_holds(shorter: Seq<Chunk>, longer: Seq<Chunk>, id: u64)
    requires
        extends(shorter, longer),
        has_chunk(shorter, id),
    ensures
        has_chunk(longer, id),
{
    let p = chunk_position(shorter, id);
    lemma_has_chunk(longer, id, p);
}

/// Installing a chunk keeps every number in its place, adds at most the
/// chunk's own number at the end, and keeps distinct numbers distinct.
pub proof fn lemma_installed_numbers(base: Seq<Chunk>, chunk: Chunk)
    ensures
        extends(base, installed(base, chunk)),
        has_chunk(installed(base, chunk), chunk.chunk_number),
        has_chunk(base, chunk.chunk_number) ==> installed(base, chunk).len() == base.len(),
        distinct_numbers(base) ==> distinct_numbers(installed(base, chunk)),
{
    let after = installed(base, chunk);
    lemma_installed_lookup(base, chunk, chunk.chunk_number);
    if has_chunk(base, chunk.chunk_number) {
        assert forall|i: int| 0 <= i < base.len() implies (#[trigger] base[i]).chunk_number
            == after[i].chunk_number by {}
        if distinct_numbers(base) {
            assert forall|i: int, j: int| 0 <= i < j < after.len() implies (
            #[trigger] after[i]).chunk_number != (#[trigger] after[j]).chunk_number by {
            }
        }
    } else {
        lemma_lacks(base, chunk.chunk_number);
        assert forall|i: int| 0 <= i < base.len() implies (#[trigger] base[i]).chunk_number
            == after[i].chunk_number by {
        }
        if distinct_numbers(base) {
            assert forall|i: int, j: int| 0 <= i < j < after.len() implies (
            #[trigger] after[i]).chunk_number != (#[trigger] after[j]).chunk_number by {
            }
        }
    }
}

/// Installing a run of chunks keeps every number in its place, holds every
/// number of the run afterwards, adds no place where all numbers of the
/// run were held before, and keeps distinct numbers distinct.
pub proof fn lemma_installed_all_numbers(base: Seq<Chunk>, chunks: Seq<Chunk>)
    ensures
        extends(base, installed_all(base, chunks)),
        forall|id: u64| mentions(chunks, id) ==> has_chunk(installed_all(base, chunks), id),
        (forall|id: u64| mentions(chunks, id) ==> has_chunk(base, id)) ==> installed_all(
            base,
            chunks,
        ).len() == base.len(),
        distinct_numbers(base) ==> distinct_numbers(installed_all(base, chunks)),
    decreases chunks.len(),
{
    if chunks.len() > 0 {
        let front = chunks.drop_last();
        let before = installed_all(base, front);
        let after = installed_all(base, chunks);
        lemma_installed_all_numbers(base, front);
        lemma_installed_numbers(before, chunks.last());
        assert forall|i: int| 0 <= i < base.len() implies (#[trigger] base[i]).chunk_number
            == after[i].chunk_number by {
        }
        assert forall|id: u64| mentions(chunks, id) implies has_chunk(after, id) by {
            let i = choose|i: int| 0 <= i < chunks.len() && (#[trigger] chunks[i]).chunk_number == id;
            if i < front.len() {
                assert(front[i].chunk_number == id);
                assert(mentions(front, id));
                lemma_extends_holds(before, after, id);
            }
        }
        if forall|id: u64| mentions(chunks, id) ==> has_chunk(base, id) {
            assert forall|id: u64| mentions(front, id) implies has_chunk(base, id) by {
            }
            lemma_extends_holds(base, before, chunks.last().chunk_number);
        }
    }
}

/// Replaying deltas keeps every number in its place, holds afterwards
/// every number that a delta brought a full copy of, and keeps distinct
/// numbers distinct.
pub proof fn lemma_replayed_numbers(base: Seq<Chunk>, deltas: Seq<DeltaView>)
    ensures
        extends(base, replayed(base, deltas)),
        forall|id: u64| resets(deltas, id) ==> has_chunk(replayed(base, deltas), id),
        distinct_numbers(base) ==> distinct_numbers(replayed(base, deltas)),
    decreases deltas.len(),
{
    if deltas.len() > 0 {
        let front = deltas.drop_last();
        let before = replayed(base, front);
        let after = replayed(base, deltas);
        lemma_replayed_numbers(base, front);
        match deltas.last() {
            DeltaView::NewChunks(chunks) => {
                lemma_installed_all_numbers(before, chunks);
            },
            DeltaView::BlockDelete(delete) => {
                if distinct_numbers(before) {
                    assert forall|i: int, j: int| 0 <= i < j < after.len() implies (
                    #[trigger] after[i]).chunk_number != (#[trigger] after[j]).chunk_number by {
                    }
                }
            },
        }
        assert forall|i: int| 0 <= i < base.len() implies (#[trigger] base[i]).chunk_number
            == after[i].chunk_number by {
        }
        assert forall|id: u64| resets(deltas, id) implies has_chunk(after, id) by {
            if resets(front, id) {
                lemma_extends_holds(before, after, id);
            }
        }
    }
}

/// Replaying deltas onto chunks that already hold every number the deltas
/// bring a full copy of adds no place.
pub proof fn lemma_replayed_length(base: Seq<Chunk>, deltas: Seq<DeltaView>)
    requires
        forall|id: u64| resets(deltas, id) ==> has_chunk(base, id),
    ensures
        replayed(base, deltas).len() == base.len(),
    decreases deltas.len(),
{
    if deltas.len() > 0 {
        let front = deltas.drop_last();
        let before = replayed(base, front);
        assert forall|id: u64| resets(front, id) implies has_chunk(base, id) by {
        }
        lemma_replayed_length(base, front);
        lemma_replayed_numbers(base, front);
        match deltas.last() {
            DeltaView::NewChunks(chunks) => {
                assert forall|id: u64| mentions(chunks, id) implies has_chunk(before, id) by {
                    lemma_extends_holds(base, before, id);
                }
                lemma_installed_all_numbers(before, chunks);
            },
            DeltaView::BlockDelete(_) => {},
        }
    }
}

/// A place that is the first to hold its number stays so, and a place that
/// is not does not become so, while the numbers up to it stay put.
pub proof fn lemma_first_at_extends(shorter: Seq<Chunk>, longer: Seq<Chunk>, i: int)
    requires
        extends(shorter, longer),
        0 <= i < shorter.len(),
    ensures
        first_at(shorter, shorter[i].chunk_number, i) == first_at(
            longer,
            longer[i].chunk_number,
            i,
        ),
{
    let id = shorter[i].chunk_number;
    if first_at(shorter, id, i) {
        assert forall|j: int| 0 <= j < i implies (#[trigger] longer[j]).chunk_number != id by {
            assert(shorter[j].chunk_number == longer[j].chunk_number);
        }
    }
    if first_at(longer, id, i) {
        assert forall|j: int| 0 <= j < i implies (#[trigger] shorter[j]).chunk_number != id by {
        }
    }
}

/// `chunk` after every cell was emptied that `deltas` empty in chunks of
/// its number.
pub open spec fn wiped(chunk: Chunk, deltas: Seq<DeltaView>) -> Chunk
    decreases deltas.len(),
{
    if deltas.len() == 0 {
        chunk
    } else {
        let before = wiped(chunk, deltas.drop_last());
        match deltas.last() {
            DeltaView::BlockDelete(delete) => if delete.chunk_number == chunk.chunk_number {
                before.cleared(delete.x, delete.y)
            } else {
                before
            },
            DeltaView::NewChunks(_) => before,
        }
    }
}

/// Wiping keeps a chunk's number.
pub proof fn lemma_wiped_number(chunk: Chunk, deltas: Seq<DeltaView>)
    ensures
        wiped(chunk, deltas).chunk_number == chunk.chunk_number,
    decreases deltas.len(),
{
    if deltas.len() > 0 {
        lemma_wiped_number(chunk, deltas.drop_last());
    }
}

/// Emptying a cell before or after wiping comes to the same.
pub proof fn lemma_wiped_commutes(chunk: Chunk, deltas: Seq<DeltaView>, x: usize, y: usize)
    ensures
        wiped(chunk.cleared(x, y), deltas) == wiped(chunk, deltas).cleared(x, y),
    decreases deltas.len(),
{
    if deltas.len() > 0 {
        let front = deltas.drop_last();
        lemma_wiped_commutes(chunk, front, x, y);
        match deltas.last() {
            DeltaView::BlockDelete(delete) => {
                if delete.chunk_number == chunk.chunk_number {
                    wiped(chunk, front).lemma_cleared_commutes(x, y, delete.x, delete.y);
                }
            },
            DeltaView::NewChunks(_) => {},
        }
    }
}

/// Wiping a second time changes nothing.
pub proof fn lemma_wiped_twice(chunk: Chunk, deltas: Seq<DeltaView>)
    ensures
        wiped(wiped(chunk, deltas), deltas) == wiped(chunk, deltas),
    decreases deltas.len(),
{
    if deltas.len() > 0 {
        let front = deltas.drop_last();
        lemma_wiped_twice(chunk, front);
        lemma_wiped_number(chunk, deltas);
        lemma_wiped_number(chunk, front);
        match deltas.last() {
            DeltaView::BlockDelete(delete) => {
                if delete.chunk_number == chunk.chunk_number {
                    lemma_wiped_commutes(wiped(chunk, front), front, delete.x, delete.y);
                    wiped(chunk, front).lemma_cleared_twice(delete.x, delete.y);
                }
            },
            DeltaView::NewChunks(_) => {},
        }
    }
}

/// Installing chunks leaves alone every place that is not the first to
/// hold its number.
pub proof fn lemma_installed_all_spares(base: Seq<Chunk>, chunks: Seq<Chunk>, i: int)
    requires
        0 <= i < base.len(),
        !first_at(base, base[i].chunk_number, i),
    ensures
        installed_all(base, chunks)[i] == base[i],
    decreases chunks.len(),
{
    if chunks.len() > 0 {
        let before = installed_all(base, chunks.drop_last());
        lemma_installed_all_spares(base, chunks.drop_last(), i);
        lemma_installed_all_numbers(base, chunks.drop_last());
        lemma_first_at_extends(base, before, i);
    }
}

/// Replaying deltas onto a place that is not the first to hold its number
/// only wipes it.
pub proof fn lemma_replayed_spares(base: Seq<Chunk>, deltas: Seq<DeltaView>, i: int)
    requires
        0 <= i < base.len(),
        !first_at(base, base[i].chunk_number, i),
    ensures
        i < replayed(base, deltas).len(),
        replayed(base, deltas)[i] == wiped(base[i], deltas),
    decreases deltas.len(),
{
    lemma_replayed_numbers(base, deltas);
    if deltas.len() > 0 {
        let front = deltas.drop_last();
        let before = replayed(base, front);
        lemma_replayed_spares(base, front, i);
        lemma_replayed_numbers(base, front);
        lemma_first_at_extends(base, before, i);
        lemma_wiped_number(base[i], front);
        match deltas.last() {
            DeltaView::NewChunks(chunks) => {
                lemma_installed_all_spares(before, chunks, i);
            },
            DeltaView::BlockDelete(_) => {},
        }
    }
}

/// A chunk that installing adds is the first to hold its number.
pub proof fn lemma_installed_all_adds_firsts(base: Seq<Chunk>, chunks: Seq<Chunk>, i: int)
    requires
        base.len() <= i < installed_all(base, chunks).len(),
    ensures
        first_at(installed_all(base, chunks), installed_all(base, chunks)[i].chunk_number, i),
    decreases chunks.len(),
{
    if chunks.len() > 0 {
        let before = installed_all(base, chunks.drop_last());
        let after = installed_all(base, chunks);
        let chunk = chunks.last();
        lemma_installed_numbers(before, chunk);
        if i < before.len() {
            lemma_installed_all_adds_firsts(base, chunks.drop_last(), i);
            lemma_first_at_extends(before, after, i);
        } else {
            lemma_lacks(before, chunk.chunk_number);
            assert forall|j: int| 0 <= j < i implies (#[trigger] after[j]).chunk_number
                != chunk.chunk_number by {
            }
        }
    }
}

/// A chunk that replaying adds is the first to hold its number.
pub proof fn lemma_replayed_adds_firsts(base: Seq<Chunk>, deltas: Seq<DeltaView>, i: int)
    requires
        base.len() <= i < replayed(base, deltas).len(),
    ensures
        first_at(replayed(base, deltas), replayed(base, deltas)[i].chunk_number, i),
    decreases deltas.len(),
{
    if deltas.len() > 0 {
        let front = deltas.drop_last();
        let before = replayed(base, front);
        let after = replayed(base, deltas);
        lemma_replayed_numbers(base, front);
        match deltas.last() {
            DeltaView::NewChunks(chunks) => {
                lemma_installed_all_numbers(before, chunks);
                if i < before.len() {
                    lemma_replayed_adds_firsts(base, front, i);
                    lemma_first_at_extends(before, after, i);
                } else {
                    lemma_installed_all_adds_firsts(before, chunks, i);
                }
            },
            DeltaView::BlockDelete(_) => {
                lemma_replayed_adds_firsts(base, front, i);
                lemma_first_at_extends(before, after, i);
            },
        }
    }
}

/// Replaying onto a baseline a list of deltas that was already applied to
/// it yields no further change.
pub proof fn lemma_replay_idempotent(base: Seq<Chunk>, deltas: Seq<DeltaView>)
    ensures
        replayed(replayed(base, deltas), deltas) == replayed(base, deltas),
{
    let once = replayed(base, deltas);
    let twice = replayed(once, deltas);
    lemma_replayed_numbers(base, deltas);
    lemma_replayed_numbers(once, deltas);
    lemma_replayed_length(once, deltas);
    assert forall|i: int| 0 <= i < once.len() implies once[i] == twice[i] by {
        let id = once[i].chunk_number;
        lemma_first_at_extends(once, twice, i);
        if first_at(once, id, i) {
            lemma_first_at(once, id, i);
            lemma_first_at(twice, id, i);
            lemma_replay_idempotent_lookup(base, deltas, id);
        } else {
            if i >= base.len() {
                lemma_replayed_adds_firsts(base, deltas, i);
            }
            lemma_first_at_extends(base, once, i);
            lemma_replayed_spares(base, deltas, i);
            lemma_replayed_spares(once, deltas, i);
            lemma_wiped_twice(base[i], deltas);
        }
    }
}

} // verus!
