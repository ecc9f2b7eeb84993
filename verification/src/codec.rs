//! The wire format of the world's data and of the messages, built from the
//! pieces of the wire module. Every struct is sent field by field in the
//! order of its declaration, every enum as the index of its variant
//! followed by the variant's fields, every list with its length in front.

use crate::delta::{BlockDelete, DeltaView, WorldDelta};
use crate::message::{
    ClientAddress, ClientBodyElem, ClientHeader, ClientMessageView, ClientToServer,
    ReceiveError, SendError, ServerBodyElem, ServerBodyView, ServerHeader, ServerMessageView,
    ServerToClient, SingleNetPlayerInfo, SocketAddress,
};
use crate::player::{PlayerInput, PlayerPosition};
use crate::wire::{
    decode_all, encode_all, lemma_all_round_trip, lemma_parse_all_bounds, models, parse_all,
    wire_all, Bits32, DecodeFailure, EncodeFailure, Octets16, Octets4, Wire,
};
use crate::world::{Block, BlockType, Chunk, Terrain, CHUNK_HEIGHT, CHUNK_WIDTH};
use vstd::prelude::*;

verus! {

/// The index of a block type among the block types.
pub open spec fn block_type_tag(block_type: BlockType) -> u32 {
    match block_type {
        BlockType::Sand => 0,
        BlockType::Limestone => 1,
        BlockType::Basalt => 2,
        BlockType::Granite => 3,
        BlockType::Diabase => 4,
        BlockType::Gabbro => 5,
        BlockType::Clay => 6,
        BlockType::Coal => 7,
        BlockType::Iron => 8,
        BlockType::Quartz => 9,
        BlockType::Labradorite => 10,
        BlockType::Peridot => 11,
        BlockType::CaveVoid => 12,
        BlockType::PalmTreeBlock => 13,
        BlockType::Leaves => 14,
        BlockType::Trunk => 15,
    }
}

/// The block type with index `tag`, if there is one.
pub open spec fn block_type_of(tag: u32) -> Option<BlockType> {
    if tag == 0 {
        Some(BlockType::Sand)
    } else if tag == 1 {
        Some(BlockType::Limestone)
    } else if tag == 2 {
        Some(BlockType::Basalt)
    } else if tag == 3 {
        Some(BlockType::Granite)
    } else if tag == 4 {
        Some(BlockType::Diabase)
    } else if tag == 5 {
        Some(BlockType::Gabbro)
    } else if tag == 6 {
        Some(BlockType::Clay)
    } else if tag == 7 {
        Some(BlockType::Coal)
    } else if tag == 8 {
        Some(BlockType::Iron)
    } else if tag == 9 {
        Some(BlockType::Quartz)
    } else if tag == 10 {
        Some(BlockType::Labradorite)
    } else if tag == 11 {
        Some(BlockType::Peridot)
    } else if tag == 12 {
        Some(BlockType::CaveVoid)
    } else if tag == 13 {
        Some(BlockType::PalmTreeBlock)
    } else if tag == 14 {
        Some(BlockType::Leaves)
    } else if tag == 15 {
        Some(BlockType::Trunk)
    } else {
        None
    }
}

impl Wire for BlockType {
    type Model = BlockType;

    open spec fn model(&self) -> BlockType {
        *self
    }

    open spec fn wire(m: BlockType) -> Seq<u8> {
        u32::wire(block_type_tag(m))
    }

    open spec fn parse(bytes: Seq<u8>) -> Result<(BlockType, int), DecodeFailure> {
        match u32::parse(bytes) {
            Err(error) => Err(error),
            Ok((tag, used)) => match block_type_of(tag) {
                Some(block_type) => Ok((block_type, used)),
                None => Err(DecodeFailure::UnexpectedVariant),
            },
        }
    }

    open spec fn fits(m: BlockType) -> bool {
        true
    }

    proof fn lemma_fits(&self) {
    }

    proof fn lemma_round_trip(m: BlockType, rest: Seq<u8>) {
        u32::lemma_round_trip(block_type_tag(m), rest);
    }

    proof fn lemma_parse_bounds(bytes: Seq<u8>) {
        u32::lemma_parse_bounds(bytes);
    }

    fn encode(&self, out: &mut Vec<u8>) {
        let tag: u32 = match self {
            BlockType::Sand => 0,
            BlockType::Limestone => 1,
            BlockType::Basalt => 2,
            BlockType::Granite => 3,
            BlockType::Diabase => 4,
            BlockType::Gabbro => 5,
            BlockType::Clay => 6,
            BlockType::Coal => 7,
            BlockType::Iron => 8,
            BlockType::Quartz => 9,
            BlockType::Labradorite => 10,
            BlockType::Peridot => 11,
            BlockType::CaveVoid => 12,
            BlockType::PalmTreeBlock => 13,
            BlockType::Leaves => 14,
            BlockType::Trunk => 15,
        };
        tag.encode(out);
    }

    fn decode(src: &[u8], at: usize) -> (found: Result<(BlockType, usize), DecodeFailure>) {
        match u32::decode(src, at) {
            Err(error) => Err(error),
            Ok((tag, end)) => {
                let block_type = if tag == 0 {
                    BlockType::Sand
                } else if tag == 1 {
                    BlockType::Limestone
                } else if tag == 2 {
                    BlockType::Basalt
                } else if tag == 3 {
                    BlockType::Granite
                } else if tag == 4 {
                    BlockType::Diabase
                } else if tag == 5 {
                    BlockType::Gabbro
                } else if tag == 6 {
                    BlockType::Clay
                } else if tag == 7 {
                    BlockType::Coal
                } else if tag == 8 {
                    BlockType::Iron
                } else if tag == 9 {
                    BlockType::Quartz
                } else if tag == 10 {
                    BlockType::Labradorite
                } else if tag == 11 {
                    BlockType::Peridot
                } else if tag == 12 {
                    BlockType::CaveVoid
                } else if tag == 13 {
                    BlockType::PalmTreeBlock
                } else if tag == 14 {
                    BlockType::Leaves
                } else if tag == 15 {
                    BlockType::Trunk
                } else {
                    return Err(DecodeFailure::UnexpectedVariant);
                };
                Ok((block_type, end))
            },
        }
    }
}

impl Wire for Block {
    type Model = Block;

    open spec fn model(&self) -> Block {
        *self
    }

    open spec fn wire(m: Block) -> Seq<u8> {
        BlockType::wire(m.block_type)
    }

    open spec fn parse(bytes: Seq<u8>) -> Result<(Block, int), DecodeFailure> {
        match BlockType::parse(bytes) {
            Err(error) => Err(error),
            Ok((block_type, used)) => Ok((Block { block_type }, used)),
        }
    }

    open spec fn fits(m: Block) -> bool {
        true
    }

    proof fn lemma_fits(&self) {
    }

    proof fn lemma_round_trip(m: Block, rest: Seq<u8>) {
        BlockType::lemma_round_trip(m.block_type, rest);
    }

    proof fn lemma_parse_bounds(bytes: Seq<u8>) {
        BlockType::lemma_parse_bounds(bytes);
    }

    fn encode(&self, out: &mut Vec<u8>) {
        self.block_type.encode(out);
    }

    fn decode(src: &[u8], at: usize) -> (found: Result<(Block, usize), DecodeFailure>) {
        match BlockType::decode(src, at) {
            Err(error) => Err(error),
            Ok((block_type, end)) => Ok((Block { block_type }, end)),
        }
    }
}

/// One row of a chunk.
pub type Row = [Option<Block>; CHUNK_WIDTH];

/// The cells of a chunk.
pub type Grid = [Row; CHUNK_HEIGHT];

/// The row whose cells are `cells`.
pub open spec fn row_of(cells: Seq<Option<Block>>) -> Row
    recommends
        cells.len() == CHUNK_WIDTH,
{
    choose|row: Row| row@ == cells
}

/// The grid whose rows are `rows`.
pub open spec fn grid_of(rows: Seq<Row>) -> Grid
    recommends
        rows.len() == CHUNK_HEIGHT,
{
    choose|grid: Grid| grid@ == rows
}

/// A row is the row of its cells.
pub proof fn lemma_row_of(row: Row)
    ensures
        row_of(row@) == row,
{
}

/// A grid is the grid of its rows.
pub proof fn lemma_grid_of(grid: Grid)
    ensures
        grid_of(grid@) == grid,
{
}

/// Cells are their own content.
pub proof fn lemma_models_of_cells(cells: Seq<Option<Block>>)
    ensures
        models::<Option<Block>>(cells) == cells,
{
}

/// Rows are their own content.
pub proof fn lemma_models_of_rows(rows: Seq<Row>)
    ensures
        models::<Row>(rows) == rows,
{
}

impl Wire for Row {
    type Model = Row;

    open spec fn model(&self) -> Row {
        *self
    }

    open spec fn wire(m: Row) -> Seq<u8> {
        usize::wire(CHUNK_WIDTH) + wire_all::<Option<Block>>(m@)
    }

    open spec fn parse(bytes: Seq<u8>) -> Result<(Row, int), DecodeFailure> {
        match usize::parse(bytes) {
            Err(error) => Err(error),
            Ok((count, used)) => if count != CHUNK_WIDTH {
                Err(DecodeFailure::ArrayLengthMismatch)
            } else {
                match parse_all::<Option<Block>>(bytes.skip(used), CHUNK_WIDTH as nat) {
                    Err(error) => Err(error),
                    Ok((cells, more)) => Ok((row_of(cells), used + more)),
                }
            },
        }
    }

    open spec fn fits(m: Row) -> bool {
        true
    }

    proof fn lemma_fits(&self) {
    }

    proof fn lemma_round_trip(m: Row, rest: Seq<u8>) {
        let tail = wire_all::<Option<Block>>(m@) + rest;
        usize::lemma_round_trip(CHUNK_WIDTH, tail);
        assert((Self::wire(m) + rest).skip(usize::wire(CHUNK_WIDTH).len() as int) =~= tail);
        lemma_all_round_trip::<Option<Block>>(m@, rest);
        lemma_row_of(m);
    }

    proof fn lemma_parse_bounds(bytes: Seq<u8>) {
        usize::lemma_parse_bounds(bytes);
        if let Ok((count, used)) = usize::parse(bytes) {
            lemma_parse_all_bounds::<Option<Block>>(bytes.skip(used), CHUNK_WIDTH as nat);
        }
    }

    fn encode(&self, out: &mut Vec<u8>) {
        let count: usize = CHUNK_WIDTH;
        count.encode(out);
        proof {
            lemma_models_of_cells(self@);
        }
        encode_all::<Option<Block>>(self.as_slice(), out);
    }

    fn decode(src: &[u8], at: usize) -> (found: Result<(Row, usize), DecodeFailure>) {
        proof {
            usize::lemma_parse_bounds(src@.skip(at as int));
        }
        match usize::decode(src, at) {
            Err(error) => Err(error),
            Ok((count, start)) => {
                if count != CHUNK_WIDTH {
                    return Err(DecodeFailure::ArrayLengthMismatch);
                }
                assert(src@.skip(at as int).skip(start - at) =~= src@.skip(start as int));
                proof {
                    lemma_parse_all_bounds::<Option<Block>>(
                        src@.skip(start as int),
                        CHUNK_WIDTH as nat,
                    );
                }
                match decode_all::<Option<Block>>(src, start, CHUNK_WIDTH) {
                    Err(error) => Err(error),
                    Ok((cells, end)) => {
                        proof {
                            lemma_models_of_cells(cells@);
                        }
                        let mut row: Row = [None; CHUNK_WIDTH];
                        let mut x: usize = 0;
                        while x < CHUNK_WIDTH
                            invariant
                                x <= CHUNK_WIDTH,
                                cells.len() == CHUNK_WIDTH,
                                forall|i: int| 0 <= i < x ==> row[i] == cells@[i],
                            decreases CHUNK_WIDTH - x,
                        {
                            row[x] = cells[x];
                            x += 1;
                        }
                        assert(row@ =~= cells@);
                        proof {
                            lemma_row_of(row);
                        }
                        Ok((row, end))
                    },
                }
            },
        }
    }
}

impl Wire for Grid {
    type Model = Grid;

    open spec fn model(&self) -> Grid {
        *self
    }

    open spec fn wire(m: Grid) -> Seq<u8> {
        usize::wire(CHUNK_HEIGHT) + wire_all::<Row>(m@)
    }

    open spec fn parse(bytes: Seq<u8>) -> Result<(Grid, int), DecodeFailure> {
        match usize::parse(bytes) {
            Err(error) => Err(error),
            Ok((count, used)) => if count != CHUNK_HEIGHT {
                Err(DecodeFailure::ArrayLengthMismatch)
            } else {
                match parse_all::<Row>(bytes.skip(used), CHUNK_HEIGHT as nat) {
                    Err(error) => Err(error),
                    Ok((rows, more)) => Ok((grid_of(rows), used + more)),
                }
            },
        }
    }

    open spec fn fits(m: Grid) -> bool {
        true
    }

    proof fn lemma_fits(&self) {
    }

    proof fn lemma_round_trip(m: Grid, rest: Seq<u8>) {
        let tail = wire_all::<Row>(m@) + rest;
        usize::lemma_round_trip(CHUNK_HEIGHT, tail);
        assert((Self::wire(m) + rest).skip(usize::wire(CHUNK_HEIGHT).len() as int) =~= tail);
        lemma_all_round_trip::<Row>(m@, rest);
        lemma_grid_of(m);
    }

    proof fn lemma_parse_bounds(bytes: Seq<u8>) {
        usize::lemma_parse_bounds(bytes);
        if let Ok((count, used)) = usize::parse(bytes) {
            lemma_parse_all_bounds::<Row>(bytes.skip(used), CHUNK_HEIGHT as nat);
        }
    }

    fn encode(&self, out: &mut Vec<u8>) {
        let count: usize = CHUNK_HEIGHT;
        count.encode(out);
        proof {
            lemma_models_of_rows(self@);
        }
        encode_all::<Row>(self.as_slice(), out);
    }

    fn decode(src: &[u8], at: usize) -> (found: Result<(Grid, usize), DecodeFailure>) {
        proof {
            usize::lemma_parse_bounds(src@.skip(at as int));
        }
        match usize::decode(src, at) {
            Err(error) => Err(error),
            Ok((count, start)) => {
                if count != CHUNK_HEIGHT {
                    return Err(DecodeFailure::ArrayLengthMismatch);
                }
                assert(src@.skip(at as int).skip(start - at) =~= src@.skip(start as int));
                proof {
                    lemma_parse_all_bounds::<Row>(src@.skip(start as int), CHUNK_HEIGHT as nat);
                }
                match decode_all::<Row>(src, start, CHUNK_HEIGHT) {
                    Err(error) => Err(error),
                    Ok((rows, end)) => {
                        proof {
                            lemma_models_of_rows(rows@);
                        }
                        let mut grid: Grid = [[None; CHUNK_WIDTH]; CHUNK_HEIGHT];
                        let mut y: usize = 0;
                        while y < CHUNK_HEIGHT
                            invariant
                                y <= CHUNK_HEIGHT,
                                rows.len() == CHUNK_HEIGHT,
                                forall|i: int| 0 <= i < y ==> grid[i] == rows@[i],
                            decreases CHUNK_HEIGHT - y,
                        {
                            grid[y] = rows[y];
                            y += 1;
                        }
                        assert(grid@ =~= rows@);
                        proof {
                            lemma_grid_of(grid);
                        }
                        Ok((grid, end))
                    },
                }
            },
        }
    }
}

impl Wire for Chunk {
    type Model = Chunk;

    open spec fn model(&self) -> Chunk {
        *self
    }

    open spec fn wire(m: Chunk) -> Seq<u8> {
        <(Grid, (bool, u64))>::wire((m.blocks, (m.rendered, m.chunk_number)))
    }

    open spec fn parse(bytes: Seq<u8>) -> Result<(Chunk, int), DecodeFailure> {
        match <(Grid, (bool, u64))>::parse(bytes) {
            Err(error) => Err(error),
            Ok(((blocks, (rendered, chunk_number)), used)) => Ok(
                (Chunk { blocks, rendered, chunk_number }, used),
            ),
        }
    }

    open spec fn fits(m: Chunk) -> bool {
        true
    }

    proof fn lemma_fits(&self) {
    }

    proof fn lemma_round_trip(m: Chunk, rest: Seq<u8>) {
        <(Grid, (bool, u64))>::lemma_round_trip((m.blocks, (m.rendered, m.chunk_number)), rest);
    }

    proof fn lemma_parse_bounds(bytes: Seq<u8>) {
        <(Grid, (bool, u64))>::lemma_parse_bounds(bytes);
    }

    fn encode(&self, out: &mut Vec<u8>) {
        self.blocks.encode(out);
        self.rendered.encode(out);
        self.chunk_number.encode(out);
    }

    fn decode(src: &[u8], at: usize) -> (found: Result<(Chunk, usize), DecodeFailure>) {
        match <(Grid, (bool, u64))>::decode(src, at) {
            Err(error) => Err(error),
            Ok(((blocks, (rendered, chunk_number)), end)) => Ok(
                (Chunk { blocks, rendered, chunk_number }, end),
            ),
        }
    }
}

/// Chunks are their own content.
pub proof fn lemma_models_of_chunks(chunks: Seq<Chunk>)
    ensures
        models::<Chunk>(chunks) == chunks,
{
}

impl Wire for Terrain {
    type Model = Seq<Chunk>;

    open spec fn model(&self) -> Seq<Chunk> {
        self@
    }

    open spec fn wire(m: Seq<Chunk>) -> Seq<u8> {
        Vec::<Chunk>::wire(m)
    }

    open spec fn parse(bytes: Seq<u8>) -> Result<(Seq<Chunk>, int), DecodeFailure> {
        Vec::<Chunk>::parse(bytes)
    }

    open spec fn fits(m: Seq<Chunk>) -> bool {
        Vec::<Chunk>::fits(m)
    }

    proof fn lemma_fits(&self) {
        self.chunks.lemma_fits();
        lemma_models_of_chunks(self.chunks@);
    }

    proof fn lemma_round_trip(m: Seq<Chunk>, rest: Seq<u8>) {
        Vec::<Chunk>::lemma_round_trip(m, rest);
    }

    proof fn lemma_parse_bounds(bytes: Seq<u8>) {
        Vec::<Chunk>::lemma_parse_bounds(bytes);
    }

    fn encode(&self, out: &mut Vec<u8>) {
        proof {
            lemma_models_of_chunks(self.chunks@);
        }
        self.chunks.encode(out);
    }

    fn decode(src: &[u8], at: usize) -> (found: Result<(Terrain, usize), DecodeFailure>) {
        match Vec::<Chunk>::decode(src, at) {
            Err(error) => Err(error),
            Ok((chunks, end)) => {
                proof {
                    lemma_models_of_chunks(chunks@);
                }
                Ok((Terrain { chunks }, end))
            },
        }
    }
}

impl Wire for BlockDelete {
    type Model = BlockDelete;

    open spec fn model(&self) -> BlockDelete {
        *self
    }

    open spec fn wire(m: BlockDelete) -> Seq<u8> {
        <(u64, (usize, usize))>::wire((m.chunk_number, (m.x, m.y)))
    }

    open spec fn parse(bytes: Seq<u8>) -> Result<(BlockDelete, int), DecodeFailure> {
        match <(u64, (usize, usize))>::parse(bytes) {
            Err(error) => Err(error),
            Ok(((chunk_number, (x, y)), used)) => Ok((BlockDelete { chunk_number, x, y }, used)),
        }
    }

    open spec fn fits(m: BlockDelete) -> bool {
        true
    }

    proof fn lemma_fits(&self) {
    }

    proof fn lemma_round_trip(m: BlockDelete, rest: Seq<u8>) {
        <(u64, (usize, usize))>::lemma_round_trip((m.chunk_number, (m.x, m.y)), rest);
    }

    proof fn lemma_parse_bounds(bytes: Seq<u8>) {
        <(u64, (usize, usize))>::lemma_parse_bounds(bytes);
    }

    fn encode(&self, out: &mut Vec<u8>) {
        (self.chunk_number, (self.x, self.y)).encode(out);
    }

    fn decode(src: &[u8], at: usize) -> (found: Result<(BlockDelete, usize), DecodeFailure>) {
        match <(u64, (usize, usize))>::decode(src, at) {
            Err(error) => Err(error),
            Ok(((chunk_number, (x, y)), end)) => Ok((BlockDelete { chunk_number, x, y }, end)),
        }
    }
}

impl Wire for WorldDelta {
    type Model = DeltaView;

    open spec fn model(&self) -> DeltaView {
        self@
    }

    open spec fn wire(m: DeltaView) -> Seq<u8> {
        match m {
            DeltaView::NewChunks(chunks) => u32::wire(0) + Terrain::wire(chunks),
            DeltaView::BlockDelete(delete) => u32::wire(1) + BlockDelete::wire(delete),
        }
    }

    open spec fn parse(bytes: Seq<u8>) -> Result<(DeltaView, int), DecodeFailure> {
        match u32::parse(bytes) {
            Err(error) => Err(error),
            Ok((tag, used)) => if tag == 0 {
                match Terrain::parse(bytes.skip(used)) {
                    Err(error) => Err(error),
                    Ok((chunks, more)) => Ok((DeltaView::NewChunks(chunks), used + more)),
                }
            } else if tag == 1 {
                match BlockDelete::parse(bytes.skip(used)) {
                    Err(error) => Err(error),
                    Ok((delete, more)) => Ok((DeltaView::BlockDelete(delete), used + more)),
                }
            } else {
                Err(DecodeFailure::UnexpectedVariant)
            },
        }
    }

    open spec fn fits(m: DeltaView) -> bool {
        match m {
            DeltaView::NewChunks(chunks) => Terrain::fits(chunks),
            DeltaView::BlockDelete(_) => true,
        }
    }

    proof fn lemma_fits(&self) {
        match self {
            WorldDelta::NewChunks(terrain) => {
                terrain.lemma_fits();
            },
            WorldDelta::BlockDelete(_) => {},
        }
    }

    proof fn lemma_round_trip(m: DeltaView, rest: Seq<u8>) {
        match m {
            DeltaView::NewChunks(chunks) => {
                let tail = Terrain::wire(chunks) + rest;
                u32::lemma_round_trip(0, tail);
                assert((Self::wire(m) + rest).skip(u32::wire(0).len() as int) =~= tail);
                Terrain::lemma_round_trip(chunks, rest);
            },
            DeltaView::BlockDelete(delete) => {
                let tail = BlockDelete::wire(delete) + rest;
                u32::lemma_round_trip(1, tail);
                assert((Self::wire(m) + rest).skip(u32::wire(1).len() as int) =~= tail);
                BlockDelete::lemma_round_trip(delete, rest);
            },
        }
    }

    proof fn lemma_parse_bounds(bytes: Seq<u8>) {
        u32::lemma_parse_bounds(bytes);
        if let Ok((tag, used)) = u32::parse(bytes) {
            Terrain::lemma_parse_bounds(bytes.skip(used));
            BlockDelete::lemma_parse_bounds(bytes.skip(used));
        }
    }

    fn encode(&self, out: &mut Vec<u8>) {
        match self {
            WorldDelta::NewChunks(terrain) => {
                let tag: u32 = 0;
                tag.encode(out);
                terrain.encode(out);
            },
            WorldDelta::BlockDelete(delete) => {
                let tag: u32 = 1;
                tag.encode(out);
                delete.encode(out);
            },
        }
    }

    fn decode(src: &[u8], at: usize) -> (found: Result<(WorldDelta, usize), DecodeFailure>) {
        proof {
            u32::lemma_parse_bounds(src@.skip(at as int));
        }
        match u32::decode(src, at) {
            Err(error) => Err(error),
            Ok((tag, start)) => {
                assert(src@.skip(at as int).skip(start - at) =~= src@.skip(start as int));
                if tag == 0 {
                    match Terrain::decode(src, start) {
                        Err(error) => Err(error),
                        Ok((terrain, end)) => Ok((WorldDelta::NewChunks(terrain), end)),
                    }
                } else if tag == 1 {
                    match BlockDelete::decode(src, start) {
                        Err(error) => Err(error),
                        Ok((delete, end)) => Ok((WorldDelta::BlockDelete(delete), end)),
                    }
                } else {
                    Err(DecodeFailure::UnexpectedVariant)
                }
            },
        }
    }
}

/// The content of a list of deltas is its deep view.
pub proof fn lemma_models_of_deltas(deltas: Vec<WorldDelta>)
    ensures
        models::<WorldDelta>(deltas@) == deltas.deep_view(),
{
}

impl Wire for SocketAddress {
    type Model = SocketAddress;

    open spec fn model(&self) -> SocketAddress {
        *self
    }

    open spec fn wire(m: SocketAddress) -> Seq<u8> {
        match m {
            SocketAddress::V4 { ip, port } => u32::wire(0) + <(Octets4, u16)>::wire((ip, port)),
            SocketAddress::V6 { ip, port } => u32::wire(1) + <(Octets16, u16)>::wire((ip, port)),
        }
    }

    open spec fn parse(bytes: Seq<u8>) -> Result<(SocketAddress, int), DecodeFailure> {
        match u32::parse(bytes) {
            Err(error) => Err(error),
            Ok((tag, used)) => if tag == 0 {
                match <(Octets4, u16)>::parse(bytes.skip(used)) {
                    Err(error) => Err(error),
                    Ok(((ip, port), more)) => Ok((SocketAddress::V4 { ip, port }, used + more)),
                }
            } else if tag == 1 {
                match <(Octets16, u16)>::parse(bytes.skip(used)) {
                    Err(error) => Err(error),
                    Ok(((ip, port), more)) => Ok((SocketAddress::V6 { ip, port }, used + more)),
                }
            } else {
                Err(DecodeFailure::UnexpectedVariant)
            },
        }
    }

    open spec fn fits(m: SocketAddress) -> bool {
        true
    }

    proof fn lemma_fits(&self) {
    }

    proof fn lemma_round_trip(m: SocketAddress, rest: Seq<u8>) {
        match m {
            SocketAddress::V4 { ip, port } => {
                let tail = <(Octets4, u16)>::wire((ip, port)) + rest;
                u32::lemma_round_trip(0, tail);
                assert((Self::wire(m) + rest).skip(u32::wire(0).len() as int) =~= tail);
                <(Octets4, u16)>::lemma_round_trip((ip, port), rest);
            },
            SocketAddress::V6 { ip, port } => {
                let tail = <(Octets16, u16)>::wire((ip, port)) + rest;
                u32::lemma_round_trip(1, tail);
                assert((Self::wire(m) + rest).skip(u32::wire(1).len() as int) =~= tail);
                <(Octets16, u16)>::lemma_round_trip((ip, port), rest);
            },
        }
    }

    proof fn lemma_parse_bounds(bytes: Seq<u8>) {
        u32::lemma_parse_bounds(bytes);
        if let Ok((tag, used)) = u32::parse(bytes) {
            <(Octets4, u16)>::lemma_parse_bounds(bytes.skip(used));
            <(Octets16, u16)>::lemma_parse_bounds(bytes.skip(used));
        }
    }

    fn encode(&self, out: &mut Vec<u8>) {
        match self {
            SocketAddress::V4 { ip, port } => {
                let tag: u32 = 0;
                tag.encode(out);
                (Octets4(*ip), *port).encode(out);
            },
            SocketAddress::V6 { ip, port } => {
                let tag: u32 = 1;
                tag.encode(out);
                (Octets16(*ip), *port).encode(out);
            },
        }
    }

    fn decode(src: &[u8], at: usize) -> (found: Result<(SocketAddress, usize), DecodeFailure>) {
        proof {
            u32::lemma_parse_bounds(src@.skip(at as int));
        }
        match u32::decode(src, at) {
            Err(error) => Err(error),
            Ok((tag, start)) => {
                assert(src@.skip(at as int).skip(start - at) =~= src@.skip(start as int));
                if tag == 0 {
                    match <(Octets4, u16)>::decode(src, start) {
                        Err(error) => Err(error),
                        Ok(((ip, port), end)) => Ok((SocketAddress::V4 { ip: ip.0, port }, end)),
                    }
                } else if tag == 1 {
                    match <(Octets16, u16)>::decode(src, start) {
                        Err(error) => Err(error),
                        Ok(((ip, port), end)) => Ok((SocketAddress::V6 { ip: ip.0, port }, end)),
                    }
                } else {
                    Err(DecodeFailure::UnexpectedVariant)
                }
            },
        }
    }
}

impl Wire for ClientAddress {
    type Model = ClientAddress;

    open spec fn model(&self) -> ClientAddress {
        *self
    }

    open spec fn wire(m: ClientAddress) -> Seq<u8> {
        SocketAddress::wire(m.addr)
    }

    open spec fn parse(bytes: Seq<u8>) -> Result<(ClientAddress, int), DecodeFailure> {
        match SocketAddress::parse(bytes) {
            Err(error) => Err(error),
            Ok((addr, used)) => Ok((ClientAddress { addr }, used)),
        }
    }

    open spec fn fits(m: ClientAddress) -> bool {
        true
    }

    proof fn lemma_fits(&self) {
    }

    proof fn lemma_round_trip(m: ClientAddress, rest: Seq<u8>) {
        SocketAddress::lemma_round_trip(m.addr, rest);
    }

    proof fn lemma_parse_bounds(bytes: Seq<u8>) {
        SocketAddress::lemma_parse_bounds(bytes);
    }

    fn encode(&self, out: &mut Vec<u8>) {
        self.addr.encode(out);
    }

    fn decode(src: &[u8], at: usize) -> (found: Result<(ClientAddress, usize), DecodeFailure>) {
        match SocketAddress::decode(src, at) {
            Err(error) => Err(error),
            Ok((addr, end)) => Ok((ClientAddress { addr }, end)),
        }
    }
}

impl Wire for PlayerPosition {
    type Model = PlayerPosition;

    open spec fn model(&self) -> PlayerPosition {
        *self
    }

    open spec fn wire(m: PlayerPosition) -> Seq<u8> {
        <(Bits32, Bits32)>::wire((m.x, m.y))
    }

    open spec fn parse(bytes: Seq<u8>) -> Result<(PlayerPosition, int), DecodeFailure> {
        match <(Bits32, Bits32)>::parse(bytes) {
            Err(error) => Err(error),
            Ok(((x, y), used)) => Ok((PlayerPosition { x, y }, used)),
        }
    }

    open spec fn fits(m: PlayerPosition) -> bool {
        true
    }

    proof fn lemma_fits(&self) {
    }

    proof fn lemma_round_trip(m: PlayerPosition, rest: Seq<u8>) {
        <(Bits32, Bits32)>::lemma_round_trip((m.x, m.y), rest);
    }

    proof fn lemma_parse_bounds(bytes: Seq<u8>) {
        <(Bits32, Bits32)>::lemma_parse_bounds(bytes);
    }

    fn encode(&self, out: &mut Vec<u8>) {
        (Bits32(self.x), Bits32(self.y)).encode(out);
    }

    fn decode(src: &[u8], at: usize) -> (found: Result<(PlayerPosition, usize), DecodeFailure>) {
        match <(Bits32, Bits32)>::decode(src, at) {
            Err(error) => Err(error),
            Ok(((x, y), end)) => Ok((PlayerPosition { x: x.0, y: y.0 }, end)),
        }
    }
}

impl Wire for SingleNetPlayerInfo {
    type Model = SingleNetPlayerInfo;

    open spec fn model(&self) -> SingleNetPlayerInfo {
        *self
    }

    open spec fn wire(m: SingleNetPlayerInfo) -> Seq<u8> {
        <(ClientAddress, PlayerPosition)>::wire((m.addr, m.position))
    }

    open spec fn parse(bytes: Seq<u8>) -> Result<(SingleNetPlayerInfo, int), DecodeFailure> {
        match <(ClientAddress, PlayerPosition)>::parse(bytes) {
            Err(error) => Err(error),
            Ok(((addr, position), used)) => Ok((SingleNetPlayerInfo { addr, position }, used)),
        }
    }

    open spec fn fits(m: SingleNetPlayerInfo) -> bool {
        true
    }

    proof fn lemma_fits(&self) {
    }

    proof fn lemma_round_trip(m: SingleNetPlayerInfo, rest: Seq<u8>) {
        <(ClientAddress, PlayerPosition)>::lemma_round_trip((m.addr, m.position), rest);
    }

    proof fn lemma_parse_bounds(bytes: Seq<u8>) {
        <(ClientAddress, PlayerPosition)>::lemma_parse_bounds(bytes);
    }

    fn encode(&self, out: &mut Vec<u8>) {
        (self.addr, self.position).encode(out);
    }

    fn decode(src: &[u8], at: usize) -> (found: Result<
        (SingleNetPlayerInfo, usize),
        DecodeFailure,
    >) {
        match <(ClientAddress, PlayerPosition)>::decode(src, at) {
            Err(error) => Err(error),
            Ok(((addr, position), end)) => Ok((SingleNetPlayerInfo { addr, position }, end)),
        }
    }
}

/// Player infos are their own content.
pub proof fn lemma_models_of_players(players: Seq<SingleNetPlayerInfo>)
    ensures
        models::<SingleNetPlayerInfo>(players) == players,
{
}

impl Wire for ServerBodyElem {
    type Model = ServerBodyView;

    open spec fn model(&self) -> ServerBodyView {
        self@
    }

    open spec fn wire(m: ServerBodyView) -> Seq<u8> {
        match m {
            ServerBodyView::Pong(sequence) => u32::wire(0) + u64::wire(sequence),
            ServerBodyView::WorldDeltas(deltas) => u32::wire(1) + Vec::<WorldDelta>::wire(deltas),
            ServerBodyView::PlayerInfo(players) => u32::wire(2) + Vec::<SingleNetPlayerInfo>::wire(
                players,
            ),
        }
    }

    open spec fn parse(bytes: Seq<u8>) -> Result<(ServerBodyView, int), DecodeFailure> {
        match u32::parse(bytes) {
            Err(error) => Err(error),
            Ok((tag, used)) => if tag == 0 {
                match u64::parse(bytes.skip(used)) {
                    Err(error) => Err(error),
                    Ok((sequence, more)) => Ok((ServerBodyView::Pong(sequence), used + more)),
                }
            } else if tag == 1 {
                match Vec::<WorldDelta>::parse(bytes.skip(used)) {
                    Err(error) => Err(error),
                    Ok((deltas, more)) => Ok((ServerBodyView::WorldDeltas(deltas), used + more)),
                }
            } else if tag == 2 {
                match Vec::<SingleNetPlayerInfo>::parse(bytes.skip(used)) {
                    Err(error) => Err(error),
                    Ok((players, more)) => Ok((ServerBodyView::PlayerInfo(players), used + more)),
                }
            } else {
                Err(DecodeFailure::UnexpectedVariant)
            },
        }
    }

    open spec fn fits(m: ServerBodyView) -> bool {
        match m {
            ServerBodyView::Pong(_) => true,
            ServerBodyView::WorldDeltas(deltas) => Vec::<WorldDelta>::fits(deltas),
            ServerBodyView::PlayerInfo(players) => Vec::<SingleNetPlayerInfo>::fits(players),
        }
    }

    proof fn lemma_fits(&self) {
        match self {
            ServerBodyElem::Pong(_) => {},
            ServerBodyElem::WorldDeltas(deltas) => {
                deltas.lemma_fits();
                lemma_models_of_deltas(*deltas);
            },
            ServerBodyElem::PlayerInfo(players) => {
                players.lemma_fits();
                lemma_models_of_players(players@);
            },
        }
    }

    proof fn lemma_round_trip(m: ServerBodyView, rest: Seq<u8>) {
        match m {
            ServerBodyView::Pong(sequence) => {
                let tail = u64::wire(sequence) + rest;
                u32::lemma_round_trip(0, tail);
                assert((Self::wire(m) + rest).skip(u32::wire(0).len() as int) =~= tail);
                u64::lemma_round_trip(sequence, rest);
            },
            ServerBodyView::WorldDeltas(deltas) => {
                let tail = Vec::<WorldDelta>::wire(deltas) + rest;
                u32::lemma_round_trip(1, tail);
                assert((Self::wire(m) + rest).skip(u32::wire(1).len() as int) =~= tail);
                Vec::<WorldDelta>::lemma_round_trip(deltas, rest);
            },
            ServerBodyView::PlayerInfo(players) => {
                let tail = Vec::<SingleNetPlayerInfo>::wire(players) + rest;
                u32::lemma_round_trip(2, tail);
                assert((Self::wire(m) + rest).skip(u32::wire(2).len() as int) =~= tail);
                Vec::<SingleNetPlayerInfo>::lemma_round_trip(players, rest);
            },
        }
    }

    proof fn lemma_parse_bounds(bytes: Seq<u8>) {
        u32::lemma_parse_bounds(bytes);
        if let Ok((tag, used)) = u32::parse(bytes) {
            u64::lemma_parse_bounds(bytes.skip(used));
            Vec::<WorldDelta>::lemma_parse_bounds(bytes.skip(used));
            Vec::<SingleNetPlayerInfo>::lemma_parse_bounds(bytes.skip(used));
        }
    }

    fn encode(&self, out: &mut Vec<u8>) {
        match self {
            ServerBodyElem::Pong(sequence) => {
                let tag: u32 = 0;
                tag.encode(out);
                sequence.encode(out);
            },
            ServerBodyElem::WorldDeltas(deltas) => {
                let tag: u32 = 1;
                tag.encode(out);
                proof {
                    lemma_models_of_deltas(*deltas);
                }
                deltas.encode(out);
            },
            ServerBodyElem::PlayerInfo(players) => {
                let tag: u32 = 2;
                tag.encode(out);
                proof {
                    lemma_models_of_players(players@);
                }
                players.encode(out);
            },
        }
    }

    fn decode(src: &[u8], at: usize) -> (found: Result<(ServerBodyElem, usize), DecodeFailure>) {
        proof {
            u32::lemma_parse_bounds(src@.skip(at as int));
        }
        match u32::decode(src, at) {
            Err(error) => Err(error),
            Ok((tag, start)) => {
                assert(src@.skip(at as int).skip(start - at) =~= src@.skip(start as int));
                if tag == 0 {
                    match u64::decode(src, start) {
                        Err(error) => Err(error),
                        Ok((sequence, end)) => Ok((ServerBodyElem::Pong(sequence), end)),
                    }
                } else if tag == 1 {
                    match Vec::<WorldDelta>::decode(src, start) {
                        Err(error) => Err(error),
                        Ok((deltas, end)) => {
                            proof {
                                lemma_models_of_deltas(deltas);
                            }
                            Ok((ServerBodyElem::WorldDeltas(deltas), end))
                        },
                    }
                } else if tag == 2 {
                    match Vec::<SingleNetPlayerInfo>::decode(src, start) {
                        Err(error) => Err(error),
                        Ok((players, end)) => {
                            proof {
                                lemma_models_of_players(players@);
                            }
                            Ok((ServerBodyElem::PlayerInfo(players), end))
                        },
                    }
                } else {
                    Err(DecodeFailure::UnexpectedVariant)
                }
            },
        }
    }
}

/// The content of a list of body elements is its deep view.
pub proof fn lemma_models_of_bodies(bodies: Vec<ServerBodyElem>)
    ensures
        models::<ServerBodyElem>(bodies@) == bodies.deep_view(),
{
}

impl Wire for ServerToClient {
    type Model = ServerMessageView;

    open spec fn model(&self) -> ServerMessageView {
        self@
    }

    open spec fn wire(m: ServerMessageView) -> Seq<u8> {
        <(u64, Vec<ServerBodyElem>)>::wire((m.header.sequence, m.bodies))
    }

    open spec fn parse(bytes: Seq<u8>) -> Result<(ServerMessageView, int), DecodeFailure> {
        match <(u64, Vec<ServerBodyElem>)>::parse(bytes) {
            Err(error) => Err(error),
            Ok(((sequence, bodies), used)) => Ok(
                (ServerMessageView { header: ServerHeader { sequence }, bodies }, used),
            ),
        }
    }

    open spec fn fits(m: ServerMessageView) -> bool {
        Vec::<ServerBodyElem>::fits(m.bodies)
    }

    proof fn lemma_fits(&self) {
        self.bodies.lemma_fits();
        lemma_models_of_bodies(self.bodies);
    }

    proof fn lemma_round_trip(m: ServerMessageView, rest: Seq<u8>) {
        <(u64, Vec<ServerBodyElem>)>::lemma_round_trip((m.header.sequence, m.bodies), rest);
    }

    proof fn lemma_parse_bounds(bytes: Seq<u8>) {
        <(u64, Vec<ServerBodyElem>)>::lemma_parse_bounds(bytes);
    }

    fn encode(&self, out: &mut Vec<u8>) {
        self.header.sequence.encode(out);
        proof {
            lemma_models_of_bodies(self.bodies);
        }
        self.bodies.encode(out);
    }

    fn decode(src: &[u8], at: usize) -> (found: Result<(ServerToClient, usize), DecodeFailure>) {
        match <(u64, Vec<ServerBodyElem>)>::decode(src, at) {
            Err(error) => Err(error),
            Ok(((sequence, bodies), end)) => {
                proof {
                    lemma_models_of_bodies(bodies);
                }
                Ok((ServerToClient { header: ServerHeader { sequence }, bodies }, end))
            },
        }
    }
}

impl Wire for PlayerInput {
    type Model = PlayerInput;

    open spec fn model(&self) -> PlayerInput {
        *self
    }

    open spec fn wire(m: PlayerInput) -> Seq<u8> {
        <(bool, (bool, (bool, (bool, (usize, usize)))))>::wire(
            (m.left, (m.right, (m.jump, (m.mine, (m.block_x, m.block_y))))),
        )
    }

    open spec fn parse(bytes: Seq<u8>) -> Result<(PlayerInput, int), DecodeFailure> {
        match <(bool, (bool, (bool, (bool, (usize, usize)))))>::parse(bytes) {
            Err(error) => Err(error),
            Ok(((left, (right, (jump, (mine, (block_x, block_y))))), used)) => Ok(
                (PlayerInput { left, right, jump, mine, block_x, block_y }, used),
            ),
        }
    }

    open spec fn fits(m: PlayerInput) -> bool {
        true
    }

    proof fn lemma_fits(&self) {
    }

    proof fn lemma_round_trip(m: PlayerInput, rest: Seq<u8>) {
        <(bool, (bool, (bool, (bool, (usize, usize)))))>::lemma_round_trip(
            (m.left, (m.right, (m.jump, (m.mine, (m.block_x, m.block_y))))),
            rest,
        );
    }

    proof fn lemma_parse_bounds(bytes: Seq<u8>) {
        <(bool, (bool, (bool, (bool, (usize, usize)))))>::lemma_parse_bounds(bytes);
    }

    fn encode(&self, out: &mut Vec<u8>) {
        (self.left, (self.right, (self.jump, (self.mine, (self.block_x, self.block_y))))).encode(
            out,
        );
    }

    fn decode(src: &[u8], at: usize) -> (found: Result<(PlayerInput, usize), DecodeFailure>) {
        match <(bool, (bool, (bool, (bool, (usize, usize)))))>::decode(src, at) {
            Err(error) => Err(error),
            Ok(((left, (right, (jump, (mine, (block_x, block_y))))), end)) => Ok(
                (PlayerInput { left, right, jump, mine, block_x, block_y }, end),
            ),
        }
    }
}

impl Wire for ClientBodyElem {
    type Model = ClientBodyElem;

    open spec fn model(&self) -> ClientBodyElem {
        *self
    }

    open spec fn wire(m: ClientBodyElem) -> Seq<u8> {
        match m {
            ClientBodyElem::Ping => u32::wire(0),
            ClientBodyElem::Input(input) => u32::wire(1) + PlayerInput::wire(input),
        }
    }

    open spec fn parse(bytes: Seq<u8>) -> Result<(ClientBodyElem, int), DecodeFailure> {
        match u32::parse(bytes) {
            Err(error) => Err(error),
            Ok((tag, used)) => if tag == 0 {
                Ok((ClientBodyElem::Ping, used))
            } else if tag == 1 {
                match PlayerInput::parse(bytes.skip(used)) {
                    Err(error) => Err(error),
                    Ok((input, more)) => Ok((ClientBodyElem::Input(input), used + more)),
                }
            } else {
                Err(DecodeFailure::UnexpectedVariant)
            },
        }
    }

    open spec fn fits(m: ClientBodyElem) -> bool {
        true
    }

    proof fn lemma_fits(&self) {
    }

    proof fn lemma_round_trip(m: ClientBodyElem, rest: Seq<u8>) {
        match m {
            ClientBodyElem::Ping => {
                u32::lemma_round_trip(0, rest);
            },
            ClientBodyElem::Input(input) => {
                let tail = PlayerInput::wire(input) + rest;
                u32::lemma_round_trip(1, tail);
                assert((Self::wire(m) + rest).skip(u32::wire(1).len() as int) =~= tail);
                PlayerInput::lemma_round_trip(input, rest);
            },
        }
    }

    proof fn lemma_parse_bounds(bytes: Seq<u8>) {
        u32::lemma_parse_bounds(bytes);
        if let Ok((tag, used)) = u32::parse(bytes) {
            PlayerInput::lemma_parse_bounds(bytes.skip(used));
        }
    }

    fn encode(&self, out: &mut Vec<u8>) {
        match self {
            ClientBodyElem::Ping => {
                let tag: u32 = 0;
                tag.encode(out);
            },
            ClientBodyElem::Input(input) => {
                let tag: u32 = 1;
                tag.encode(out);
                input.encode(out);
            },
        }
    }

    fn decode(src: &[u8], at: usize) -> (found: Result<(ClientBodyElem, usize), DecodeFailure>) {
        proof {
            u32::lemma_parse_bounds(src@.skip(at as int));
        }
        match u32::decode(src, at) {
            Err(error) => Err(error),
            Ok((tag, start)) => {
                assert(src@.skip(at as int).skip(start - at) =~= src@.skip(start as int));
                if tag == 0 {
                    Ok((ClientBodyElem::Ping, start))
                } else if tag == 1 {
                    match PlayerInput::decode(src, start) {
                        Err(error) => Err(error),
                        Ok((input, end)) => Ok((ClientBodyElem::Input(input), end)),
                    }
                } else {
                    Err(DecodeFailure::UnexpectedVariant)
                }
            },
        }
    }
}

/// Client body elements are their own content.
pub proof fn lemma_models_of_client_bodies(bodies: Seq<ClientBodyElem>)
    ensures
        models::<ClientBodyElem>(bodies) == bodies,
{
}

impl Wire for ClientToServer {
    type Model = ClientMessageView;

    open spec fn model(&self) -> ClientMessageView {
        self@
    }

    open spec fn wire(m: ClientMessageView) -> Seq<u8> {
        <(u64, (u64, Vec<ClientBodyElem>))>::wire(
            (m.header.current_sequence, (m.header.last_received_sequence, m.bodies)),
        )
    }

    open spec fn parse(bytes: Seq<u8>) -> Result<(ClientMessageView, int), DecodeFailure> {
        match <(u64, (u64, Vec<ClientBodyElem>))>::parse(bytes) {
            Err(error) => Err(error),
            Ok(((current_sequence, (last_received_sequence, bodies)), used)) => Ok(
                (
                    ClientMessageView {
                        header: ClientHeader { current_sequence, last_received_sequence },
                        bodies,
                    },
                    used,
                ),
            ),
        }
    }

    open spec fn fits(m: ClientMessageView) -> bool {
        Vec::<ClientBodyElem>::fits(m.bodies)
    }

    proof fn lemma_fits(&self) {
        self.bodies.lemma_fits();
        lemma_models_of_client_bodies(self.bodies@);
    }

    proof fn lemma_round_trip(m: ClientMessageView, rest: Seq<u8>) {
        <(u64, (u64, Vec<ClientBodyElem>))>::lemma_round_trip(
            (m.header.current_sequence, (m.header.last_received_sequence, m.bodies)),
            rest,
        );
    }

    proof fn lemma_parse_bounds(bytes: Seq<u8>) {
        <(u64, (u64, Vec<ClientBodyElem>))>::lemma_parse_bounds(bytes);
    }

    fn encode(&self, out: &mut Vec<u8>) {
        self.header.current_sequence.encode(out);
        self.header.last_received_sequence.encode(out);
        proof {
            lemma_models_of_client_bodies(self.bodies@);
        }
        self.bodies.encode(out);
    }

    fn decode(src: &[u8], at: usize) -> (found: Result<(ClientToServer, usize), DecodeFailure>) {
        match <(u64, (u64, Vec<ClientBodyElem>))>::decode(src, at) {
            Err(error) => Err(error),
            Ok(((current_sequence, (last_received_sequence, bodies)), end)) => {
                proof {
                    lemma_models_of_client_bodies(bodies@);
                }
                Ok(
                    (
                        ClientToServer {
                            header: ClientHeader { current_sequence, last_received_sequence },
                            bodies,
                        },
                        end,
                    ),
                )
            },
        }
    }
}

/// A message that travels as one datagram.
pub trait NetworkMessage: Wire {
}

impl NetworkMessage for ServerToClient {
}

impl NetworkMessage for ClientToServer {
}

/// The bytes of a message.
pub fn encode_to_vec<M: NetworkMessage>(message: &M) -> (bytes: Vec<u8>)
    ensures
        bytes@ == M::wire(message.model()),
{
    let mut bytes: Vec<u8> = Vec::new();
    message.encode(&mut bytes);
    bytes
}

/// Encodes `message` into the front of `buffer` and says how many bytes it
/// takes: the datagram to send is that much of the buffer. A message that
/// does not fit is refused and the buffer is left as it was.
pub fn send_message<M: NetworkMessage>(message: &M, buffer: &mut [u8]) -> (sent: Result<
    usize,
    SendError,
>)
    ensures
        final(buffer)@.len() == old(buffer)@.len(),
        sent is Ok <==> M::wire(message.model()).len() <= old(buffer)@.len(),
        sent matches Ok(size) ==> size == M::wire(message.model()).len() && final(buffer)@
            == M::wire(message.model()) + old(buffer)@.skip(size as int),
        sent matches Err(error) ==> error == SendError::EncodeError(EncodeFailure::UnexpectedEnd)
            && final(buffer)@ == old(buffer)@,
{
    let bytes = encode_to_vec(message);
    if bytes.len() > buffer.len() {
        return Err(SendError::EncodeError(EncodeFailure::UnexpectedEnd));
    }
    let mut i: usize = 0;
    while i < bytes.len()
        invariant
            i <= bytes.len(),
            bytes.len() <= buffer.len(),
            buffer@.len() == old(buffer)@.len(),
            buffer@ == bytes@.take(i as int) + old(buffer)@.skip(i as int),
        decreases bytes.len() - i,
    {
        buffer[i] = bytes[i];
        i += 1;
    }
    Ok(bytes.len())
}

/// Decodes the message at the front of `buffer`. Bytes behind the message
/// are not looked at; a message that is cut short or malformed is refused
/// as a whole.
pub fn receive_message<M: NetworkMessage>(buffer: &[u8]) -> (received: Result<M, ReceiveError>)
    ensures
        match M::parse(buffer@) {
            Ok((m, _)) => received matches Ok(message) && message.model() == m,
            Err(error) => received == Err::<M, ReceiveError>(ReceiveError::DecodeError(error)),
        },
{
    assert(buffer@.skip(0) =~= buffer@);
    match M::decode(buffer, 0) {
        Ok((message, _)) => Ok(message),
        Err(error) => Err(ReceiveError::DecodeError(error)),
    }
}

/// What was encoded into a buffer decodes to the same message, whatever
/// the rest of the buffer holds.
pub proof fn lemma_sent_is_received<M: NetworkMessage>(message: M, rest: Seq<u8>)
    ensures
        M::parse(M::wire(message.model()) + rest) matches Ok((m, used)) && m == message.model()
            && used == M::wire(message.model()).len(),
{
    message.lemma_fits();
    M::lemma_round_trip(message.model(), rest);
}

} // verus!
