//! The block world: chunks of cells, the terrain that holds them, and the
//! operations that look cells up and remove them.

use vstd::array::spec_array_update;
use vstd::prelude::*;

verus! {

/// Number of rows in a chunk.
pub const CHUNK_HEIGHT: usize = 64;

/// Number of columns in a chunk.
pub const CHUNK_WIDTH: usize = 128;

/// A distinct type of block, with its own texture.
#[derive(Copy, Clone, Debug, PartialEq, Eq, Structural)]
pub enum BlockType {
    Sand,
    Limestone,
    Basalt,
    Granite,
    Diabase,
    Gabbro,
    Clay,
    Coal,
    Iron,
    Quartz,
    Labradorite,
    Peridot,
    CaveVoid,
    PalmTreeBlock,
    Leaves,
    Trunk,
}

/// The kind of ore a vein carries.
#[derive(Copy, Clone, Debug, PartialEq, Eq, Structural)]
pub enum OreType {
    Primary,
}

/// The rock family of a stretch of the world.
#[derive(Copy, Clone, Debug, PartialEq, Eq, Structural)]
pub enum BiomeType {
    Sand,
    Sedimentary,
    Basalt,
    Felsic,
    Mafic,
    Ultramafic,
}

impl BiomeType {
    /// The block that fills this biome.
    pub open spec fn primary(self) -> BlockType {
        match self {
            BiomeType::Sand => BlockType::Sand,
            BiomeType::Sedimentary => BlockType::Limestone,
            BiomeType::Basalt => BlockType::Basalt,
            BiomeType::Felsic => BlockType::Granite,
            BiomeType::Mafic => BlockType::Diabase,
            BiomeType::Ultramafic => BlockType::Gabbro,
        }
    }

    /// The block found in this biome's veins.
    pub open spec fn ore(self) -> BlockType {
        match self {
            BiomeType::Sand => BlockType::Clay,
            BiomeType::Sedimentary => BlockType::Coal,
            BiomeType::Basalt => BlockType::Iron,
            BiomeType::Felsic => BlockType::Quartz,
            BiomeType::Mafic => BlockType::Labradorite,
            BiomeType::Ultramafic => BlockType::Peridot,
        }
    }

    /// The block that fills this biome.
    pub fn primary_block(&self) -> (block: BlockType)
        ensures
            block == self.primary(),
    {
        match self {
            BiomeType::Sand => BlockType::Sand,
            BiomeType::Sedimentary => BlockType::Limestone,
            BiomeType::Basalt => BlockType::Basalt,
            BiomeType::Felsic => BlockType::Granite,
            BiomeType::Mafic => BlockType::Diabase,
            BiomeType::Ultramafic => BlockType::Gabbro,
        }
    }

    /// The block found in this biome's veins.
    pub fn ore_block(&self) -> (block: BlockType)
        ensures
            block == self.ore(),
    {
        match self {
            BiomeType::Sand => BlockType::Clay,
            BiomeType::Sedimentary => BlockType::Coal,
            BiomeType::Basalt => BlockType::Iron,
            BiomeType::Felsic => BlockType::Quartz,
            BiomeType::Mafic => BlockType::Labradorite,
            BiomeType::Ultramafic => BlockType::Peridot,
        }
    }
}

impl BlockType {
    /// The name of the image that shows this block; a void has none.
    pub open spec fn image_name(self) -> &'static str {
        match self {
            BlockType::Sand => "Sand.png",
            BlockType::Limestone => "Limestone.png",
            BlockType::Basalt => "Basalt.png",
            BlockType::Granite => "Granite.png",
            BlockType::Diabase => "Diabase.png",
            BlockType::Gabbro => "Gabbro.png",
            BlockType::Clay => "Clay.png",
            BlockType::Coal => "Coal.png",
            BlockType::Iron => "Iron.png",
            BlockType::Quartz => "Quartz.png",
            BlockType::Labradorite => "Labradorite.png",
            BlockType::Peridot => "Peridot.png",
            BlockType::CaveVoid => "",
            BlockType::PalmTreeBlock => "PalmTreeBlock.png",
            BlockType::Leaves => "Leaves.png",
            BlockType::Trunk => "Trunk.png",
        }
    }

    /// The file path of the image that should be displayed for this block.
    pub fn image_file_path(&self) -> (path: &'static str)
        ensures
            path == self.image_name(),
    {
        match self {
            BlockType::Sand => "Sand.png",
            BlockType::Limestone => "Limestone.png",
            BlockType::Basalt => "Basalt.png",
            BlockType::Granite => "Granite.png",
            BlockType::Diabase => "Diabase.png",
            BlockType::Gabbro => "Gabbro.png",
            BlockType::Clay => "Clay.png",
            BlockType::Coal => "Coal.png",
            BlockType::Iron => "Iron.png",
            BlockType::Quartz => "Quartz.png",
            BlockType::Labradorite => "Labradorite.png",
            BlockType::Peridot => "Peridot.png",
            BlockType::CaveVoid => "",
            BlockType::PalmTreeBlock => "PalmTreeBlock.png",
            BlockType::Leaves => "Leaves.png",
            BlockType::Trunk => "Trunk.png",
        }
    }
}

/// What occupies one cell of a chunk.
#[derive(Copy, Clone, Debug, PartialEq, Eq, Structural)]
pub struct Block {
    /// What kind of block this is.
    pub block_type: BlockType,
}

impl Block {
    /// A block of the given type.
    pub fn new(block_type: BlockType) -> (block: Block)
        ensures
            block == (Block { block_type }),
    {
        Block { block_type }
    }
}

/// A fixed-size grid of cells, indexed `blocks[y][x]`; row 0 of chunk `n`
/// is world row `n * CHUNK_HEIGHT`.
#[derive(Debug, PartialEq)]
pub struct Chunk {
    pub blocks: [[Option<Block>; CHUNK_WIDTH]; CHUNK_HEIGHT],
    pub rendered: bool,
    pub chunk_number: u64,
}

impl Clone for Chunk {
    fn clone(&self) -> (copy: Self)
        ensures
            copy == *self,
    {
        Chunk { blocks: self.blocks, rendered: self.rendered, chunk_number: self.chunk_number }
    }
}

impl Chunk {
    /// The content of cell (`x`, `y`).
    pub open spec fn cell(self, x: int, y: int) -> Option<Block>
        recommends
            0 <= x < CHUNK_WIDTH,
            0 <= y < CHUNK_HEIGHT,
    {
        self.blocks[y][x]
    }

    /// This chunk with cell (`x`, `y`) emptied; the chunk itself where the
    /// coordinates lie outside the grid.
    pub open spec fn cleared(self, x: usize, y: usize) -> Chunk {
        if x < CHUNK_WIDTH && y < CHUNK_HEIGHT {
            Chunk {
                blocks: spec_array_update(
                    self.blocks,
                    y as int,
                    spec_array_update(self.blocks[y as int], x as int, None),
                ),
                rendered: self.rendered,
                chunk_number: self.chunk_number,
            }
        } else {
            self
        }
    }

    /// Two chunks with the same number, the same flag and the same cells are
    /// the same chunk.
    pub proof fn lemma_ext(a: Chunk, b: Chunk)
        requires
            a.chunk_number == b.chunk_number,
            a.rendered == b.rendered,
            forall|x: int, y: int|
                0 <= x < CHUNK_WIDTH && 0 <= y < CHUNK_HEIGHT ==> a.cell(x, y) == b.cell(x, y),
        ensures
            a == b,
    {
        assert forall|y: int| 0 <= y < CHUNK_HEIGHT implies a.blocks[y] == b.blocks[y] by {
            assert forall|x: int| 0 <= x < CHUNK_WIDTH implies a.blocks[y][x] == b.blocks[y][x] by {
                assert(a.cell(x, y) == b.cell(x, y));
            }
        }
        assert(a.blocks =~= b.blocks);
    }

    /// The cells of a cleared chunk: the one named is empty, the others are
    /// as before.
    pub proof fn lemma_cleared_cell(self, x: usize, y: usize, i: int, j: int)
        requires
            0 <= i < CHUNK_WIDTH,
            0 <= j < CHUNK_HEIGHT,
        ensures
            self.cleared(x, y).chunk_number == self.chunk_number,
            self.cleared(x, y).rendered == self.rendered,
            self.cleared(x, y).cell(i, j) == if i == x && j == y {
                None
            } else {
                self.cell(i, j)
            },
    {
    }

    /// Clearing a cell that is already clear changes nothing.
    pub proof fn lemma_cleared_twice(self, x: usize, y: usize)
        ensures
            self.cleared(x, y).cleared(x, y) == self.cleared(x, y),
    {
        let once = self.cleared(x, y);
        assert forall|i: int, j: int| 0 <= i < CHUNK_WIDTH && 0 <= j < CHUNK_HEIGHT implies once.cleared(
            x,
            y,
        ).cell(i, j) == once.cell(i, j) by {
            once.lemma_cleared_cell(x, y, i, j);
            self.lemma_cleared_cell(x, y, i, j);
        }
        Chunk::lemma_ext(once.cleared(x, y), once);
    }

    /// The order in which two cells are cleared does not matter.
    pub proof fn lemma_cleared_commutes(self, x: usize, y: usize, u: usize, v: usize)
        ensures
            self.cleared(x, y).cleared(u, v) == self.cleared(u, v).cleared(x, y),
    {
        let left = self.cleared(x, y).cleared(u, v);
        let right = self.cleared(u, v).cleared(x, y);
        assert forall|i: int, j: int| 0 <= i < CHUNK_WIDTH && 0 <= j < CHUNK_HEIGHT implies left.cell(
            i,
            j,
        ) == right.cell(i, j) by {
            self.lemma_cleared_cell(x, y, i, j);
            self.lemma_cleared_cell(u, v, i, j);
            self.cleared(x, y).lemma_cleared_cell(u, v, i, j);
            self.cleared(u, v).lemma_cleared_cell(x, y, i, j);
        }
        Chunk::lemma_ext(left, right);
    }

    /// Empties cell (`x`, `y`) if it lies inside the grid.
    pub fn clear_cell(&mut self, x: usize, y: usize)
        ensures
            *final(self) == old(self).cleared(x, y),
    {
        if x < CHUNK_WIDTH && y < CHUNK_HEIGHT {
            self.blocks[y][x] = None;
        }
    }
}

/// Whether the crown of a tree fits above a trunk that stands two columns
/// left of column `x` and ends at row `y`: the cells left and right of the
/// trunk's column must be empty in rows `y`, `y + 1` and `y + 2`. Nothing
/// fits in the five leftmost columns or outside the grid.
pub open spec fn crown_fits(chunk: Chunk, x: usize, y: usize) -> bool {
    &&& 4 < x < CHUNK_WIDTH
    &&& chunk.cell(x - 3, y as int) is None
    &&& chunk.cell(x - 1, y as int) is None
    &&& chunk.cell(x - 1, y + 1) is None
    &&& chunk.cell(x - 3, y + 1) is None
    &&& chunk.cell(x - 1, y + 2) is None
    &&& chunk.cell(x - 3, y + 2) is None
}

/// Says whether the crown of a tree fits: see `crown_fits`.
pub fn structure_fit(chunk: &Chunk, x: usize, y: usize) -> (fits: bool)
    requires
        4 < x < CHUNK_WIDTH ==> y + 2 < CHUNK_HEIGHT,
    ensures
        fits == crown_fits(*chunk, x, y),
{
    if x > 4 && x < CHUNK_WIDTH {
        if chunk.blocks[y][x - 3].is_none() && chunk.blocks[y][x - 1].is_none() && chunk.blocks[y
            + 1][x - 1].is_none() && chunk.blocks[y + 1][x - 3].is_none() && chunk.blocks[y
            + 2][x - 1].is_none() && chunk.blocks[y + 2][x - 3].is_none() {
            return true;
        }
    }
    false
}

/// Whether `i` is the first place in `chunks` that holds chunk number `id`.
pub open spec fn first_at(chunks: Seq<Chunk>, id: u64, i: int) -> bool {
    &&& 0 <= i < chunks.len()
    &&& chunks[i].chunk_number == id
    &&& forall|j: int| 0 <= j < i ==> (#[trigger] chunks[j]).chunk_number != id
}

/// Whether some chunk in `chunks` has number `id`.
pub open spec fn has_chunk(chunks: Seq<Chunk>, id: u64) -> bool {
    exists|i: int| first_at(chunks, id, i)
}

/// The first place in `chunks` that holds chunk number `id`.
pub open spec fn chunk_position(chunks: Seq<Chunk>, id: u64) -> int
    recommends
        has_chunk(chunks, id),
{
    choose|i: int| first_at(chunks, id, i)
}

/// The chunk numbered `id`: the first one in `chunks` that carries the number.
pub open spec fn chunk_of(chunks: Seq<Chunk>, id: u64) -> Option<Chunk> {
    if has_chunk(chunks, id) {
        Some(chunks[chunk_position(chunks, id)])
    } else {
        None
    }
}

/// No two chunks carry the same number.
pub open spec fn distinct_numbers(chunks: Seq<Chunk>) -> bool {
    forall|i: int, j: int|
        0 <= i < j < chunks.len() ==> (#[trigger] chunks[i]).chunk_number != (
        #[trigger] chunks[j]).chunk_number
}

/// A number found at place `i`, with no earlier bearer, is the chunk's
/// position.
pub proof fn lemma_first_at(chunks: Seq<Chunk>, id: u64, i: int)
    requires
        first_at(chunks, id, i),
    ensures
        has_chunk(chunks, id),
        chunk_position(chunks, id) == i,
        chunk_of(chunks, id) == Some(chunks[i]),
{
}

/// A number that no chunk carries has no position.
pub proof fn lemma_no_chunk(chunks: Seq<Chunk>, id: u64)
    requires
        forall|j: int| 0 <= j < chunks.len() ==> (#[trigger] chunks[j]).chunk_number != id,
    ensures
        !has_chunk(chunks, id),
        chunk_of(chunks, id) is None,
{
}

/// A number that some chunk carries has a first bearer.
pub proof fn lemma_has_chunk(chunks: Seq<Chunk>, id: u64, i: int)
    requires
        0 <= i < chunks.len(),
        chunks[i].chunk_number == id,
    ensures
        has_chunk(chunks, id),
        0 <= chunk_position(chunks, id) <= i,
    decreases i,
{
    if forall|j: int| 0 <= j < i ==> (#[trigger] chunks[j]).chunk_number != id {
        lemma_first_at(chunks, id, i);
    } else {
        let j = choose|j: int| 0 <= j < i && (#[trigger] chunks[j]).chunk_number == id;
        lemma_has_chunk(chunks, id, j);
    }
}

/// All chunks of the game world, each carrying its own number.
#[derive(Debug, PartialEq)]
pub struct Terrain {
    pub chunks: Vec<Chunk>,
}

impl View for Terrain {
    type V = Seq<Chunk>;

    open spec fn view(&self) -> Seq<Chunk> {
        self.chunks@
    }
}

impl Clone for Terrain {
    fn clone(&self) -> (copy: Self)
        ensures
            copy@ == self@,
    {
        let mut chunks: Vec<Chunk> = Vec::new();
        let mut i: usize = 0;
        while i < self.chunks.len()
            invariant
                i <= self.chunks.len(),
                chunks@ == self.chunks@.take(i as int),
            decreases self.chunks.len() - i,
        {
            chunks.push(self.chunks[i].clone());
            i += 1;
        }
        Terrain { chunks }
    }
}

impl Terrain {
    /// A terrain with no chunks.
    pub fn empty() -> (terrain: Terrain)
        ensures
            terrain@ == Seq::<Chunk>::empty(),
    {
        Terrain { chunks: Vec::new() }
    }

    /// Where chunk number `id` is stored, if the terrain holds it.
    pub fn find_chunk(&self, id: u64) -> (place: Option<usize>)
        ensures
            place is Some <==> has_chunk(self@, id),
            place matches Some(i) ==> i == chunk_position(self@, id) && i < self@.len()
                && chunk_of(self@, id) == Some(self@[i as int]),
    {
        let mut i: usize = 0;
        while i < self.chunks.len()
            invariant
                i <= self.chunks.len(),
                forall|j: int| 0 <= j < i ==> (#[trigger] self@[j]).chunk_number != id,
            decreases self.chunks.len() - i,
        {
            if self.chunks[i].chunk_number == id {
                proof {
                    lemma_first_at(self@, id, i as int);
                }
                return Some(i);
            }
            i += 1;
        }
        proof {
            lemma_no_chunk(self@, id);
        }
        None
    }
}

/// Why a block could not be destroyed.
#[derive(Copy, Clone, Debug, PartialEq, Eq, Structural)]
pub enum DestroyBlockError {
    /// The column lies outside the world.
    InvalidX,
    /// The chunk that would hold the row is not loaded.
    ChunkNotLoaded,
    /// The cell is already empty.
    BlockDoesntExist,
}

/// The number of the chunk that holds world row `y`.
pub open spec fn chunk_of_row(y: usize) -> u64 {
    (y / CHUNK_HEIGHT) as u64
}

/// The row inside its chunk of world row `y`.
pub open spec fn row_in_chunk(y: usize) -> usize {
    y % CHUNK_HEIGHT
}

/// What `destroy_block` answers for column `x` and world row `y`.
pub open spec fn destroy_outcome(chunks: Seq<Chunk>, x: usize, y: usize) -> Result<
    Block,
    DestroyBlockError,
> {
    if x >= CHUNK_WIDTH {
        Err(DestroyBlockError::InvalidX)
    } else {
        match chunk_of(chunks, chunk_of_row(y)) {
            None => Err(DestroyBlockError::ChunkNotLoaded),
            Some(chunk) => match chunk.cell(x as int, row_in_chunk(y) as int) {
                None => Err(DestroyBlockError::BlockDoesntExist),
                Some(block) => Ok(block),
            },
        }
    }
}

/// The chunks after `destroy_block` was asked for column `x` and world row
/// `y`: the cell is emptied where a block stood in it, and nothing changes
/// otherwise.
pub open spec fn destroyed(chunks: Seq<Chunk>, x: usize, y: usize) -> Seq<Chunk> {
    if destroy_outcome(chunks, x, y) is Ok {
        let place = chunk_position(chunks, chunk_of_row(y));
        chunks.update(place, chunks[place].cleared(x, row_in_chunk(y)))
    } else {
        chunks
    }
}

/// Destroys the block at column `x` of world row `y` and hands it back.
/// Nothing changes unless a block was there.
pub fn destroy_block(x: usize, y: usize, terrain: &mut Terrain) -> (outcome: Result<
    Block,
    DestroyBlockError,
>)
    ensures
        outcome == destroy_outcome(old(terrain)@, x, y),
        final(terrain)@ == destroyed(old(terrain)@, x, y),
{
    let chunk_number = (y / CHUNK_HEIGHT) as u64;
    let block_y_in_chunk = y % CHUNK_HEIGHT;
    if x >= CHUNK_WIDTH {
        return Err(DestroyBlockError::InvalidX);
    }
    match terrain.find_chunk(chunk_number) {
        None => Err(DestroyBlockError::ChunkNotLoaded),
        Some(i) => {
            match terrain.chunks[i].blocks[block_y_in_chunk][x] {
                None => Err(DestroyBlockError::BlockDoesntExist),
                Some(block) => {
                    terrain.chunks[i].clear_cell(x, block_y_in_chunk);
                    Ok(block)
                },
            }
        },
    }
}

/// Whether a block stands at column `x` of world row `y`.
pub fn block_exists(x: usize, y: usize, terrain: &Terrain) -> (exists: bool)
    ensures
        exists == destroy_outcome(terrain@, x, y) is Ok,
{
    let chunk_number = (y / CHUNK_HEIGHT) as u64;
    let block_y_in_chunk = y % CHUNK_HEIGHT;
    if x >= CHUNK_WIDTH {
        return false;
    }
    match terrain.find_chunk(chunk_number) {
        None => false,
        Some(i) => terrain.chunks[i].blocks[block_y_in_chunk][x].is_some(),
    }
}

} // verus!
