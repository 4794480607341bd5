//! The word layouts shared with the device: the feedback (request) buffer,
//! the two upload queues and the world-state block.

use vstd::prelude::*;

use crate::brickgrid::BrickgridUpload;
use crate::brickmap_cache::{BrickmapUpload, UploadModel, MAX_BRICK_COLORS};
use crate::coords::{grid_pos_to_world_pos, Dims, GridPos, LocalPos};

verus! {

/// Words in one brick upload record: slot, 16 mask words, offset, LOD
/// colour, colour count and 512 colours.
pub const BRICK_RECORD_WORDS: usize = 532;

/// Number of requests a feedback buffer holds: its count word, bounded by
/// `capacity` and by the records actually present.
pub open spec fn feedback_count(words: Seq<u32>, capacity: u32) -> int {
    if words.len() < 4 {
        0
    } else {
        let present = (words.len() - 4) / 4;
        let n = if words[1] < capacity { words[1] as int } else { capacity as int };
        if n < present { n } else { present }
    }
}

/// Reads the requested cells from a feedback buffer laid out as
/// `{capacity, count, pad, pad}` followed by `{x, y, z, pad}` records.
pub fn parse_feedback(words: &Vec<u32>, capacity: u32) -> (r: Vec<LocalPos>)
    ensures
        r@.len() == feedback_count(words@, capacity),
        forall|i: int|
            0 <= i < r@.len() ==> #[trigger] r@[i] == (LocalPos {
                x: words@[4 + 4 * i],
                y: words@[5 + 4 * i],
                z: words@[6 + 4 * i],
            }),
{
    let mut requests: Vec<LocalPos> = Vec::new();
    if words.len() < 4 {
        return requests;
    }
    let present = (words.len() - 4) / 4;
    let wanted = if words[1] < capacity { words[1] as usize } else { capacity as usize };
    let n = if wanted < present { wanted } else { present };
    let len = words.len();
    let mut i: usize = 0;
    while i < n
        invariant
            len == words@.len(),
            n == feedback_count(words@, capacity),
            n <= (words@.len() - 4) / 4,
            words@.len() >= 4,
            i <= n,
            requests@.len() == i,
            forall|k: int|
                0 <= k < i ==> #[trigger] requests@[k] == (LocalPos {
                    x: words@[4 + 4 * k],
                    y: words@[5 + 4 * k],
                    z: words@[6 + 4 * k],
                }),
        decreases n - i,
    {
        assert(4 + 4 * i + 3 < words@.len()) by (nonlinear_arith)
            requires
                i < n,
                n <= (words@.len() - 4) / 4,
                words@.len() >= 4,
        ;
        assert(4 + 4 * i + 3 < len);
        let base = 4 + 4 * i;
        requests.push(LocalPos { x: words[base], y: words[base + 1], z: words[base + 2] });
        i = i + 1;
    }
    requests
}

/// The words written after a grid upload queue's capacity word: the record
/// count, two pads, then `{index, element}` per record.
pub open spec fn brickgrid_queue_words(batch: Seq<BrickgridUpload>) -> Seq<u32> {
    Seq::new(
        (3 + 2 * batch.len()) as nat,
        |i: int|
            if i == 0 {
                batch.len() as u32
            } else if i < 3 {
                0u32
            } else if (i - 3) % 2 == 0 {
                batch[(i - 3) / 2].index
            } else {
                batch[(i - 3) / 2].element
            },
    )
}

/// Lays out a grid upload batch as the device reads it.
pub fn encode_brickgrid_batch(batch: &Vec<BrickgridUpload>) -> (r: Vec<u32>)
    requires
        batch@.len() <= u32::MAX,
    ensures
        r@ == brickgrid_queue_words(batch@),
{
    let mut words: Vec<u32> = Vec::new();
    words.push(batch.len() as u32);
    words.push(0);
    words.push(0);
    let mut i: usize = 0;
    while i < batch.len()
        invariant
            batch@.len() <= u32::MAX,
            i <= batch@.len(),
            words@ == brickgrid_queue_words(batch@).take(3 + 2 * i),
        decreases batch@.len() - i,
    {
        words.push(batch[i].index);
        words.push(batch[i].element);
        i = i + 1;
        assert(words@ =~= brickgrid_queue_words(batch@).take(3 + 2 * i));
    }
    assert(words@ =~= brickgrid_queue_words(batch@));
    words
}

/// One brick upload record: slot, mask, offset, LOD colour, colour count,
/// the colours, then zeros up to 512 colours.
pub open spec fn brick_record_words(u: UploadModel) -> Seq<u32> {
    seq![u.cache_idx] + u.bitmask@ + seq![u.shading_table_offset, u.lod_color, u.colors.len() as u32]
        + u.colors + Seq::new((MAX_BRICK_COLORS - u.colors.len()) as nat, |i: int| 0u32)
}

/// The records of a brick upload batch, one after another.
pub open spec fn brick_records_words(batch: Seq<UploadModel>) -> Seq<u32>
    decreases batch.len(),
{
    if batch.len() == 0 {
        Seq::empty()
    } else {
        brick_records_words(batch.drop_last()) + brick_record_words(batch.last())
    }
}

/// The words written after a brick upload queue's capacity word: the record
/// count, two pads, then the records.
pub open spec fn brickmap_queue_words(batch: Seq<UploadModel>) -> Seq<u32> {
    seq![batch.len() as u32, 0u32, 0u32] + brick_records_words(batch)
}

fn push_brick_record(words: &mut Vec<u32>, u: &BrickmapUpload)
    requires
        u.colors@.len() <= MAX_BRICK_COLORS,
    ensures
        final(words)@ == old(words)@ + brick_record_words(u@),
{
    let ghost start = words@;
    words.push(u.cache_idx);
    let mut k: usize = 0;
    while k < 16
        invariant
            k <= 16,
            words@ == start + seq![u.cache_idx] + u.brickmap.bitmask@.take(k as int),
        decreases 16 - k,
    {
        words.push(u.brickmap.bitmask[k]);
        k = k + 1;
        assert(words@ =~= start + seq![u.cache_idx] + u.brickmap.bitmask@.take(k as int));
    }
    assert(u.brickmap.bitmask@.take(16) =~= u.brickmap.bitmask@);
    words.push(u.brickmap.shading_table_offset);
    words.push(u.brickmap.lod_color);
    words.push(u.colors.len() as u32);
    let ghost head = words@;
    let mut c: usize = 0;
    while c < u.colors.len()
        invariant
            c <= u.colors@.len(),
            words@ == head + u.colors@.take(c as int),
        decreases u.colors@.len() - c,
    {
        words.push(u.colors[c]);
        c = c + 1;
        assert(words@ =~= head + u.colors@.take(c as int));
    }
    assert(u.colors@.take(u.colors@.len() as int) =~= u.colors@);
    let ghost body = words@;
    let mut z: usize = u.colors.len();
    while z < MAX_BRICK_COLORS
        invariant
            u.colors@.len() <= z <= MAX_BRICK_COLORS,
            words@ == body + Seq::new((z - u.colors@.len()) as nat, |i: int| 0u32),
        decreases MAX_BRICK_COLORS - z,
    {
        words.push(0);
        z = z + 1;
        assert(words@ =~= body + Seq::new((z - u.colors@.len()) as nat, |i: int| 0u32));
    }
    assert(words@ =~= start + brick_record_words(u@));
}

/// Lays out a brick upload batch as the device reads it.
pub fn encode_brickmap_batch(batch: &Vec<BrickmapUpload>) -> (r: Vec<u32>)
    requires
        batch@.len() <= u32::MAX,
        forall|i: int| 0 <= i < batch@.len() ==> (#[trigger] batch@[i]).colors@.len() <= MAX_BRICK_COLORS,
    ensures
        r@ == brickmap_queue_words(batch@.map_values(|u: BrickmapUpload| u@)),
{
    let ghost models = batch@.map_values(|u: BrickmapUpload| u@);
    let mut words: Vec<u32> = Vec::new();
    words.push(batch.len() as u32);
    words.push(0);
    words.push(0);
    let mut i: usize = 0;
    while i < batch.len()
        invariant
            batch@.len() <= u32::MAX,
            models == batch@.map_values(|u: BrickmapUpload| u@),
            forall|j: int| 0 <= j < batch@.len() ==> (#[trigger] batch@[j]).colors@.len() <= MAX_BRICK_COLORS,
            i <= batch@.len(),
            words@ == seq![batch@.len() as u32, 0u32, 0u32] + brick_records_words(models.take(i as int)),
        decreases batch@.len() - i,
    {
        push_brick_record(&mut words, &batch[i]);
        assert(models.take(i + 1).drop_last() =~= models.take(i as int));
        i = i + 1;
    }
    assert(models.take(batch@.len() as int) =~= models);
    words
}

/// The world-state block: the grid's extent and a pad.
pub fn world_state_words(dims: Dims) -> (r: Vec<u32>)
    ensures
        r@ == seq![dims.x, dims.y, dims.z, 0u32],
{
    let mut words: Vec<u32> = Vec::new();
    words.push(dims.x);
    words.push(dims.y);
    words.push(dims.z);
    words.push(0);
    assert(words@ =~= seq![dims.x, dims.y, dims.z, 0u32]);
    words
}

/// Offset of neighbour `k` in the order centre, `+x`, `-x`, `-z`, `+z`,
/// `+y`, `-y`.
pub open spec fn neighbour_offset(k: int) -> (int, int, int) {
    if k == 1 {
        (1, 0, 0)
    } else if k == 2 {
        (-1, 0, 0)
    } else if k == 3 {
        (0, 0, -1)
    } else if k == 4 {
        (0, 0, 1)
    } else if k == 5 {
        (0, 1, 0)
    } else if k == 6 {
        (0, -1, 0)
    } else {
        (0, 0, 0)
    }
}

/// The chunk and in-chunk position of a brick position.
pub open spec fn chunk_of(g: (int, int, int), chunk_dims: Dims) -> (GridPos, LocalPos) {
    (
        GridPos {
            x: (g.0 / chunk_dims.x as int) as i32,
            y: (g.1 / chunk_dims.y as int) as i32,
            z: (g.2 / chunk_dims.z as int) as i32,
        },
        LocalPos {
            x: (g.0 % chunk_dims.x as int) as u32,
            y: (g.1 % chunk_dims.y as int) as u32,
            z: (g.2 % chunk_dims.z as int) as u32,
        },
    )
}

/// Where the voxel source finds the brick at `pos` and its six neighbours,
/// in the order centre, `+x`, `-x`, `-z`, `+z`, `+y`, `-y`.
pub fn neighbour_regions(pos: LocalPos, chunk_dims: Dims) -> (r: Vec<(GridPos, LocalPos)>)
    requires
        chunk_dims.x > 0,
        chunk_dims.y > 0,
        chunk_dims.z > 0,
        pos.x < i32::MAX,
        pos.y < i32::MAX,
        pos.z < i32::MAX,
    ensures
        r@.len() == 7,
        forall|k: int|
            0 <= k < 7 ==> #[trigger] r@[k] == chunk_of(
                (
                    pos.x + neighbour_offset(k).0,
                    pos.y + neighbour_offset(k).1,
                    pos.z + neighbour_offset(k).2,
                ),
                chunk_dims,
            ),
{
    let x = pos.x as i32;
    let y = pos.y as i32;
    let z = pos.z as i32;
    let mut r: Vec<(GridPos, LocalPos)> = Vec::new();
    r.push(grid_pos_to_world_pos(GridPos { x, y, z }, chunk_dims));
    r.push(grid_pos_to_world_pos(GridPos { x: x + 1, y, z }, chunk_dims));
    r.push(grid_pos_to_world_pos(GridPos { x: x - 1, y, z }, chunk_dims));
    r.push(grid_pos_to_world_pos(GridPos { x, y, z: z - 1 }, chunk_dims));
    r.push(grid_pos_to_world_pos(GridPos { x, y, z: z + 1 }, chunk_dims));
    r.push(grid_pos_to_world_pos(GridPos { x, y: y + 1, z }, chunk_dims));
    r.push(grid_pos_to_world_pos(GridPos { x, y: y - 1, z }, chunk_dims));
    r
}

} // verus!
