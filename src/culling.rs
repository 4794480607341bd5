//! Surface culling: a solid voxel is kept when at least one of its six
//! cardinal neighbours, looked up across brick faces, is empty.

use vstd::prelude::*;

verus! {

/// Voxels in one brick.
pub const BRICK_VOLUME: usize = 512;

/// One voxel: empty, or solid with a colour.
#[derive(Debug, Clone, Copy, PartialEq, Eq, Structural)]
pub enum Voxel {
    Empty,
    Color(u8, u8, u8),
}

/// A brick and its six axis neighbours, each as 512 voxels indexed
/// `x + 8 * y + 64 * z`.
#[derive(Debug)]
pub struct NeighbourBlocks {
    pub center: Vec<Voxel>,
    /// The brick at `x + 1`.
    pub forward: Vec<Voxel>,
    /// The brick at `x - 1`.
    pub backward: Vec<Voxel>,
    /// The brick at `z - 1`.
    pub left: Vec<Voxel>,
    /// The brick at `z + 1`.
    pub right: Vec<Voxel>,
    /// The brick at `y + 1`.
    pub up: Vec<Voxel>,
    /// The brick at `y - 1`.
    pub down: Vec<Voxel>,
}

impl NeighbourBlocks {
    pub open spec fn wf(&self) -> bool {
        &&& self.center@.len() == BRICK_VOLUME
        &&& self.forward@.len() == BRICK_VOLUME
        &&& self.backward@.len() == BRICK_VOLUME
        &&& self.left@.len() == BRICK_VOLUME
        &&& self.right@.len() == BRICK_VOLUME
        &&& self.up@.len() == BRICK_VOLUME
        &&& self.down@.len() == BRICK_VOLUME
    }
}

pub open spec fn is_solid(v: Voxel) -> bool {
    v is Color
}

/// Whether voxel `idx` of the centre brick is solid with an empty cardinal
/// neighbour; neighbours past a face come from the adjacent brick.
pub open spec fn is_surface(b: &NeighbourBlocks, idx: int) -> bool {
    let x = idx % 8;
    let y = (idx / 8) % 8;
    let z = idx / 64;
    let c = b.center@;
    &&& is_solid(c[idx])
    &&& {
        ||| (if x == 7 { !is_solid(b.forward@[idx - 7]) } else { !is_solid(c[idx + 1]) })
        ||| (if x == 0 { !is_solid(b.backward@[idx + 7]) } else { !is_solid(c[idx - 1]) })
        ||| (if z == 7 { !is_solid(b.right@[idx - 448]) } else { !is_solid(c[idx + 64]) })
        ||| (if z == 0 { !is_solid(b.left@[idx + 448]) } else { !is_solid(c[idx - 64]) })
        ||| (if y == 7 { !is_solid(b.up@[idx - 56]) } else { !is_solid(c[idx + 8]) })
        ||| (if y == 0 { !is_solid(b.down@[idx + 56]) } else { !is_solid(c[idx - 8]) })
    }
}

/// A colour packed as RGBA8 with full alpha: `r << 24 | g << 16 | b << 8 | 255`.
pub open spec fn pack_rgba(r: u8, g: u8, b: u8) -> u32 {
    (r as int * 0x1000000 + g as int * 0x10000 + b as int * 0x100 + 255) as u32
}

/// The packed colour of a solid voxel.
pub open spec fn voxel_color(v: Voxel) -> u32 {
    match v {
        Voxel::Color(r, g, b) => pack_rgba(r, g, b),
        Voxel::Empty => 0,
    }
}

/// Packed colours of the surface voxels among the first `n`, in index order.
pub open spec fn surface_colors(b: &NeighbourBlocks, n: int) -> Seq<u32>
    decreases n,
{
    if n <= 0 {
        Seq::empty()
    } else if is_surface(b, n - 1) {
        surface_colors(b, n - 1).push(voxel_color(b.center@[n - 1]))
    } else {
        surface_colors(b, n - 1)
    }
}

/// Whether bit `idx % 32` of word `idx / 32` is set.
pub open spec fn mask_bit(mask: [u32; 16], idx: int) -> bool {
    (mask[idx / 32] >> ((idx % 32) as u32)) & 1u32 == 1u32
}

proof fn lemma_set_bit(w: u32, b: u32, c: u32)
    requires
        b < 32,
        c < 32,
    ensures
        ((w | (1u32 << b)) >> c) & 1u32 == (if c == b { 1u32 } else { (w >> c) & 1u32 }),
{
    assert(((w | (1u32 << b)) >> c) & 1u32 == (if c == b { 1u32 } else { (w >> c) & 1u32 })) by (bit_vector)
        requires
            b < 32,
            c < 32,
    ;
}

proof fn lemma_zero_bits(c: u32)
    requires
        c < 32,
    ensures
        (0u32 >> c) & 1u32 == 0u32,
{
    assert((0u32 >> c) & 1u32 == 0u32) by (bit_vector);
}

fn is_empty_voxel(v: Voxel) -> (r: bool)
    ensures
        r == !is_solid(v),
{
    match v {
        Voxel::Empty => true,
        Voxel::Color(..) => false,
    }
}

fn surface_at(b: &NeighbourBlocks, idx: usize) -> (r: bool)
    requires
        b.wf(),
        idx < BRICK_VOLUME,
    ensures
        r == is_surface(b, idx as int),
{
    let x = idx % 8;
    let y = (idx / 8) % 8;
    let z = idx / 64;
    let c = &b.center;
    if is_empty_voxel(c[idx]) {
        return false;
    }
    let px = if x == 7 { is_empty_voxel(b.forward[idx - 7]) } else { is_empty_voxel(c[idx + 1]) };
    let nx = if x == 0 { is_empty_voxel(b.backward[idx + 7]) } else { is_empty_voxel(c[idx - 1]) };
    let pz = if z == 7 { is_empty_voxel(b.right[idx - 448]) } else { is_empty_voxel(c[idx + 64]) };
    let nz = if z == 0 { is_empty_voxel(b.left[idx + 448]) } else { is_empty_voxel(c[idx - 64]) };
    let py = if y == 7 { is_empty_voxel(b.up[idx - 56]) } else { is_empty_voxel(c[idx + 8]) };
    let ny = if y == 0 { is_empty_voxel(b.down[idx + 56]) } else { is_empty_voxel(c[idx - 8]) };
    px || nx || pz || nz || py || ny
}

fn pack_color(v: Voxel) -> (r: u32)
    ensures
        r == voxel_color(v),
{
    match v {
        Voxel::Color(r, g, b) => (r as u32) * 0x1000000 + (g as u32) * 0x10000 + (b as u32) * 0x100 + 255,
        Voxel::Empty => 0,
    }
}

/// Culls the interior of the centre brick: returns its 512-bit surface mask
/// (bit `i % 32` of word `i / 32` for voxel `i`) and the packed colours of
/// the surface voxels in index order.
pub fn cull_interior_voxels(blocks: &NeighbourBlocks) -> (r: ([u32; 16], Vec<u32>))
    requires
        blocks.wf(),
    ensures
        forall|i: int| 0 <= i < BRICK_VOLUME ==> (mask_bit(r.0, i) <==> is_surface(blocks, i)),
        r.1@ == surface_colors(blocks, BRICK_VOLUME as int),
        r.1@.len() <= BRICK_VOLUME,
{
    let mut bitmask_data: [u32; 16] = [0u32; 16];
    let mut albedo_data: Vec<u32> = Vec::new();
    proof {
        assert forall|i: int| 0 <= i < BRICK_VOLUME implies !mask_bit(bitmask_data, i) by {
            lemma_zero_bits((i % 32) as u32);
        };
    }
    let mut idx: usize = 0;
    while idx < BRICK_VOLUME
        invariant
            blocks.wf(),
            idx <= BRICK_VOLUME,
            forall|i: int| 0 <= i < BRICK_VOLUME ==> (mask_bit(bitmask_data, i) <==> (i < idx && is_surface(blocks, i))),
            albedo_data@ == surface_colors(blocks, idx as int),
            albedo_data@.len() <= idx,
        decreases BRICK_VOLUME - idx,
    {
        if surface_at(blocks, idx) {
            let w = idx / 32;
            let bit = (idx % 32) as u32;
            let old_mask = bitmask_data;
            bitmask_data[w] = bitmask_data[w] | (1u32 << bit);
            proof {
                assert forall|i: int| 0 <= i < BRICK_VOLUME implies (mask_bit(bitmask_data, i) <==> (i < idx + 1 && is_surface(blocks, i))) by {
                    lemma_set_bit(old_mask[i / 32], bit, (i % 32) as u32);
                    vstd::arithmetic::div_mod::lemma_fundamental_div_mod(i, 32);
                    vstd::arithmetic::div_mod::lemma_fundamental_div_mod(idx as int, 32);
                    assert(bitmask_data[w as int] == old_mask[w as int] | (1u32 << bit));
                    assert(mask_bit(old_mask, i) <==> (i < idx && is_surface(blocks, i)));
                    if i / 32 != w as int {
                        assert(bitmask_data[i / 32] == old_mask[i / 32]);
                        assert(i != idx);
                        assert(mask_bit(bitmask_data, i) == mask_bit(old_mask, i));
                    } else if i % 32 != bit as int {
                        assert(i != idx);
                        assert(mask_bit(bitmask_data, i) == mask_bit(old_mask, i));
                    } else {
                        assert(i == idx);
                        assert(mask_bit(bitmask_data, i));
                    }
                };
            }
            albedo_data.push(pack_color(blocks.center[idx]));
        }
        idx = idx + 1;
    }
    (bitmask_data, albedo_data)
}

/// A brick that is solid throughout, inside solid neighbours, has no
/// surface voxel and so no colours.
pub proof fn lemma_buried_brick_is_empty(blocks: &NeighbourBlocks)
    requires
        blocks.wf(),
        forall|i: int| 0 <= i < BRICK_VOLUME ==> is_solid(#[trigger] blocks.center@[i]),
        forall|i: int| 0 <= i < BRICK_VOLUME ==> is_solid(#[trigger] blocks.forward@[i]),
        forall|i: int| 0 <= i < BRICK_VOLUME ==> is_solid(#[trigger] blocks.backward@[i]),
        forall|i: int| 0 <= i < BRICK_VOLUME ==> is_solid(#[trigger] blocks.left@[i]),
        forall|i: int| 0 <= i < BRICK_VOLUME ==> is_solid(#[trigger] blocks.right@[i]),
        forall|i: int| 0 <= i < BRICK_VOLUME ==> is_solid(#[trigger] blocks.up@[i]),
        forall|i: int| 0 <= i < BRICK_VOLUME ==> is_solid(#[trigger] blocks.down@[i]),
    ensures
        surface_colors(blocks, BRICK_VOLUME as int).len() == 0,
        forall|i: int| 0 <= i < BRICK_VOLUME ==> !is_surface(blocks, i),
{
    assert forall|i: int| 0 <= i < BRICK_VOLUME implies !is_surface(blocks, i) by {
        let x = i % 8;
        let y = (i / 8) % 8;
        let z = i / 64;
        if x == 7 { assert(is_solid(blocks.forward@[i - 7])); } else { assert(is_solid(blocks.center@[i + 1])); }
        if x == 0 { assert(is_solid(blocks.backward@[i + 7])); } else { assert(is_solid(blocks.center@[i - 1])); }
        if z == 7 { assert(is_solid(blocks.right@[i - 448])); } else { assert(is_solid(blocks.center@[i + 64])); }
        if z == 0 { assert(is_solid(blocks.left@[i + 448])); } else { assert(is_solid(blocks.center@[i - 64])); }
        if y == 7 { assert(is_solid(blocks.up@[i - 56])); } else { assert(is_solid(blocks.center@[i + 8])); }
        if y == 0 { assert(is_solid(blocks.down@[i + 56])); } else { assert(is_solid(blocks.center@[i - 8])); }
    };
    lemma_no_surface_no_colors(blocks, BRICK_VOLUME as int);
}

/// A single solid voxel with nothing around it is exactly the surface: one
/// mask bit and one colour.
pub proof fn lemma_isolated_voxel(blocks: &NeighbourBlocks, idx: int)
    requires
        blocks.wf(),
        0 <= idx < BRICK_VOLUME,
        is_solid(blocks.center@[idx]),
        forall|i: int| 0 <= i < BRICK_VOLUME && i != idx ==> !is_solid(#[trigger] blocks.center@[i]),
        forall|i: int| 0 <= i < BRICK_VOLUME ==> !is_solid(#[trigger] blocks.forward@[i]),
        forall|i: int| 0 <= i < BRICK_VOLUME ==> !is_solid(#[trigger] blocks.backward@[i]),
        forall|i: int| 0 <= i < BRICK_VOLUME ==> !is_solid(#[trigger] blocks.left@[i]),
        forall|i: int| 0 <= i < BRICK_VOLUME ==> !is_solid(#[trigger] blocks.right@[i]),
        forall|i: int| 0 <= i < BRICK_VOLUME ==> !is_solid(#[trigger] blocks.up@[i]),
        forall|i: int| 0 <= i < BRICK_VOLUME ==> !is_solid(#[trigger] blocks.down@[i]),
    ensures
        forall|i: int| 0 <= i < BRICK_VOLUME ==> (is_surface(blocks, i) <==> i == idx),
        surface_colors(blocks, BRICK_VOLUME as int) == seq![voxel_color(blocks.center@[idx])],
{
    let x = idx % 8;
    if x == 7 {
        assert(!is_solid(blocks.forward@[idx - 7]));
    } else {
        assert(!is_solid(blocks.center@[idx + 1]));
    }
    assert(is_surface(blocks, idx));
    lemma_isolated_colors(blocks, idx, BRICK_VOLUME as int);
}

proof fn lemma_isolated_colors(blocks: &NeighbourBlocks, idx: int, n: int)
    requires
        0 <= idx < BRICK_VOLUME,
        n <= BRICK_VOLUME,
        is_surface(blocks, idx),
        forall|i: int| 0 <= i < BRICK_VOLUME && i != idx ==> !is_solid(#[trigger] blocks.center@[i]),
    ensures
        surface_colors(blocks, n) == if n > idx {
            seq![voxel_color(blocks.center@[idx])]
        } else {
            Seq::<u32>::empty()
        },
    decreases n,
{
    if n > 0 {
        lemma_isolated_colors(blocks, idx, n - 1);
        if n - 1 != idx {
            assert(!is_solid(blocks.center@[n - 1]));
        } else {
            assert(Seq::<u32>::empty().push(voxel_color(blocks.center@[idx])) =~= seq![voxel_color(blocks.center@[idx])]);
        }
    }
}

proof fn lemma_no_surface_no_colors(blocks: &NeighbourBlocks, n: int)
    requires
        n <= BRICK_VOLUME,
        forall|i: int| 0 <= i < BRICK_VOLUME ==> !is_surface(blocks, i),
    ensures
        surface_colors(blocks, n).len() == 0,
    decreases n,
{
    if n > 0 {
        lemma_no_surface_no_colors(blocks, n - 1);
    }
}

} // verus!
