//! The streaming manager: turns load requests into coordinated updates of the
//! grid, the cache and the shading-table allocator.

use vstd::prelude::*;

use crate::brickgrid::{
    lemma_element_fields, pack_element, unloaded_element, Brickgrid, BrickgridElement,
    BrickgridFlag, BrickgridModel, BrickgridUpload, POINTER_LIMIT,
};
use crate::brickmap_cache::{
    BrickmapCache, BrickmapCacheEntry, BrickmapUpload, CacheModel, MAX_BRICK_COLORS,
};
use crate::coords::{flat_index, to_1d_index, Dims, LocalPos};
use crate::culling::{
    cull_interior_voxels, is_surface, mask_bit, surface_colors, NeighbourBlocks, BRICK_VOLUME,
};
use crate::shading_table::{
    first_fit, fits, fresh_free_stack, is_allocated, lemma_alloc_fresh, lemma_alloc_succeeds_iff,
    lemma_fresh_bucket_first_slot, lemma_slot_sizes, lemma_dealloc_allocated, AllocatorModel, ShadingTableAllocator,
};
use crate::wire::{feedback_count, parse_feedback, world_state_words};

verus! {

/// Number of shading-table buckets the manager creates.
pub const SHADING_BUCKETS: u32 = 4;

/// Why a load request was not carried out.
#[derive(Debug, Clone, Copy, PartialEq, Eq, Structural)]
pub enum RequestError {
    /// The requested cell lies outside the grid.
    OutOfBounds,
    /// No shading-table bucket had room for the brick's colours; nothing was
    /// changed and the request can be repeated later.
    ShadingTableFull,
}

/// The word of a cell whose brick was culled to nothing.
pub open spec fn empty_element() -> BrickgridElement {
    BrickgridElement(pack_element(0, BrickgridFlag::Empty))
}

/// The word of a cell loaded into cache slot `slot`.
pub open spec fn loaded_element(slot: int) -> BrickgridElement {
    BrickgridElement(pack_element(slot, BrickgridFlag::Loaded))
}

/// Grid and cache point at each other: every loaded cell names a slot that
/// holds that cell, and every occupied slot names a cell loaded into it.
pub open spec fn consistent(g: BrickgridModel, c: CacheModel) -> bool {
    &&& forall|i: int|
        #![trigger g.cells[i]]
        0 <= i < g.cells.len() && g.cells[i].flag_spec() == BrickgridFlag::Loaded ==> {
            let p = g.cells[i].pointer_spec();
            &&& 0 <= p < c.slots.len()
            &&& c.slots[p] is Some
            &&& c.slots[p]->0.grid_idx == i
        }
    &&& forall|s: int|
        #![trigger c.slots[s]]
        0 <= s < c.slots.len() && c.slots[s] is Some ==> {
            let i = c.slots[s]->0.grid_idx as int;
            &&& i < g.cells.len()
            &&& g.cells[i].flag_spec() == BrickgridFlag::Loaded
            &&& g.cells[i].pointer_spec() == s
        }
}

/// Cache and allocator agree: each occupied slot owns an allocated shading
/// run, no two slots share one, and every allocated run belongs to a slot.
pub open spec fn shading_consistent(c: CacheModel, a: AllocatorModel) -> bool {
    &&& forall|s: int|
        #![trigger c.slots[s]]
        0 <= s < c.slots.len() && c.slots[s] is Some ==> is_allocated(a, c.slots[s]->0.shading_table_offset as int)
    &&& forall|s: int, t: int|
        #![trigger c.slots[s], c.slots[t]]
        0 <= s < c.slots.len() && 0 <= t < c.slots.len() && s != t && c.slots[s] is Some && c.slots[t] is Some
            ==> c.slots[s]->0.shading_table_offset != c.slots[t]->0.shading_table_offset
    &&& forall|x: int|
        #![trigger is_allocated(a, x)]
        is_allocated(a, x) ==> exists|s: int|
            0 <= s < c.slots.len() && #[trigger] c.slots[s] is Some && c.slots[s]->0.shading_table_offset == x
}

/// The abstract state of the manager.
pub struct ManagerModel {
    pub dims: Dims,
    pub grid: BrickgridModel,
    pub cache: CacheModel,
    pub alloc: AllocatorModel,
}

impl ManagerModel {
    pub open spec fn wf(self) -> bool {
        &&& self.grid.wf()
        &&& self.cache.wf()
        &&& self.alloc.wf()
        &&& self.grid.dims == self.dims
        &&& consistent(self.grid, self.cache)
        &&& shading_consistent(self.cache, self.alloc)
    }

    /// Drops what a cell's previous word pointed to: when it was loaded, its
    /// cache slot is emptied and the slot's shading run returned.
    pub open spec fn release_spec(self, previous: BrickgridElement) -> ManagerModel {
        if previous.flag_spec() == BrickgridFlag::Loaded {
            let p = previous.pointer_spec();
            match self.cache.slots[p] {
                Some(e) => ManagerModel {
                    cache: self.cache.remove_spec(p),
                    alloc: self.alloc.dealloc_spec(e.shading_table_offset).0,
                    ..self
                },
                None => ManagerModel { cache: self.cache.remove_spec(p), ..self },
            }
        } else {
            self
        }
    }

    /// The effect of a request for cell `pos` whose culled brick has
    /// `bitmask` and `colors`.
    pub open spec fn handle_spec(self, pos: LocalPos, bitmask: [u32; 16], colors: Seq<u32>) -> (
        ManagerModel,
        Result<(), RequestError>,
    ) {
        if !self.dims.contains(pos) {
            (self, Err(RequestError::OutOfBounds))
        } else {
            let idx = flat_index(pos, self.dims);
            if colors.len() == 0 {
                let previous = self.grid.cells[idx];
                let m1 = ManagerModel { grid: self.grid.set_spec(idx, empty_element()), ..self };
                (m1.release_spec(previous), Ok(()))
            } else {
                let (a1, addr) = self.alloc.alloc_spec(colors.len() as u32);
                match addr {
                    None => (self, Err(RequestError::ShadingTableFull)),
                    Some(address) => {
                        let k = self.cache.next_index();
                        let entry = BrickmapCacheEntry { grid_idx: idx as usize, shading_table_offset: address };
                        let c1 = self.cache.add_spec(entry, bitmask, colors);
                        let m1 = match self.cache.slots[k] {
                            Some(e) => ManagerModel {
                                grid: self.grid.set_spec(e.grid_idx as int, unloaded_element()),
                                cache: c1,
                                alloc: a1.dealloc_spec(e.shading_table_offset).0,
                                ..self
                            },
                            None => ManagerModel { cache: c1, alloc: a1, ..self },
                        };
                        let previous = m1.grid.cells[idx];
                        let m2 = ManagerModel { grid: m1.grid.set_spec(idx, loaded_element(k)), ..m1 };
                        (m2.release_spec(previous), Ok(()))
                    },
                }
            }
        }
    }
}

/// Whether `mask` has exactly the surface voxels of `blocks` set.
pub open spec fn mask_matches(mask: [u32; 16], blocks: &NeighbourBlocks) -> bool {
    forall|i: int| 0 <= i < BRICK_VOLUME ==> (mask_bit(mask, i) <==> is_surface(blocks, i))
}

} // verus!

verus! {

proof fn lemma_clear_path_consistent(m: ManagerModel, idx: int)
    requires
        m.wf(),
        0 <= idx < m.grid.cells.len(),
    ensures
        ({
            let previous = m.grid.cells[idx];
            let f = ManagerModel { grid: m.grid.set_spec(idx, empty_element()), ..m }.release_spec(previous);
            &&& consistent(f.grid, f.cache)
            &&& f.grid.cells.len() == m.grid.cells.len()
            &&& f.cache.slots.len() == m.cache.slots.len()
        }),
{
    lemma_element_fields(0, BrickgridFlag::Empty);
    let previous = m.grid.cells[idx];
    let m1 = ManagerModel { grid: m.grid.set_spec(idx, empty_element()), ..m };
    let f = m1.release_spec(previous);
    let g = f.grid;
    let c = f.cache;
    let loaded = previous.flag_spec() == BrickgridFlag::Loaded;
    let p = previous.pointer_spec();
    assert(g.cells == m.grid.cells.update(idx, empty_element()));
    if loaded {
        assert(m.cache.slots[p] is Some);
        assert(c.slots == m.cache.slots.update(p, None));
    } else {
        assert(c == m.cache);
    }
    assert forall|i: int|
        #![trigger g.cells[i]]
        0 <= i < g.cells.len() && g.cells[i].flag_spec() == BrickgridFlag::Loaded implies {
            let q = g.cells[i].pointer_spec();
            &&& 0 <= q < c.slots.len()
            &&& c.slots[q] is Some
            &&& c.slots[q]->0.grid_idx == i
        } by {
        assert(i != idx);
        assert(g.cells[i] == m.grid.cells[i]);
        assert(m.grid.cells[i].flag_spec() == BrickgridFlag::Loaded);
        let q = g.cells[i].pointer_spec();
        assert(m.cache.slots[q] is Some);
        if loaded {
            assert(q != p);
        }
    };
    assert forall|s: int|
        #![trigger c.slots[s]]
        0 <= s < c.slots.len() && c.slots[s] is Some implies {
            let i = c.slots[s]->0.grid_idx as int;
            &&& i < g.cells.len()
            &&& g.cells[i].flag_spec() == BrickgridFlag::Loaded
            &&& g.cells[i].pointer_spec() == s
        } by {
        if loaded {
            assert(s != p);
        }
        assert(c.slots[s] == m.cache.slots[s]);
        assert(m.cache.slots[s] is Some);
        let i = c.slots[s]->0.grid_idx as int;
        assert(m.grid.cells[i].flag_spec() == BrickgridFlag::Loaded);
        assert(i != idx);
    };
}

proof fn lemma_load_path_consistent(
    m: ManagerModel,
    idx: int,
    address: u32,
    a1: AllocatorModel,
    bitmask: [u32; 16],
    colors: Seq<u32>,
)
    requires
        m.wf(),
        0 <= idx < m.grid.cells.len(),
    ensures
        ({
            let k = m.cache.next_index();
            let entry = BrickmapCacheEntry { grid_idx: idx as usize, shading_table_offset: address };
            let c1 = m.cache.add_spec(entry, bitmask, colors);
            let m1 = match m.cache.slots[k] {
                Some(e) => ManagerModel {
                    grid: m.grid.set_spec(e.grid_idx as int, unloaded_element()),
                    cache: c1,
                    alloc: a1.dealloc_spec(e.shading_table_offset).0,
                    ..m
                },
                None => ManagerModel { cache: c1, alloc: a1, ..m },
            };
            let previous = m1.grid.cells[idx];
            let m2 = ManagerModel { grid: m1.grid.set_spec(idx, loaded_element(k)), ..m1 };
            let f = m2.release_spec(previous);
            &&& consistent(f.grid, f.cache)
            &&& f.grid.cells.len() == m.grid.cells.len()
            &&& f.cache.slots.len() == m.cache.slots.len()
            &&& (previous.flag_spec() == BrickgridFlag::Loaded ==> previous.pointer_spec() < m.cache.slots.len())
        }),
{
    let n = m.cache.slots.len() as int;
    let k = m.cache.next_index();
    assert(0 <= k < n) by {
        vstd::arithmetic::div_mod::lemma_fundamental_div_mod(m.cache.index + 1, n);
    };
    lemma_element_fields(0, BrickgridFlag::Unloaded);
    lemma_element_fields(k, BrickgridFlag::Loaded);
    let entry = BrickmapCacheEntry { grid_idx: idx as usize, shading_table_offset: address };
    let c1 = m.cache.add_spec(entry, bitmask, colors);
    let evicted = m.cache.slots[k];
    let m1 = match evicted {
        Some(e) => ManagerModel {
            grid: m.grid.set_spec(e.grid_idx as int, unloaded_element()),
            cache: c1,
            alloc: a1.dealloc_spec(e.shading_table_offset).0,
            ..m
        },
        None => ManagerModel { cache: c1, alloc: a1, ..m },
    };
    let ev = if evicted is Some { evicted->0.grid_idx as int } else { -1 };
    if evicted is Some {
        assert(m1.grid.cells == m.grid.cells.update(ev, unloaded_element()));
    } else {
        assert(m1.grid.cells == m.grid.cells);
    }
    assert(c1.slots == m.cache.slots.update(k, Some(entry)));
    let previous = m1.grid.cells[idx];
    let loaded = previous.flag_spec() == BrickgridFlag::Loaded;
    let p = previous.pointer_spec();
    if loaded {
        assert(idx != ev);
        assert(previous == m.grid.cells[idx]);
        assert(m.cache.slots[p]->0.grid_idx == idx);
        assert(p != k);
    }
    let m2 = ManagerModel { grid: m1.grid.set_spec(idx, loaded_element(k)), ..m1 };
    let f = m2.release_spec(previous);
    let g = f.grid;
    let c = f.cache;
    assert(g.cells == m1.grid.cells.update(idx, loaded_element(k)));
    if loaded {
        assert(c.slots == c1.slots.update(p, None));
    } else {
        assert(c.slots == c1.slots);
    }
    assert forall|i: int|
        #![trigger g.cells[i]]
        0 <= i < g.cells.len() && g.cells[i].flag_spec() == BrickgridFlag::Loaded implies {
            let q = g.cells[i].pointer_spec();
            &&& 0 <= q < c.slots.len()
            &&& c.slots[q] is Some
            &&& c.slots[q]->0.grid_idx == i
        } by {
        if i != idx {
            assert(i != ev);
            assert(g.cells[i] == m.grid.cells[i]);
            let q = g.cells[i].pointer_spec();
            assert(m.cache.slots[q] is Some);
            assert(m.cache.slots[q]->0.grid_idx == i);
            if q == k {
                assert(ev == i);
            }
            if loaded {
                assert(q != p);
            }
        }
    };
    assert forall|s: int|
        #![trigger c.slots[s]]
        0 <= s < c.slots.len() && c.slots[s] is Some implies {
            let i = c.slots[s]->0.grid_idx as int;
            &&& i < g.cells.len()
            &&& g.cells[i].flag_spec() == BrickgridFlag::Loaded
            &&& g.cells[i].pointer_spec() == s
        } by {
        if s != k {
            if loaded {
                assert(s != p);
            }
            assert(c.slots[s] == m.cache.slots[s]);
            let i = c.slots[s]->0.grid_idx as int;
            assert(m.grid.cells[i].flag_spec() == BrickgridFlag::Loaded);
            assert(m.grid.cells[i].pointer_spec() == s);
            if evicted is Some {
                assert(m.grid.cells[ev].pointer_spec() == k);
                assert(i != ev);
            }
            if i == idx {
                assert(m.grid.cells[idx].flag_spec() == BrickgridFlag::Loaded);
                assert(previous == m.grid.cells[idx]);
                assert(p == s);
            }
            assert(i != idx);
            assert(g.cells[i] == m.grid.cells[i]);
        }
    };
}

/// Every request keeps grid and cache consistent: loaded cells name a slot
/// holding that cell, and occupied slots name a cell loaded into them, so
/// empty and unloaded cells are named by no slot.
pub proof fn lemma_request_keeps_consistency(
    m: ManagerModel,
    pos: LocalPos,
    bitmask: [u32; 16],
    colors: Seq<u32>,
)
    requires
        m.wf(),
        colors.len() <= MAX_BRICK_COLORS,
    ensures
        consistent(m.handle_spec(pos, bitmask, colors).0.grid, m.handle_spec(pos, bitmask, colors).0.cache),
{
    if m.dims.contains(pos) {
        let idx = flat_index(pos, m.dims);
        crate::coords::lemma_flat_index_bounds(pos, m.dims);
        if colors.len() == 0 {
            lemma_clear_path_consistent(m, idx);
        } else {
            let (a1, addr) = m.alloc.alloc_spec(colors.len() as u32);
            if addr is Some {
                lemma_load_path_consistent(m, idx, addr->0, a1, bitmask, colors);
            }
        }
    }
}

} // verus!

verus! {

/// The streaming manager: sole owner of the grid, the cache and the
/// shading-table allocator.
#[derive(Debug)]
pub struct BrickmapManager {
    brickgrid_dims: Dims,
    brickgrid: Brickgrid,
    brickmap_cache: BrickmapCache,
    shading_table_allocator: ShadingTableAllocator,
    max_requested_brickmaps: u32,
    unpack_max_count: usize,
}

impl View for BrickmapManager {
    type V = ManagerModel;

    closed spec fn view(&self) -> ManagerModel {
        ManagerModel {
            dims: self.brickgrid_dims,
            grid: self.brickgrid@,
            cache: self.brickmap_cache@,
            alloc: self.shading_table_allocator@,
        }
    }
}

impl BrickmapManager {
    closed spec fn parts_wf(&self) -> bool {
        &&& self.brickgrid.wf()
        &&& self.brickgrid@.wf()
        &&& self.shading_table_allocator.wf()
        &&& self.shading_table_allocator@.wf()
        &&& self.brickmap_cache@.wf()
        &&& self.brickgrid@.dims == self.brickgrid_dims
    }

    pub closed spec fn wf(&self) -> bool {
        &&& self.parts_wf()
        &&& self@.wf()
    }

    /// Most requests read from the feedback buffer per frame.
    pub closed spec fn max_requests(&self) -> int {
        self.max_requested_brickmaps as int
    }

    /// Most bricks and grid cells uploaded per frame.
    pub closed spec fn upload_limit(&self) -> int {
        self.unpack_max_count as int
    }

    /// A manager for a grid of `brickgrid_dims` cells, all `Unloaded`, a
    /// cache of `brickmap_cache_size` slots and a shading table of four
    /// buckets of `shading_table_bucket_size` elements.
    pub fn new(
        brickgrid_dims: Dims,
        brickmap_cache_size: usize,
        shading_table_bucket_size: u32,
        max_requested_brickmaps: u32,
        max_uploaded_brickmaps: u32,
    ) -> (r: Self)
        requires
            brickgrid_dims.volume() <= u32::MAX,
            0 < brickmap_cache_size <= POINTER_LIMIT,
            SHADING_BUCKETS * shading_table_bucket_size <= u32::MAX,
        ensures
            r.wf(),
            r@.dims == brickgrid_dims,
            r@.grid.cells == Seq::new(brickgrid_dims.volume() as nat, |i: int| unloaded_element()),
            r@.grid.staged.len() == 0,
            r@.grid.max_upload_count == max_uploaded_brickmaps,
            r@.cache.slots == Seq::new(brickmap_cache_size as nat, |i: int| None::<BrickmapCacheEntry>),
            r@.cache.index == 0,
            r@.cache.staged.len() == 0,
            r@.cache.max_upload_count == max_uploaded_brickmaps,
            r@.wf(),
            r@.cache.num_loaded == 0,
            r@.alloc.bucket_count == SHADING_BUCKETS,
            forall|j: int|
                0 <= j < SHADING_BUCKETS ==> (#[trigger] r@.alloc.buckets[j]).used.len() == 0
                    && r@.alloc.buckets[j].free == fresh_free_stack(r@.alloc.buckets[j].count as nat),
            r@.alloc.elements_per_bucket == shading_table_bucket_size,
            r.max_requests() == max_requested_brickmaps,
            r.upload_limit() == max_uploaded_brickmaps,
    {
        let brickgrid = Brickgrid::new(brickgrid_dims, max_uploaded_brickmaps as usize);
        let brickmap_cache = BrickmapCache::new(brickmap_cache_size, max_uploaded_brickmaps as usize);
        let shading_table_allocator = ShadingTableAllocator::new(SHADING_BUCKETS, shading_table_bucket_size);
        let r = BrickmapManager {
            brickgrid_dims,
            brickgrid,
            brickmap_cache,
            shading_table_allocator,
            max_requested_brickmaps,
            unpack_max_count: max_uploaded_brickmaps as usize,
        };
        proof {
            lemma_element_fields(0, BrickgridFlag::Unloaded);
            let g = r@.grid;
            assert forall|i: int| 0 <= i < g.cells.len() implies #[trigger] g.cells[i].flag_spec() != BrickgridFlag::Loaded by {
                assert(g.cells[i] == unloaded_element());
            };
            assert forall|s: int| 0 <= s < r@.cache.slots.len() implies #[trigger] r@.cache.slots[s] is None by {};
        }
        r
    }

    /// A well-formed manager has a well-formed model: grid and cache point
    /// at each other and agree with the allocator.
    pub proof fn lemma_model_wf(&self)
        requires
            self.wf(),
        ensures
            self@.wf(),
    {
    }

    /// Most bricks and grid cells uploaded per frame.
    pub fn get_unpack_max_count(&self) -> (r: usize)
        ensures
            r == self.upload_limit(),
    {
        self.unpack_max_count
    }

    /// The grid word of cell `index`.
    pub fn brickgrid_element(&self, index: usize) -> (r: BrickgridElement)
        requires
            self.wf(),
            index < self@.grid.cells.len(),
        ensures
            r == self@.grid.cells[index as int],
    {
        self.brickgrid.get(index)
    }

    /// What cache slot `slot` holds.
    pub fn cache_entry(&self, slot: usize) -> (r: Option<BrickmapCacheEntry>)
        requires
            self.wf(),
            slot < self@.cache.slots.len(),
        ensures
            r == self@.cache.slots[slot as int],
    {
        self.brickmap_cache.get_entry(slot)
    }

    /// Number of occupied cache slots.
    pub fn num_loaded(&self) -> (r: u32)
        requires
            self.wf(),
        ensures
            r == self@.cache.num_loaded,
    {
        self.brickmap_cache.num_loaded()
    }

    /// The grid cells requested in a feedback buffer, at most
    /// `max_requested_brickmaps` of them.
    pub fn requests_from_feedback(&self, words: &Vec<u32>) -> (r: Vec<LocalPos>)
        ensures
            r@.len() == feedback_count(words@, self.max_requests() as u32),
            forall|i: int|
                0 <= i < r@.len() ==> #[trigger] r@[i] == (LocalPos {
                    x: words@[4 + 4 * i],
                    y: words@[5 + 4 * i],
                    z: words@[6 + 4 * i],
                }),
    {
        parse_feedback(words, self.max_requested_brickmaps)
    }

    /// Every grid word in flat index order, for the device's grid buffer.
    pub fn brickgrid_words(&self) -> (r: Vec<u32>)
        requires
            self.wf(),
        ensures
            r@ == self@.grid.cells.map_values(|e: BrickgridElement| e.0),
    {
        self.brickgrid.words()
    }

    /// The world-state block for the device.
    pub fn world_state(&self) -> (r: Vec<u32>)
        ensures
            r@ == seq![self@.dims.x, self@.dims.y, self@.dims.z, 0u32],
    {
        world_state_words(self.brickgrid_dims)
    }

    /// The grid's extent.
    pub fn brickgrid_dims(&self) -> (r: Dims)
        ensures
            r == self@.dims,
    {
        self.brickgrid_dims
    }

    fn release_cell(&mut self, previous: BrickgridElement)
        requires
            old(self).parts_wf(),
            previous.flag_spec() == BrickgridFlag::Loaded ==> previous.pointer_spec() < old(self)@.cache.slots.len(),
        ensures
            final(self).parts_wf(),
            final(self)@ == old(self)@.release_spec(previous),
            final(self).max_requested_brickmaps == old(self).max_requested_brickmaps,
            final(self).unpack_max_count == old(self).unpack_max_count,
    {
        if previous.get_flag() == BrickgridFlag::Loaded {
            let removed = self.brickmap_cache.remove_entry(previous.get_pointer());
            if let Some(entry) = removed {
                let _ = self.shading_table_allocator.try_dealloc(entry.shading_table_offset);
            }
        }
    }

    /// Stores a culled brick for cell `pos`: an empty colour list marks the
    /// cell `Empty`; otherwise the colours get a shading run, the brick a
    /// cache slot (whose previous cell becomes `Unloaded` again) and the cell
    /// points at that slot. Whatever the cell pointed to before is released.
    pub fn apply_brick(&mut self, pos: LocalPos, bitmask: [u32; 16], colors: Vec<u32>) -> (r: Result<(), RequestError>)
        requires
            old(self).wf(),
            colors@.len() <= MAX_BRICK_COLORS,
        ensures
            final(self).wf(),
            final(self)@.wf(),
            (final(self)@, r) == old(self)@.handle_spec(pos, bitmask, colors@),
            final(self).max_requests() == old(self).max_requests(),
            final(self).upload_limit() == old(self).upload_limit(),
    {
        proof {
            lemma_request_keeps_consistency(self@, pos, bitmask, colors@);
            lemma_request_keeps_shading_consistency(self@, pos, bitmask, colors@);
        }
        let dims = self.brickgrid_dims;
        if !(pos.x < dims.x && pos.y < dims.y && pos.z < dims.z) {
            return Err(RequestError::OutOfBounds);
        }
        let idx = to_1d_index(pos, dims);
        let ghost m = self@;
        proof {
            lemma_clear_path_consistent(m, idx as int);
        }
        if colors.len() == 0 {
            let previous = self.brickgrid.set(idx, BrickgridElement::new(0, BrickgridFlag::Empty));
            self.release_cell(previous);
            return Ok(());
        }
        let address = match self.shading_table_allocator.try_alloc(colors.len() as u32) {
            None => {
                return Err(RequestError::ShadingTableFull);
            },
            Some(a) => a,
        };
        let ghost a1 = self@.alloc;
        proof {
            lemma_load_path_consistent(m, idx as int, address, a1, bitmask, colors@);
            vstd::arithmetic::div_mod::lemma_fundamental_div_mod(m.cache.index + 1, m.cache.slots.len() as int);
        }
        let evicted = self.brickmap_cache.add_entry(idx, address, bitmask, colors);
        if let Some(entry) = evicted {
            let _ = self.shading_table_allocator.try_dealloc(entry.shading_table_offset);
            self.brickgrid.set(entry.grid_idx, BrickgridElement::new(0, BrickgridFlag::Unloaded));
        }
        let slot = self.brickmap_cache.index();
        let previous = self.brickgrid.set(idx, BrickgridElement::new(slot, BrickgridFlag::Loaded));
        self.release_cell(previous);
        Ok(())
    }

    /// Handles one load request: culls the requested brick against its six
    /// neighbours and stores the result as `apply_brick` does.
    pub fn handle_request(&mut self, pos: LocalPos, blocks: &NeighbourBlocks) -> (r: Result<(), RequestError>)
        requires
            old(self).wf(),
            blocks.wf(),
        ensures
            final(self).wf(),
            final(self)@.wf(),
            exists|mask: [u32; 16]|
                mask_matches(mask, blocks) && (final(self)@, r) == #[trigger] old(self)@.handle_spec(
                    pos,
                    mask,
                    surface_colors(blocks, BRICK_VOLUME as int),
                ),
            final(self).max_requests() == old(self).max_requests(),
            final(self).upload_limit() == old(self).upload_limit(),
    {
        let (bitmask, colors) = cull_interior_voxels(blocks);
        let r = self.apply_brick(pos, bitmask, colors);
        assert(mask_matches(bitmask, blocks));
        r
    }

    /// Takes the next bounded batches of staged grid cells and bricks.
    pub fn drain_uploads(&mut self) -> (r: (Vec<BrickgridUpload>, Vec<BrickmapUpload>))
        requires
            old(self).wf(),
        ensures
            final(self).wf(),
            final(self)@.wf(),
            final(self)@.alloc == old(self)@.alloc,
            final(self)@.dims == old(self)@.dims,
            final(self)@.grid.cells == old(self)@.grid.cells,
            r.0@.len() == old(self)@.grid.batch_len(),
            final(self)@.grid.staged == old(self)@.grid.staged.subrange(r.0@.len() as int, old(self)@.grid.staged.len() as int),
            forall|i: int|
                0 <= i < r.0@.len() ==> (#[trigger] r.0@[i]).index == old(self)@.grid.staged[i]
                    && r.0@[i].element == old(self)@.grid.cells[old(self)@.grid.staged[i] as int].0,
            r.1@.map_values(|u: BrickmapUpload| u@) == old(self)@.cache.staged.subrange(0, old(self)@.cache.batch_len()),
            final(self)@.cache == (CacheModel {
                staged: old(self)@.cache.staged.subrange(old(self)@.cache.batch_len(), old(self)@.cache.staged.len() as int),
                ..old(self)@.cache
            }),
            final(self).max_requests() == old(self).max_requests(),
            final(self).upload_limit() == old(self).upload_limit(),
    {
        let grid = self.brickgrid.drain_upload_batch();
        let bricks = self.brickmap_cache.drain_upload_batch();
        (grid, bricks)
    }
}

} // verus!

verus! {

proof fn lemma_release_shading(c: CacheModel, a: AllocatorModel, p: int)
    requires
        a.wf(),
        shading_consistent(c, a),
        0 <= p < c.slots.len(),
        c.slots[p] is Some,
    ensures
        a.dealloc_spec(c.slots[p]->0.shading_table_offset).0.wf(),
        shading_consistent(c.remove_spec(p), a.dealloc_spec(c.slots[p]->0.shading_table_offset).0),
{
    let off = c.slots[p]->0.shading_table_offset;
    lemma_dealloc_allocated(a, off);
    let a2 = a.dealloc_spec(off).0;
    let c2 = c.remove_spec(p);
    assert forall|s: int|
        #![trigger c2.slots[s]]
        0 <= s < c2.slots.len() && c2.slots[s] is Some implies is_allocated(a2, c2.slots[s]->0.shading_table_offset as int) by {
        assert(s != p);
        assert(c2.slots[s] == c.slots[s]);
        assert(c.slots[s]->0.shading_table_offset != c.slots[p]->0.shading_table_offset);
    };
    assert forall|s: int, t: int|
        #![trigger c2.slots[s], c2.slots[t]]
        0 <= s < c2.slots.len() && 0 <= t < c2.slots.len() && s != t && c2.slots[s] is Some && c2.slots[t] is Some
            implies c2.slots[s]->0.shading_table_offset != c2.slots[t]->0.shading_table_offset by {
        assert(c2.slots[s] == c.slots[s]);
        assert(c2.slots[t] == c.slots[t]);
    };
    assert forall|x: int|
        #![trigger is_allocated(a2, x)]
        is_allocated(a2, x) implies exists|s: int|
            0 <= s < c2.slots.len() && #[trigger] c2.slots[s] is Some && c2.slots[s]->0.shading_table_offset == x by {
        assert(is_allocated(a, x) && x != off as int);
        let s = choose|s: int|
            0 <= s < c.slots.len() && #[trigger] c.slots[s] is Some && c.slots[s]->0.shading_table_offset == x;
        assert(s != p);
        assert(c2.slots[s] == c.slots[s]);
    };
}

proof fn lemma_insert_shading(c: CacheModel, a: AllocatorModel, entry: BrickmapCacheEntry, size: u32, bitmask: [u32; 16], colors: Seq<u32>)
    requires
        a.wf(),
        c.wf(),
        shading_consistent(c, a),
        a.alloc_spec(size).1 == Some(entry.shading_table_offset),
    ensures
        ({
            let a1 = a.alloc_spec(size).0;
            let k = c.next_index();
            let c1 = c.add_spec(entry, bitmask, colors);
            let a2 = match c.slots[k] {
                Some(e) => a1.dealloc_spec(e.shading_table_offset).0,
                None => a1,
            };
            &&& a2.wf()
            &&& shading_consistent(c1, a2)
        }),
{
    let n = c.slots.len() as int;
    let k = c.next_index();
    assert(0 <= k < n) by {
        vstd::arithmetic::div_mod::lemma_fundamental_div_mod(c.index + 1, n);
    };
    lemma_alloc_fresh(a, size);
    let a1 = a.alloc_spec(size).0;
    let addr = entry.shading_table_offset as int;
    let c1 = c.add_spec(entry, bitmask, colors);
    assert(c1.slots == c.slots.update(k, Some(entry)));
    // every slot of c keeps an allocated run in a1, none equal to the new one
    assert forall|s: int| 0 <= s < n && c.slots[s] is Some implies is_allocated(a1, c.slots[s]->0.shading_table_offset as int)
        && c.slots[s]->0.shading_table_offset as int != addr by {
        assert(is_allocated(a, c.slots[s]->0.shading_table_offset as int));
    };
    match c.slots[k] {
        Some(e) => {
            let off = e.shading_table_offset;
            lemma_dealloc_allocated(a1, off);
            let a2 = a1.dealloc_spec(off).0;
            assert forall|s: int|
                #![trigger c1.slots[s]]
                0 <= s < n && c1.slots[s] is Some implies is_allocated(a2, c1.slots[s]->0.shading_table_offset as int) by {
                if s != k {
                    assert(c1.slots[s] == c.slots[s]);
                    assert(c.slots[s]->0.shading_table_offset != off);
                } else {
                    assert(is_allocated(a1, addr));
                    assert(addr != off as int);
                }
            };
            assert forall|s: int, t: int|
                #![trigger c1.slots[s], c1.slots[t]]
                0 <= s < n && 0 <= t < n && s != t && c1.slots[s] is Some && c1.slots[t] is Some
                    implies c1.slots[s]->0.shading_table_offset != c1.slots[t]->0.shading_table_offset by {
                if s != k && t != k {
                    assert(c1.slots[s] == c.slots[s]);
                    assert(c1.slots[t] == c.slots[t]);
                } else if s == k {
                    assert(c1.slots[t] == c.slots[t]);
                } else {
                    assert(c1.slots[s] == c.slots[s]);
                }
            };
            assert forall|x: int|
                #![trigger is_allocated(a2, x)]
                is_allocated(a2, x) implies exists|s: int|
                    0 <= s < c1.slots.len() && #[trigger] c1.slots[s] is Some && c1.slots[s]->0.shading_table_offset == x by {
                if x == addr {
                    assert(c1.slots[k] is Some);
                } else {
                    assert(is_allocated(a, x));
                    let s = choose|s: int|
                        0 <= s < c.slots.len() && #[trigger] c.slots[s] is Some && c.slots[s]->0.shading_table_offset == x;
                    assert(s != k);
                    assert(c1.slots[s] == c.slots[s]);
                }
            };
        },
        None => {
            assert forall|s: int|
                #![trigger c1.slots[s]]
                0 <= s < n && c1.slots[s] is Some implies is_allocated(a1, c1.slots[s]->0.shading_table_offset as int) by {
                if s != k {
                    assert(c1.slots[s] == c.slots[s]);
                }
            };
            assert forall|s: int, t: int|
                #![trigger c1.slots[s], c1.slots[t]]
                0 <= s < n && 0 <= t < n && s != t && c1.slots[s] is Some && c1.slots[t] is Some
                    implies c1.slots[s]->0.shading_table_offset != c1.slots[t]->0.shading_table_offset by {
                if s != k && t != k {
                    assert(c1.slots[s] == c.slots[s]);
                    assert(c1.slots[t] == c.slots[t]);
                } else if s == k {
                    assert(c1.slots[t] == c.slots[t]);
                } else {
                    assert(c1.slots[s] == c.slots[s]);
                }
            };
            assert forall|x: int|
                #![trigger is_allocated(a1, x)]
                is_allocated(a1, x) implies exists|s: int|
                    0 <= s < c1.slots.len() && #[trigger] c1.slots[s] is Some && c1.slots[s]->0.shading_table_offset == x by {
                if x == addr {
                    assert(c1.slots[k] is Some);
                } else {
                    assert(is_allocated(a, x));
                    let s = choose|s: int|
                        0 <= s < c.slots.len() && #[trigger] c.slots[s] is Some && c.slots[s]->0.shading_table_offset == x;
                    assert(s != k);
                    assert(c1.slots[s] == c.slots[s]);
                }
            };
        },
    }
}

/// Every request keeps cache and allocator in step: no shading run is lost,
/// none is shared, and each slot the manager frees had its run allocated.
pub proof fn lemma_request_keeps_shading_consistency(
    m: ManagerModel,
    pos: LocalPos,
    bitmask: [u32; 16],
    colors: Seq<u32>,
)
    requires
        m.wf(),
        colors.len() <= MAX_BRICK_COLORS,
    ensures
        m.handle_spec(pos, bitmask, colors).0.alloc.wf(),
        shading_consistent(m.handle_spec(pos, bitmask, colors).0.cache, m.handle_spec(pos, bitmask, colors).0.alloc),
{
    if m.dims.contains(pos) {
        let idx = flat_index(pos, m.dims);
        crate::coords::lemma_flat_index_bounds(pos, m.dims);
        if colors.len() == 0 {
            let previous = m.grid.cells[idx];
            if previous.flag_spec() == BrickgridFlag::Loaded {
                lemma_release_shading(m.cache, m.alloc, previous.pointer_spec());
            }
        } else {
            let (a1, addr) = m.alloc.alloc_spec(colors.len() as u32);
            lemma_alloc_fresh(m.alloc, colors.len() as u32);
            if addr is Some {
                let k = m.cache.next_index();
                let entry = BrickmapCacheEntry { grid_idx: idx as usize, shading_table_offset: addr->0 };
                lemma_insert_shading(m.cache, m.alloc, entry, colors.len() as u32, bitmask, colors);
                lemma_load_path_consistent(m, idx, addr->0, a1, bitmask, colors);
                let c1 = m.cache.add_spec(entry, bitmask, colors);
                let a2 = match m.cache.slots[k] {
                    Some(e) => a1.dealloc_spec(e.shading_table_offset).0,
                    None => a1,
                };
                let g1 = match m.cache.slots[k] {
                    Some(e) => m.grid.set_spec(e.grid_idx as int, unloaded_element()),
                    None => m.grid,
                };
                let previous = g1.cells[idx];
                if previous.flag_spec() == BrickgridFlag::Loaded {
                    let p = previous.pointer_spec();
                    assert(0 <= k < m.cache.slots.len()) by {
                        vstd::arithmetic::div_mod::lemma_fundamental_div_mod(m.cache.index + 1, m.cache.slots.len() as int);
                    };
                    lemma_element_fields(0, BrickgridFlag::Unloaded);
                    if m.cache.slots[k] is Some {
                        assert(idx != m.cache.slots[k]->0.grid_idx as int);
                    }
                    assert(previous == m.grid.cells[idx]);
                    assert(p != k);
                    assert(c1.slots[p] == m.cache.slots[p]);
                    lemma_release_shading(c1, a2, p);
                }
            }
        }
    }
}

} // verus!

verus! {

/// The first request on a fresh manager whose buckets hold at least one
/// whole brick each, for a brick with at least one surface voxel, succeeds:
/// the cell points at the next ring slot, that slot is the only one in use,
/// and the brick's colours get exactly one run, at the start of the
/// smallest bucket whose slots fit them.
pub proof fn lemma_first_request_loads(m: ManagerModel, pos: LocalPos, bitmask: [u32; 16], colors: Seq<u32>)
    requires
        m.wf(),
        m.dims.contains(pos),
        1 <= colors.len() <= MAX_BRICK_COLORS,
        m.cache.num_loaded == 0,
        forall|s: int| 0 <= s < m.cache.slots.len() ==> (#[trigger] m.cache.slots[s]) is None,
        m.alloc.bucket_count >= 1,
        m.alloc.elements_per_bucket >= 512,
        forall|j: int|
            0 <= j < m.alloc.buckets.len() ==> (#[trigger] m.alloc.buckets[j]).used.len() == 0
                && m.alloc.buckets[j].free == fresh_free_stack(m.alloc.buckets[j].count as nat),
    ensures
        ({
            let (f, r) = m.handle_spec(pos, bitmask, colors);
            let idx = flat_index(pos, m.dims);
            let k = m.cache.next_index();
            let j = first_fit(m.alloc.buckets, colors.len() as u32, 0);
            let o = m.alloc.buckets[j].offset;
            &&& r == Ok::<(), RequestError>(())
            &&& f.grid.cells[idx] == loaded_element(k)
            &&& f.grid.cells[idx].flag_spec() == BrickgridFlag::Loaded
            &&& f.grid.cells[idx].pointer_spec() == k
            &&& f.cache.num_loaded == 1
            &&& f.cache.index == k
            &&& f.cache.slots[k] == Some(BrickmapCacheEntry { grid_idx: idx as usize, shading_table_offset: o as u32 })
            &&& forall|s: int| 0 <= s < f.cache.slots.len() && s != k ==> (#[trigger] f.cache.slots[s]) is None
            &&& f.cache.staged.len() == m.cache.staged.len() + 1
            &&& f.cache.staged.last().colors == colors
            &&& 0 <= j < m.alloc.buckets.len()
            &&& m.alloc.buckets[j].size >= colors.len()
            &&& forall|i: int| 0 <= i < j ==> (#[trigger] m.alloc.buckets[i]).size < colors.len()
            &&& forall|x: int| is_allocated(f.alloc, x) <==> x == o
        }),
{
    let a = m.alloc;
    let size = colors.len() as u32;
    let bs = a.buckets;
    assert forall|i: int| 0 <= i < bs.len() implies (#[trigger] bs[i]).free.len() >= 1 by {
        lemma_slot_sizes(a, i);
        let b = bs[i];
        assert(b.count >= 1) by (nonlinear_arith)
            requires
                b.count == a.elements_per_bucket / b.size,
                1 <= b.size <= 512,
                a.elements_per_bucket >= 512,
        ;
    };
    let last = bs.len() - 1;
    lemma_slot_sizes(a, last);
    assert(fits(bs[last], size));
    lemma_alloc_succeeds_iff(a, size);
    lemma_alloc_fresh(a, size);
    let j = first_fit(bs, size, 0);
    assert forall|i: int| 0 <= i < j implies (#[trigger] bs[i]).size < colors.len() by {
        assert(!fits(bs[i], size));
    };
    lemma_slot_sizes(a, j);
    assert(bs[j].count >= 1) by (nonlinear_arith)
        requires
            bs[j].count == a.elements_per_bucket / bs[j].size,
            1 <= bs[j].size <= 512,
            a.elements_per_bucket >= 512,
    ;
    lemma_fresh_bucket_first_slot(bs[j]);
    let o = bs[j].offset;
    let (a1, addr) = a.alloc_spec(size);
    assert(addr == Some(o as u32));
    let idx = flat_index(pos, m.dims);
    crate::coords::lemma_flat_index_bounds(pos, m.dims);
    lemma_request_keeps_consistency(m, pos, bitmask, colors);
    lemma_request_keeps_shading_consistency(m, pos, bitmask, colors);
    let k = m.cache.next_index();
    assert(0 <= k < m.cache.slots.len()) by {
        vstd::arithmetic::div_mod::lemma_fundamental_div_mod(m.cache.index + 1, m.cache.slots.len() as int);
    };
    // no cell is loaded, since no slot is occupied
    let previous = m.grid.cells[idx];
    if previous.flag_spec() == BrickgridFlag::Loaded {
        assert(m.cache.slots[previous.pointer_spec()] is Some);
    }
    lemma_element_fields(k, BrickgridFlag::Loaded);
    let (f, r) = m.handle_spec(pos, bitmask, colors);
    assert(f.alloc == a1);
    assert forall|x: int| is_allocated(f.alloc, x) <==> x == o by {
        if is_allocated(a, x) {
            let (jj, ii) = choose|jj: int, ii: int|
                0 <= jj < a.buckets.len() && 0 <= ii < a.buckets[jj].used.len() && x == #[trigger] a.buckets[jj].address_of(
                    a.buckets[jj].used[ii] as int,
                );
            assert(a.buckets[jj].used.len() == 0);
        }
    };
}

} // verus!
