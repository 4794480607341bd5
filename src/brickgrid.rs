//! The brick grid: one packed word per grid cell holding the cell's load state
//! and, once loaded, the cache slot of its brick.

use vstd::prelude::*;

verus! {

/// Bits of a grid word that hold the flag.
pub const FLAG_BITS: u32 = 3;

/// Mask of the flag bits in a grid word.
pub const FLAG_MASK: u32 = 7;

/// Exclusive upper bound of a cache slot pointer (29 bits).
pub const POINTER_LIMIT: usize = 0x2000_0000;

/// Load state of a grid cell.
#[derive(Debug, Clone, Copy, PartialEq, Eq, Structural)]
pub enum BrickgridFlag {
    Empty,
    Unloaded,
    Loading,
    Loaded,
}

/// The wire value of a flag: `Empty` 0, `Unloaded` 1, `Loading` 2, `Loaded` 4.
pub open spec fn flag_value(f: BrickgridFlag) -> u32 {
    match f {
        BrickgridFlag::Empty => 0,
        BrickgridFlag::Unloaded => 1,
        BrickgridFlag::Loading => 2,
        BrickgridFlag::Loaded => 4,
    }
}

/// The flag a wire value decodes to; unknown values read as `Empty`.
pub open spec fn flag_from_value(v: u32) -> BrickgridFlag {
    if v == 1 {
        BrickgridFlag::Unloaded
    } else if v == 2 {
        BrickgridFlag::Loading
    } else if v == 4 {
        BrickgridFlag::Loaded
    } else {
        BrickgridFlag::Empty
    }
}

impl BrickgridFlag {
    /// The wire value of this flag.
    pub fn value(&self) -> (r: u32)
        ensures
            r == flag_value(*self),
            r <= FLAG_MASK,
    {
        match self {
            BrickgridFlag::Empty => 0,
            BrickgridFlag::Unloaded => 1,
            BrickgridFlag::Loading => 2,
            BrickgridFlag::Loaded => 4,
        }
    }
}

impl From<u32> for BrickgridFlag {
    fn from(value: u32) -> (r: BrickgridFlag) {
        if value == 1 {
            BrickgridFlag::Unloaded
        } else if value == 2 {
            BrickgridFlag::Loading
        } else if value == 4 {
            BrickgridFlag::Loaded
        } else {
            BrickgridFlag::Empty
        }
    }
}

impl vstd::std_specs::convert::FromSpecImpl<u32> for BrickgridFlag {
    open spec fn obeys_from_spec() -> bool {
        true
    }

    open spec fn from_spec(v: u32) -> BrickgridFlag {
        flag_from_value(v)
    }
}

/// The packed word of a grid cell: `pointer << 3 | flag`.
pub open spec fn pack_element(pointer: int, f: BrickgridFlag) -> u32 {
    ((pointer as u32) << FLAG_BITS) | flag_value(f)
}

proof fn lemma_pack_unpack(p: u32, f: u32)
    requires
        p < 0x2000_0000,
        f <= 7,
    ensures
        ((p << 3u32) | f) & 7u32 == f,
        ((p << 3u32) | f) >> 3u32 == p,
{
    assert(((p << 3u32) | f) & 7u32 == f) by (bit_vector)
        requires
            f <= 7,
    ;
    assert(((p << 3u32) | f) >> 3u32 == p) by (bit_vector)
        requires
            p < 0x2000_0000,
            f <= 7,
    ;
}

/// A packed word reads back the pointer and flag it was built from.
pub proof fn lemma_element_fields(pointer: int, f: BrickgridFlag)
    requires
        0 <= pointer < POINTER_LIMIT,
    ensures
        BrickgridElement(pack_element(pointer, f)).flag_spec() == f,
        BrickgridElement(pack_element(pointer, f)).pointer_spec() == pointer,
{
    lemma_pack_unpack(pointer as u32, flag_value(f));
}

/// One grid cell as stored on the device.
#[derive(Debug, Default, Clone, Copy, PartialEq, Eq, Structural)]
pub struct BrickgridElement(pub u32);

impl BrickgridElement {
    /// The flag stored in the low bits.
    pub open spec fn flag_spec(self) -> BrickgridFlag {
        flag_from_value(self.0 & FLAG_MASK)
    }

    /// The cache slot stored above the flag bits.
    pub open spec fn pointer_spec(self) -> int {
        (self.0 >> FLAG_BITS) as int
    }

    /// Packs a cache slot and a flag into one word.
    pub fn new(brickmap_cache_idx: usize, flag: BrickgridFlag) -> (r: Self)
        requires
            brickmap_cache_idx < POINTER_LIMIT,
        ensures
            r.0 == pack_element(brickmap_cache_idx as int, flag),
            r.flag_spec() == flag,
            r.pointer_spec() == brickmap_cache_idx,
    {
        let v = flag.value();
        let p = brickmap_cache_idx as u32;
        proof {
            lemma_pack_unpack(p, v);
        }
        BrickgridElement((p << FLAG_BITS) | v)
    }

    /// The cache slot this cell points to; meaningful only when loaded.
    pub fn get_pointer(&self) -> (r: usize)
        ensures
            r == self.pointer_spec(),
            r < POINTER_LIMIT,
    {
        let w = self.0;
        assert(w >> 3u32 < 0x2000_0000u32) by (bit_vector);
        (w >> FLAG_BITS) as usize
    }

    /// The load state of this cell.
    pub fn get_flag(&self) -> (r: BrickgridFlag)
        ensures
            r == self.flag_spec(),
    {
        BrickgridFlag::from(self.0 & FLAG_MASK)
    }
}

/// The packed word for a cache slot and a flag.
pub fn to_brickgrid_element(brickmap_cache_idx: u32, flags: BrickgridFlag) -> (r: u32)
    requires
        brickmap_cache_idx < POINTER_LIMIT,
    ensures
        r == pack_element(brickmap_cache_idx as int, flags),
{
    let e = BrickgridElement::new(brickmap_cache_idx as usize, flags);
    e.0
}

} // verus!

verus! {

use crate::coords::Dims;

/// One record of the grid upload queue: a flat cell index and its word.
#[derive(Debug, Clone, Copy, PartialEq, Eq, Structural)]
pub struct BrickgridUpload {
    pub index: u32,
    pub element: u32,
}

/// The abstract state of the grid.
pub struct BrickgridModel {
    pub dims: Dims,
    pub cells: Seq<BrickgridElement>,
    /// Cells changed since their last upload, oldest first, each once.
    pub staged: Seq<usize>,
    pub max_upload_count: int,
}

impl BrickgridModel {
    pub open spec fn wf(self) -> bool {
        &&& self.cells.len() == self.dims.volume()
        &&& self.dims.volume() <= u32::MAX
        &&& self.staged.no_duplicates()
        &&& forall|i: int| 0 <= i < self.staged.len() ==> self.staged[i] < self.cells.len()
    }

    /// The state after writing `value` to cell `index`.
    pub open spec fn set_spec(self, index: int, value: BrickgridElement) -> BrickgridModel {
        BrickgridModel {
            cells: self.cells.update(index, value),
            staged: if self.staged.contains(index as usize) {
                self.staged
            } else {
                self.staged.push(index as usize)
            },
            ..self
        }
    }

    /// How many staged cells one drain takes.
    pub open spec fn batch_len(self) -> int {
        if self.staged.len() < self.max_upload_count {
            self.staged.len() as int
        } else {
            self.max_upload_count
        }
    }
}

/// The word of a cell that was never loaded.
pub open spec fn unloaded_element() -> BrickgridElement {
    BrickgridElement(pack_element(0, BrickgridFlag::Unloaded))
}

/// The dense grid of cell words and the cells waiting for upload.
#[derive(Debug)]
pub struct Brickgrid {
    dimensions: Dims,
    data: Vec<BrickgridElement>,
    staged: Vec<usize>,
    dirty: Vec<bool>,
    max_upload_count: usize,
}

impl View for Brickgrid {
    type V = BrickgridModel;

    closed spec fn view(&self) -> BrickgridModel {
        BrickgridModel {
            dims: self.dimensions,
            cells: self.data@,
            staged: self.staged@,
            max_upload_count: self.max_upload_count as int,
        }
    }
}

impl Brickgrid {
    pub closed spec fn wf(&self) -> bool {
        &&& self@.wf()
        &&& self.dirty@.len() == self.data@.len()
        &&& forall|i: int| 0 <= i < self.dirty@.len() ==> (self.dirty@[i] <==> self.staged@.contains(i as usize))
    }

    /// A grid of `dimensions` cells, all `Unloaded`, none staged.
    pub fn new(dimensions: Dims, max_upload_count: usize) -> (r: Self)
        requires
            dimensions.volume() <= u32::MAX,
        ensures
            r.wf(),
            r@.wf(),
            r@.dims == dimensions,
            r@.cells == Seq::new(dimensions.volume() as nat, |i: int| unloaded_element()),
            r@.staged == Seq::<usize>::empty(),
            r@.max_upload_count == max_upload_count,
    {
        proof {
            assert(dimensions.x * dimensions.y >= 0) by (nonlinear_arith);
            assert(dimensions.volume() >= 0) by (nonlinear_arith)
                requires
                    dimensions.x * dimensions.y >= 0,
                    dimensions.volume() == dimensions.x * dimensions.y * dimensions.z,
            ;
        }
        assert(dimensions.x as int * dimensions.y as int <= u64::MAX) by (nonlinear_arith)
            requires
                dimensions.x <= u32::MAX,
                dimensions.y <= u32::MAX,
        ;
        let count = (dimensions.x as u64 * dimensions.y as u64 * dimensions.z as u64) as usize;
        let mut data: Vec<BrickgridElement> = Vec::with_capacity(count);
        let mut dirty: Vec<bool> = Vec::with_capacity(count);
        let mut i: usize = 0;
        while i < count
            invariant
                i <= count,
                count == dimensions.volume(),
                data@ == Seq::new(i as nat, |k: int| unloaded_element()),
                dirty@.len() == i,
                forall|k: int| 0 <= k < i ==> !dirty@[k],
            decreases count - i,
        {
            data.push(BrickgridElement::new(0, BrickgridFlag::Unloaded));
            dirty.push(false);
            i = i + 1;
            assert(data@ =~= Seq::new(i as nat, |k: int| unloaded_element()));
        }
        Brickgrid { dimensions, data, staged: Vec::new(), dirty, max_upload_count }
    }

    /// Every cell word in flat index order, as the device buffer holds them.
    pub fn words(&self) -> (r: Vec<u32>)
        ensures
            r@ == self@.cells.map_values(|e: BrickgridElement| e.0),
    {
        let mut words: Vec<u32> = Vec::with_capacity(self.data.len());
        let mut i: usize = 0;
        while i < self.data.len()
            invariant
                i <= self.data@.len(),
                words@ == self.data@.take(i as int).map_values(|e: BrickgridElement| e.0),
            decreases self.data@.len() - i,
        {
            words.push(self.data[i].0);
            i = i + 1;
            assert(words@ =~= self.data@.take(i as int).map_values(|e: BrickgridElement| e.0));
        }
        assert(self.data@.take(self.data@.len() as int) =~= self.data@);
        words
    }

    /// Number of cells.
    pub fn len(&self) -> (r: usize)
        ensures
            r == self@.cells.len(),
    {
        self.data.len()
    }

    /// Overwrites cell `index` unconditionally, stages it for upload and
    /// returns the word it held.
    pub fn set(&mut self, index: usize, value: BrickgridElement) -> (r: BrickgridElement)
        requires
            old(self).wf(),
            index < old(self)@.cells.len(),
        ensures
            final(self).wf(),
            final(self)@.wf(),
            r == old(self)@.cells[index as int],
            final(self)@ == old(self)@.set_spec(index as int, value),
    {
        let current = self.data[index];
        self.data.set(index, value);
        if !self.dirty[index] {
            self.dirty.set(index, true);
            self.staged.push(index);
            proof {
                let s = old(self)@.staged;
                assert(!s.contains(index));
                assert forall|i: int| 0 <= i < self.dirty@.len() implies (self.dirty@[i] <==> self.staged@.contains(i as usize)) by {
                    if self.staged@.contains(i as usize) && i != index {
                        let k = choose|k: int| 0 <= k < self.staged@.len() && self.staged@[k] == i as usize;
                        assert(s[k] == i as usize);
                    }
                    if i != index && s.contains(i as usize) {
                        let k = choose|k: int| 0 <= k < s.len() && s[k] == i as usize;
                        assert(self.staged@[k] == i as usize);
                    }
                    if i == index {
                        assert(self.staged@[s.len() as int] == index);
                    }
                };
            }
        }
        current
    }

    /// The word of cell `index`.
    pub fn get(&self, index: usize) -> (r: BrickgridElement)
        requires
            index < self@.cells.len(),
        ensures
            r == self@.cells[index as int],
    {
        self.data[index]
    }

    /// Removes up to `max_upload_count` staged cells, oldest first, and
    /// returns them with their current words; the rest stay staged.
    pub fn drain_upload_batch(&mut self) -> (r: Vec<BrickgridUpload>)
        requires
            old(self).wf(),
        ensures
            final(self).wf(),
            final(self)@.wf(),
            final(self)@.cells == old(self)@.cells,
            final(self)@.dims == old(self)@.dims,
            final(self)@.max_upload_count == old(self)@.max_upload_count,
            r@.len() == old(self)@.batch_len(),
            final(self)@.staged == old(self)@.staged.subrange(r@.len() as int, old(self)@.staged.len() as int),
            forall|i: int|
                0 <= i < r@.len() ==> (#[trigger] r@[i]).index == old(self)@.staged[i]
                    && r@[i].element == old(self)@.cells[old(self)@.staged[i] as int].0,
    {
        let ghost s = self.staged@;
        let n = self.staged.len();
        let k = if n < self.max_upload_count {
            n
        } else {
            self.max_upload_count
        };
        let mut batch: Vec<BrickgridUpload> = Vec::with_capacity(k);
        assert(s.subrange(0, n as int) =~= s);
        let mut i: usize = 0;
        while i < k
            invariant
                k <= n == s.len(),
                s == self.staged@,
                i <= k,
                self.data@ == old(self).data@,
                self.staged@ == old(self).staged@,
                self.max_upload_count == old(self).max_upload_count,
                self.dimensions == old(self).dimensions,
                old(self).wf(),
                self.dirty@.len() == self.data@.len(),
                forall|j: int| 0 <= j < self.dirty@.len() ==> (self.dirty@[j] <==> s.subrange(i as int, n as int).contains(j as usize)),
                batch@.len() == i,
                forall|j: int|
                    0 <= j < i ==> (#[trigger] batch@[j]).index == s[j]
                        && batch@[j].element == self.data@[s[j] as int].0,
            decreases k - i,
        {
            let idx = self.staged[i];
            proof {
                assert(idx < self.data@.len());
            }
            batch.push(BrickgridUpload { index: idx as u32, element: self.data[idx].0 });
            self.dirty.set(idx, false);
            proof {
                assert forall|j: int| 0 <= j < self.dirty@.len() implies (self.dirty@[j] <==> s.subrange(i + 1, n as int).contains(j as usize)) by {
                    let t = s.subrange(i as int, n as int);
                    let t2 = s.subrange(i + 1, n as int);
                    if t2.contains(j as usize) {
                        let m = choose|m: int| 0 <= m < t2.len() && t2[m] == j as usize;
                        assert(t[m + 1] == j as usize);
                        assert(s[i + 1 + m] == j as usize);
                        assert(j as usize != idx);
                    }
                    if j as usize != idx && t.contains(j as usize) {
                        let m = choose|m: int| 0 <= m < t.len() && t[m] == j as usize;
                        assert(m != 0);
                        assert(t2[m - 1] == j as usize);
                    }
                };
            }
            i = i + 1;
        }
        let mut rest: Vec<usize> = Vec::with_capacity(n - k);
        let mut m: usize = k;
        while m < n
            invariant
                k <= m <= n == s.len(),
                s == self.staged@,
                rest@ == s.subrange(k as int, m as int),
            decreases n - m,
        {
            rest.push(self.staged[m]);
            m = m + 1;
            assert(rest@ =~= s.subrange(k as int, m as int));
        }
        self.staged = rest;
        proof {
            assert forall|a: int, b: int| 0 <= a < self.staged@.len() && 0 <= b < self.staged@.len() && a != b implies self.staged@[a] != self.staged@[b] by {
                assert(self.staged@[a] == s[k + a]);
                assert(self.staged@[b] == s[k + b]);
            };
            assert forall|a: int| 0 <= a < self.staged@.len() implies self.staged@[a] < self.data@.len() by {
                assert(self.staged@[a] == s[k + a]);
            };
        }
        batch
    }
}

} // verus!
