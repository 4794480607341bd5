//! The brickmap cache: a fixed ring of brick records, each tagged with the
//! grid cell it stands for, overwritten in insertion order.

use vstd::prelude::*;

verus! {

/// Largest number of colours one brick can carry (one per voxel).
pub const MAX_BRICK_COLORS: usize = 512;

/// Occupancy mask and shading location of one loaded brick, as stored on
/// the device.
#[derive(Debug, Default, Clone, Copy)]
pub struct Brickmap {
    pub bitmask: [u32; 16],
    pub shading_table_offset: u32,
    pub lod_color: u32,
}

/// What a cache slot records about the brick it holds.
#[derive(Debug, Default, Clone, Copy, PartialEq, Eq, Structural)]
pub struct BrickmapCacheEntry {
    pub grid_idx: usize,
    pub shading_table_offset: u32,
}

/// A brick waiting for upload into cache slot `cache_idx`, with its packed
/// colours in bitmask order.
#[derive(Debug)]
pub struct BrickmapUpload {
    pub cache_idx: u32,
    pub brickmap: Brickmap,
    pub colors: Vec<u32>,
}

/// The abstract content of a staged brick.
pub struct UploadModel {
    pub cache_idx: u32,
    pub bitmask: [u32; 16],
    pub shading_table_offset: u32,
    pub lod_color: u32,
    pub colors: Seq<u32>,
}

impl View for BrickmapUpload {
    type V = UploadModel;

    open spec fn view(&self) -> UploadModel {
        UploadModel {
            cache_idx: self.cache_idx,
            bitmask: self.brickmap.bitmask,
            shading_table_offset: self.brickmap.shading_table_offset,
            lod_color: self.brickmap.lod_color,
            colors: self.colors@,
        }
    }
}

/// Number of occupied slots.
pub open spec fn count_loaded(s: Seq<Option<BrickmapCacheEntry>>) -> nat
    decreases s.len(),
{
    if s.len() == 0 {
        0
    } else {
        count_loaded(s.drop_last()) + if s.last() is Some {
            1nat
        } else {
            0nat
        }
    }
}

proof fn lemma_count_loaded_bound(s: Seq<Option<BrickmapCacheEntry>>)
    ensures
        count_loaded(s) <= s.len(),
    decreases s.len(),
{
    if s.len() > 0 {
        lemma_count_loaded_bound(s.drop_last());
    }
}

proof fn lemma_count_loaded_update(s: Seq<Option<BrickmapCacheEntry>>, i: int, v: Option<BrickmapCacheEntry>)
    requires
        0 <= i < s.len(),
    ensures
        count_loaded(s.update(i, v)) + (if s[i] is Some { 1int } else { 0int }) == count_loaded(s) + (if v is Some { 1int } else { 0int }),
    decreases s.len(),
{
    let t = s.update(i, v);
    if i == s.len() - 1 {
        assert(t.drop_last() =~= s.drop_last());
    } else {
        lemma_count_loaded_update(s.drop_last(), i, v);
        assert(t.drop_last() =~= s.drop_last().update(i, v));
    }
}

/// The abstract state of the cache.
pub struct CacheModel {
    pub slots: Seq<Option<BrickmapCacheEntry>>,
    /// The slot written most recently.
    pub index: int,
    pub num_loaded: int,
    pub staged: Seq<UploadModel>,
    pub max_upload_count: int,
}

impl CacheModel {
    pub open spec fn wf(self) -> bool {
        &&& 0 < self.slots.len() <= crate::brickgrid::POINTER_LIMIT
        &&& 0 <= self.index < self.slots.len()
        &&& self.num_loaded == count_loaded(self.slots)
    }

    /// The slot the next insertion writes.
    pub open spec fn next_index(self) -> int {
        (self.index + 1) % (self.slots.len() as int)
    }

    /// The state after inserting a brick: the ring advances one slot, the
    /// slot it lands on is overwritten and the brick is staged for upload.
    pub open spec fn add_spec(self, entry: BrickmapCacheEntry, bitmask: [u32; 16], colors: Seq<u32>) -> CacheModel {
        CacheModel {
            staged: self.staged.push(
                UploadModel {
                    cache_idx: self.next_index() as u32,
                    bitmask,
                    shading_table_offset: entry.shading_table_offset,
                    lod_color: 0,
                    colors,
                },
            ),
            ..self.insert_spec(entry)
        }
    }

    /// The state after removing slot `index`.
    pub open spec fn remove_spec(self, index: int) -> CacheModel {
        CacheModel {
            slots: self.slots.update(index, None),
            num_loaded: if self.slots[index] is Some {
                self.num_loaded - 1
            } else {
                self.num_loaded
            },
            ..self
        }
    }

    /// The ring part of an insertion: slots, index and count.
    pub open spec fn insert_spec(self, entry: BrickmapCacheEntry) -> CacheModel {
        let k = self.next_index();
        CacheModel {
            slots: self.slots.update(k, Some(entry)),
            index: k,
            num_loaded: if self.slots[k] is Some {
                self.num_loaded
            } else {
                self.num_loaded + 1
            },
            ..self
        }
    }

    /// How many staged bricks one drain takes.
    pub open spec fn batch_len(self) -> int {
        if self.staged.len() < self.max_upload_count {
            self.staged.len() as int
        } else {
            self.max_upload_count
        }
    }
}

/// The fixed-capacity ring of loaded bricks.
#[derive(Debug)]
pub struct BrickmapCache {
    cache: Vec<Option<BrickmapCacheEntry>>,
    index: usize,
    num_loaded: u32,
    staged: Vec<BrickmapUpload>,
    max_upload_count: usize,
}

impl View for BrickmapCache {
    type V = CacheModel;

    closed spec fn view(&self) -> CacheModel {
        CacheModel {
            slots: self.cache@,
            index: self.index as int,
            num_loaded: self.num_loaded as int,
            staged: self.staged@.map_values(|u: BrickmapUpload| u@),
            max_upload_count: self.max_upload_count as int,
        }
    }
}

impl BrickmapCache {
    /// A cache of `size` empty slots. The ring starts at slot 0, so the first
    /// insertion lands in slot 1.
    pub fn new(size: usize, max_upload_count: usize) -> (r: Self)
        requires
            0 < size <= crate::brickgrid::POINTER_LIMIT,
        ensures
            r@.wf(),
            r@.slots == Seq::new(size as nat, |i: int| None::<BrickmapCacheEntry>),
            r@.index == 0,
            r@.num_loaded == 0,
            r@.staged.len() == 0,
            r@.max_upload_count == max_upload_count,
    {
        let mut cache: Vec<Option<BrickmapCacheEntry>> = Vec::with_capacity(size);
        let mut i: usize = 0;
        while i < size
            invariant
                i <= size,
                cache@ == Seq::new(i as nat, |k: int| None::<BrickmapCacheEntry>),
                count_loaded(cache@) == 0,
            decreases size - i,
        {
            cache.push(None);
            i = i + 1;
            assert(cache@.drop_last() =~= Seq::new((i - 1) as nat, |k: int| None::<BrickmapCacheEntry>));
            assert(cache@ =~= Seq::new(i as nat, |k: int| None::<BrickmapCacheEntry>));
        }
        BrickmapCache { cache, index: 0, num_loaded: 0, staged: Vec::new(), max_upload_count }
    }

    /// Number of slots.
    pub fn capacity(&self) -> (r: usize)
        ensures
            r == self@.slots.len(),
    {
        self.cache.len()
    }

    /// The slot written most recently.
    pub fn index(&self) -> (r: usize)
        ensures
            r == self@.index,
    {
        self.index
    }

    /// Number of occupied slots.
    pub fn num_loaded(&self) -> (r: u32)
        ensures
            r == self@.num_loaded,
    {
        self.num_loaded
    }

    /// Advances the ring, writes the brick into the slot it lands on, stages
    /// the brick for upload and returns what the slot held before.
    pub fn add_entry(
        &mut self,
        grid_idx: usize,
        shading_table_offset: u32,
        bitmask: [u32; 16],
        albedo_data: Vec<u32>,
    ) -> (r: Option<BrickmapCacheEntry>)
        requires
            old(self)@.wf(),
            albedo_data@.len() <= MAX_BRICK_COLORS,
        ensures
            final(self)@.wf(),
            r == old(self)@.slots[old(self)@.next_index()],
            final(self)@ == old(self)@.add_spec(
                BrickmapCacheEntry { grid_idx, shading_table_offset },
                bitmask,
                albedo_data@,
            ),
    {
        self.index = (self.index + 1) % self.cache.len();
        let existing_entry = self.cache[self.index];
        proof {
            lemma_count_loaded_bound(self.cache@);
            lemma_count_loaded_update(
                self.cache@,
                self.index as int,
                Some(BrickmapCacheEntry { grid_idx, shading_table_offset }),
            );
            lemma_count_loaded_bound(self.cache@.update(self.index as int, Some(BrickmapCacheEntry { grid_idx, shading_table_offset })));
        }
        if existing_entry.is_none() {
            self.num_loaded = self.num_loaded + 1;
        }
        self.cache.set(self.index, Some(BrickmapCacheEntry { grid_idx, shading_table_offset }));
        let brickmap = Brickmap { bitmask, shading_table_offset, lod_color: 0 };
        self.staged.push(BrickmapUpload { cache_idx: self.index as u32, brickmap, colors: albedo_data });
        assert(self@.staged =~= old(self)@.staged.push(self.staged@.last()@));
        existing_entry
    }

    /// Empties slot `index` and returns what it held.
    pub fn remove_entry(&mut self, index: usize) -> (r: Option<BrickmapCacheEntry>)
        requires
            old(self)@.wf(),
            index < old(self)@.slots.len(),
        ensures
            final(self)@.wf(),
            r == old(self)@.slots[index as int],
            final(self)@ == old(self)@.remove_spec(index as int),
    {
        let entry = self.cache[index];
        proof {
            lemma_count_loaded_update(self.cache@, index as int, None);
        }
        if entry.is_some() {
            self.cache.set(index, None);
            self.num_loaded = self.num_loaded - 1;
        } else {
            assert(self.cache@.update(index as int, None) =~= self.cache@);
        }
        entry
    }

    /// What slot `index` holds.
    pub fn get_entry(&self, index: usize) -> (r: Option<BrickmapCacheEntry>)
        requires
            index < self@.slots.len(),
        ensures
            r == self@.slots[index as int],
    {
        self.cache[index]
    }

    /// Removes up to `max_upload_count` staged bricks, oldest first, and
    /// returns them; the rest stay staged.
    pub fn drain_upload_batch(&mut self) -> (r: Vec<BrickmapUpload>)
        requires
            old(self)@.wf(),
        ensures
            final(self)@.wf(),
            r@.map_values(|u: BrickmapUpload| u@) == old(self)@.staged.subrange(0, old(self)@.batch_len()),
            final(self)@ == (CacheModel {
                staged: old(self)@.staged.subrange(old(self)@.batch_len(), old(self)@.staged.len() as int),
                ..old(self)@
            }),
    {
        let n = self.staged.len();
        let k = if n < self.max_upload_count {
            n
        } else {
            self.max_upload_count
        };
        let mut batch = self.staged.split_off(k);
        std::mem::swap(&mut batch, &mut self.staged);
        assert(batch@.map_values(|u: BrickmapUpload| u@) =~= old(self)@.staged.subrange(0, k as int));
        assert(self@.staged =~= old(self)@.staged.subrange(k as int, old(self)@.staged.len() as int));
        batch
    }
}

} // verus!

verus! {

/// The cache after inserting `entries` in order.
pub open spec fn insert_all(m: CacheModel, entries: Seq<BrickmapCacheEntry>) -> CacheModel
    decreases entries.len(),
{
    if entries.len() == 0 {
        m
    } else {
        insert_all(m, entries.drop_last()).insert_spec(entries.last())
    }
}

/// What the insertion of `entries[k]` overwrites, after `entries[..k]`.
pub open spec fn evicted_at(m: CacheModel, entries: Seq<BrickmapCacheEntry>, k: int) -> Option<BrickmapCacheEntry> {
    let before = insert_all(m, entries.take(k));
    before.slots[before.next_index()]
}

proof fn lemma_ring_step(c: int, k: int, n: int)
    requires
        c >= 0,
        k >= 0,
        n > 0,
    ensures
        ((c + k) % n + 1) % n == (c + k + 1) % n,
{
    let q = (c + k) / n;
    let r = (c + k) % n;
    vstd::arithmetic::div_mod::lemma_fundamental_div_mod(c + k, n);
    assert(c + k == n * q + r);
    assert(0 <= r < n);
    if r + 1 < n {
        vstd::arithmetic::div_mod::lemma_fundamental_div_mod_converse(c + k + 1, n, q, r + 1);
        vstd::arithmetic::div_mod::lemma_fundamental_div_mod_converse(r + 1, n, 0, r + 1);
    } else {
        assert(c + k + 1 == (q + 1) * n) by (nonlinear_arith)
            requires
                c + k == n * q + r,
                r + 1 == n,
        ;
        vstd::arithmetic::div_mod::lemma_fundamental_div_mod_converse(c + k + 1, n, q + 1, 0);
        vstd::arithmetic::div_mod::lemma_fundamental_div_mod_converse(r + 1, n, 1, 0);
    }
}

proof fn lemma_ring_distinct(c: int, j: int, k: int, n: int)
    requires
        c >= 0,
        0 <= j < k < n,
    ensures
        (c + j) % n != (c + k) % n,
{
    vstd::arithmetic::div_mod::lemma_fundamental_div_mod(c + j, n);
    vstd::arithmetic::div_mod::lemma_fundamental_div_mod(c + k, n);
    if (c + j) % n == (c + k) % n {
        let qj = (c + j) / n;
        let qk = (c + k) / n;
        assert(k - j == (qk - qj) * n) by (nonlinear_arith)
            requires
                c + j == n * qj + (c + j) % n,
                c + k == n * qk + (c + k) % n,
                (c + j) % n == (c + k) % n,
        ;
        assert(false) by (nonlinear_arith)
            requires
                k - j == (qk - qj) * n,
                0 < k - j < n,
        ;
    }
}

proof fn lemma_insert_all_positions(m: CacheModel, entries: Seq<BrickmapCacheEntry>, k: int)
    requires
        m.wf(),
        0 <= k <= entries.len(),
        k <= m.slots.len(),
    ensures
        insert_all(m, entries.take(k)).wf(),
        insert_all(m, entries.take(k)).slots.len() == m.slots.len(),
        insert_all(m, entries.take(k)).index == (m.index + k) % (m.slots.len() as int),
        forall|j: int|
            0 <= j < k ==> insert_all(m, entries.take(k)).slots[(m.index + 1 + j) % (m.slots.len() as int)]
                == Some(#[trigger] entries[j]),
        forall|s: int|
            0 <= s < m.slots.len() && (forall|j: int| 0 <= j < k ==> s != #[trigger] ((m.index + 1 + j) % (m.slots.len() as int)))
                ==> insert_all(m, entries.take(k)).slots[s] == m.slots[s],
    decreases k,
{
    let n = m.slots.len() as int;
    if k == 0 {
        assert(entries.take(0) =~= Seq::<BrickmapCacheEntry>::empty());
        vstd::arithmetic::div_mod::lemma_small_mod(m.index as nat, n as nat);
    } else {
        lemma_insert_all_positions(m, entries, k - 1);
        assert(entries.take(k).drop_last() =~= entries.take(k - 1));
        let prev = insert_all(m, entries.take(k - 1));
        let cur = insert_all(m, entries.take(k));
        assert(cur == prev.insert_spec(entries[k - 1]));
        lemma_ring_step(m.index, k - 1, n);
        assert(prev.next_index() == (m.index + 1 + (k - 1)) % n);
        lemma_count_loaded_update(prev.slots, prev.next_index(), Some(entries[k - 1]));
        assert forall|j: int| 0 <= j < k implies cur.slots[(m.index + 1 + j) % n] == Some(#[trigger] entries[j]) by {
            if j < k - 1 {
                lemma_ring_distinct(m.index + 1, j, k - 1, n);
            }
        };
    }
}

/// The ring evicts in insertion order: starting from an empty cache of `n`
/// slots, the first `n` insertions evict nothing and insertion `n + 1`
/// evicts exactly the first entry inserted; afterwards all `n` slots are
/// occupied, by the other `n` entries, each in the ring slot it was written to.
pub proof fn lemma_evicts_first_inserted(m: CacheModel, entries: Seq<BrickmapCacheEntry>)
    requires
        m.wf(),
        forall|s: int| 0 <= s < m.slots.len() ==> m.slots[s] is None,
        entries.len() == m.slots.len() + 1,
    ensures
        forall|k: int| 0 <= k < m.slots.len() ==> evicted_at(m, entries, k) is None,
        evicted_at(m, entries, m.slots.len() as int) == Some(entries[0]),
        insert_all(m, entries).num_loaded == m.slots.len(),
        forall|j: int|
            1 <= j <= m.slots.len() ==> insert_all(m, entries).slots[(m.index + 1 + j) % (m.slots.len() as int)]
                == Some(#[trigger] entries[j]),
{
    let n = m.slots.len() as int;
    assert forall|k: int| 0 <= k < n implies evicted_at(m, entries, k) is None by {
        lemma_insert_all_positions(m, entries, k);
        let before = insert_all(m, entries.take(k));
        lemma_ring_step(m.index, k, n);
        assert(before.next_index() == (m.index + 1 + k) % n);
        assert forall|j: int| 0 <= j < k implies before.next_index() != #[trigger] ((m.index + 1 + j) % n) by {
            lemma_ring_distinct(m.index + 1, j, k, n);
        };
        let s = before.next_index();
        assert(0 <= s < n);
        assert(before.slots[s] == m.slots[s]);
    };
    lemma_insert_all_positions(m, entries, n);
    let before = insert_all(m, entries.take(n));
    lemma_ring_step(m.index, n, n);
    vstd::arithmetic::div_mod::lemma_mod_add_multiples_vanish(m.index + 1, n);
    assert(before.next_index() == (m.index + 1 + 0) % n);
    lemma_num_loaded_counts(m, entries, n);
    assert(entries.take(n + 1) =~= entries);
    let f = insert_all(m, entries);
    assert(entries.drop_last() =~= entries.take(n));
    assert(f == before.insert_spec(entries[n]));
    assert(before.num_loaded == n);
    assert(evicted_at(m, entries, n) == before.slots[before.next_index()]);
    assert(before.slots[(m.index + 1 + 0) % n] == Some(entries[0]));
    assert(before.slots[before.next_index()] is Some);
    assert(f.num_loaded == before.num_loaded);
    assert forall|j: int| 1 <= j <= n implies f.slots[(m.index + 1 + j) % n] == Some(#[trigger] entries[j]) by {
        if j < n {
            lemma_ring_distinct(m.index + 1, 0, j, n);
        } else {
            vstd::arithmetic::div_mod::lemma_mod_add_multiples_vanish(m.index + 1, n);
        }
    };
}

proof fn lemma_num_loaded_counts(m: CacheModel, entries: Seq<BrickmapCacheEntry>, k: int)
    requires
        m.wf(),
        forall|s: int| 0 <= s < m.slots.len() ==> m.slots[s] is None,
        entries.len() == m.slots.len() + 1,
        0 <= k <= m.slots.len(),
        forall|i: int| 0 <= i < m.slots.len() ==> evicted_at(m, entries, i) is None,
    ensures
        insert_all(m, entries.take(k)).num_loaded == k,
    decreases k,
{
    if k == 0 {
        assert(entries.take(0) =~= Seq::<BrickmapCacheEntry>::empty());
        lemma_count_loaded_none(m.slots);
    } else {
        lemma_num_loaded_counts(m, entries, k - 1);
        assert(entries.take(k).drop_last() =~= entries.take(k - 1));
        assert(evicted_at(m, entries, k - 1) is None);
    }
}

proof fn lemma_count_loaded_none(s: Seq<Option<BrickmapCacheEntry>>)
    requires
        forall|i: int| 0 <= i < s.len() ==> s[i] is None,
    ensures
        count_loaded(s) == 0,
    decreases s.len(),
{
    if s.len() > 0 {
        lemma_count_loaded_none(s.drop_last());
    }
}

} // verus!
