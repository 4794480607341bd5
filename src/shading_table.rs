//! Bucketed slab allocator for the shading table: each bucket hands out
//! fixed-size runs of colour slots from a LIFO stack of free slot indices.

use vstd::prelude::*;

verus! {

/// Why an address could not be returned to the allocator.
#[derive(Debug, Clone, Copy, PartialEq, Eq, Structural)]
pub enum AllocError {
    AddressOutOfRange,
    Misaligned,
    NotAllocated,
}

/// `2^n`.
pub open spec fn two_pow(n: nat) -> nat
    decreases n,
{
    if n == 0 {
        1
    } else {
        2 * two_pow((n - 1) as nat)
    }
}

proof fn lemma_two_pow_bounds(n: nat)
    requires
        n <= 9,
    ensures
        1 <= two_pow(n) <= two_pow(9),
        two_pow(9) == 512,
    decreases 9 - n,
{
    reveal_with_fuel(two_pow, 10);
    if n < 9 {
        lemma_two_pow_bounds((n + 1) as nat);
    }
}

/// The abstract state of one bucket.
pub struct BucketModel {
    pub offset: int,
    pub count: int,
    pub size: int,
    /// Free slot indices; the last one is handed out next.
    pub free: Seq<u32>,
    /// Slot indices currently handed out.
    pub used: Seq<u32>,
}

impl BucketModel {
    pub open spec fn wf(self) -> bool {
        &&& self.size > 0
        &&& self.offset >= 0
        &&& self.count >= 0
        &&& self.offset + self.count * self.size <= u32::MAX
        &&& self.free.no_duplicates()
        &&& self.used.no_duplicates()
        &&& self.free.disjoint(self.used)
        &&& forall|i: int| 0 <= i < self.free.len() ==> self.free[i] < self.count
        &&& forall|i: int| 0 <= i < self.used.len() ==> self.used[i] < self.count
    }

    /// Whether `address` lies in the region this bucket manages.
    pub open spec fn contains(self, address: int) -> bool {
        self.offset <= address < self.offset + self.count * self.size
    }

    /// The global address of a local slot index.
    pub open spec fn address_of(self, index: int) -> int {
        self.offset + index * self.size
    }

    /// Allocating pops the top of the free stack and records it as used.
    pub open spec fn take_slot(self) -> (BucketModel, Option<u32>) {
        if self.free.len() == 0 {
            (self, None)
        } else {
            let idx = self.free.last();
            (
                BucketModel { free: self.free.drop_last(), used: self.used.push(idx), ..self },
                Some(self.address_of(idx as int) as u32),
            )
        }
    }

    /// Deallocating checks range, alignment and use, then moves the slot from
    /// the used list (by swap-remove) back onto the free stack.
    pub open spec fn release_slot(self, address: u32) -> (BucketModel, Result<(), AllocError>) {
        if !self.contains(address as int) {
            (self, Err(AllocError::AddressOutOfRange))
        } else if (address - self.offset) % self.size != 0 {
            (self, Err(AllocError::Misaligned))
        } else {
            let idx = ((address - self.offset) / self.size) as u32;
            if !self.used.contains(idx) {
                (self, Err(AllocError::NotAllocated))
            } else {
                let pos = self.used.index_of(idx);
                (
                    BucketModel {
                        used: self.used.update(pos, self.used.last()).drop_last(),
                        free: self.free.push(idx),
                        ..self
                    },
                    Ok(()),
                )
            }
        }
    }
}

/// One size class of the shading table.
#[derive(Debug)]
pub struct ShadingBucket {
    global_offset: u32,
    slot_count: u32,
    slot_size: u32,
    free: Vec<u32>,
    used: Vec<u32>,
}

impl View for ShadingBucket {
    type V = BucketModel;

    closed spec fn view(&self) -> BucketModel {
        BucketModel {
            offset: self.global_offset as int,
            count: self.slot_count as int,
            size: self.slot_size as int,
            free: self.free@,
            used: self.used@,
        }
    }
}

/// The free stack of a fresh bucket: every index, with 0 on top.
pub open spec fn fresh_free_stack(count: nat) -> Seq<u32> {
    Seq::new(count, |i: int| (count - 1 - i) as u32)
}

impl ShadingBucket {
    /// A bucket of `slot_count` slots of `slot_size` elements each, starting
    /// at `global_offset`, with every slot free.
    fn new(global_offset: u32, slot_count: u32, slot_size: u32) -> (r: Self)
        requires
            slot_size > 0,
            global_offset + slot_count * slot_size <= u32::MAX,
        ensures
            r@ == (BucketModel {
                offset: global_offset as int,
                count: slot_count as int,
                size: slot_size as int,
                free: fresh_free_stack(slot_count as nat),
                used: Seq::empty(),
            }),
            r@.wf(),
    {
        let mut free: Vec<u32> = Vec::with_capacity(slot_count as usize);
        let mut k: u32 = slot_count;
        while k > 0
            invariant
                k <= slot_count,
                free@ == fresh_free_stack(slot_count as nat).take(slot_count - k),
            decreases k,
        {
            k = k - 1;
            free.push(k);
            assert(free@ =~= fresh_free_stack(slot_count as nat).take(slot_count - k));
        }
        assert(free@ =~= fresh_free_stack(slot_count as nat));
        let used: Vec<u32> = Vec::with_capacity(slot_count as usize);
        let r = ShadingBucket { global_offset, slot_count, slot_size, free, used };
        assert(r@.offset + r@.count * r@.size <= u32::MAX);
        r
    }

    fn contains_address(&self, address: u32) -> (r: bool)
        requires
            self@.wf(),
        ensures
            r == self@.contains(address as int),
    {
        let min = self.global_offset;
        let max = min + self.slot_count * self.slot_size;
        min <= address && address < max
    }

    fn try_alloc(&mut self) -> (r: Option<u32>)
        requires
            old(self)@.wf(),
        ensures
            (final(self)@, r) == old(self)@.take_slot(),
            final(self)@.wf(),
    {
        match self.free.pop() {
            None => None,
            Some(idx) => {
                self.used.push(idx);
                proof {
                    let b = old(self)@;
                    assert(idx < b.count);
                    assert(b.offset + idx * b.size <= b.offset + b.count * b.size) by (nonlinear_arith)
                        requires
                            idx < b.count,
                            b.size > 0,
                    ;
                    assert(self.free@ =~= b.free.drop_last());
                    assert(forall|i: int| 0 <= i < self.used@.len() - 1 ==> self.used@[i] == b.used[i]);
                    assert(self.free@.disjoint(self.used@));
                }
                Some(self.global_offset + idx * self.slot_size)
            },
        }
    }

    /// The first position of `idx` in the used list.
    fn find_used(&self, idx: u32) -> (r: Option<usize>)
        ensures
            match r {
                Some(p) => p < self.used@.len() && self.used@[p as int] == idx,
                None => !self.used@.contains(idx),
            },
    {
        let mut i: usize = 0;
        while i < self.used.len()
            invariant
                i <= self.used@.len(),
                forall|k: int| 0 <= k < i ==> self.used@[k] != idx,
            decreases self.used@.len() - i,
        {
            if self.used[i] == idx {
                return Some(i);
            }
            i = i + 1;
        }
        None
    }

    fn try_dealloc(&mut self, address: u32) -> (r: Result<(), AllocError>)
        requires
            old(self)@.wf(),
        ensures
            (final(self)@, r) == old(self)@.release_slot(address),
            final(self)@.wf(),
    {
        if !self.contains_address(address) {
            return Err(AllocError::AddressOutOfRange);
        }
        let local_address = address - self.global_offset;
        if local_address % self.slot_size != 0 {
            return Err(AllocError::Misaligned);
        }
        let bucket_index = local_address / self.slot_size;
        match self.find_used(bucket_index) {
            None => Err(AllocError::NotAllocated),
            Some(position) => {
                let ghost b = self@;
                proof {
                    assert(b.used.index_of(bucket_index) == position as int);
                    assert(bucket_index < b.count);
                }
                self.used.swap_remove(position);
                self.free.push(bucket_index);
                proof {
                    let u = b.used.update(position as int, b.used.last()).drop_last();
                    assert(self.used@ =~= u);
                    assert forall|i: int| 0 <= i < u.len() implies #[trigger] u[i] != bucket_index && b.used.contains(u[i]) by {
                        if i == position {
                            assert(u[i] == b.used[b.used.len() - 1]);
                        } else {
                            assert(u[i] == b.used[i]);
                        }
                    };
                    assert(u.no_duplicates());
                    assert(self.free@.no_duplicates());
                    assert(self.free@.disjoint(self.used@));
                }
                Ok(())
            },
        }
    }
}

} // verus!

verus! {

/// The abstract state of the whole allocator.
pub struct AllocatorModel {
    /// Buckets in ascending slot size.
    pub buckets: Seq<BucketModel>,
    pub bucket_count: int,
    pub elements_per_bucket: int,
}

/// Size level of the bucket at position `j` (0 is the largest bucket).
pub open spec fn bucket_level(bucket_count: int, j: int) -> int {
    bucket_count - 1 - j
}

/// Slot size of the bucket at `level`: `2^(9 - level)`.
pub open spec fn level_slot_size(level: int) -> int {
    two_pow((9 - level) as nat) as int
}

/// Whether a bucket can serve a request of `size` right now.
pub open spec fn fits(b: BucketModel, size: u32) -> bool {
    b.size >= size && b.free.len() > 0
}

/// The first bucket at or after `j` that can serve `size`, or `bs.len()`.
pub open spec fn first_fit(bs: Seq<BucketModel>, size: u32, j: int) -> int
    decreases bs.len() - j,
{
    if j >= bs.len() {
        bs.len() as int
    } else if j >= 0 && fits(bs[j], size) {
        j
    } else {
        first_fit(bs, size, j + 1)
    }
}

impl AllocatorModel {
    pub open spec fn total(self) -> int {
        self.bucket_count * self.elements_per_bucket
    }

    pub open spec fn wf(self) -> bool {
        &&& 0 <= self.bucket_count <= 10
        &&& self.elements_per_bucket >= 0
        &&& self.total() <= u32::MAX
        &&& self.buckets.len() == self.bucket_count
        &&& forall|j: int|
            0 <= j < self.buckets.len() ==> {
                let b = #[trigger] self.buckets[j];
                let level = bucket_level(self.bucket_count, j);
                &&& b.wf()
                &&& b.size == level_slot_size(level)
                &&& b.offset == level * self.elements_per_bucket
                &&& b.count == self.elements_per_bucket / b.size
            }
    }

    /// Allocation takes a slot from the smallest bucket whose slot size is
    /// at least `size` and which still has a free slot.
    pub open spec fn alloc_spec(self, size: u32) -> (AllocatorModel, Option<u32>) {
        let k = first_fit(self.buckets, size, 0);
        if k < self.buckets.len() {
            let (b, r) = self.buckets[k].take_slot();
            (AllocatorModel { buckets: self.buckets.update(k, b), ..self }, r)
        } else {
            (self, None)
        }
    }

    /// Deallocation finds the owning bucket from the address and hands the
    /// address to it.
    pub open spec fn dealloc_spec(self, address: u32) -> (AllocatorModel, Result<(), AllocError>) {
        if address >= self.total() {
            (self, Err(AllocError::AddressOutOfRange))
        } else {
            let j = bucket_level(self.bucket_count, address as int / self.elements_per_bucket);
            let (b, r) = self.buckets[j].release_slot(address);
            (AllocatorModel { buckets: self.buckets.update(j, b), ..self }, r)
        }
    }
}

proof fn lemma_first_fit(bs: Seq<BucketModel>, size: u32, j: int)
    requires
        0 <= j <= bs.len(),
    ensures
        j <= first_fit(bs, size, j) <= bs.len(),
        first_fit(bs, size, j) < bs.len() ==> fits(bs[first_fit(bs, size, j)], size),
        forall|m: int| j <= m < first_fit(bs, size, j) ==> !fits(#[trigger] bs[m], size),
    decreases bs.len() - j,
{
    if j < bs.len() && !fits(bs[j], size) {
        lemma_first_fit(bs, size, j + 1);
    }
}

/// The bucketed shading-table allocator.
#[derive(Debug)]
pub struct ShadingTableAllocator {
    buckets: Vec<ShadingBucket>,
    bucket_count: u32,
    elements_per_bucket: u32,
    pub total_elements: u32,
}

impl View for ShadingTableAllocator {
    type V = AllocatorModel;

    closed spec fn view(&self) -> AllocatorModel {
        AllocatorModel {
            buckets: self.buckets@.map_values(|b: ShadingBucket| b@),
            bucket_count: self.bucket_count as int,
            elements_per_bucket: self.elements_per_bucket as int,
        }
    }
}

/// `2^(9 - level)` computed by doubling.
fn slot_size_for(level: u32) -> (r: u32)
    requires
        level <= 9,
    ensures
        r == level_slot_size(level as int),
        1 <= r <= 512,
{
    proof {
        lemma_two_pow_bounds((9 - level) as nat);
    }
    let mut r: u32 = 1;
    let mut k: u32 = 0;
    while k < 9 - level
        invariant
            level <= 9,
            k <= 9 - level,
            r == two_pow(k as nat),
            two_pow((9 - level) as nat) <= 512,
        decreases 9 - level - k,
    {
        proof {
            lemma_two_pow_bounds((k + 1) as nat);
        }
        assert(two_pow((k + 1) as nat) == 2 * two_pow(k as nat));
        r = r * 2;
        k = k + 1;
    }
    r
}

impl ShadingTableAllocator {
    pub closed spec fn wf(&self) -> bool {
        &&& self@.wf()
        &&& self.total_elements == self@.total()
        &&& self.buckets@.len() == self.bucket_count
    }

    /// `bucket_count` buckets of `elements_per_bucket` elements each; bucket
    /// level `i` has slots of `2^(9 - i)` elements, so level 0 holds whole
    /// bricks of 512 colours.
    pub fn new(bucket_count: u32, elements_per_bucket: u32) -> (r: Self)
        requires
            bucket_count <= 10,
            bucket_count * elements_per_bucket <= u32::MAX,
        ensures
            r.wf(),
            r@.wf(),
            r@.bucket_count == bucket_count,
            r@.elements_per_bucket == elements_per_bucket,
            forall|j: int|
                0 <= j < bucket_count ==> (#[trigger] r@.buckets[j]).used.len() == 0
                    && r@.buckets[j].free == fresh_free_stack(r@.buckets[j].count as nat),
    {
        let total_elements = bucket_count * elements_per_bucket;
        let mut buckets: Vec<ShadingBucket> = Vec::with_capacity(bucket_count as usize);
        let mut j: u32 = 0;
        while j < bucket_count
            invariant
                j <= bucket_count <= 10,
                bucket_count * elements_per_bucket <= u32::MAX,
                buckets@.len() == j,
                forall|m: int|
                    0 <= m < j ==> {
                        let b = #[trigger] buckets@[m]@;
                        let level = bucket_level(bucket_count as int, m);
                        &&& b.wf()
                        &&& b.size == level_slot_size(level)
                        &&& b.offset == level * elements_per_bucket
                        &&& b.count == elements_per_bucket as int / b.size
                        &&& b.used.len() == 0
                        &&& b.free == fresh_free_stack(b.count as nat)
                    },
            decreases bucket_count - j,
        {
            let level = bucket_count - 1 - j;
            proof {
                assert(level * elements_per_bucket + elements_per_bucket <= u32::MAX) by (nonlinear_arith)
                    requires
                        level < bucket_count,
                        bucket_count * elements_per_bucket <= u32::MAX,
                        elements_per_bucket >= 0,
                ;
            }
            let global_offset = level * elements_per_bucket;
            let slot_size = slot_size_for(level);
            let slot_count = elements_per_bucket / slot_size;
            proof {
                assert(slot_count * slot_size <= elements_per_bucket) by (nonlinear_arith)
                    requires
                        slot_size > 0,
                        slot_count == elements_per_bucket / slot_size,
                ;
            }
            buckets.push(ShadingBucket::new(global_offset, slot_count, slot_size));
            j = j + 1;
        }
        let r = ShadingTableAllocator { buckets, bucket_count, elements_per_bucket, total_elements };
        assert forall|m: int| 0 <= m < bucket_count implies #[trigger] r@.buckets[m] == r.buckets@[m]@ by {}
        r
    }

    /// Number of colour slots in the whole table.
    pub fn total_elements(&self) -> (r: u32)
        requires
            self.wf(),
        ensures
            r == self@.total(),
    {
        self.total_elements
    }

    /// Takes a run of at least `size` colour slots from the smallest bucket
    /// that can serve it and returns its global address, or `None` when every
    /// bucket with large enough slots is full.
    pub fn try_alloc(&mut self, size: u32) -> (r: Option<u32>)
        requires
            old(self).wf(),
        ensures
            final(self).wf(),
            final(self)@.wf(),
            (final(self)@, r) == old(self)@.alloc_spec(size),
            r is None ==> final(self)@ == old(self)@,
    {
        let ghost bs = self@.buckets;
        proof {
            lemma_first_fit(bs, size, 0);
        }
        let mut j: usize = 0;
        while j < self.bucket_count as usize
            invariant
                self.wf(),
                self@ == old(self)@,
                self.total_elements == old(self).total_elements,
                bs == self@.buckets,
                0 <= j <= first_fit(bs, size, 0),
                first_fit(bs, size, 0) <= bs.len(),
                first_fit(bs, size, 0) < bs.len() ==> fits(bs[first_fit(bs, size, 0)], size),
                forall|m: int| 0 <= m < first_fit(bs, size, 0) ==> !fits(#[trigger] bs[m], size),
            decreases self.bucket_count - j,
        {
            assert(bs[j as int] == self.buckets@[j as int]@);
            if self.buckets[j].slot_size >= size && self.buckets[j].free.len() > 0 {
                assert(first_fit(bs, size, 0) == j);
                let ghost old_buckets = self.buckets@;
                let r = self.buckets[j].try_alloc();
                proof {
                    assert(self.buckets@ == old_buckets.update(j as int, self.buckets@[j as int]));
                    assert(self@.buckets =~= bs.update(j as int, self.buckets@[j as int]@));
                }
                return r;
            }
            j = j + 1;
        }
        None
    }

    /// Returns the run at `address` to its bucket. Fails, leaving the
    /// allocator unchanged, when the address is outside every bucket, not at
    /// the start of a slot, or not currently handed out.
    pub fn try_dealloc(&mut self, address: u32) -> (r: Result<(), AllocError>)
        requires
            old(self).wf(),
        ensures
            final(self).wf(),
            final(self)@.wf(),
            (final(self)@, r) == old(self)@.dealloc_spec(address),
    {
        if address >= self.total_elements {
            return Err(AllocError::AddressOutOfRange);
        }
        let ghost bs = self@.buckets;
        proof {
            let e = self.elements_per_bucket as int;
            let c = self.bucket_count as int;
            assert(e > 0) by (nonlinear_arith)
                requires
                    address < c * e,
                    c >= 0,
                    e >= 0,
            ;
            assert(address as int / e < c) by (nonlinear_arith)
                requires
                    address < c * e,
                    e > 0,
            ;
        }
        let j = (self.bucket_count - address / self.elements_per_bucket - 1) as usize;
        let ghost old_buckets = self.buckets@;
        assert(bs[j as int] == self.buckets@[j as int]@);
        let r = self.buckets[j].try_dealloc(address);
        proof {
            assert(self.buckets@ == old_buckets.update(j as int, self.buckets@[j as int]));
            assert(self@.buckets =~= bs.update(j as int, self.buckets@[j as int]@));
        }
        r
    }
}

} // verus!

verus! {

/// Allocating a run and then deallocating the address it returned leaves the
/// allocator exactly as it was, so the same address is handed out again.
pub proof fn lemma_alloc_dealloc_round_trip(a: AllocatorModel, size: u32)
    requires
        a.wf(),
        size <= 512,
        a.alloc_spec(size).1 is Some,
    ensures
        a.alloc_spec(size).0.dealloc_spec(a.alloc_spec(size).1->0) == (a, Ok::<(), AllocError>(())),
{
    let bs = a.buckets;
    lemma_first_fit(bs, size, 0);
    let k = first_fit(bs, size, 0);
    let b = bs[k];
    let idx = b.free.last();
    let addr = (b.offset + idx * b.size) as u32;
    let level = bucket_level(a.bucket_count, k);
    let e = a.elements_per_bucket;
    let (b2, r) = b.take_slot();
    let a2 = a.alloc_spec(size).0;
    assert(r == Some(addr));
    assert(idx < b.count);
    assert(b.offset + idx * b.size < b.offset + b.count * b.size) by (nonlinear_arith)
        requires
            idx < b.count,
            b.size > 0,
    ;
    assert(idx * b.size + b.size <= e) by (nonlinear_arith)
        requires
            idx < b.count,
            b.count == e / b.size,
            b.size > 0,
            e >= 0,
    ;
    assert(addr == level * e + idx * b.size);
    assert(idx * b.size >= 0) by (nonlinear_arith)
        requires
            idx >= 0,
            b.size > 0,
    ;
    vstd::arithmetic::div_mod::lemma_fundamental_div_mod_converse(
        addr as int,
        e,
        level,
        idx * b.size,
    );
    assert(addr < a.total()) by (nonlinear_arith)
        requires
            addr == level * e + idx * b.size,
            idx * b.size + b.size <= e,
            level < a.bucket_count,
            b.size > 0,
            e >= 0,
            a.total() == a.bucket_count * e,
    ;
    assert(bucket_level(a.bucket_count, addr as int / e) == k);
    assert(a2.buckets[k] == b2);
    vstd::arithmetic::div_mod::lemma_fundamental_div_mod_converse(
        (addr - b.offset) as int,
        b.size,
        idx as int,
        0,
    );
    assert(b2.contains(addr as int));
    assert(b2.used == b.used.push(idx));
    assert(b2.used.contains(idx)) by {
        assert(b2.used[b.used.len() as int] == idx);
    }
    assert(!b.used.contains(idx)) by {
        if b.used.contains(idx) {
            let i = choose|i: int| 0 <= i < b.used.len() && b.used[i] == idx;
            assert(b.free[b.free.len() - 1] == b.used[i]);
        }
    }
    let pos = b2.used.index_of(idx);
    assert(pos == b.used.len() as int) by {
        if pos != b.used.len() as int {
            assert(b2.used[pos] == b.used[pos]);
        }
    }
    let (b3, r3) = b2.release_slot(addr);
    assert(r3 == Ok::<(), AllocError>(()));
    assert(b3.used =~= b.used);
    assert(b3.free =~= b.free);
    assert(b3 == b);
    assert(a2.buckets.update(k, b3) =~= bs);
}

} // verus!

verus! {

/// Free slots over all buckets.
pub open spec fn free_total(bs: Seq<BucketModel>) -> int
    decreases bs.len(),
{
    if bs.len() == 0 {
        0
    } else {
        free_total(bs.drop_last()) + bs.last().free.len()
    }
}

/// Slots over all buckets, free or not.
pub open spec fn capacity_total(bs: Seq<BucketModel>) -> int
    decreases bs.len(),
{
    if bs.len() == 0 {
        0
    } else {
        capacity_total(bs.drop_last()) + bs.last().count
    }
}

/// Slot size of the smallest bucket.
pub open spec fn min_slot_size(a: AllocatorModel) -> int {
    level_slot_size(a.bucket_count - 1)
}

/// The allocator after `n` allocations of `size`, with each result.
pub open spec fn alloc_repeat(a: AllocatorModel, size: u32, n: nat) -> (AllocatorModel, Seq<Option<u32>>)
    decreases n,
{
    if n == 0 {
        (a, Seq::empty())
    } else {
        let (prev, results) = alloc_repeat(a, size, (n - 1) as nat);
        let (next, r) = prev.alloc_spec(size);
        (next, results.push(r))
    }
}

proof fn lemma_bounded_unique_len(s: Seq<u32>, c: int)
    requires
        s.no_duplicates(),
        c >= 0,
        forall|i: int| 0 <= i < s.len() ==> s[i] < c,
    ensures
        s.len() <= c,
{
    let t = s.map_values(|x: u32| x as int);
    assert(t.no_duplicates()) by {
        assert forall|i: int, j: int| 0 <= i < t.len() && 0 <= j < t.len() && i != j implies t[i] != t[j] by {
            assert(s[i] != s[j]);
        };
    };
    t.unique_seq_to_set();
    vstd::set_lib::lemma_int_range(0, c);
    assert(t.to_set().subset_of(vstd::set_lib::set_int_range(0, c))) by {
        assert forall|x: int| t.to_set().contains(x) implies vstd::set_lib::set_int_range(0, c).contains(x) by {
            let i = choose|i: int| 0 <= i < t.len() && t[i] == x;
            assert(s[i] < c);
        };
    };
    vstd::set_lib::lemma_len_subset(t.to_set(), vstd::set_lib::set_int_range(0, c));
}

proof fn lemma_free_total_update(bs: Seq<BucketModel>, j: int, b: BucketModel)
    requires
        0 <= j < bs.len(),
    ensures
        free_total(bs.update(j, b)) == free_total(bs) - bs[j].free.len() + b.free.len(),
    decreases bs.len(),
{
    let t = bs.update(j, b);
    if j == bs.len() - 1 {
        assert(t.drop_last() =~= bs.drop_last());
    } else {
        lemma_free_total_update(bs.drop_last(), j, b);
        assert(t.drop_last() =~= bs.drop_last().update(j, b));
    }
}

proof fn lemma_free_total_zero(bs: Seq<BucketModel>)
    requires
        forall|j: int| 0 <= j < bs.len() ==> (#[trigger] bs[j]).free.len() == 0,
    ensures
        free_total(bs) == 0,
    decreases bs.len(),
{
    if bs.len() > 0 {
        lemma_free_total_zero(bs.drop_last());
    }
}

proof fn lemma_free_within_capacity(bs: Seq<BucketModel>)
    requires
        forall|j: int| 0 <= j < bs.len() ==> (#[trigger] bs[j]).wf(),
    ensures
        0 <= free_total(bs) <= capacity_total(bs),
    decreases bs.len(),
{
    if bs.len() > 0 {
        lemma_free_within_capacity(bs.drop_last());
        let b = bs.last();
        assert(b.wf());
        lemma_bounded_unique_len(b.free, b.count);
    }
}

proof fn lemma_two_pow_monotone(m: nat, n: nat)
    requires
        m <= n,
    ensures
        two_pow(m) <= two_pow(n),
    decreases n - m,
{
    if m < n {
        lemma_two_pow_monotone(m, (n - 1) as nat);
    }
}

proof fn lemma_capacity_prefix(a: AllocatorModel, m: int)
    requires
        a.wf(),
        a.bucket_count >= 1,
        0 <= m <= a.buckets.len(),
    ensures
        capacity_total(a.buckets.take(m)) <= m * (a.elements_per_bucket / min_slot_size(a)),
    decreases m,
{
    let e = a.elements_per_bucket;
    let mn = min_slot_size(a);
    lemma_two_pow_bounds((9 - (a.bucket_count - 1)) as nat);
    if m == 0 {
        assert(a.buckets.take(0).len() == 0);
    } else {
        lemma_capacity_prefix(a, m - 1);
        assert(a.buckets.take(m).drop_last() =~= a.buckets.take(m - 1));
        let b = a.buckets[m - 1];
        let level = bucket_level(a.bucket_count, m - 1);
        lemma_two_pow_monotone((9 - (a.bucket_count - 1)) as nat, (9 - level) as nat);
        assert(b.size >= mn);
        vstd::arithmetic::div_mod::lemma_div_is_ordered_by_denominator(e, mn, b.size);
        assert(m * (e / mn) == (m - 1) * (e / mn) + e / mn) by (nonlinear_arith);
    }
}

proof fn lemma_capacity_bound(a: AllocatorModel)
    requires
        a.wf(),
        a.bucket_count >= 1,
    ensures
        capacity_total(a.buckets) <= a.total() / min_slot_size(a),
{
    let e = a.elements_per_bucket;
    let c = a.bucket_count;
    let mn = min_slot_size(a);
    lemma_two_pow_bounds((9 - (c - 1)) as nat);
    lemma_capacity_prefix(a, c);
    assert(a.buckets.take(c) =~= a.buckets);
    let q = e / mn;
    vstd::arithmetic::div_mod::lemma_fundamental_div_mod(e, mn);
    assert(q >= 0) by (nonlinear_arith)
        requires
            e >= 0,
            mn > 0,
            q == e / mn,
    ;
    assert((c * q) * mn <= c * e) by (nonlinear_arith)
        requires
            e == mn * q + e % mn,
            e % mn >= 0,
            c >= 1,
            q >= 0,
            mn > 0,
    ;
    vstd::arithmetic::div_mod::lemma_fundamental_div_mod(c * e, mn);
    assert(c * q <= (c * e) / mn) by (nonlinear_arith)
        requires
            (c * q) * mn <= c * e,
            c * e == mn * ((c * e) / mn) + (c * e) % mn,
            (c * e) % mn < mn,
            mn > 0,
    ;
}

proof fn lemma_take_slot_wf(b: BucketModel)
    requires
        b.wf(),
    ensures
        b.take_slot().0.wf(),
        b.take_slot().0.offset == b.offset,
        b.take_slot().0.size == b.size,
        b.take_slot().0.count == b.count,
{
    if b.free.len() > 0 {
        let b2 = b.take_slot().0;
        let idx = b.free.last();
        assert(forall|i: int| 0 <= i < b2.used.len() - 1 ==> b2.used[i] == b.used[i]);
        assert(b2.used[b2.used.len() - 1] == idx);
        assert(forall|i: int| 0 <= i < b2.free.len() ==> b2.free[i] == b.free[i]);
        assert(b2.free.disjoint(b2.used));
        assert(b2.used.no_duplicates());
    }
}

proof fn lemma_alloc_one(a: AllocatorModel)
    requires
        a.wf(),
    ensures
        a.alloc_spec(1).0.wf(),
        a.alloc_spec(1).1 is None ==> a.alloc_spec(1).0 == a && free_total(a.buckets) == 0,
        a.alloc_spec(1).1 is Some ==> free_total(a.alloc_spec(1).0.buckets) == free_total(a.buckets) - 1,
{
    let bs = a.buckets;
    lemma_first_fit(bs, 1, 0);
    let k = first_fit(bs, 1, 0);
    if k < bs.len() {
        lemma_take_slot_wf(bs[k]);
        lemma_free_total_update(bs, k, bs[k].take_slot().0);
        let a2 = a.alloc_spec(1).0;
        assert forall|j: int| 0 <= j < a2.buckets.len() implies {
            let b = #[trigger] a2.buckets[j];
            let level = bucket_level(a2.bucket_count, j);
            &&& b.wf()
            &&& b.size == level_slot_size(level)
            &&& b.offset == level * a2.elements_per_bucket
            &&& b.count == a2.elements_per_bucket / b.size
        } by {
            if j != k {
                assert(a2.buckets[j] == bs[j]);
            }
        };
    } else {
        assert forall|j: int| 0 <= j < bs.len() implies (#[trigger] bs[j]).free.len() == 0 by {
            assert(!fits(bs[j], 1));
            lemma_two_pow_bounds((9 - bucket_level(a.bucket_count, j)) as nat);
        };
        lemma_free_total_zero(bs);
    }
}

proof fn lemma_alloc_repeat_count(a: AllocatorModel, n: nat)
    requires
        a.wf(),
    ensures
        alloc_repeat(a, 1, n).0.wf(),
        alloc_repeat(a, 1, n).1.len() == n,
        n > 0 && alloc_repeat(a, 1, n).1[n - 1] is Some ==> {
            &&& forall|i: int| 0 <= i < n ==> (#[trigger] alloc_repeat(a, 1, n).1[i]) is Some
            &&& free_total(alloc_repeat(a, 1, n).0.buckets) == free_total(a.buckets) - n
        },
    decreases n,
{
    if n > 0 {
        lemma_alloc_repeat_count(a, (n - 1) as nat);
        let (prev, results) = alloc_repeat(a, 1, (n - 1) as nat);
        lemma_alloc_one(prev);
        let rs = alloc_repeat(a, 1, n).1;
        assert(rs == results.push(prev.alloc_spec(1).1));
        if rs[n - 1] is Some && n > 1 {
            if results[n - 2] is None {
                let (pp, _) = alloc_repeat(a, 1, (n - 2) as nat);
                lemma_alloc_repeat_count(a, (n - 2) as nat);
                lemma_alloc_one(pp);
                assert(prev == pp.alloc_spec(1).0);
                assert(free_total(prev.buckets) == 0);
                lemma_free_within_capacity(prev.buckets);
                let bs = prev.buckets;
                lemma_first_fit(bs, 1, 0);
                let k = first_fit(bs, 1, 0);
                assert(k < bs.len());
                lemma_free_total_update(bs, k, bs[k].take_slot().0);
                lemma_take_slot_wf(bs[k]);
                lemma_free_within_capacity(prev.alloc_spec(1).0.buckets);
            }
            assert forall|i: int| 0 <= i < n implies (#[trigger] rs[i]) is Some by {
                if i < n - 1 {
                    assert(rs[i] == results[i]);
                }
            };
        }
    }
}

/// Without frees, `total / min_slot_size + 1` single-element allocations
/// cannot all succeed: the last one returns `None`.
pub proof fn lemma_exhaustion(a: AllocatorModel)
    requires
        a.wf(),
        a.bucket_count >= 1,
    ensures
        ({
            let n = (a.total() / min_slot_size(a) + 1) as nat;
            alloc_repeat(a, 1, n).1[n - 1] is None
        }),
{
    lemma_two_pow_bounds((9 - (a.bucket_count - 1)) as nat);
    let n = (a.total() / min_slot_size(a) + 1) as nat;
    assert(a.total() / min_slot_size(a) >= 0) by (nonlinear_arith)
        requires
            a.total() >= 0,
            min_slot_size(a) > 0,
    ;
    lemma_alloc_repeat_count(a, n);
    lemma_free_within_capacity(a.buckets);
    lemma_capacity_bound(a);
    lemma_free_within_capacity(alloc_repeat(a, 1, n).0.buckets);
}

} // verus!

verus! {

/// Whether `address` is the start of a slot currently handed out.
pub open spec fn is_allocated(a: AllocatorModel, address: int) -> bool {
    exists|j: int, i: int|
        0 <= j < a.buckets.len() && 0 <= i < a.buckets[j].used.len() && address == #[trigger] a.buckets[j].address_of(
            a.buckets[j].used[i] as int,
        )
}

proof fn lemma_address_injective(a: AllocatorModel, j: int, u: int, k: int, v: int)
    requires
        a.wf(),
        0 <= j < a.buckets.len(),
        0 <= k < a.buckets.len(),
        0 <= u < a.buckets[j].count,
        0 <= v < a.buckets[k].count,
        a.buckets[j].address_of(u) == a.buckets[k].address_of(v),
    ensures
        j == k,
        u == v,
{
    let e = a.elements_per_bucket;
    let bj = a.buckets[j];
    let bk = a.buckets[k];
    assert(u * bj.size + bj.size <= e) by (nonlinear_arith)
        requires
            u < bj.count,
            bj.count == e / bj.size,
            bj.size > 0,
            e >= 0,
    ;
    assert(v * bk.size + bk.size <= e) by (nonlinear_arith)
        requires
            v < bk.count,
            bk.count == e / bk.size,
            bk.size > 0,
            e >= 0,
    ;
    assert(u * bj.size >= 0) by (nonlinear_arith)
        requires
            u >= 0,
            bj.size > 0,
    ;
    assert(v * bk.size >= 0) by (nonlinear_arith)
        requires
            v >= 0,
            bk.size > 0,
    ;
    let x = bj.address_of(u);
    vstd::arithmetic::div_mod::lemma_fundamental_div_mod_converse(x, e, bucket_level(a.bucket_count, j), u * bj.size);
    vstd::arithmetic::div_mod::lemma_fundamental_div_mod_converse(x, e, bucket_level(a.bucket_count, k), v * bk.size);
    assert(j == k);
    assert(u == v) by (nonlinear_arith)
        requires
            u * bj.size == v * bj.size,
            bj.size > 0,
    ;
}

/// An allocation keeps every address already handed out and adds at most
/// the one it returns, which was not handed out before.
pub proof fn lemma_alloc_fresh(a: AllocatorModel, size: u32)
    requires
        a.wf(),
    ensures
        a.alloc_spec(size).0.wf(),
        forall|x: int| is_allocated(a, x) ==> is_allocated(a.alloc_spec(size).0, x),
        a.alloc_spec(size).1 is None ==> a.alloc_spec(size).0 == a,
        forall|x: int|
            is_allocated(a.alloc_spec(size).0, x) ==> is_allocated(a, x) || (a.alloc_spec(size).1 is Some && x
                == a.alloc_spec(size).1->0 as int),
        a.alloc_spec(size).1 is Some ==> {
            &&& !is_allocated(a, a.alloc_spec(size).1->0 as int)
            &&& is_allocated(a.alloc_spec(size).0, a.alloc_spec(size).1->0 as int)
        },
{
    let bs = a.buckets;
    lemma_first_fit(bs, size, 0);
    let k = first_fit(bs, size, 0);
    if k < bs.len() {
        let b = bs[k];
        lemma_take_slot_wf(b);
        let a2 = a.alloc_spec(size).0;
        let idx = b.free.last();
        assert forall|j: int| 0 <= j < a2.buckets.len() implies {
            let c = #[trigger] a2.buckets[j];
            let level = bucket_level(a2.bucket_count, j);
            &&& c.wf()
            &&& c.size == level_slot_size(level)
            &&& c.offset == level * a2.elements_per_bucket
            &&& c.count == a2.elements_per_bucket / c.size
        } by {
            if j != k {
                assert(a2.buckets[j] == bs[j]);
            }
        };
        assert forall|x: int| is_allocated(a, x) implies is_allocated(a2, x) by {
            let (j, i) = choose|j: int, i: int|
                0 <= j < a.buckets.len() && 0 <= i < a.buckets[j].used.len() && x == #[trigger] a.buckets[j].address_of(
                    a.buckets[j].used[i] as int,
                );
            if j == k {
                assert(a2.buckets[k].used[i] == b.used[i]);
                assert(x == a2.buckets[j].address_of(a2.buckets[j].used[i] as int));
            } else {
                assert(a2.buckets[j] == a.buckets[j]);
                assert(x == a2.buckets[j].address_of(a2.buckets[j].used[i] as int));
            }
        };
        let addr = b.address_of(idx as int);
        assert forall|x: int| is_allocated(a2, x) implies is_allocated(a, x) || x == addr by {
            let (j, i) = choose|j: int, i: int|
                0 <= j < a2.buckets.len() && 0 <= i < a2.buckets[j].used.len() && x == #[trigger] a2.buckets[j].address_of(
                    a2.buckets[j].used[i] as int,
                );
            if j != k {
                assert(a2.buckets[j] == a.buckets[j]);
                assert(x == a.buckets[j].address_of(a.buckets[j].used[i] as int));
            } else if i < b.used.len() {
                assert(a2.buckets[k].used[i] == b.used[i]);
                assert(x == a.buckets[j].address_of(a.buckets[j].used[i] as int));
            }
        };
        assert(a2.buckets[k].used[b.used.len() as int] == idx);
        assert(addr == a2.buckets[k].address_of(a2.buckets[k].used[b.used.len() as int] as int));
        assert(idx < b.count);
        assert(b.offset + idx * b.size <= b.offset + b.count * b.size) by (nonlinear_arith)
            requires
                idx < b.count,
                b.size > 0,
        ;
        assert(a.alloc_spec(size).1->0 as int == addr);
        if is_allocated(a, addr) {
            let (j, i) = choose|j: int, i: int|
                0 <= j < a.buckets.len() && 0 <= i < a.buckets[j].used.len() && addr == #[trigger] a.buckets[j].address_of(
                    a.buckets[j].used[i] as int,
                );
            assert(a.buckets[j].wf());
            lemma_address_injective(a, j, a.buckets[j].used[i] as int, k, idx as int);
            assert(b.free[b.free.len() - 1] == b.used[i]);
        }
    } else {
        assert(a.alloc_spec(size).0 == a);
    }
}

/// Deallocating an allocated address succeeds and frees exactly that address.
pub proof fn lemma_dealloc_allocated(a: AllocatorModel, address: u32)
    requires
        a.wf(),
        is_allocated(a, address as int),
    ensures
        a.dealloc_spec(address).1 == Ok::<(), AllocError>(()),
        a.dealloc_spec(address).0.wf(),
        forall|x: int| is_allocated(a.dealloc_spec(address).0, x) <==> (is_allocated(a, x) && x != address),
{
    let (j, i) = choose|j: int, i: int|
        0 <= j < a.buckets.len() && 0 <= i < a.buckets[j].used.len() && address == #[trigger] a.buckets[j].address_of(
            a.buckets[j].used[i] as int,
        );
    let b = a.buckets[j];
    let idx = b.used[i];
    let e = a.elements_per_bucket;
    let level = bucket_level(a.bucket_count, j);
    assert(b.wf());
    assert(idx < b.count);
    assert(idx * b.size + b.size <= e) by (nonlinear_arith)
        requires
            idx < b.count,
            b.count == e / b.size,
            b.size > 0,
            e >= 0,
    ;
    assert(idx * b.size >= 0) by (nonlinear_arith)
        requires
            idx >= 0,
            b.size > 0,
    ;
    assert(b.offset + idx * b.size < b.offset + b.count * b.size) by (nonlinear_arith)
        requires
            idx < b.count,
            b.size > 0,
    ;
    vstd::arithmetic::div_mod::lemma_fundamental_div_mod_converse(address as int, e, level, idx * b.size);
    assert(address < a.total()) by (nonlinear_arith)
        requires
            address == level * e + idx * b.size,
            idx * b.size + b.size <= e,
            level < a.bucket_count,
            b.size > 0,
            e >= 0,
            a.total() == a.bucket_count * e,
    ;
    assert(bucket_level(a.bucket_count, address as int / e) == j);
    vstd::arithmetic::div_mod::lemma_fundamental_div_mod_converse((address - b.offset) as int, b.size, idx as int, 0);
    assert(b.used.contains(idx));
    let pos = b.used.index_of(idx);
    assert(pos == i);
    let (b2, r) = b.release_slot(address);
    assert(r == Ok::<(), AllocError>(()));
    let u = b.used;
    let u2 = b2.used;
    assert(u2 == u.update(i, u.last()).drop_last());
    assert(b2.free == b.free.push(idx));
    // the bucket stays well formed
    assert forall|m: int| 0 <= m < u2.len() implies #[trigger] u2[m] != idx && u.contains(u2[m]) by {
        if m == i {
            assert(u2[m] == u[u.len() - 1]);
        } else {
            assert(u2[m] == u[m]);
        }
    };
    assert(u2.no_duplicates()) by {
        assert forall|m: int, n: int| 0 <= m < u2.len() && 0 <= n < u2.len() && m != n implies u2[m] != u2[n] by {
            let mm = if m == i { u.len() - 1 } else { m };
            let nn = if n == i { u.len() - 1 } else { n };
            assert(u2[m] == u[mm]);
            assert(u2[n] == u[nn]);
        };
    };
    assert(b2.free.no_duplicates()) by {
        assert forall|m: int, n: int| 0 <= m < b2.free.len() && 0 <= n < b2.free.len() && m != n implies b2.free[m]
            != b2.free[n] by {
            if m < b.free.len() && n < b.free.len() {
            } else if m < b.free.len() {
                assert(b.free[m] != u[i]);
            } else {
                assert(b.free[n] != u[i]);
            }
        };
    };
    assert(b2.free.disjoint(u2)) by {
        assert forall|m: int, n: int| 0 <= m < b2.free.len() && 0 <= n < u2.len() implies b2.free[m] != u2[n] by {
            if m < b.free.len() {
                let nn = if n == i { u.len() - 1 } else { n };
                assert(u2[n] == u[nn]);
            }
        };
    };
    assert(b2.wf());
    let a2 = a.dealloc_spec(address).0;
    assert(a2.buckets == a.buckets.update(j, b2));
    assert forall|jj: int| 0 <= jj < a2.buckets.len() implies {
        let c = #[trigger] a2.buckets[jj];
        let lv = bucket_level(a2.bucket_count, jj);
        &&& c.wf()
        &&& c.size == level_slot_size(lv)
        &&& c.offset == lv * a2.elements_per_bucket
        &&& c.count == a2.elements_per_bucket / c.size
    } by {
        if jj != j {
            assert(a2.buckets[jj] == a.buckets[jj]);
        }
    };
    assert forall|x: int| is_allocated(a2, x) <==> (is_allocated(a, x) && x != address) by {
        if is_allocated(a2, x) {
            let (j2, i2) = choose|j2: int, i2: int|
                0 <= j2 < a2.buckets.len() && 0 <= i2 < a2.buckets[j2].used.len() && x == #[trigger] a2.buckets[j2].address_of(
                    a2.buckets[j2].used[i2] as int,
                );
            if j2 != j {
                assert(a2.buckets[j2] == a.buckets[j2]);
                assert(x == a.buckets[j2].address_of(a.buckets[j2].used[i2] as int));
                assert(a.buckets[j2].wf());
                if x == address {
                    lemma_address_injective(a, j2, a.buckets[j2].used[i2] as int, j, idx as int);
                }
            } else {
                let ii = if i2 == i { u.len() - 1 } else { i2 };
                assert(u2[i2] == u[ii]);
                assert(x == a.buckets[j].address_of(a.buckets[j].used[ii] as int));
                if x == address {
                    lemma_address_injective(a, j, u[ii] as int, j, idx as int);
                }
            }
        }
        if is_allocated(a, x) && x != address {
            let (j2, i2) = choose|j2: int, i2: int|
                0 <= j2 < a.buckets.len() && 0 <= i2 < a.buckets[j2].used.len() && x == #[trigger] a.buckets[j2].address_of(
                    a.buckets[j2].used[i2] as int,
                );
            if j2 != j {
                assert(a2.buckets[j2] == a.buckets[j2]);
                assert(x == a2.buckets[j2].address_of(a2.buckets[j2].used[i2] as int));
            } else {
                assert(i2 != i);
                if i2 == u.len() - 1 {
                    assert(u2[i] == u[i2]);
                    assert(x == a2.buckets[j].address_of(a2.buckets[j].used[i] as int));
                } else {
                    assert(u2[i2] == u[i2]);
                    assert(x == a2.buckets[j].address_of(a2.buckets[j].used[i2] as int));
                }
            }
        }
    };
}

proof fn lemma_alloc_repeat_distinct(a: AllocatorModel, size: u32, n: nat)
    requires
        a.wf(),
    ensures
        ({
            let (m, rs) = alloc_repeat(a, size, n);
            &&& m.wf()
            &&& rs.len() == n
            &&& forall|i: int| 0 <= i < n && rs[i] is Some ==> is_allocated(m, #[trigger] rs[i]->0 as int)
            &&& forall|i: int, j: int|
                0 <= i < j < n && rs[i] is Some && rs[j] is Some ==> #[trigger] rs[i]->0 != #[trigger] rs[j]->0
        }),
    decreases n,
{
    if n > 0 {
        lemma_alloc_repeat_distinct(a, size, (n - 1) as nat);
        let (prev, results) = alloc_repeat(a, size, (n - 1) as nat);
        lemma_alloc_fresh(prev, size);
        let (m, rs) = alloc_repeat(a, size, n);
        assert(rs == results.push(prev.alloc_spec(size).1));
        assert forall|i: int| 0 <= i < n && rs[i] is Some implies is_allocated(m, #[trigger] rs[i]->0 as int) by {
            if i < n - 1 {
                assert(rs[i] == results[i]);
            }
        };
        assert forall|i: int, j: int| 0 <= i < j < n && rs[i] is Some && rs[j] is Some implies #[trigger] rs[i]->0
            != #[trigger] rs[j]->0 by {
            assert(rs[i] == results[i]);
            if j < n - 1 {
                assert(rs[j] == results[j]);
            } else {
                assert(is_allocated(prev, results[i]->0 as int));
            }
        };
    }
}

/// Without frees, every address handed out stays allocated and no address
/// is handed out twice.
pub proof fn lemma_allocations_distinct(a: AllocatorModel, size: u32, n: nat)
    requires
        a.wf(),
    ensures
        forall|i: int|
            0 <= i < n && (#[trigger] alloc_repeat(a, size, n).1[i]) is Some ==> is_allocated(
                alloc_repeat(a, size, n).0,
                alloc_repeat(a, size, n).1[i]->0 as int,
            ),
        forall|i: int, j: int|
            0 <= i < j < n && alloc_repeat(a, size, n).1[i] is Some && alloc_repeat(a, size, n).1[j] is Some
                ==> #[trigger] alloc_repeat(a, size, n).1[i]->0 != #[trigger] alloc_repeat(a, size, n).1[j]->0,
{
    lemma_alloc_repeat_distinct(a, size, n);
}

} // verus!

verus! {

/// Allocation succeeds exactly when some bucket with large enough slots
/// still has a free slot; it then uses the first such bucket in ascending
/// slot size, and every bucket before it is too small or full.
pub proof fn lemma_alloc_succeeds_iff(a: AllocatorModel, size: u32)
    requires
        a.wf(),
    ensures
        a.alloc_spec(size).1 is Some <==> exists|j: int| 0 <= j < a.buckets.len() && fits(#[trigger] a.buckets[j], size),
        a.alloc_spec(size).1 is Some ==> {
            let k = first_fit(a.buckets, size, 0);
            &&& 0 <= k < a.buckets.len()
            &&& fits(a.buckets[k], size)
            &&& forall|m: int| 0 <= m < k ==> !fits(#[trigger] a.buckets[m], size)
            &&& a.alloc_spec(size) == (
                AllocatorModel { buckets: a.buckets.update(k, a.buckets[k].take_slot().0), ..a },
                a.buckets[k].take_slot().1,
            )
        },
{
    lemma_first_fit(a.buckets, size, 0);
    let k = first_fit(a.buckets, size, 0);
    if exists|j: int| 0 <= j < a.buckets.len() && fits(#[trigger] a.buckets[j], size) {
        let j = choose|j: int| 0 <= j < a.buckets.len() && fits(#[trigger] a.buckets[j], size);
        assert(k <= j);
    }
}

/// In a fresh bucket the first slot handed out is slot 0, at the bucket's
/// offset.
pub proof fn lemma_fresh_bucket_first_slot(b: BucketModel)
    requires
        b.count >= 1,
        b.free == fresh_free_stack(b.count as nat),
    ensures
        b.take_slot().1 == Some(b.offset as u32),
{
    assert(b.free.last() == 0);
}

/// Slot sizes of a well-formed allocator lie between 1 and 512.
pub proof fn lemma_slot_sizes(a: AllocatorModel, j: int)
    requires
        a.wf(),
        0 <= j < a.buckets.len(),
    ensures
        1 <= a.buckets[j].size <= 512,
        j == a.buckets.len() - 1 ==> a.buckets[j].size == 512,
{
    lemma_two_pow_bounds((9 - bucket_level(a.bucket_count, j)) as nat);
}

} // verus!
