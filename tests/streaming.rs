use brickworld::{
    cull_interior_voxels, encode_brickgrid_batch, encode_brickmap_batch, grid_pos_to_world_pos,
    neighbour_regions, parse_feedback, to_1d_index, to_brickgrid_element, world_state_words,
    AllocError, Brickgrid, BrickgridElement, BrickgridFlag, BrickgridUpload, BrickmapCache,
    BrickmapCacheEntry, BrickmapManager, Dims, GridPos, LocalPos, NeighbourBlocks, RequestError,
    ShadingTableAllocator, Voxel,
};

fn filled(v: Voxel) -> Vec<Voxel> {
    vec![v; 512]
}

fn blocks_with(center: Vec<Voxel>, around: Voxel) -> NeighbourBlocks {
    NeighbourBlocks {
        center,
        forward: filled(around),
        backward: filled(around),
        left: filled(around),
        right: filled(around),
        up: filled(around),
        down: filled(around),
    }
}

fn voxel_index(x: usize, y: usize, z: usize) -> usize {
    x + 8 * y + 64 * z
}

fn sphere_brick() -> Vec<Voxel> {
    let mut center = filled(Voxel::Empty);
    for z in 0..8 {
        for y in 0..8 {
            for x in 0..8 {
                let dx = x as f64 - 3.5;
                let dy = y as f64 - 3.5;
                let dz = z as f64 - 3.5;
                if dx * dx + dy * dy + dz * dz <= 16.0 {
                    center[voxel_index(x, y, z)] = Voxel::Color(x as u8 * 30, y as u8 * 30, z as u8 * 30);
                }
            }
        }
    }
    center
}

fn mask_bits(mask: &[u32; 16]) -> u32 {
    mask.iter().map(|w| w.count_ones()).sum()
}

// ---- allocator ----

#[test]
fn alloc_then_dealloc_restores_the_address() {
    let mut a = ShadingTableAllocator::new(4, 2048);
    for size in [1u32, 63, 64, 65, 200, 512] {
        let first = a.try_alloc(size).unwrap();
        assert_eq!(a.try_dealloc(first), Ok(()));
        let again = a.try_alloc(size).unwrap();
        assert_eq!(first, again);
        assert_eq!(a.try_dealloc(again), Ok(()));
    }
}

#[test]
fn alloc_picks_smallest_sufficient_bucket() {
    let mut a = ShadingTableAllocator::new(4, 2048);
    assert_eq!(a.total_elements, 8192);
    assert_eq!(a.total_elements(), 8192);
    // Slot sizes 512, 256, 128, 64 sit at offsets 0, 2048, 4096, 6144.
    assert_eq!(a.try_alloc(1), Some(6144));
    assert_eq!(a.try_alloc(64), Some(6144 + 64));
    assert_eq!(a.try_alloc(65), Some(4096));
    assert_eq!(a.try_alloc(300), Some(0));
    assert_eq!(a.try_alloc(513), None);
}

#[test]
fn alloc_exhaustion_returns_none_and_addresses_stay_distinct() {
    let mut a = ShadingTableAllocator::new(4, 512);
    let min_slot = 64u32;
    let n = a.total_elements / min_slot + 1;
    let mut seen = Vec::new();
    let mut last = None;
    for _ in 0..n {
        last = a.try_alloc(1);
        if let Some(addr) = last {
            assert!(!seen.contains(&addr));
            seen.push(addr);
        }
    }
    assert_eq!(last, None);
    // Slot counts are 1, 2, 4 and 8 for sizes 512, 256, 128 and 64.
    assert_eq!(seen.len(), 15);
    for addr in seen {
        assert_eq!(a.try_dealloc(addr), Ok(()));
    }
}

#[test]
fn dealloc_errors() {
    let mut a = ShadingTableAllocator::new(4, 2048);
    assert_eq!(a.try_dealloc(8192), Err(AllocError::AddressOutOfRange));
    assert_eq!(a.try_dealloc(6145), Err(AllocError::Misaligned));
    assert_eq!(a.try_dealloc(6144), Err(AllocError::NotAllocated));
    let addr = a.try_alloc(10).unwrap();
    assert_eq!(a.try_dealloc(addr), Ok(()));
    assert_eq!(a.try_dealloc(addr), Err(AllocError::NotAllocated));
}

#[test]
fn dealloc_outside_bucket_slots_is_out_of_range() {
    // 100 elements per bucket: the 64-slot bucket covers 300..364 only.
    let mut a = ShadingTableAllocator::new(4, 100);
    assert_eq!(a.try_dealloc(364), Err(AllocError::AddressOutOfRange));
    assert_eq!(a.try_alloc(1), Some(300));
}

// ---- grid words ----

#[test]
fn element_packs_pointer_and_flag() {
    let e = BrickgridElement::new(5, BrickgridFlag::Loaded);
    assert_eq!(e.0, (5 << 3) | 4);
    assert_eq!(e.get_pointer(), 5);
    assert_eq!(e.get_flag(), BrickgridFlag::Loaded);
    assert_eq!(to_brickgrid_element(5, BrickgridFlag::Loaded), 44);
    assert_eq!(to_brickgrid_element(0, BrickgridFlag::Unloaded), 1);
    assert_eq!(BrickgridElement(2).get_flag(), BrickgridFlag::Loading);
    assert_eq!(BrickgridElement(3).get_flag(), BrickgridFlag::Empty);
    assert_eq!(BrickgridFlag::from(4u32), BrickgridFlag::Loaded);
    assert_eq!(BrickgridFlag::from(9u32), BrickgridFlag::Empty);
}

#[test]
fn flat_index_is_row_major() {
    let dims = Dims { x: 4, y: 3, z: 2 };
    assert_eq!(to_1d_index(LocalPos { x: 1, y: 2, z: 1 }, dims), 1 + 2 * 4 + 12);
    assert_eq!(to_1d_index(LocalPos { x: 3, y: 2, z: 1 }, dims), 23);
}

#[test]
fn negative_coordinates_floor() {
    let dims = Dims { x: 8, y: 8, z: 8 };
    let (chunk, local) = grid_pos_to_world_pos(GridPos { x: -1, y: 0, z: 0 }, dims);
    assert_eq!(chunk, GridPos { x: -1, y: 0, z: 0 });
    assert_eq!(local, LocalPos { x: 7, y: 0, z: 0 });
    let (chunk, local) = grid_pos_to_world_pos(GridPos { x: -9, y: 17, z: -8 }, dims);
    assert_eq!(chunk, GridPos { x: -2, y: 2, z: -1 });
    assert_eq!(local, LocalPos { x: 7, y: 1, z: 0 });
}

#[test]
fn grid_set_stages_once_and_drains_in_batches() {
    let mut g = Brickgrid::new(Dims { x: 2, y: 2, z: 1 }, 2);
    assert_eq!(g.len(), 4);
    assert_eq!(g.get(3), BrickgridElement(1));
    let prev = g.set(3, BrickgridElement::new(7, BrickgridFlag::Loaded));
    assert_eq!(prev, BrickgridElement(1));
    g.set(0, BrickgridElement(0));
    g.set(3, BrickgridElement(0));
    g.set(1, BrickgridElement(0));
    let first = g.drain_upload_batch();
    assert_eq!(first, vec![BrickgridUpload { index: 3, element: 0 }, BrickgridUpload { index: 0, element: 0 }]);
    let second = g.drain_upload_batch();
    assert_eq!(second, vec![BrickgridUpload { index: 1, element: 0 }]);
    assert!(g.drain_upload_batch().is_empty());
    assert_eq!(g.words(), vec![0, 0, 1, 0]);
}

// ---- cache ----

#[test]
fn cache_evicts_first_inserted_entry() {
    let capacity = 4usize;
    let mut c = BrickmapCache::new(capacity, 8);
    for i in 0..capacity {
        assert_eq!(c.add_entry(100 + i, i as u32 * 64, [0; 16], vec![1]), None);
    }
    assert_eq!(c.num_loaded(), 4);
    let evicted = c.add_entry(200, 999, [0; 16], vec![2]);
    assert_eq!(evicted, Some(BrickmapCacheEntry { grid_idx: 100, shading_table_offset: 0 }));
    assert_eq!(c.num_loaded(), 4);
}

#[test]
fn cache_after_wraparound_holds_the_later_entries() {
    let capacity = 3usize;
    let mut c = BrickmapCache::new(capacity, 8);
    for i in 0..=capacity {
        c.add_entry(10 + i, i as u32, [0; 16], vec![1]);
    }
    assert_eq!(c.num_loaded(), 3);
    let mut held: Vec<usize> = (0..capacity).map(|s| c.get_entry(s).unwrap().grid_idx).collect();
    held.sort();
    assert_eq!(held, vec![11, 12, 13]);
}

#[test]
fn defaults_are_empty() {
    assert_eq!(BrickgridElement::default(), BrickgridElement(0));
    assert_eq!(BrickgridElement::default().get_flag(), BrickgridFlag::Empty);
    assert_eq!(BrickmapCacheEntry::default(), BrickmapCacheEntry { grid_idx: 0, shading_table_offset: 0 });
    let b = brickworld::Brickmap::default();
    assert_eq!(b.bitmask, [0; 16]);
    assert_eq!(b.shading_table_offset, 0);
}

#[test]
fn cache_remove_and_get() {
    let mut c = BrickmapCache::new(3, 1);
    assert_eq!(c.index(), 0);
    c.add_entry(9, 64, [0; 16], vec![5, 6]);
    assert_eq!(c.index(), 1);
    assert_eq!(c.get_entry(1), Some(BrickmapCacheEntry { grid_idx: 9, shading_table_offset: 64 }));
    assert_eq!(c.remove_entry(1), Some(BrickmapCacheEntry { grid_idx: 9, shading_table_offset: 64 }));
    assert_eq!(c.num_loaded(), 0);
    assert_eq!(c.remove_entry(1), None);
    assert_eq!(c.num_loaded(), 0);
    let batch = c.drain_upload_batch();
    assert_eq!(batch.len(), 1);
    assert_eq!(batch[0].cache_idx, 1);
    assert_eq!(batch[0].colors, vec![5, 6]);
    assert_eq!(batch[0].brickmap.shading_table_offset, 64);
    assert!(c.drain_upload_batch().is_empty());
}

// ---- culling ----

#[test]
fn buried_solid_brick_culls_to_nothing() {
    let solid = Voxel::Color(10, 20, 30);
    let blocks = blocks_with(filled(solid), solid);
    let (mask, colors) = cull_interior_voxels(&blocks);
    assert!(colors.is_empty());
    assert_eq!(mask, [0; 16]);
}

#[test]
fn isolated_voxel_gives_one_bit_and_one_color() {
    let mut center = filled(Voxel::Empty);
    let idx = voxel_index(3, 5, 2);
    center[idx] = Voxel::Color(1, 2, 3);
    let blocks = blocks_with(center, Voxel::Empty);
    let (mask, colors) = cull_interior_voxels(&blocks);
    assert_eq!(colors, vec![0x0102_03FF]);
    assert_eq!(mask_bits(&mask), 1);
    assert_eq!(mask[idx / 32], 1 << (idx % 32));
}

#[test]
fn solid_brick_in_empty_space_keeps_its_shell() {
    let blocks = blocks_with(filled(Voxel::Color(9, 9, 9)), Voxel::Empty);
    let (mask, colors) = cull_interior_voxels(&blocks);
    // 512 voxels minus the 6x6x6 interior.
    assert_eq!(colors.len(), 512 - 216);
    assert_eq!(mask_bits(&mask), 296);
}

#[test]
fn neighbour_face_decides_boundary_voxels() {
    let solid = Voxel::Color(4, 4, 4);
    let mut blocks = blocks_with(filled(solid), solid);
    // Empty the +x neighbour's x = 0 column at y = 0, z = 0.
    blocks.forward[voxel_index(0, 0, 0)] = Voxel::Empty;
    let (mask, colors) = cull_interior_voxels(&blocks);
    assert_eq!(colors.len(), 1);
    let idx = voxel_index(7, 0, 0);
    assert_eq!(mask[idx / 32], 1 << (idx % 32));
}

// ---- wire formats ----

#[test]
fn feedback_is_bounded_by_capacity_and_count() {
    let words = vec![4, 3, 0, 0, 1, 2, 3, 0, 4, 5, 6, 0, 7, 8, 9, 0];
    let requests = parse_feedback(&words, 4);
    assert_eq!(
        requests,
        vec![
            LocalPos { x: 1, y: 2, z: 3 },
            LocalPos { x: 4, y: 5, z: 6 },
            LocalPos { x: 7, y: 8, z: 9 }
        ]
    );
    assert_eq!(parse_feedback(&words, 1).len(), 1);
    assert_eq!(parse_feedback(&vec![4, 9, 0, 0, 1, 1, 1, 0], 8).len(), 1);
    assert!(parse_feedback(&vec![4, 1], 8).is_empty());
}

#[test]
fn grid_queue_layout() {
    let batch = vec![BrickgridUpload { index: 5, element: 44 }, BrickgridUpload { index: 2, element: 0 }];
    assert_eq!(encode_brickgrid_batch(&batch), vec![2, 0, 0, 5, 44, 2, 0]);
    assert_eq!(encode_brickgrid_batch(&vec![]), vec![0, 0, 0]);
}

#[test]
fn brick_queue_layout() {
    let mut c = BrickmapCache::new(2, 4);
    let mut mask = [0u32; 16];
    mask[3] = 0xAB;
    c.add_entry(7, 128, mask, vec![11, 12]);
    let batch = c.drain_upload_batch();
    let words = encode_brickmap_batch(&batch);
    assert_eq!(words.len(), 3 + 532);
    assert_eq!(&words[..3], &[1, 0, 0]);
    assert_eq!(words[3], 1);
    assert_eq!(words[4 + 3], 0xAB);
    assert_eq!(words[20], 128);
    assert_eq!(words[21], 0);
    assert_eq!(words[22], 2);
    assert_eq!(&words[23..25], &[11, 12]);
    assert!(words[25..].iter().all(|w| *w == 0));
}

#[test]
fn world_state_layout() {
    assert_eq!(world_state_words(Dims { x: 3, y: 4, z: 5 }), vec![3, 4, 5, 0]);
}

#[test]
fn neighbour_regions_cross_chunks() {
    let regions = neighbour_regions(LocalPos { x: 0, y: 7, z: 3 }, Dims { x: 8, y: 8, z: 8 });
    assert_eq!(regions.len(), 7);
    assert_eq!(regions[0], (GridPos { x: 0, y: 0, z: 0 }, LocalPos { x: 0, y: 7, z: 3 }));
    assert_eq!(regions[1], (GridPos { x: 0, y: 0, z: 0 }, LocalPos { x: 1, y: 7, z: 3 }));
    assert_eq!(regions[2], (GridPos { x: -1, y: 0, z: 0 }, LocalPos { x: 7, y: 7, z: 3 }));
    assert_eq!(regions[5], (GridPos { x: 0, y: 1, z: 0 }, LocalPos { x: 0, y: 0, z: 3 }));
}

// ---- manager ----

fn manager(cache_size: usize, bucket_size: u32) -> BrickmapManager {
    BrickmapManager::new(Dims { x: 4, y: 4, z: 4 }, cache_size, bucket_size, 16, 8)
}

fn isolated_voxel_blocks() -> NeighbourBlocks {
    let mut center = filled(Voxel::Empty);
    center[0] = Voxel::Color(1, 1, 1);
    blocks_with(center, Voxel::Empty)
}

fn assert_consistent(m: &BrickmapManager, cache_size: usize) {
    for i in 0..64usize {
        let e = m.brickgrid_element(i);
        if e.get_flag() == BrickgridFlag::Loaded {
            let entry = m.cache_entry(e.get_pointer()).unwrap();
            assert_eq!(entry.grid_idx, i);
        }
    }
    for s in 0..cache_size {
        if let Some(entry) = m.cache_entry(s) {
            let e = m.brickgrid_element(entry.grid_idx);
            assert_eq!(e.get_flag(), BrickgridFlag::Loaded);
            assert_eq!(e.get_pointer(), s);
        }
    }
}

#[test]
fn sphere_request_loads_one_brick() {
    let bucket = 2048u32;
    let mut m = manager(8, bucket);
    let blocks = blocks_with(sphere_brick(), Voxel::Empty);
    let (_, colors) = cull_interior_voxels(&blocks);
    assert!(!colors.is_empty());
    let count = colors.len() as u32;
    assert_eq!(m.handle_request(LocalPos { x: 0, y: 0, z: 0 }, &blocks), Ok(()));
    let e = m.brickgrid_element(0);
    assert_eq!(e.get_flag(), BrickgridFlag::Loaded);
    assert_eq!(m.num_loaded(), 1);
    let entry = m.cache_entry(e.get_pointer()).unwrap();
    assert_eq!(entry.grid_idx, 0);
    // The smallest slot size that fits the colours, at its bucket's offset.
    let level = [3u32, 2, 1, 0].into_iter().find(|l| (512 >> l) >= count).unwrap();
    assert_eq!(entry.shading_table_offset, level * bucket);
    let (grid, bricks) = m.drain_uploads();
    assert_eq!(grid, vec![BrickgridUpload { index: 0, element: e.0 }]);
    assert_eq!(bricks.len(), 1);
    assert_eq!(bricks[0].colors, colors);
    assert_consistent(&m, 8);
}

#[test]
fn empty_brick_marks_cell_empty() {
    let mut m = manager(4, 2048);
    let blocks = blocks_with(filled(Voxel::Empty), Voxel::Empty);
    assert_eq!(m.handle_request(LocalPos { x: 1, y: 0, z: 0 }, &blocks), Ok(()));
    assert_eq!(m.brickgrid_element(1).get_flag(), BrickgridFlag::Empty);
    assert_eq!(m.num_loaded(), 0);
}

#[test]
fn out_of_bounds_request_is_rejected() {
    let mut m = manager(4, 2048);
    let r = m.handle_request(LocalPos { x: 4, y: 0, z: 0 }, &isolated_voxel_blocks());
    assert_eq!(r, Err(RequestError::OutOfBounds));
    let (grid, bricks) = m.drain_uploads();
    assert!(grid.is_empty() && bricks.is_empty());
}

#[test]
fn full_shading_table_defers_request() {
    let mut m = manager(4, 0);
    let r = m.handle_request(LocalPos { x: 0, y: 0, z: 0 }, &isolated_voxel_blocks());
    assert_eq!(r, Err(RequestError::ShadingTableFull));
    assert_eq!(m.brickgrid_element(0).get_flag(), BrickgridFlag::Unloaded);
    assert_eq!(m.num_loaded(), 0);
}

#[test]
fn eviction_unloads_the_oldest_cell() {
    let mut m = manager(2, 2048);
    let blocks = isolated_voxel_blocks();
    for x in 0..3u32 {
        assert_eq!(m.handle_request(LocalPos { x, y: 0, z: 0 }, &blocks), Ok(()));
        assert_consistent(&m, 2);
    }
    assert_eq!(m.brickgrid_element(0).get_flag(), BrickgridFlag::Unloaded);
    assert_eq!(m.brickgrid_element(1).get_flag(), BrickgridFlag::Loaded);
    assert_eq!(m.brickgrid_element(2).get_flag(), BrickgridFlag::Loaded);
    assert_eq!(m.num_loaded(), 2);
}

#[test]
fn refresh_and_clear_release_old_state() {
    let mut m = manager(3, 2048);
    let pos = LocalPos { x: 2, y: 1, z: 0 };
    let idx = 2 + 4;
    let blocks = isolated_voxel_blocks();
    for _ in 0..5 {
        assert_eq!(m.handle_request(pos, &blocks), Ok(()));
        assert_eq!(m.num_loaded(), 1);
        assert_consistent(&m, 3);
    }
    assert_eq!(m.brickgrid_element(idx).get_flag(), BrickgridFlag::Loaded);
    let empty = blocks_with(filled(Voxel::Empty), Voxel::Empty);
    assert_eq!(m.handle_request(pos, &empty), Ok(()));
    assert_eq!(m.brickgrid_element(idx).get_flag(), BrickgridFlag::Empty);
    assert_eq!(m.num_loaded(), 0);
    assert_consistent(&m, 3);
}

#[test]
fn manager_wire_views() {
    let m = manager(2, 64);
    assert_eq!(m.world_state(), vec![4, 4, 4, 0]);
    assert_eq!(m.brickgrid_words(), vec![1; 64]);
    assert_eq!(m.get_unpack_max_count(), 8);
    let words = vec![16, 2, 0, 0, 1, 2, 3, 0, 3, 2, 1, 0];
    assert_eq!(
        m.requests_from_feedback(&words),
        vec![LocalPos { x: 1, y: 2, z: 3 }, LocalPos { x: 3, y: 2, z: 1 }]
    );
}
