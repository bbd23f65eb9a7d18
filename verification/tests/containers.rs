use msbg::blockmap::{BlockMap, BlockSet};
use msbg::blockpool::{Block, BlockPool};
use msbg::channel::{
    CellFlags, ChannelId, ChannelRef, ChannelRefMut, ChannelTable, Density, Pressure, Scalar,
};
use msbg::sparse_grid::SparseGrid;

const BSX: usize = 16;
const N: usize = 4096;

#[test]
fn test_bm_01_insert_get_overwrite() {
    let mut m = BlockMap::new();
    assert!(m.get(7).is_none());
    m.insert(7, 100u64);
    assert_eq!(m.get(7), Some(100));
    m.insert(7, 200);
    assert_eq!(m.get(7), Some(200));
    assert_eq!(m.len(), 1);
}

#[test]
fn test_bm_02_growth_rehash_preserves_all() {
    let mut m = BlockMap::new();
    for i in 0..10_000usize {
        m.insert(i, (i * 3) as u64);
    }
    assert_eq!(m.len(), 10_000);
    for i in 0..10_000usize {
        assert_eq!(m.get(i), Some((i * 3) as u64));
    }
}

#[test]
fn test_bm_03_collision_cluster_consecutive() {
    let mut m = BlockMap::new();
    for i in 0..1000usize {
        m.insert(i, i as u64);
    }
    for i in 0..1000usize {
        assert_eq!(m.get(i), Some(i as u64));
    }
}

#[test]
fn test_bm_04_delete_reinsert_same_key() {
    let mut m = BlockMap::new();
    m.insert(42, 1u64);
    assert_eq!(m.remove(42), Some(1));
    assert!(m.get(42).is_none());
    m.insert(42, 2);
    assert_eq!(m.get(42), Some(2));
}

// Two keys that share a slot: with the first one gone, the second is still found.
#[test]
fn test_bm_05_probe_chain_across_tombstone() {
    let mut m = BlockMap::with_capacity(4);
    let base = 0usize;
    let mut colliding = None;
    let s0 = m.slot(base);
    for k in 1..1000usize {
        if m.slot(k) == s0 && k != base {
            colliding = Some(k);
            break;
        }
    }
    let k2 = colliding.expect("expected a colliding key at capacity 4");
    m.insert(base, 1u64);
    m.insert(k2, 2u64);
    assert_eq!(m.remove(base), Some(1));
    assert_eq!(m.get(k2), Some(2));
}

#[test]
fn test_bm_06_load_factor_rehash_with_tombstones() {
    let mut m = BlockMap::with_capacity(8);
    for i in 0..6usize {
        m.insert(i, i as u64);
    }
    m.remove(0);
    m.remove(1);
    m.insert(6, 6);
    m.insert(7, 7);
    m.insert(8, 8);
    for i in 2..9usize {
        assert_eq!(m.get(i), Some(i as u64), "key {i} lost");
    }
    assert!(m.get(0).is_none());
    assert!(m.get(1).is_none());
}

#[test]
fn test_bm_07_empty_map_get_none() {
    let m: BlockMap<u64> = BlockMap::new();
    assert!(m.get(0).is_none());
    assert!(m.get(usize::MAX - 2).is_none());
    assert!(m.iter().is_empty());
    assert!(m.is_empty());
}

#[test]
fn test_bm_08_u64_scale_keys() {
    let mut m = BlockMap::new();
    for k in [0usize, u32::MAX as usize - 1, u32::MAX as usize, u32::MAX as usize + 1, 0x1_0000_0000] {
        m.insert(k, k as u64);
    }
    for k in [0usize, u32::MAX as usize - 1, u32::MAX as usize, u32::MAX as usize + 1, 0x1_0000_0000] {
        assert_eq!(m.get(k), Some(k as u64));
    }
}

#[test]
fn test_bm_09_single_slot() {
    let mut m = BlockMap::with_capacity(1);
    m.insert(5, 9u64);
    assert_eq!(m.get(5), Some(9));
    assert!(m.get(6).is_none());
}

#[test]
fn test_bm_10_iter_yields_all() {
    let mut m = BlockMap::new();
    for i in 0..100usize {
        m.insert(i * 7, i as u64);
    }
    let mut seen: Vec<(usize, u64)> = m.iter();
    seen.sort_unstable();
    assert_eq!(seen, (0..100usize).map(|i| (i * 7, i as u64)).collect::<Vec<_>>());
}

#[test]
fn test_bm_11_update_increment_and_insert() {
    let mut m = BlockMap::new();
    assert_eq!(m.update(7, 1u32, |v| v + 1), 1);
    assert_eq!(m.update(7, 1, |v| v + 1), 2);
    assert_eq!(m.update(7, 100, |v| v + 1), 3);
    assert_eq!(m.get(7), Some(3));
    assert_eq!(m.len(), 1);
}

#[test]
fn test_bm_12_blockset_membership() {
    let mut s: BlockSet = BlockSet::new();
    assert!(s.get(5).is_none());
    s.insert(5, ());
    s.insert(5, ());
    assert!(s.get(5).is_some());
    assert_eq!(s.len(), 1);
    s.remove(5);
    assert!(s.get(5).is_none());
}

#[test]
fn test_bm_13_sorted_pairs_order() {
    let mut m = BlockMap::new();
    for k in [40usize, 0, 20, u32::MAX as usize, 10] {
        m.insert(k, k as u64);
    }
    let p = m.sorted_pairs();
    let keys: Vec<usize> = p.iter().map(|&(k, _)| k).collect();
    assert!(keys.windows(2).all(|w| w[0] < w[1]));
    assert_eq!(keys.len(), 5);
    assert_eq!(keys, vec![0, 10, 20, 40, u32::MAX as usize]);
}

// A key that sits behind a deleted one in its chain is overwritten in place, not stored twice.
#[test]
fn insert_past_a_deleted_slot_overwrites() {
    let mut m = BlockMap::with_capacity(8);
    let s0 = m.slot(0);
    let k2 = (1..1000usize).find(|&k| m.slot(k) == s0).unwrap();
    m.insert(0, 1u64);
    m.insert(k2, 2);
    m.remove(0);
    m.insert(k2, 3);
    assert_eq!(m.len(), 1);
    assert_eq!(m.get(k2), Some(3));
    assert_eq!(m.remove(k2), Some(3));
    assert!(m.get(k2).is_none());
    assert!(m.is_empty());
}

#[test]
fn capacity_is_the_next_power_of_two() {
    assert_eq!(BlockMap::<u8>::new().capacity(), 4);
    assert_eq!(BlockMap::<u8>::with_capacity(1).capacity(), 4);
    assert_eq!(BlockMap::<u8>::with_capacity(5).capacity(), 8);
    assert_eq!(BlockMap::<u8>::with_capacity(64).capacity(), 64);
    assert_eq!(BlockMap::<u8>::default().capacity(), 4);
}

// Keys below the capacity start at slots that are all different.
// Over a run of inserts, removals and updates.
#[test]
fn capacity_never_falls_and_fits_the_entries() {
    for start in [0, 4, 5, 32] {
        let mut m: BlockMap<u32> =
            if start == 0 { BlockMap::new() } else { BlockMap::with_capacity(start) };
        let mut last = m.capacity();
        for i in 0..400usize {
            match i % 5 {
                0 | 1 => m.insert(i, 1),
                2 => {
                    m.update(i, 2, |v| v + 1);
                }
                3 => {
                    m.update(i - 1, 9, |v| v + 1);
                }
                _ => {
                    m.remove(i - 4);
                }
            }
            let cap = m.capacity();
            assert!(cap.is_power_of_two() && 4 <= cap && last <= cap);
            assert!(4 * m.len() <= 3 * cap);
            last = cap;
        }
        assert_eq!(m.len(), 160);
    }
}

#[test]
fn update_touches_one_key() {
    let mut m: BlockMap<u32> = BlockMap::new();
    m.insert(1, 10);
    m.insert(2, 20);
    assert_eq!(m.update(1, 7, |v| v + 5), 15);
    assert_eq!(m.len(), 2);
    assert_eq!(m.update(3, 7, |_| unreachable!()), 7);
    assert_eq!(m.len(), 3);
    assert_eq!(m.sorted_pairs(), vec![(1, 15), (2, 20), (3, 7)]);
    let cap = m.capacity();
    assert_eq!(m.update(3, 0, |v| v + 1), 8);
    assert_eq!(m.capacity(), cap);
}

#[test]
fn home_slots_of_small_keys_are_distinct() {
    let m: BlockMap<u8> = BlockMap::with_capacity(64);
    let mut slots: Vec<usize> = (0..64usize).map(|k| m.slot(k)).collect();
    slots.sort_unstable();
    assert_eq!(slots, (0..64usize).collect::<Vec<_>>());
}

#[test]
fn test_blk_01_construction() {
    let block: Block<f32, 16, 4096> = Block::new();
    assert_eq!(block.flags, 0);
    for voxel in block.data.iter() {
        assert_eq!(*voxel, 0.0f32);
    }
}

#[test]
fn test_blk_04_memory_alignment() {
    let block: Block<f32, 16, 4096> = Block::new();
    let ptr = std::ptr::from_ref(&block).addr();
    assert_eq!(ptr % 64, 0, "Block memory address must be 64-byte aligned");
}

#[test]
fn test_blk_05_memory_layout_size() {
    let expected_size = 4096 * std::mem::size_of::<f32>() + 64;
    assert_eq!(std::mem::size_of::<Block<f32, 16, 4096>>(), expected_size);
}

#[test]
fn test_blk_06_to_08_indexing_math() {
    let mut block: Block<f32, 16, 4096> = Block::new();
    for z in 0..16 {
        for y in 0..16 {
            for x in 0..16 {
                let idx = x + y * 16 + z * 256;
                block.data[idx] = idx as f32;
            }
        }
    }
    assert_eq!(block.get_voxel(0, 0, 0), 0.0);
    assert_eq!(block.get_voxel(15, 15, 15), 4095.0);
    let (x, y, z) = (4, 7, 11);
    let expected_idx = x + y * 16 + z * 256;
    assert_eq!(block.get_voxel(x, y, z), expected_idx as f32);
}

#[test]
fn test_pol_01_initialization() {
    let mut pool: BlockPool<f32, 16, 4096> = BlockPool::new(16, 64);
    let _ptr = pool.alloc_block();
}

#[test]
fn test_pol_04_single_allocation_alignment() {
    let mut pool: BlockPool<f32, 16, 4096> = BlockPool::new(4, 16);
    let block_ptr = pool.alloc_block();
    let addr = std::ptr::from_ref(pool.block(block_ptr)).addr();
    assert_ne!(addr, 0, "Allocated pointer must not be null");
    assert_eq!(addr % 64, 0, "Allocated block must be 64-byte aligned");
}

#[test]
fn test_pol_05_monotonic_segment_boundary_crossing() {
    let mut pool: BlockPool<f32, 16, 4096> = BlockPool::new(2, 4);
    let mut pointers = Vec::new();
    for _ in 0..8 {
        pointers.push(pool.alloc_block());
    }
    for i in 0..pointers.len() {
        for j in (i + 1)..pointers.len() {
            assert_ne!(
                pointers[i].as_ptr(),
                pointers[j].as_ptr(),
                "Pool handed out duplicate block pointers"
            );
            assert_ne!(
                std::ptr::from_ref(pool.block(pointers[i])).addr(),
                std::ptr::from_ref(pool.block(pointers[j])).addr()
            );
        }
    }
}

#[test]
fn test_pol_07_allocation_reset() {
    let mut pool: BlockPool<f32, 16, 4096> = BlockPool::new(2, 4);
    let first_pass_ptr = pool.alloc_block();
    let first_addr = std::ptr::from_ref(pool.block(first_pass_ptr)).addr();
    let _ = pool.alloc_block();
    pool.reset();
    let second_pass_ptr = pool.alloc_block();
    assert_eq!(
        first_pass_ptr.as_ptr(),
        second_pass_ptr.as_ptr(),
        "Reset failed to reuse segment 0 from beginning"
    );
    assert_eq!(first_addr, std::ptr::from_ref(pool.block(second_pass_ptr)).addr());
}

#[test]
fn test_pol_08_segment_memory_contiguity() {
    let mut pool: BlockPool<f32, 16, 4096> = BlockPool::new(1, 4);
    let p0 = pool.alloc_block();
    let p1 = pool.alloc_block();
    let b0 = std::ptr::from_ref(pool.block(p0)).addr();
    let b1 = std::ptr::from_ref(pool.block(p1)).addr();
    let expected_delta = std::mem::size_of::<Block<f32, 16, 4096>>();
    assert_eq!(b1 - b0, expected_delta, "Adjacent blocks in segment must be contiguous");
}

#[test]
fn pool_counts_what_is_left() {
    let mut pool: BlockPool<u8, 2, 8> = BlockPool::new(3, 2);
    assert_eq!(pool.remaining(), 6);
    for left in (0..6usize).rev() {
        pool.alloc_block();
        assert_eq!(pool.remaining(), left);
    }
    pool.reset();
    assert_eq!(pool.remaining(), 6);
}

// A block keeps its contents over a reset: the memory is handed out again as it is.
#[test]
fn pool_serves_each_slot_once() {
    let mut pool = BlockPool::<u8, 1, 1>::new(3, 4);
    for _ in 0..2 {
        let slots: Vec<usize> = (0..12).map(|_| pool.alloc_block().as_ptr()).collect();
        assert_eq!(slots, (0..12).collect::<Vec<usize>>());
        assert_eq!(pool.remaining(), 0);
        pool.reset();
    }
}

#[test]
fn reset_keeps_contents() {
    let mut pool: BlockPool<u8, 2, 8> = BlockPool::new(1, 2);
    let p = pool.alloc_block();
    pool.block_mut(p).data[3] = 9;
    pool.reset();
    let q = pool.alloc_block();
    assert_eq!(p, q);
    assert_eq!(pool.block(q).data[3], 9);
}

fn grid<D: Copy + Default + Send + Sync>(name: &str, empty: D, full: D) -> SparseGrid<D, BSX, N> {
    let pool = BlockPool::<D, BSX, N>::new(16, 16);
    SparseGrid::new(name.to_string(), 32, 32, 32, empty, full, pool)
}

fn pressure(v: f32) -> Pressure {
    Pressure(Scalar(v.to_bits()))
}

#[test]
fn test_table_01_empty() {
    let t = ChannelTable::<BSX, N>::new();
    assert!(t.is_empty());
    assert_eq!(t.len(), 0);
    assert!(!t.contains(ChannelId::Density));
    assert!(t.get_density().is_none());
}

#[test]
fn test_table_02_set_remove() {
    let mut t = ChannelTable::<BSX, N>::new();
    t.set_density(grid("d", Density(0), Density(u16::MAX)));
    assert!(t.contains(ChannelId::Density));
    assert_eq!(t.len(), 1);
    assert!(t.get_pressure().is_none());
    t.remove(ChannelId::Density);
    assert!(t.is_empty());
}

#[test]
fn test_table_03_for_each_visits_set() {
    let mut t = ChannelTable::<BSX, N>::new();
    t.set_density(grid("d", Density(0), Density(u16::MAX)));
    t.set_cell_flags(grid("cf", CellFlags(0), CellFlags(1)));

    let d = t.get_density().unwrap();
    let mut seen = Vec::new();
    t.for_each(|c| {
        if c.id() == ChannelId::Density {
            assert_eq!(c.id(), ChannelId::Density);
            assert!(matches!(c, ChannelRef::Density(_)));
            assert!(std::ptr::eq(
                match c {
                    ChannelRef::Density(g) => g,
                    _ => unreachable!(),
                },
                d,
            ));
        }
        seen.push(c.id());
    });
    seen.sort_by_key(|id| id.name());
    assert_eq!(seen, vec![ChannelId::CellFlags, ChannelId::Density]);
}

#[test]
fn test_table_04_get_mut_mutates() {
    let mut t = ChannelTable::<BSX, N>::new();
    t.set_pressure(grid("p", pressure(0.0), pressure(1.0)));
    t.get_pressure_mut().unwrap().set_voxel(3, 3, 3, pressure(7.0));
    assert_eq!(t.get_pressure().unwrap().get_voxel(3, 3, 3), pressure(7.0));
}

#[test]
fn table_hands_every_channel_out_to_be_changed() {
    let mut t = ChannelTable::<BSX, N>::new();
    t.set_velocity(grid("v", Default::default(), Default::default()));
    t.set_cell_flags(grid("cf", CellFlags(0), CellFlags(1)));
    t.set_density(grid("d", Density(0), Density(9)));
    let mut seen = Vec::new();
    t.for_each_mut(|c| {
        seen.push(c.id());
        match c {
            ChannelRefMut::CellFlags(g) => g.set_voxel(1, 2, 3, CellFlags(5)),
            ChannelRefMut::Density(g) => g.set_voxel(1, 2, 3, Density(6)),
            _ => {}
        }
    });
    assert_eq!(seen, vec![ChannelId::Density, ChannelId::Velocity, ChannelId::CellFlags]);
    assert_eq!(t.get_cell_flags().unwrap().get_voxel(1, 2, 3), CellFlags(5));
    assert_eq!(t.get_density().unwrap().get_voxel(1, 2, 3), Density(6));
    t.get_density_mut().unwrap().set_voxel(0, 0, 0, Density(7));
    t.get_cell_flags_mut().unwrap().set_voxel(0, 0, 0, CellFlags(8));
    assert!(t.get_velocity_mut().is_some());
    assert!(t.get_velocity().is_some());
    for c in t.iter_mut() {
        if let ChannelRefMut::Density(g) = c {
            assert_eq!(g.get_voxel(0, 0, 0), Density(7));
            g.set_voxel(0, 0, 0, Density(3));
        }
    }
    assert_eq!(t.get_density().unwrap().get_voxel(0, 0, 0), Density(3));
    assert_eq!(t.get_cell_flags().unwrap().get_voxel(0, 0, 0), CellFlags(8));
}

#[test]
fn table_lists_and_clears_channels() {
    let mut t = ChannelTable::<BSX, N>::new();
    t.set_pressure(grid("p", pressure(0.0), pressure(1.0)));
    t.set_density(grid("d", Density(0), Density(1)));
    let ids: Vec<ChannelId> = t.iter().iter().map(|c| c.id()).collect();
    assert_eq!(ids.len(), 2);
    assert!(ids.contains(&ChannelId::Pressure) && ids.contains(&ChannelId::Density));
    assert!(t.get(ChannelId::Velocity).is_none());
    assert!(t.get_mut(ChannelId::Pressure).is_some());
    t.clear();
    assert!(t.is_empty());
    assert_eq!(ChannelId::CellFlags.name(), "CellFlags");
}
